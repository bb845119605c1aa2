//! Reading a book from its markdown events.
//!
//! The reader is a state machine over the events: headings of level 1 name the
//! book, headings of level 2 open chapters, and paragraphs that start with a
//! verse reference (`3:16 ...`) add verses; other paragraphs continue the last
//! verse.
use vstd::prelude::*;
use crate::book::{
    Book, BookModel, Chapter, ChapterModel, Verse, VerseModel, verse_models,
};
use crate::markdown::{MdEvent, markdown_events, read_markdown_events};
use crate::text::{trim, chars_of, trim_range, string_of_range, push_range};
use crate::titles::{book_title, chapter_title, parse_book_title, parse_chapter_title};
use crate::verse::{verse_start, verse_start_in};

verus! {

/// The state of the reader between two events.
pub struct ScanState {
    /// The book, once a level-1 heading has named it.
    pub book: Option<BookModel>,
    /// The chapter that verses are added to, not yet in the book.
    pub current: Option<ChapterModel>,
    pub in_heading: bool,
    pub heading_level: u8,
    pub heading_text: Seq<char>,
    pub in_paragraph: bool,
    pub paragraph_text: Seq<char>,
    /// Whether the paragraph text ends inside an inline code span.
    pub in_code: bool,
}

pub open spec fn initial_scan_state() -> ScanState {
    ScanState {
        book: None,
        current: None,
        in_heading: false,
        heading_level: 0,
        heading_text: Seq::empty(),
        in_paragraph: false,
        paragraph_text: Seq::empty(),
        in_code: false,
    }
}

/// One verse for each verse number, all with the same chapter number and text.
pub open spec fn verses_for(chapter: u32, nums: Seq<u32>, text: Seq<char>) -> Seq<VerseModel> {
    nums.map_values(|n: u32| VerseModel { chapter_num: chapter, verse_num: n, text: text })
}

/// The state after a level-1 heading `ht`: a book heading starts the book anew
/// (with no chapters); any other leaves the state as it is.
pub open spec fn after_book_heading(filename: Seq<char>, st: ScanState, ht: Seq<char>) -> ScanState {
    match book_title(ht) {
        Some((n, cn, en)) => ScanState {
            book: Some(
                BookModel {
                    filename: filename,
                    number: n,
                    title_cn: cn,
                    title_en: en,
                    chapters: Seq::empty(),
                },
            ),
            ..st
        },
        None => st,
    }
}

/// The state after a level-2 heading `ht`: once there is a book, the current
/// chapter joins it and a new chapter starts, numbered and titled by the heading,
/// or else numbered after the chapters so far (their count plus one, taken modulo
/// 2^32 as `u32` arithmetic wraps) and titled by the whole heading.
pub open spec fn after_chapter_heading(st: ScanState, ht: Seq<char>) -> ScanState {
    match st.book {
        Some(b) => {
            let chapters = match st.current {
                Some(c) => b.chapters.push(c),
                None => b.chapters,
            };
            let (num, title) = match chapter_title(ht) {
                Some(p) => p,
                None => ((chapters.len() + 1) as u32, ht),
            };
            ScanState {
                book: Some(BookModel { chapters: chapters, ..b }),
                current: Some(ChapterModel { number: num, title: title, verses: Seq::empty() }),
                ..st
            }
        },
        None => st,
    }
}

/// The state after a paragraph whose trimmed text `text` is not empty: a verse
/// reference adds one verse per verse number to the current chapter, or starts
/// an untitled chapter when there is a book but no chapter yet; text without a
/// reference continues the last verse of the current chapter, after a space.
pub open spec fn after_paragraph(st: ScanState, text: Seq<char>) -> ScanState {
    match st.current {
        Some(ch) => match verse_start(text) {
            Some((cn, nums, off)) => ScanState {
                current: Some(
                    ChapterModel {
                        verses: ch.verses + verses_for(
                            cn,
                            nums,
                            text.subrange(off, text.len() as int),
                        ),
                        ..ch
                    },
                ),
                ..st
            },
            None => if ch.verses.len() > 0 {
                let last = ch.verses.last();
                ScanState {
                    current: Some(
                        ChapterModel {
                            verses: ch.verses.update(
                                ch.verses.len() - 1,
                                VerseModel { text: last.text.push(' ') + text, ..last },
                            ),
                            ..ch
                        },
                    ),
                    ..st
                }
            } else {
                st
            },
        },
        None => if st.book is Some {
            match verse_start(text) {
                Some((cn, nums, off)) => ScanState {
                    current: Some(
                        ChapterModel {
                            number: cn,
                            title: Seq::empty(),
                            verses: verses_for(cn, nums, text.subrange(off, text.len() as int)),
                        },
                    ),
                    ..st
                },
                None => st,
            }
        } else {
            st
        },
    }
}

/// The state at the end of a paragraph: its trimmed text, if not empty, is read.
pub open spec fn paragraph_end(st: ScanState) -> ScanState {
    let st1 = ScanState { in_paragraph: false, ..st };
    let text = trim(st.paragraph_text);
    if text.len() == 0 {
        st1
    } else {
        after_paragraph(st1, text)
    }
}

/// The state after one event. A code block is read like a paragraph, inline
/// HTML like block HTML, and a hard line break like a soft one (a line feed).
pub open spec fn scan_step(filename: Seq<char>, st: ScanState, ev: MdEvent) -> ScanState {
    match ev {
        MdEvent::HeadingStart(level) => ScanState {
            in_heading: true,
            heading_level: level,
            heading_text: Seq::empty(),
            ..st
        },
        MdEvent::HeadingEnd => {
            let st1 = ScanState { in_heading: false, ..st };
            let ht = trim(st.heading_text);
            if st.heading_level == 1 {
                after_book_heading(filename, st1, ht)
            } else if st.heading_level == 2 {
                after_chapter_heading(st1, ht)
            } else {
                st1
            }
        },
        MdEvent::ParagraphStart | MdEvent::CodeBlockStart => if !st.in_heading {
            ScanState { in_paragraph: true, paragraph_text: Seq::empty(), ..st }
        } else {
            st
        },
        MdEvent::ParagraphEnd | MdEvent::CodeBlockEnd => if !st.in_heading && st.in_paragraph {
            paragraph_end(st)
        } else {
            st
        },
        MdEvent::Text(t) => if st.in_heading {
            ScanState { heading_text: st.heading_text + t@, ..st }
        } else if st.in_paragraph {
            if st.in_code {
                ScanState {
                    paragraph_text: st.paragraph_text.push('`') + t@,
                    in_code: false,
                    ..st
                }
            } else {
                ScanState { paragraph_text: st.paragraph_text + t@, ..st }
            }
        } else {
            st
        },
        MdEvent::Code(t) => if st.in_heading {
            ScanState { heading_text: st.heading_text + t@, ..st }
        } else if st.in_paragraph {
            if !st.in_code {
                ScanState {
                    paragraph_text: st.paragraph_text.push('`') + t@,
                    in_code: true,
                    ..st
                }
            } else {
                ScanState { paragraph_text: st.paragraph_text + t@, ..st }
            }
        } else {
            st
        },
        MdEvent::Html(t) | MdEvent::InlineHtml(t) => if st.in_paragraph {
            ScanState { paragraph_text: st.paragraph_text + t@, ..st }
        } else {
            st
        },
        MdEvent::SoftBreak | MdEvent::HardBreak => if st.in_paragraph {
            ScanState { paragraph_text: st.paragraph_text.push('\n'), ..st }
        } else {
            st
        },
        MdEvent::Other => st,
    }
}

/// The state after a sequence of events, from the initial state.
pub open spec fn scan_events(filename: Seq<char>, evs: Seq<MdEvent>) -> ScanState
    decreases evs.len(),
{
    if evs.len() == 0 {
        initial_scan_state()
    } else {
        scan_step(filename, scan_events(filename, evs.drop_last()), evs.last())
    }
}

/// The book at the end: the current chapter joins it.
pub open spec fn scan_result(st: ScanState) -> Option<BookModel> {
    match (st.book, st.current) {
        (Some(b), Some(c)) => Some(BookModel { chapters: b.chapters.push(c), ..b }),
        _ => st.book,
    }
}

/// The book that the events `evs` of the file named `filename` describe.
pub open spec fn book_from(filename: Seq<char>, evs: Seq<MdEvent>) -> Option<BookModel> {
    scan_result(scan_events(filename, evs))
}

pub open spec fn book_model_of(b: Option<Book>) -> Option<BookModel> {
    match b {
        Some(b) => Some(b@),
        None => None,
    }
}

pub open spec fn chapter_model_of(c: Option<Chapter>) -> Option<ChapterModel> {
    match c {
        Some(c) => Some(c@),
        None => None,
    }
}

struct Scanner {
    book: Option<Book>,
    current: Option<Chapter>,
    in_heading: bool,
    heading_level: u8,
    heading_text: String,
    in_paragraph: bool,
    paragraph_text: String,
    in_code: bool,
}

impl View for Scanner {
    type V = ScanState;

    closed spec fn view(&self) -> ScanState {
        ScanState {
            book: book_model_of(self.book),
            current: chapter_model_of(self.current),
            in_heading: self.in_heading,
            heading_level: self.heading_level,
            heading_text: self.heading_text@,
            in_paragraph: self.in_paragraph,
            paragraph_text: self.paragraph_text@,
            in_code: self.in_code,
        }
    }
}

/// Adds one verse per verse number, all with the text `text`.
fn push_verses(verses: &mut Vec<Verse>, chapter: u32, nums: &Vec<u32>, text: &String)
    ensures
        verse_models(final(verses)@) == verse_models(old(verses)@) + verses_for(
            chapter,
            nums@,
            text@,
        ),
{
    let mut k: usize = 0;
    while k < nums.len()
        invariant
            0 <= k <= nums@.len(),
            verse_models(verses@) == verse_models(old(verses)@) + verses_for(
                chapter,
                nums@.take(k as int),
                text@,
            ),
        decreases nums@.len() - k,
    {
        let ghost before = verses@;
        verses.push(Verse { chapter_num: chapter, verse_num: nums[k], text: text.clone() });
        proof {
            assert(verse_models(verses@) =~= verse_models(before).push(
                VerseModel { chapter_num: chapter, verse_num: nums@[k as int], text: text@ },
            ));
            assert(verses_for(chapter, nums@.take(k + 1), text@) =~= verses_for(
                chapter,
                nums@.take(k as int),
                text@,
            ).push(VerseModel { chapter_num: chapter, verse_num: nums@[k as int], text: text@ }));
        }
        k = k + 1;
    }
    assert(nums@.take(nums@.len() as int) =~= nums@);
}

/// A copy of the text of `s` trimmed of white space at both ends.
fn trimmed(s: &String) -> (r: String)
    ensures
        r@ == trim(s@),
{
    let cs = chars_of(s.as_str());
    let (a, b) = trim_range(&cs, 0, cs.len());
    assert(cs@.subrange(0, cs@.len() as int) =~= s@);
    string_of_range(&cs, a, b)
}

impl Scanner {
    fn new() -> (sc: Scanner)
        ensures
            sc@ == initial_scan_state(),
    {
        let sc = Scanner {
            book: None,
            current: None,
            in_heading: false,
            heading_level: 0,
            heading_text: String::new(),
            in_paragraph: false,
            paragraph_text: String::new(),
            in_code: false,
        };
        assert(sc@ =~= initial_scan_state());
        sc
    }

    fn end_heading(&mut self, filename: &str)
        ensures
            final(self)@ == scan_step(filename@, old(self)@, MdEvent::HeadingEnd),
    {
        self.in_heading = false;
        let ht = trimmed(&self.heading_text);
        if self.heading_level == 1 {
            match parse_book_title(ht.as_str()) {
                Some((n, cn, en)) => {
                    let mut f = String::new();
                    f.append(filename);
                    let b = Book {
                        filename: f,
                        number: n,
                        title_cn: cn,
                        title_en: en,
                        chapters: Vec::new(),
                    };
                    assert(b@.chapters =~= Seq::<ChapterModel>::empty());
                    assert(b@.filename =~= filename@);
                    self.book = Some(b);
                },
                None => {},
            }
        } else if self.heading_level == 2 {
            match self.book.take() {
                Some(mut b) => {
                    let ghost chapters0 = b@.chapters;
                    match self.current.take() {
                        Some(c) => {
                            b.chapters.push(c);
                            assert(b@.chapters =~= chapters0.push(c@));
                        },
                        None => {},
                    }
                    let (num, title) = match parse_chapter_title(ht.as_str()) {
                        Some(p) => p,
                        None => {
                            let len = b.chapters.len();
                            let count = #[verifier::truncate] (len as u32);
                            let fallback = count.wrapping_add(1);
                            assert(fallback == (if count == 0xffff_ffffu32 {
                                0u32
                            } else {
                                (count + 1) as u32
                            }));
                            assert(fallback == (len + 1) as u32) by (bit_vector)
                                requires
                                    count == len as u32,
                                    fallback == (if count == 0xffff_ffffu32 {
                                        0u32
                                    } else {
                                        (count + 1) as u32
                                    }),
                            ;
                            (fallback, ht)
                        },
                    };
                    self.book = Some(b);
                    let c = Chapter { number: num, title: title, verses: Vec::new() };
                    assert(c@.verses =~= Seq::<VerseModel>::empty());
                    self.current = Some(c);
                },
                None => {},
            }
        }
    }

    fn end_paragraph(&mut self)
        requires
            !old(self).in_heading,
            old(self).in_paragraph,
        ensures
            final(self)@ == paragraph_end(old(self)@),
    {
        self.in_paragraph = false;
        let ps = chars_of(self.paragraph_text.as_str());
        let (a, b) = trim_range(&ps, 0, ps.len());
        assert(ps@.subrange(0, ps@.len() as int) =~= self.paragraph_text@);
        let ghost text = ps@.subrange(a as int, b as int);
        if a == b {
            return;
        }
        match self.current.take() {
            Some(mut ch) => {
                let ghost verses0 = verse_models(ch.verses@);
                match verse_start_in(&ps, a, b) {
                    Some((cn, nums, off)) => {
                        let vt = string_of_range(&ps, a + off, b);
                        assert(vt@ =~= text.subrange(off as int, text.len() as int));
                        push_verses(&mut ch.verses, cn, &nums, &vt);
                    },
                    None => {
                        if ch.verses.len() > 0 {
                            let mut last = ch.verses.pop().unwrap();
                            let ghost last0 = last@;
                            last.text.push(' ');
                            push_range(&mut last.text, &ps, a, b);
                            ch.verses.push(last);
                            assert(verse_models(ch.verses@) =~= verses0.update(
                                verses0.len() - 1,
                                VerseModel { text: last0.text.push(' ') + text, ..last0 },
                            ));
                        }
                    },
                }
                self.current = Some(ch);
            },
            None => {
                if self.book.is_some() {
                    match verse_start_in(&ps, a, b) {
                        Some((cn, nums, off)) => {
                            let vt = string_of_range(&ps, a + off, b);
                            assert(vt@ =~= text.subrange(off as int, text.len() as int));
                            let mut verses: Vec<Verse> = Vec::new();
                            assert(verse_models(verses@) =~= Seq::<VerseModel>::empty());
                            push_verses(&mut verses, cn, &nums, &vt);
                            assert(verse_models(verses@) =~= verses_for(cn, nums@, vt@));
                            let c = Chapter { number: cn, title: String::new(), verses: verses };
                            assert(c@.title =~= Seq::<char>::empty());
                            self.current = Some(c);
                        },
                        None => {},
                    }
                }
            },
        }
    }

    /// Takes one event.
    fn step(&mut self, filename: &str, ev: &MdEvent)
        ensures
            final(self)@ == scan_step(filename@, old(self)@, *ev),
    {
        match ev {
            MdEvent::HeadingStart(level) => {
                self.in_heading = true;
                self.heading_level = *level;
                self.heading_text = String::new();
            },
            MdEvent::HeadingEnd => {
                self.end_heading(filename);
            },
            MdEvent::ParagraphStart | MdEvent::CodeBlockStart => {
                if !self.in_heading {
                    self.in_paragraph = true;
                    self.paragraph_text = String::new();
                }
            },
            MdEvent::ParagraphEnd | MdEvent::CodeBlockEnd => {
                if !self.in_heading && self.in_paragraph {
                    self.end_paragraph();
                }
            },
            MdEvent::Text(t) => {
                if self.in_heading {
                    self.heading_text.append(t.as_str());
                } else if self.in_paragraph {
                    if self.in_code {
                        self.paragraph_text.push('`');
                        self.in_code = false;
                    }
                    self.paragraph_text.append(t.as_str());
                }
            },
            MdEvent::Code(t) => {
                if self.in_heading {
                    self.heading_text.append(t.as_str());
                } else if self.in_paragraph {
                    if !self.in_code {
                        self.paragraph_text.push('`');
                        self.in_code = true;
                    }
                    self.paragraph_text.append(t.as_str());
                }
            },
            MdEvent::Html(t) | MdEvent::InlineHtml(t) => {
                if self.in_paragraph {
                    self.paragraph_text.append(t.as_str());
                }
            },
            MdEvent::SoftBreak | MdEvent::HardBreak => {
                if self.in_paragraph {
                    self.paragraph_text.push('\n');
                }
            },
            MdEvent::Other => {},
        }
    }

    /// The book at the end, with the current chapter in it.
    fn finish(self) -> (r: Option<Book>)
        ensures
            book_model_of(r) == scan_result(self@),
    {
        match (self.book, self.current) {
            (Some(mut b), Some(c)) => {
                let ghost chapters0 = b@.chapters;
                b.chapters.push(c);
                assert(b@.chapters =~= chapters0.push(c@));
                Some(b)
            },
            (b, _) => b,
        }
    }
}

/// Reads a book from the events of its markdown text; `filename` names its file.
pub fn book_from_events(filename: &str, events: &Vec<MdEvent>) -> (r: Option<Book>)
    ensures
        book_model_of(r) == book_from(filename@, events@),
{
    let mut sc = Scanner::new();
    let mut i: usize = 0;
    assert(events@.take(0) =~= Seq::<MdEvent>::empty());
    while i < events.len()
        invariant
            0 <= i <= events@.len(),
            sc@ == scan_events(filename@, events@.take(i as int)),
        decreases events@.len() - i,
    {
        proof {
            assert(events@.take(i + 1).drop_last() =~= events@.take(i as int));
        }
        sc.step(filename, &events[i]);
        i = i + 1;
    }
    assert(events@.take(events@.len() as int) =~= events@);
    sc.finish()
}

/// Reads a book from its markdown text `md`; `filename` names its file.
pub fn parse_book_markdown(filename: &str, md: &str) -> (r: Option<Book>)
    ensures
        book_model_of(r) == book_from(filename@, markdown_events(md@)),
{
    let events = read_markdown_events(md);
    book_from_events(filename, &events)
}

proof fn lemma_step_keeps_book(filename: Seq<char>, st: ScanState, ev: MdEvent)
    ensures
        st.book is Some ==> scan_step(filename, st, ev).book is Some,
        (st.book matches Some(b) ==> b.filename == filename) ==> (scan_step(
            filename,
            st,
            ev,
        ).book matches Some(b2) ==> b2.filename == filename),
{
}

proof fn lemma_scan_filename(filename: Seq<char>, evs: Seq<MdEvent>)
    ensures
        scan_events(filename, evs).book matches Some(b) ==> b.filename == filename,
    decreases evs.len(),
{
    if evs.len() > 0 {
        lemma_scan_filename(filename, evs.drop_last());
        lemma_step_keeps_book(filename, scan_events(filename, evs.drop_last()), evs.last());
    }
}

/// Law: a book read from a file carries the name of that file.
pub proof fn law_book_keeps_filename(filename: Seq<char>, evs: Seq<MdEvent>)
    ensures
        book_from(filename, evs) matches Some(b) ==> b.filename == filename,
{
    lemma_scan_filename(filename, evs);
}

/// Law: once a book heading has been read, later events never lose the book.
pub proof fn law_book_persists(filename: Seq<char>, evs: Seq<MdEvent>, more: Seq<MdEvent>)
    ensures
        scan_events(filename, evs).book is Some ==> scan_events(filename, evs + more).book is Some,
        scan_events(filename, evs).book is Some ==> book_from(filename, evs + more) is Some,
    decreases more.len(),
{
    if more.len() == 0 {
        assert(evs + more =~= evs);
    } else {
        law_book_persists(filename, evs, more.drop_last());
        assert((evs + more).drop_last() =~= evs + more.drop_last());
        assert((evs + more).last() == more.last());
        lemma_step_keeps_book(filename, scan_events(filename, evs + more.drop_last()), more.last());
    }
}

/// Law: a paragraph (or code block) whose trimmed text starts with a verse
/// reference `c:v1,v2,..` adds to the current chapter, after its verses, one
/// verse for each verse number in order, each with chapter `c` and the text after
/// the reference; nothing else of the chapter or the book changes.
pub proof fn law_verse_paragraph(filename: Seq<char>, st: ScanState, ev: MdEvent)
    requires
        ev == MdEvent::ParagraphEnd || ev == MdEvent::CodeBlockEnd,
        !st.in_heading,
        st.in_paragraph,
        st.current is Some,
        verse_start(trim(st.paragraph_text)) is Some,
    ensures
        ({
            let text = trim(st.paragraph_text);
            let (c, nums, off) = verse_start(text).unwrap();
            let old_ch = st.current.unwrap();
            let st2 = scan_step(filename, st, ev);
            &&& st2.book == st.book
            &&& !st2.in_paragraph
            &&& st2.current matches Some(ch) && {
                &&& ch.number == old_ch.number
                &&& ch.title == old_ch.title
                &&& ch.verses.len() == old_ch.verses.len() + nums.len()
                &&& forall|i: int| 0 <= i < old_ch.verses.len() ==> #[trigger] ch.verses[i]
                    == old_ch.verses[i]
                &&& forall|k: int|
                    0 <= k < nums.len() ==> #[trigger] ch.verses[old_ch.verses.len() + k]
                        == VerseModel {
                        chapter_num: c,
                        verse_num: nums[k],
                        text: text.subrange(off, text.len() as int),
                    }
            }
        }),
{
    let text = trim(st.paragraph_text);
    crate::verse::law_verse_reference_ascii(text);
    let (c, nums, off) = verse_start(text).unwrap();
    let old_ch = st.current.unwrap();
    let st2 = scan_step(filename, st, ev);
    let ch = st2.current.unwrap();
    assert forall|k: int| 0 <= k < nums.len() implies #[trigger] ch.verses[old_ch.verses.len()
        + k] == VerseModel {
        chapter_num: c,
        verse_num: nums[k],
        text: text.subrange(off, text.len() as int),
    } by {
        assert(ch.verses[old_ch.verses.len() + k] == verses_for(
            c,
            nums,
            text.subrange(off, text.len() as int),
        )[k]);
    }
}

/// Law: a paragraph (or code block) without a verse reference continues the last
/// verse of the current chapter: its text gets a space and the trimmed paragraph
/// text at the end; the other verses, the chapter and the book stay as they were.
pub proof fn law_continued_verse(filename: Seq<char>, st: ScanState, ev: MdEvent)
    requires
        ev == MdEvent::ParagraphEnd || ev == MdEvent::CodeBlockEnd,
        !st.in_heading,
        st.in_paragraph,
        st.current matches Some(ch) && ch.verses.len() > 0,
        trim(st.paragraph_text).len() > 0,
        verse_start(trim(st.paragraph_text)) is None,
    ensures
        ({
            let text = trim(st.paragraph_text);
            let old_ch = st.current.unwrap();
            let last = old_ch.verses.len() - 1;
            let st2 = scan_step(filename, st, ev);
            &&& st2.book == st.book
            &&& st2.current matches Some(ch) && {
                &&& ch.number == old_ch.number
                &&& ch.title == old_ch.title
                &&& ch.verses.len() == old_ch.verses.len()
                &&& forall|i: int| 0 <= i < last ==> #[trigger] ch.verses[i] == old_ch.verses[i]
                &&& ch.verses[last].chapter_num == old_ch.verses[last].chapter_num
                &&& ch.verses[last].verse_num == old_ch.verses[last].verse_num
                &&& ch.verses[last].text == old_ch.verses[last].text + seq![' '] + text
            }
        }),
{
    let text = trim(st.paragraph_text);
    let old_ch = st.current.unwrap();
    assert(old_ch.verses.last().text.push(' ') + text =~= old_ch.verses.last().text + seq![' ']
        + text);
}

/// Law: the end of a level-2 heading, once there is a book, puts the current
/// chapter (if any) at the end of the book's chapters and starts an empty
/// chapter, numbered and titled by the heading, or else numbered one more than
/// the chapters now in the book (as a `u32`) and titled by the trimmed heading.
pub proof fn law_chapter_heading(filename: Seq<char>, st: ScanState)
    requires
        st.heading_level == 2,
        st.book is Some,
    ensures
        ({
            let b = st.book.unwrap();
            let ht = trim(st.heading_text);
            let st2 = scan_step(filename, st, MdEvent::HeadingEnd);
            let added: nat = if st.current is Some {
                1
            } else {
                0
            };
            &&& !st2.in_heading
            &&& st2.book matches Some(b2) && {
                &&& b2.filename == b.filename && b2.number == b.number
                &&& b2.title_cn == b.title_cn && b2.title_en == b.title_en
                &&& b2.chapters.len() == b.chapters.len() + added
                &&& forall|i: int| 0 <= i < b.chapters.len() ==> #[trigger] b2.chapters[i]
                    == b.chapters[i]
                &&& st.current matches Some(c) ==> b2.chapters[b.chapters.len() as int] == c
                &&& st2.current matches Some(c2) && {
                    &&& c2.verses.len() == 0
                    &&& match chapter_title(ht) {
                        Some((n, title)) => c2.number == n && c2.title == title,
                        None => c2.number == (b2.chapters.len() + 1) as u32 && c2.title == ht,
                    }
                }
            }
        }),
{
}

} // verus!
