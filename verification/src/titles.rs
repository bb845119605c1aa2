//! Headings of the markdown books: Chinese numerals, book titles
//! (`# 卷一：标题 (English)`) and chapter titles (`## 第三章：标题`).
use vstd::prelude::*;
use crate::text::{
    lemma_leading_run_unique, lemma_trim_end_after, lemma_trim_of_trim_end, is_white_space,
    CharClass, trim, trim_start_class, trim_end_class, find_char, rfind_char, chars_of,
    skip_leading, skip_trailing, trim_range, find_in, rfind_in, string_of_range,
};

verus! {

/// The value of one Chinese numeral character: 一 to 九, 十 and 百.
pub open spec fn numeral_value(c: char) -> Option<u32> {
    if c == '一' {
        Some(1)
    } else if c == '二' {
        Some(2)
    } else if c == '三' {
        Some(3)
    } else if c == '四' {
        Some(4)
    } else if c == '五' {
        Some(5)
    } else if c == '六' {
        Some(6)
    } else if c == '七' {
        Some(7)
    } else if c == '八' {
        Some(8)
    } else if c == '九' {
        Some(9)
    } else if c == '十' {
        Some(10)
    } else if c == '百' {
        Some(100)
    } else {
        None
    }
}

/// The numbers written with at most three Chinese numeral characters:
/// one character (`三`, `十`, `百`), `X十` (X times ten), `十Y` (ten plus Y)
/// and `X十Y` (X times ten plus Y). Anything else has no value.
pub open spec fn chinese_number(s: Seq<char>) -> Option<u32> {
    if s.len() == 1 {
        numeral_value(s[0])
    } else if s.len() == 2 && s[1] == '十' {
        match numeral_value(s[0]) {
            Some(a) => Some((a * 10) as u32),
            None => None,
        }
    } else if s.len() == 2 && s[0] == '十' {
        match numeral_value(s[1]) {
            Some(b) => Some((10 + b) as u32),
            None => None,
        }
    } else if s.len() == 3 && s[1] == '十' {
        match (numeral_value(s[0]), numeral_value(s[2])) {
            (Some(a), Some(b)) => Some((a * 10 + b) as u32),
            _ => None,
        }
    } else {
        None
    }
}

fn numeral_of(c: char) -> (r: Option<u32>)
    ensures
        r == numeral_value(c),
        r matches Some(v) ==> v <= 100,
{
    if c == '一' {
        Some(1)
    } else if c == '二' {
        Some(2)
    } else if c == '三' {
        Some(3)
    } else if c == '四' {
        Some(4)
    } else if c == '五' {
        Some(5)
    } else if c == '六' {
        Some(6)
    } else if c == '七' {
        Some(7)
    } else if c == '八' {
        Some(8)
    } else if c == '九' {
        Some(9)
    } else if c == '十' {
        Some(10)
    } else if c == '百' {
        Some(100)
    } else {
        None
    }
}

/// The value of the Chinese numeral `s[lo..hi]`.
pub fn chinese_number_in(s: &Vec<char>, lo: usize, hi: usize) -> (r: Option<u32>)
    requires
        lo <= hi <= s@.len(),
    ensures
        r == chinese_number(s@.subrange(lo as int, hi as int)),
{
    let len = hi - lo;
    if len == 1 {
        numeral_of(s[lo])
    } else if len == 2 && s[lo + 1] == '十' {
        match numeral_of(s[lo]) {
            Some(a) => Some(a * 10),
            None => None,
        }
    } else if len == 2 && s[lo] == '十' {
        match numeral_of(s[lo + 1]) {
            Some(b) => Some(10 + b),
            None => None,
        }
    } else if len == 3 && s[lo + 1] == '十' {
        match (numeral_of(s[lo]), numeral_of(s[lo + 2])) {
            (Some(a), Some(b)) => Some(a * 10 + b),
            _ => None,
        }
    } else {
        None
    }
}

/// Reads a number written in Chinese numerals (see `chinese_number`).
pub fn chinese_num_to_u32(s: &str) -> (r: Option<u32>)
    ensures
        r == chinese_number(s@),
{
    let chars = chars_of(s);
    let r = chinese_number_in(&chars, 0, chars.len());
    assert(chars@.subrange(0, chars@.len() as int) =~= s@);
    r
}

/// A book heading after its leading `#` marks and surrounding white space.
pub open spec fn heading_body(heading: Seq<char>) -> Seq<char> {
    trim(trim_start_class(heading, CharClass::Exactly('#')))
}

/// The first full-width colon `：`, or else the first ASCII colon `:`.
pub open spec fn title_colon(h: Seq<char>) -> Option<int> {
    match find_char(h, '：') {
        Some(p) => Some(p),
        None => find_char(h, ':'),
    }
}

/// The title and English name after the colon of a book heading: when there is a
/// `(`, the part before the last one, trimmed, and the part after it without
/// trailing `)`; else the whole text and an empty English name.
pub open spec fn title_names(rest: Seq<char>) -> (Seq<char>, Seq<char>) {
    match rfind_char(rest, '(') {
        Some(q) => (
            trim(rest.subrange(0, q)),
            trim_end_class(rest.subrange(q + 1, rest.len() as int), CharClass::Exactly(')')),
        ),
        None => (rest, Seq::empty()),
    }
}

/// The number, Chinese title and English title of a book heading such as
/// `# 卷三：标题 (Title)`: the part before the colon, without leading `卷`, is a
/// Chinese numeral; the rest names the book.
pub open spec fn book_title(heading: Seq<char>) -> Option<(u32, Seq<char>, Seq<char>)> {
    let h = heading_body(heading);
    match title_colon(h) {
        None => None,
        Some(p) => match chinese_number(
            trim_start_class(h.subrange(0, p), CharClass::Exactly('卷')),
        ) {
            None => None,
            Some(n) => {
                let names = title_names(trim(h.subrange(p + 1, h.len() as int)));
                Some((n, names.0, names.1))
            },
        },
    }
}

/// Reads a book heading; see `book_title`.
pub fn parse_book_title(heading: &str) -> (r: Option<(u32, String, String)>)
    ensures
        match book_title(heading@) {
            None => r is None,
            Some((n, cn, en)) => r matches Some((rn, rcn, ren)) && rn == n && rcn@ == cn && ren@
                == en,
        },
{
    let s = chars_of(heading);
    let lo0 = skip_leading(&s, 0, s.len(), CharClass::Exactly('#'));
    assert(s@.subrange(0, s@.len() as int) =~= heading@);
    assert(s@.subrange(lo0 as int, s@.len() as int) =~= trim_start_class(
        heading@,
        CharClass::Exactly('#'),
    ));
    let (lo, hi) = trim_range(&s, lo0, s.len());
    let ghost h = s@.subrange(lo as int, hi as int);
    assert(h == heading_body(heading@));
    let colon = match find_in(&s, lo, hi, '：') {
        Some(p) => Some(p),
        None => find_in(&s, lo, hi, ':'),
    };
    let p = match colon {
        Some(p) => p,
        None => {
            return None;
        },
    };
    assert(title_colon(h) == Some(p - lo));
    let num_lo = skip_leading(&s, lo, p, CharClass::Exactly('卷'));
    assert(s@.subrange(lo as int, p as int) =~= h.subrange(0, p - lo));
    assert(s@.subrange(num_lo as int, p as int) =~= trim_start_class(
        h.subrange(0, p - lo),
        CharClass::Exactly('卷'),
    ));
    let n = match chinese_number_in(&s, num_lo, p) {
        Some(n) => n,
        None => {
            return None;
        },
    };
    let (rlo, rhi) = trim_range(&s, p + 1, hi);
    assert(s@.subrange(p + 1, hi as int) =~= h.subrange(p - lo + 1, h.len() as int));
    let ghost rest = s@.subrange(rlo as int, rhi as int);
    match rfind_in(&s, rlo, rhi, '(') {
        Some(q) => {
            let (clo, chi) = trim_range(&s, rlo, q);
            assert(s@.subrange(rlo as int, q as int) =~= rest.subrange(0, q - rlo));
            let elo = q + 1;
            let ehi = skip_trailing(&s, elo, rhi, CharClass::Exactly(')'));
            assert(s@.subrange(elo as int, rhi as int) =~= rest.subrange(
                q - rlo + 1,
                rest.len() as int,
            ));
            assert(s@.subrange(elo as int, ehi as int) =~= trim_end_class(
                rest.subrange(q - rlo + 1, rest.len() as int),
                CharClass::Exactly(')'),
            ));
            Some((n, string_of_range(&s, clo, chi), string_of_range(&s, elo, ehi)))
        },
        None => {
            let en = String::new();
            assert(en@ =~= Seq::<char>::empty());
            Some((n, string_of_range(&s, rlo, rhi), en))
        },
    }
}

/// How many characters a chapter title skips after `章`: one for a leading
/// full-width or ASCII colon, else none.
pub open spec fn colon_skip(t: Seq<char>) -> int {
    if t.len() > 0 && (t[0] == '：' || t[0] == ':') {
        1
    } else {
        0
    }
}

/// The number and title of a chapter heading such as `## 第三章：标题`: after
/// leading `#` marks, white space and `第`, the text up to the first `章` is a
/// Chinese numeral; the title is what follows, after one optional colon, trimmed.
pub open spec fn chapter_title(heading: Seq<char>) -> Option<(u32, Seq<char>)> {
    let rest = trim_start_class(heading_body(heading), CharClass::Exactly('第'));
    match find_char(rest, '章') {
        None => None,
        Some(z) => match chinese_number(rest.subrange(0, z)) {
            None => None,
            Some(n) => {
                let t = rest.subrange(z + 1, rest.len() as int);
                Some((n, trim(t.subrange(colon_skip(t), t.len() as int))))
            },
        },
    }
}

/// Reads a chapter heading; see `chapter_title`.
pub fn parse_chapter_title(heading: &str) -> (r: Option<(u32, String)>)
    ensures
        match chapter_title(heading@) {
            None => r is None,
            Some((n, t)) => r matches Some((rn, rt)) && rn == n && rt@ == t,
        },
{
    let s = chars_of(heading);
    let lo0 = skip_leading(&s, 0, s.len(), CharClass::Exactly('#'));
    assert(s@.subrange(0, s@.len() as int) =~= heading@);
    assert(s@.subrange(lo0 as int, s@.len() as int) =~= trim_start_class(
        heading@,
        CharClass::Exactly('#'),
    ));
    let (lo, hi) = trim_range(&s, lo0, s.len());
    let ghost h = s@.subrange(lo as int, hi as int);
    assert(h == heading_body(heading@));
    let rlo = skip_leading(&s, lo, hi, CharClass::Exactly('第'));
    let ghost rest = s@.subrange(rlo as int, hi as int);
    assert(rest =~= trim_start_class(h, CharClass::Exactly('第')));
    let z = match find_in(&s, rlo, hi, '章') {
        Some(z) => z,
        None => {
            return None;
        },
    };
    assert(s@.subrange(rlo as int, z as int) =~= rest.subrange(0, z - rlo));
    let n = match chinese_number_in(&s, rlo, z) {
        Some(n) => n,
        None => {
            return None;
        },
    };
    let tlo = z + 1;
    let ghost t = s@.subrange(tlo as int, hi as int);
    assert(t =~= rest.subrange(z - rlo + 1, rest.len() as int));
    let skip: usize = if tlo < hi && (s[tlo] == '：' || s[tlo] == ':') {
        1
    } else {
        0
    };
    assert(skip == colon_skip(t));
    let (a, b) = trim_range(&s, tlo + skip, hi);
    assert(s@.subrange((tlo + skip) as int, hi as int) =~= t.subrange(skip as int, t.len() as int));
    Some((n, string_of_range(&s, a, b)))
}

/// Law: the single numerals have their fixed values: 一 二 三 四 五 六 七 八 九 十 百
/// are 1 2 3 4 5 6 7 8 9 10 100, and no other single character is a numeral.
pub proof fn law_numeral_values(c: char)
    ensures
        chinese_number(seq!['一']) == Some(1u32),
        chinese_number(seq!['二']) == Some(2u32),
        chinese_number(seq!['三']) == Some(3u32),
        chinese_number(seq!['四']) == Some(4u32),
        chinese_number(seq!['五']) == Some(5u32),
        chinese_number(seq!['六']) == Some(6u32),
        chinese_number(seq!['七']) == Some(7u32),
        chinese_number(seq!['八']) == Some(8u32),
        chinese_number(seq!['九']) == Some(9u32),
        chinese_number(seq!['十']) == Some(10u32),
        chinese_number(seq!['百']) == Some(100u32),
        c != '一' && c != '二' && c != '三' && c != '四' && c != '五' && c != '六' && c != '七' && c
            != '八' && c != '九' && c != '十' && c != '百' ==> chinese_number(seq![c]) is None,
{
}

/// Law: compound numerals combine the values of their digits: `X十` is ten
/// times X, `十Y` is ten plus Y, and `X十Y` is ten times X plus Y, for digits X
/// and Y from one to nine.
pub proof fn law_numeral_compounds(x: char, y: char)
    requires
        chinese_number(seq![x]) matches Some(a) && 1 <= a <= 9,
        chinese_number(seq![y]) matches Some(b) && 1 <= b <= 9,
    ensures
        chinese_number(seq![x, '十']) == Some((chinese_number(seq![x]).unwrap() * 10) as u32),
        chinese_number(seq!['十', y]) == Some((10 + chinese_number(seq![y]).unwrap()) as u32),
        chinese_number(seq![x, '十', y]) == Some(
            (chinese_number(seq![x]).unwrap() * 10 + chinese_number(seq![y]).unwrap()) as u32,
        ),
{
}

/// Every character of a numeral is a numeral character.
pub proof fn lemma_numeral_chars(n: Seq<char>)
    requires
        chinese_number(n) is Some,
    ensures
        n.len() >= 1,
        forall|i: int| 0 <= i < n.len() ==> #[trigger] numeral_value(n[i]) is Some,
{
}

/// The heading `pre` + `t`: white space and `#` marks are read as in a heading,
/// and the body is `pre` followed by `t` without trailing white space.
proof fn lemma_heading_body(marks: int, pre: Seq<char>, t: Seq<char>)
    requires
        marks >= 1,
        pre.len() >= 1,
        pre[0] != '#' && !is_white_space(pre[0]),
        !is_white_space(pre.last()),
    ensures
        heading_body(Seq::new(marks as nat, |i: int| '#') + seq![' '] + pre + t) == pre
            + trim_end_class(t, CharClass::WhiteSpace),
{
    let heading = Seq::new(marks as nat, |i: int| '#') + seq![' '] + pre + t;
    assert(heading[marks] == ' ');
    lemma_leading_run_unique(heading, CharClass::Exactly('#'), marks);
    let x = trim_start_class(heading, CharClass::Exactly('#'));
    assert(x =~= seq![' '] + (pre + t));
    assert(x[1] == pre[0]);
    lemma_leading_run_unique(x, CharClass::WhiteSpace, 1);
    let y = trim_start_class(x, CharClass::WhiteSpace);
    assert(y =~= pre + t);
    lemma_trim_end_after(pre, t);
}

/// Law: in a book heading `# 卷N：t`, where N is a numeral, the number is read from
/// the text before the first colon, whatever colons the title `t` holds, and the
/// names are read from the trimmed title.
pub proof fn law_book_heading_number(num: Seq<char>, t: Seq<char>)
    requires
        chinese_number(num) is Some,
    ensures
        book_title(seq!['#', ' ', '卷'] + num + seq!['：'] + t) == Some(
            (
                chinese_number(num).unwrap(),
                title_names(trim(t)).0,
                title_names(trim(t)).1,
            ),
        ),
{
    lemma_numeral_chars(num);
    let pre = seq!['卷'] + num + seq!['：'];
    assert(seq!['#', ' ', '卷'] + num + seq!['：'] + t =~= Seq::new(1, |i: int| '#') + seq![' ']
        + pre + t);
    assert(pre.last() == '：');
    lemma_heading_body(1, pre, t);
    let te = trim_end_class(t, CharClass::WhiteSpace);
    let h = pre + te;
    let p = num.len() + 1int;
    assert(h[p] == '：');
    assert forall|j: int| 0 <= j < p implies h[j] != '：' by {
        if j > 0 {
            assert(h[j] == num[j - 1]);
            assert(numeral_value(num[j - 1]) is Some);
        }
    }
    crate::text::lemma_find_char_some(h, '：', p);
    assert(title_colon(h) == Some(p));
    let before = h.subrange(0, p);
    assert(before =~= seq!['卷'] + num);
    assert(before[1] == num[0]);
    assert(numeral_value(num[0]) is Some);
    lemma_leading_run_unique(before, CharClass::Exactly('卷'), 1);
    assert(trim_start_class(before, CharClass::Exactly('卷')) =~= num);
    assert(h.subrange(p + 1, h.len() as int) =~= te);
    lemma_trim_of_trim_end(t);
}

/// Law: in a chapter heading `## 第N章：t`, where N is a numeral, the number is
/// read up to the first `章`, whatever the title `t` holds, and the title is `t`
/// trimmed.
pub proof fn law_chapter_heading_number(num: Seq<char>, t: Seq<char>)
    requires
        chinese_number(num) is Some,
    ensures
        chapter_title(seq!['#', '#', ' ', '第'] + num + seq!['章', '：'] + t) == Some(
            (chinese_number(num).unwrap(), trim(t)),
        ),
{
    lemma_numeral_chars(num);
    let pre = seq!['第'] + num + seq!['章', '：'];
    assert(seq!['#', '#', ' ', '第'] + num + seq!['章', '：'] + t =~= Seq::new(2, |i: int| '#')
        + seq![' '] + pre + t);
    assert(pre.last() == '：');
    lemma_heading_body(2, pre, t);
    let te = trim_end_class(t, CharClass::WhiteSpace);
    let h = pre + te;
    assert(h[1] == num[0]);
    assert(numeral_value(num[0]) is Some);
    lemma_leading_run_unique(h, CharClass::Exactly('第'), 1);
    let rest = trim_start_class(h, CharClass::Exactly('第'));
    assert(rest =~= num + seq!['章', '：'] + te);
    let z = num.len() as int;
    assert(rest[z] == '章');
    assert forall|j: int| 0 <= j < z implies rest[j] != '章' by {
        assert(rest[j] == num[j]);
        assert(numeral_value(num[j]) is Some);
    }
    crate::text::lemma_find_char_some(rest, '章', z);
    assert(rest.subrange(0, z) =~= num);
    let tt = rest.subrange(z + 1, rest.len() as int);
    assert(tt =~= seq!['：'] + te);
    assert(colon_skip(tt) == 1);
    assert(tt.subrange(1, tt.len() as int) =~= te);
    lemma_trim_of_trim_end(t);
}

} // verus!
