//! HTML output: escaping, verse text, book pages and the index page.
use vstd::prelude::*;
use crate::book::{Book, BookModel, Chapter, ChapterModel, VerseModel, book_models};
use crate::digits::{decimal, push_decimal};

verus! {

/// The style sheet that every page embeds.
pub const STYLE_SHEET: &'static str = r#"
:root {
    --bg: #fdf6e3;
    --text: #3a2f28;
    --verse-color: #8b6914;
    --border: #d4c5a0;
    --heading: #5a3e28;
    --nav-bg: #2c1810;
    --nav-text: #e8d5b7;
    --link: #8b4513;
    --link-hover: #a0522d;
    --code-bg: #efe0c5;
    --code-text: #6b3a2a;
    --toc-hover: #f5ebd2;
}
* { margin: 0; padding: 0; box-sizing: border-box; }
body {
    font-family: Georgia, "Noto Serif SC", "Source Han Serif SC", "SimSun", serif;
    background: var(--bg);
    color: var(--text);
    line-height: 1.9;
    min-height: 100vh;
}
nav.top-nav {
    background: var(--nav-bg);
    padding: 12px 24px;
    display: flex;
    flex-wrap: wrap;
    align-items: center;
    gap: 6px;
    position: sticky;
    top: 0;
    z-index: 100;
    box-shadow: 0 2px 8px rgba(0,0,0,0.3);
}
nav.top-nav a {
    color: var(--nav-text);
    text-decoration: none;
    padding: 6px 14px;
    border-radius: 4px;
    font-size: 0.9em;
    transition: background 0.2s;
}
nav.top-nav a:hover { background: rgba(255,255,255,0.15); }
nav.top-nav a.active { background: rgba(255,255,255,0.25); font-weight: bold; }
nav.top-nav .sep { color: rgba(232,213,183,0.3); user-select: none; }
main {
    max-width: 720px;
    margin: 0 auto;
    padding: 32px 24px 64px;
}
.book-title {
    text-align: center;
    margin-bottom: 48px;
    padding-bottom: 32px;
    border-bottom: 2px double var(--border);
}
.book-title h1 {
    font-size: 2em;
    color: var(--heading);
    margin-bottom: 4px;
}
.book-title .sub {
    font-size: 1.1em;
    color: #7a6a5a;
    font-style: italic;
}
.chapter {
    margin-bottom: 40px;
}
.chapter h2 {
    color: var(--heading);
    font-size: 1.35em;
    margin-bottom: 20px;
    padding-bottom: 8px;
    border-bottom: 1px solid var(--border);
    text-align: center;
}
.verse {
    margin-bottom: 6px;
    text-indent: -2.2em;
    padding-left: 2.8em;
    text-align: justify;
}
.verse-num {
    color: var(--verse-color);
    font-size: 0.75em;
    font-weight: bold;
    vertical-align: super;
    margin-right: 2px;
}
.verse-num::after { content: " "; }
code {
    font-family: "Cascadia Code", "Fira Code", "JetBrains Mono", Consolas, monospace;
    background: var(--code-bg);
    color: var(--code-text);
    padding: 1px 5px;
    border-radius: 3px;
    font-size: 0.92em;
}
.index-main {
    max-width: 600px;
    margin: 0 auto;
    padding: 48px 24px;
}
.index-main h1 {
    text-align: center;
    font-size: 2em;
    color: var(--heading);
    margin-bottom: 8px;
}
.index-main .subtitle {
    text-align: center;
    color: #7a6a5a;
    font-style: italic;
    margin-bottom: 40px;
}
.index-main .verse-quote {
    text-align: center;
    font-style: italic;
    color: #6b5a48;
    margin-bottom: 48px;
    font-size: 1.1em;
    line-height: 2;
}
.toc { list-style: none; }
.toc li { margin-bottom: 0; }
.toc li a {
    display: block;
    padding: 12px 16px;
    text-decoration: none;
    color: var(--text);
    border-bottom: 1px solid var(--border);
    transition: background 0.2s;
}
.toc li a:hover { background: var(--toc-hover); }
.toc li a .num {
    color: var(--verse-color);
    font-weight: bold;
    margin-right: 8px;
}
.toc li a .en {
    color: #9a8a7a;
    font-size: 0.85em;
    margin-left: 6px;
}
footer {
    text-align: center;
    color: #b0a090;
    font-size: 0.85em;
    padding: 32px 0;
    border-top: 1px solid var(--border);
    margin-top: 32px;
}
footer a { color: var(--link); }
"#;

/// The HTML form of one character: `&`, `<`, `>` and `"` become entities.
pub open spec fn escape_char(c: char) -> Seq<char> {
    if c == '&' {
        "&amp;"@
    } else if c == '<' {
        "&lt;"@
    } else if c == '>' {
        "&gt;"@
    } else if c == '"' {
        "&quot;"@
    } else {
        seq![c]
    }
}

/// `s` with each character escaped (`&` first, then `<`, `>` and `"`, as
/// successive `str::replace` calls do, which amounts to the same).
pub open spec fn escaped(s: Seq<char>) -> Seq<char>
    decreases s.len(),
{
    if s.len() == 0 {
        Seq::empty()
    } else {
        escaped(s.drop_last()) + escape_char(s.last())
    }
}

/// Appends the HTML form of `c` to `out`.
pub fn push_escaped_char(out: &mut String, c: char)
    ensures
        final(out)@ == old(out)@ + escape_char(c),
{
    if c == '&' {
        out.append("&amp;");
    } else if c == '<' {
        out.append("&lt;");
    } else if c == '>' {
        out.append("&gt;");
    } else if c == '"' {
        out.append("&quot;");
    } else {
        out.push(c);
        assert(out@ =~= old(out)@ + seq![c]);
    }
}

/// Appends `escaped(s)` to `out`.
pub fn push_escaped(out: &mut String, s: &str)
    ensures
        final(out)@ == old(out)@ + escaped(s@),
{
    let ghost start = out@;
    for c in it: s.chars()
        invariant
            out@ == start + escaped(it.seq().take(it.index() as int)),
    {
        let ghost before = it.seq().take(it.index() as int);
        push_escaped_char(out, c);
        proof {
            let after = it.seq().take(it.index() + 1);
            assert(after.drop_last() =~= before);
            assert(out@ =~= start + escaped(after));
        }
    }
    assert(s@.take(s@.len() as int) =~= s@);
}

/// Escapes `&`, `<`, `>` and `"` for HTML.
pub fn html_escape(s: &str) -> (r: String)
    ensures
        r@ == escaped(s@),
{
    let mut out = String::new();
    push_escaped(&mut out, s);
    assert(out@ =~= escaped(s@));
    out
}

/// A piece of a rendered verse.
pub enum Piece {
    OpenCode,
    CloseCode,
    LineBreak,
    Text(char),
}

pub open spec fn piece_text(p: Piece) -> Seq<char> {
    match p {
        Piece::OpenCode => "<code>"@,
        Piece::CloseCode => "</code>"@,
        Piece::LineBreak => "<br>"@,
        Piece::Text(c) => escape_char(c),
    }
}

pub open spec fn pieces_text(ps: Seq<Piece>) -> Seq<char>
    decreases ps.len(),
{
    if ps.len() == 0 {
        Seq::empty()
    } else {
        pieces_text(ps.drop_last()) + piece_text(ps.last())
    }
}

/// Whether a code span is open after `s`: an odd number of backticks.
pub open spec fn in_code_after(s: Seq<char>) -> bool
    decreases s.len(),
{
    if s.len() == 0 {
        false
    } else if s.last() == '`' {
        !in_code_after(s.drop_last())
    } else {
        in_code_after(s.drop_last())
    }
}

/// A backtick opens or closes a code span, a line feed breaks the line, and any
/// other character stands for itself.
pub open spec fn piece_of(c: char, in_code: bool) -> Piece {
    if c == '`' {
        if in_code {
            Piece::CloseCode
        } else {
            Piece::OpenCode
        }
    } else if c == '\n' {
        Piece::LineBreak
    } else {
        Piece::Text(c)
    }
}

/// One piece per character of `s`.
pub open spec fn verse_pieces(s: Seq<char>) -> Seq<Piece>
    decreases s.len(),
{
    if s.len() == 0 {
        Seq::empty()
    } else {
        verse_pieces(s.drop_last()).push(piece_of(s.last(), in_code_after(s.drop_last())))
    }
}

/// The pieces of a rendered verse: one per character, and a closing tag for a
/// code span left open at the end.
pub open spec fn rendered_pieces(s: Seq<char>) -> Seq<Piece> {
    if in_code_after(s) {
        verse_pieces(s).push(Piece::CloseCode)
    } else {
        verse_pieces(s)
    }
}

/// The HTML of a verse text.
pub open spec fn verse_html(s: Seq<char>) -> Seq<char> {
    pieces_text(rendered_pieces(s))
}

/// Renders a verse text: backticks delimit `<code>` spans (one left open is
/// closed at the end), line feeds become `<br>`, and the rest is escaped.
pub fn render_verse_html(text: &str) -> (r: String)
    ensures
        r@ == verse_html(text@),
{
    let mut out = String::new();
    let mut in_code = false;
    assert(out@ =~= pieces_text(verse_pieces(text@.take(0))));
    for ch in it: text.chars()
        invariant
            out@ == pieces_text(verse_pieces(it.seq().take(it.index() as int))),
            in_code == in_code_after(it.seq().take(it.index() as int)),
    {
        let ghost before = it.seq().take(it.index() as int);
        let ghost out_before = out@;
        if ch == '`' {
            if in_code {
                out.append("</code>");
                in_code = false;
            } else {
                out.append("<code>");
                in_code = true;
            }
        } else if ch == '\n' {
            out.append("<br>");
        } else {
            push_escaped_char(&mut out, ch);
        }
        proof {
            let after = it.seq().take(it.index() + 1);
            assert(after.drop_last() =~= before);
            let ps = verse_pieces(before).push(piece_of(ch, in_code_after(before)));
            assert(ps.drop_last() =~= verse_pieces(before));
            assert(out@ == out_before + piece_text(piece_of(ch, in_code_after(before))));
        }
    }
    assert(text@.take(text@.len() as int) =~= text@);
    if in_code {
        out.append("</code>");
        proof {
            let ps = verse_pieces(text@).push(Piece::CloseCode);
            assert(ps.drop_last() =~= verse_pieces(text@));
        }
    }
    out
}

/// The start of every page, up to its title.
pub open spec fn page_start() -> Seq<char> {
    "<!DOCTYPE html>\n<html lang=\"zh-CN\">\n<head>\n"@ + "<meta charset=\"UTF-8\">\n"@
        + "<meta name=\"viewport\" content=\"width=device-width, initial-scale=1.0\">\n"@
}

/// The style sheet and the end of the page head.
pub open spec fn page_style() -> Seq<char> {
    "<style>"@ + STYLE_SHEET@ + "</style>\n</head>\n<body>\n"@
}

/// The footer and the end of every page.
pub open spec fn page_end() -> Seq<char> {
    "<footer>\n"@ + "<p>《计算机嘉豪福音》—— 一部虚构的文学戏仿作品</p>\n"@
        + "<p>本作品采用 <a href=\"https://creativecommons.org/licenses/by-nc-sa/4.0/\">CC BY-NC-SA 4.0</a> 协议 | 经文由 Rust 重写世间一切而生成</p>\n"@
        + "</footer>\n"@ + "</main>\n</body>\n</html>\n"@
}

fn push_page_start(out: &mut String)
    ensures
        final(out)@ == old(out)@ + page_start(),
{
    out.append("<!DOCTYPE html>\n<html lang=\"zh-CN\">\n<head>\n");
    out.append("<meta charset=\"UTF-8\">\n");
    out.append("<meta name=\"viewport\" content=\"width=device-width, initial-scale=1.0\">\n");
    assert(out@ =~= old(out)@ + page_start());
}

fn push_page_style(out: &mut String)
    ensures
        final(out)@ == old(out)@ + page_style(),
{
    out.append("<style>");
    out.append(STYLE_SHEET);
    out.append("</style>\n</head>\n<body>\n");
    assert(out@ =~= old(out)@ + page_style());
}

fn push_page_end(out: &mut String)
    ensures
        final(out)@ == old(out)@ + page_end(),
{
    out.append("<footer>\n");
    out.append("<p>《计算机嘉豪福音》—— 一部虚构的文学戏仿作品</p>\n");
    out.append(
        "<p>本作品采用 <a href=\"https://creativecommons.org/licenses/by-nc-sa/4.0/\">CC BY-NC-SA 4.0</a> 协议 | 经文由 Rust 重写世间一切而生成</p>\n",
    );
    out.append("</footer>\n");
    out.append("</main>\n</body>\n</html>\n");
    assert(out@ =~= old(out)@ + page_end());
}

/// The link to one book in the navigation bar, preceded by a separator unless it
/// is the first; the link to the book named `active` is marked active.
pub open spec fn nav_link(i: int, b: BookModel, active: Seq<char>) -> Seq<char> {
    (if i > 0 {
        "<span class=\"sep\">|</span>\n"@
    } else {
        Seq::empty()
    }) + "<a href=\""@ + b.filename + ".html"@ + "\""@ + (if b.filename == active {
        " class=\"active\""@
    } else {
        Seq::empty()
    }) + ">"@ + escaped(decimal(b.number as nat) + ". "@ + b.title_cn) + "</a>\n"@
}

pub open spec fn nav_links(bs: Seq<BookModel>, active: Seq<char>) -> Seq<char>
    decreases bs.len(),
{
    if bs.len() == 0 {
        Seq::empty()
    } else {
        nav_links(bs.drop_last(), active) + nav_link(bs.len() - 1, bs.last(), active)
    }
}

/// The navigation bar: a link to the index, then one link per book.
pub open spec fn nav_bar(bs: Seq<BookModel>, active: Seq<char>) -> Seq<char> {
    "<nav class=\"top-nav\">\n"@ + "<a href=\"index.html\">📖 目录</a>\n"@
        + "<span class=\"sep\">|</span>\n"@ + nav_links(bs, active) + "</nav>\n"@
}

fn push_nav_bar(out: &mut String, all_books: &[Book], active: &String)
    ensures
        final(out)@ == old(out)@ + nav_bar(book_models(all_books@), active@),
{
    let ghost bs = book_models(all_books@);
    out.append("<nav class=\"top-nav\">\n");
    out.append("<a href=\"index.html\">📖 目录</a>\n");
    out.append("<span class=\"sep\">|</span>\n");
    let ghost start = out@;
    let mut i: usize = 0;
    assert(bs.take(0) =~= Seq::<BookModel>::empty());
    while i < all_books.len()
        invariant
            0 <= i <= all_books@.len(),
            bs == book_models(all_books@),
            out@ == start + nav_links(bs.take(i as int), active@),
        decreases all_books@.len() - i,
    {
        let b = &all_books[i];
        let ghost before = out@;
        if i > 0 {
            out.append("<span class=\"sep\">|</span>\n");
        }
        out.append("<a href=\"");
        out.append(b.filename.as_str());
        out.append(".html");
        out.append("\"");
        if b.filename == *active {
            out.append(" class=\"active\"");
        }
        out.append(">");
        let mut label = String::new();
        push_decimal(&mut label, b.number);
        label.append(". ");
        label.append(b.title_cn.as_str());
        push_escaped(out, label.as_str());
        out.append("</a>\n");
        proof {
            assert(bs[i as int] == b@);
            assert(label@ =~= decimal(b.number as nat) + ". "@ + b.title_cn@);
            assert(out@ =~= before + nav_link(i as int, bs[i as int], active@));
            assert(bs.take(i + 1).drop_last() =~= bs.take(i as int));
        }
        i = i + 1;
    }
    assert(bs.take(all_books@.len() as int) =~= bs);
    out.append("</nav>\n");
    assert(out@ =~= old(out)@ + nav_bar(bs, active@));
}

/// The number shown before a verse: `chapter:verse` when its chapter differs
/// from that of the verse before it (or from 0 for the first), else the verse
/// number alone.
pub open spec fn verse_label(v: VerseModel, prev_chapter: u32) -> Seq<char> {
    if v.chapter_num != prev_chapter {
        decimal(v.chapter_num as nat) + ":"@ + decimal(v.verse_num as nat)
    } else {
        decimal(v.verse_num as nat)
    }
}

pub open spec fn verse_line(v: VerseModel, prev_chapter: u32) -> Seq<char> {
    "<p class=\"verse\">"@ + "<sup class=\"verse-num\">"@ + verse_label(v, prev_chapter)
        + "</sup>"@ + verse_html(v.text) + "</p>\n"@
}

/// The chapter number of the verse before the last one of `vs`, or 0.
pub open spec fn prev_chapter(vs: Seq<VerseModel>) -> u32 {
    if vs.len() >= 2 {
        vs[vs.len() - 2].chapter_num
    } else {
        0
    }
}

pub open spec fn verses_html(vs: Seq<VerseModel>) -> Seq<char>
    decreases vs.len(),
{
    if vs.len() == 0 {
        Seq::empty()
    } else {
        verses_html(vs.drop_last()) + verse_line(vs.last(), prev_chapter(vs))
    }
}

pub open spec fn chapter_html(c: ChapterModel) -> Seq<char> {
    "<div class=\"chapter\">\n"@ + "<h2>第"@ + decimal(c.number as nat) + "章："@ + escaped(c.title)
        + "</h2>\n"@ + verses_html(c.verses) + "</div>\n"@
}

pub open spec fn chapters_html(cs: Seq<ChapterModel>) -> Seq<char>
    decreases cs.len(),
{
    if cs.len() == 0 {
        Seq::empty()
    } else {
        chapters_html(cs.drop_last()) + chapter_html(cs.last())
    }
}

#[verifier::rlimit(40)]
fn push_chapter(out: &mut String, ch: &Chapter)
    ensures
        final(out)@ == old(out)@ + chapter_html(ch@),
{
    let ghost vs = ch@.verses;
    out.append("<div class=\"chapter\">\n");
    out.append("<h2>第");
    push_decimal(out, ch.number);
    out.append("章：");
    push_escaped(out, ch.title.as_str());
    out.append("</h2>\n");
    let ghost start = out@;
    let mut last_ch_num: u32 = 0;
    let mut i: usize = 0;
    assert(vs.take(0) =~= Seq::<VerseModel>::empty());
    while i < ch.verses.len()
        invariant
            0 <= i <= ch.verses@.len(),
            vs == ch@.verses,
            vs.len() == ch.verses@.len(),
            out@ == start + verses_html(vs.take(i as int)),
            last_ch_num == (if i > 0 {
                vs[i - 1].chapter_num
            } else {
                0
            }),
        decreases ch.verses@.len() - i,
    {
        let v = &ch.verses[i];
        let ghost before = out@;
        assert(vs[i as int] == v@);
        let show_ch = v.chapter_num != last_ch_num;
        if show_ch {
            last_ch_num = v.chapter_num;
        }
        out.append("<p class=\"verse\">");
        out.append("<sup class=\"verse-num\">");
        if show_ch {
            push_decimal(out, v.chapter_num);
            out.append(":");
            push_decimal(out, v.verse_num);
        } else {
            push_decimal(out, v.verse_num);
        }
        out.append("</sup>");
        let body = render_verse_html(v.text.as_str());
        out.append(body.as_str());
        out.append("</p>\n");
        proof {
            let t = vs.take(i + 1);
            assert(t.drop_last() =~= vs.take(i as int));
            assert(t.last() == v@);
            assert(prev_chapter(t) == (if i > 0 { vs[i - 1].chapter_num } else { 0u32 }));
            assert(out@ =~= before + verse_line(v@, prev_chapter(t)));
        }
        i = i + 1;
    }
    assert(vs.take(ch.verses@.len() as int) =~= vs);
    out.append("</div>\n");
    assert(out@ =~= old(out)@ + chapter_html(ch@));
}

/// The main part of a book page: its heading and its chapters.
pub open spec fn book_main(b: BookModel) -> Seq<char> {
    "<main>\n"@ + "<div class=\"book-title\">\n"@ + "<h1>卷"@ + decimal(b.number as nat) + "："@
        + escaped(b.title_cn) + " ("@ + escaped(b.title_en) + ")</h1>\n"@ + "</div>\n"@
        + chapters_html(b.chapters)
}

fn push_book_main(out: &mut String, book: &Book)
    ensures
        final(out)@ == old(out)@ + book_main(book@),
{
    let ghost cs = book@.chapters;
    out.append("<main>\n");
    out.append("<div class=\"book-title\">\n");
    out.append("<h1>卷");
    push_decimal(out, book.number);
    out.append("：");
    push_escaped(out, book.title_cn.as_str());
    out.append(" (");
    push_escaped(out, book.title_en.as_str());
    out.append(")</h1>\n");
    out.append("</div>\n");
    let ghost start = out@;
    let mut i: usize = 0;
    assert(cs.take(0) =~= Seq::<ChapterModel>::empty());
    while i < book.chapters.len()
        invariant
            0 <= i <= book.chapters@.len(),
            cs == book@.chapters,
            cs.len() == book.chapters@.len(),
            out@ == start + chapters_html(cs.take(i as int)),
        decreases book.chapters@.len() - i,
    {
        let ghost before = out@;
        push_chapter(out, &book.chapters[i]);
        proof {
            let t = cs.take(i + 1);
            assert(t.drop_last() =~= cs.take(i as int));
            assert(t.last() == book.chapters@[i as int]@);
            assert(out@ =~= start + chapters_html(t));
        }
        i = i + 1;
    }
    assert(cs.take(book.chapters@.len() as int) =~= cs);
    assert(out@ =~= old(out)@ + book_main(book@));
}

/// The page of `book`, with a navigation bar over `all_books`.
pub open spec fn book_page(b: BookModel, all: Seq<BookModel>) -> Seq<char> {
    page_start() + "<title>"@ + escaped(b.title_cn) + " —— 计算机嘉豪福音</title>\n"@ + page_style()
        + nav_bar(all, b.filename) + book_main(b) + page_end()
}

/// Renders the page of one book.
pub fn generate_book_page(book: &Book, all_books: &[Book]) -> (html: String)
    ensures
        html@ == book_page(book@, book_models(all_books@)),
{
    let mut html = String::new();
    push_page_start(&mut html);
    html.append("<title>");
    push_escaped(&mut html, book.title_cn.as_str());
    html.append(" —— 计算机嘉豪福音</title>\n");
    push_page_style(&mut html);
    push_nav_bar(&mut html, all_books, &book.filename);
    push_book_main(&mut html, book);
    push_page_end(&mut html);
    assert(html@ =~= book_page(book@, book_models(all_books@)));
    html
}

/// The entry of one book in the table of contents.
pub open spec fn toc_entry(b: BookModel) -> Seq<char> {
    "<li>"@ + "<a href=\""@ + b.filename + ".html\"><span class=\"num\">卷"@ + decimal(
        b.number as nat,
    ) + "</span>"@ + escaped(b.title_cn) + "</a>\n"@ + "</li>\n"@
}

pub open spec fn toc_entries(bs: Seq<BookModel>) -> Seq<char>
    decreases bs.len(),
{
    if bs.len() == 0 {
        Seq::empty()
    } else {
        toc_entries(bs.drop_last()) + toc_entry(bs.last())
    }
}

/// The index page: a title, an epigraph and the table of contents.
pub open spec fn index_page(all: Seq<BookModel>) -> Seq<char> {
    page_start() + "<title>计算机嘉豪福音 — 正典全集</title>\n"@ + page_style()
        + "<main class=\"index-main\">\n"@ + "<h1>📖 计算机嘉豪福音</h1>\n"@
        + "<p class=\"subtitle\">The Gospel of Computer Jiahao</p>\n"@
        + "<p class=\"verse-quote\">起初，嘉豪面对漆黑的终端，屏幕渊面混沌。<br>嘉豪的灵运行在键盘之上。</p>\n"@
        + "<ul class=\"toc\">\n"@ + toc_entries(all) + "</ul>\n"@ + page_end()
}

/// Renders the index page.
pub fn generate_index(all_books: &[Book]) -> (html: String)
    ensures
        html@ == index_page(book_models(all_books@)),
{
    let ghost bs = book_models(all_books@);
    let mut html = String::new();
    push_page_start(&mut html);
    html.append("<title>计算机嘉豪福音 — 正典全集</title>\n");
    push_page_style(&mut html);
    html.append("<main class=\"index-main\">\n");
    html.append("<h1>📖 计算机嘉豪福音</h1>\n");
    html.append("<p class=\"subtitle\">The Gospel of Computer Jiahao</p>\n");
    html.append(
        "<p class=\"verse-quote\">起初，嘉豪面对漆黑的终端，屏幕渊面混沌。<br>嘉豪的灵运行在键盘之上。</p>\n",
    );
    html.append("<ul class=\"toc\">\n");
    let ghost start = html@;
    let mut i: usize = 0;
    assert(bs.take(0) =~= Seq::<BookModel>::empty());
    while i < all_books.len()
        invariant
            0 <= i <= all_books@.len(),
            bs == book_models(all_books@),
            html@ == start + toc_entries(bs.take(i as int)),
        decreases all_books@.len() - i,
    {
        let b = &all_books[i];
        let ghost before = html@;
        html.append("<li>");
        html.append("<a href=\"");
        html.append(b.filename.as_str());
        html.append(".html\"><span class=\"num\">卷");
        push_decimal(&mut html, b.number);
        html.append("</span>");
        push_escaped(&mut html, b.title_cn.as_str());
        html.append("</a>\n");
        html.append("</li>\n");
        proof {
            assert(bs[i as int] == b@);
            let t = bs.take(i + 1);
            assert(t.drop_last() =~= bs.take(i as int));
            assert(html@ =~= before + toc_entry(b@));
        }
        i = i + 1;
    }
    assert(bs.take(all_books@.len() as int) =~= bs);
    html.append("</ul>\n");
    push_page_end(&mut html);
    assert(html@ =~= index_page(bs));
    html
}

/// Code spans opened minus code spans closed in `ps`.
pub open spec fn code_depth(ps: Seq<Piece>) -> int
    decreases ps.len(),
{
    if ps.len() == 0 {
        0
    } else {
        code_depth(ps.drop_last()) + match ps.last() {
            Piece::OpenCode => 1int,
            Piece::CloseCode => -1int,
            _ => 0int,
        }
    }
}

proof fn lemma_verse_pieces_depth(s: Seq<char>)
    ensures
        verse_pieces(s).len() == s.len(),
        code_depth(verse_pieces(s)) == if in_code_after(s) {
            1int
        } else {
            0int
        },
    decreases s.len(),
{
    if s.len() > 0 {
        lemma_verse_pieces_depth(s.drop_last());
        let ps = verse_pieces(s);
        assert(ps.drop_last() =~= verse_pieces(s.drop_last()));
    }
}

proof fn lemma_verse_pieces_prefix(s: Seq<char>, k: int)
    requires
        0 <= k <= s.len(),
    ensures
        verse_pieces(s).take(k) == verse_pieces(s.take(k)),
    decreases s.len(),
{
    lemma_verse_pieces_depth(s);
    if k < s.len() {
        lemma_verse_pieces_prefix(s.drop_last(), k);
        assert(s.drop_last().take(k) =~= s.take(k));
        assert(verse_pieces(s).take(k) =~= verse_pieces(s.drop_last()).take(k));
    } else {
        assert(s.take(k) =~= s);
        assert(verse_pieces(s).take(k) =~= verse_pieces(s));
    }
}

/// Law: the code spans of a rendered verse are balanced and never nested:
/// every `<code>` is closed by a `</code>`, and no `</code>` comes without an
/// open `<code>`.
pub proof fn law_code_spans_balanced(s: Seq<char>)
    ensures
        code_depth(rendered_pieces(s)) == 0,
        forall|k: int|
            0 <= k <= rendered_pieces(s).len() ==> 0 <= #[trigger] code_depth(
                rendered_pieces(s).take(k),
            ) <= 1,
{
    lemma_verse_pieces_depth(s);
    let ps = rendered_pieces(s);
    if in_code_after(s) {
        assert(ps.drop_last() =~= verse_pieces(s));
    }
    assert forall|k: int| 0 <= k <= ps.len() implies 0 <= #[trigger] code_depth(ps.take(k)) <= 1 by {
        if k <= s.len() {
            lemma_verse_pieces_prefix(s, k);
            lemma_verse_pieces_depth(s.take(k));
            assert(ps.take(k) =~= verse_pieces(s).take(k));
        } else {
            assert(ps.take(k) =~= ps);
        }
    }
}

/// Law: a verse text without backticks and line feeds is rendered as its
/// escaped text.
pub proof fn law_plain_verse_is_escaped(s: Seq<char>)
    requires
        forall|i: int| 0 <= i < s.len() ==> #[trigger] s[i] != '`' && s[i] != '\n',
    ensures
        verse_html(s) == escaped(s),
        !in_code_after(s),
    decreases s.len(),
{
    if s.len() > 0 {
        let t = s.drop_last();
        assert forall|i: int| 0 <= i < t.len() implies #[trigger] t[i] != '`' && t[i] != '\n' by {
            assert(t[i] == s[i]);
        }
        law_plain_verse_is_escaped(t);
        assert(s.last() == s[s.len() - 1]);
        let ps = verse_pieces(s);
        assert(ps.drop_last() =~= verse_pieces(t));
    }
}

/// Law: escaped text holds no `<`, `>` or `"`, so it cannot open or close a tag
/// or end an attribute value.
pub proof fn law_escaped_has_no_markup(s: Seq<char>)
    ensures
        forall|i: int|
            0 <= i < escaped(s).len() ==> #[trigger] escaped(s)[i] != '<' && escaped(s)[i] != '>'
                && escaped(s)[i] != '"',
    decreases s.len(),
{
    reveal_strlit("&amp;");
    reveal_strlit("&lt;");
    reveal_strlit("&gt;");
    reveal_strlit("&quot;");
    if s.len() > 0 {
        law_escaped_has_no_markup(s.drop_last());
        let a = escaped(s.drop_last());
        let b = escape_char(s.last());
        assert forall|i: int| 0 <= i < b.len() implies #[trigger] b[i] != '<' && b[i] != '>' && b[i]
            != '"' by {}
        assert forall|i: int| 0 <= i < escaped(s).len() implies #[trigger] escaped(s)[i] != '<'
            && escaped(s)[i] != '>' && escaped(s)[i] != '"' by {
            if i < a.len() {
                assert(escaped(s)[i] == a[i]);
            } else {
                assert(escaped(s)[i] == b[i - a.len()]);
            }
        }
    }
}

/// Law: the chapters of a book page come in the order of the book's chapters:
/// the HTML of two runs of chapters one after the other is the HTML of the first
/// run followed by that of the second, and one chapter gives its own section.
pub proof fn law_chapters_in_order(cs1: Seq<ChapterModel>, cs2: Seq<ChapterModel>)
    ensures
        chapters_html(cs1 + cs2) == chapters_html(cs1) + chapters_html(cs2),
        forall|c: ChapterModel| #[trigger] chapters_html(seq![c]) == chapter_html(c),
    decreases cs2.len(),
{
    assert forall|c: ChapterModel| #[trigger] chapters_html(seq![c]) == chapter_html(c) by {
        assert(seq![c].drop_last() =~= Seq::<ChapterModel>::empty());
        assert(chapters_html(Seq::<ChapterModel>::empty()) =~= Seq::<char>::empty());
        assert(chapters_html(seq![c]) =~= Seq::<char>::empty() + chapter_html(c));
    }
    if cs2.len() == 0 {
        assert(cs1 + cs2 =~= cs1);
        assert(chapters_html(cs1) + chapters_html(cs2) =~= chapters_html(cs1));
    } else {
        law_chapters_in_order(cs1, cs2.drop_last());
        assert((cs1 + cs2).drop_last() =~= cs1 + cs2.drop_last());
        assert((cs1 + cs2).last() == cs2.last());
        assert(chapters_html(cs1 + cs2) =~= chapters_html(cs1) + chapters_html(cs2));
    }
}

/// Law: the table of contents lists the books in order: the entries of two runs
/// of books one after the other are those of the first run followed by those of
/// the second, and one book gives its own entry.
pub proof fn law_toc_in_order(bs1: Seq<BookModel>, bs2: Seq<BookModel>)
    ensures
        toc_entries(bs1 + bs2) == toc_entries(bs1) + toc_entries(bs2),
        forall|b: BookModel| #[trigger] toc_entries(seq![b]) == toc_entry(b),
    decreases bs2.len(),
{
    assert forall|b: BookModel| #[trigger] toc_entries(seq![b]) == toc_entry(b) by {
        assert(seq![b].drop_last() =~= Seq::<BookModel>::empty());
        assert(toc_entries(Seq::<BookModel>::empty()) =~= Seq::<char>::empty());
        assert(toc_entries(seq![b]) =~= Seq::<char>::empty() + toc_entry(b));
    }
    if bs2.len() == 0 {
        assert(bs1 + bs2 =~= bs1);
        assert(toc_entries(bs1) + toc_entries(bs2) =~= toc_entries(bs1));
    } else {
        law_toc_in_order(bs1, bs2.drop_last());
        assert((bs1 + bs2).drop_last() =~= bs1 + bs2.drop_last());
        assert((bs1 + bs2).last() == bs2.last());
        assert(toc_entries(bs1 + bs2) =~= toc_entries(bs1) + toc_entries(bs2));
    }
}

/// Law: the verses of a chapter come in order: the lines of the first `k`
/// verses start the lines of all of them.
pub proof fn law_verses_in_order(vs: Seq<VerseModel>, k: int)
    requires
        0 <= k <= vs.len(),
    ensures
        verses_html(vs.take(k)).len() <= verses_html(vs).len(),
        verses_html(vs).subrange(0, verses_html(vs.take(k)).len() as int) == verses_html(vs.take(k)),
    decreases vs.len(),
{
    if k == vs.len() {
        assert(vs.take(k) =~= vs);
        assert(verses_html(vs).subrange(0, verses_html(vs).len() as int) =~= verses_html(vs));
    } else {
        law_verses_in_order(vs.drop_last(), k);
        assert(vs.drop_last().take(k) =~= vs.take(k));
        let a = verses_html(vs.drop_last());
        let b = verses_html(vs.take(k));
        assert(verses_html(vs).subrange(0, b.len() as int) =~= a.subrange(0, b.len() as int));
    }
}

/// Law: the links of the navigation bar come in the order of the books: the
/// links to the first `k` books start the links to all of them.
pub proof fn law_nav_links_in_order(bs: Seq<BookModel>, active: Seq<char>, k: int)
    requires
        0 <= k <= bs.len(),
    ensures
        nav_links(bs.take(k), active).len() <= nav_links(bs, active).len(),
        nav_links(bs, active).subrange(0, nav_links(bs.take(k), active).len() as int) == nav_links(
            bs.take(k),
            active,
        ),
    decreases bs.len(),
{
    if k == bs.len() {
        assert(bs.take(k) =~= bs);
        assert(nav_links(bs, active).subrange(0, nav_links(bs, active).len() as int) =~= nav_links(
            bs,
            active,
        ));
    } else {
        law_nav_links_in_order(bs.drop_last(), active, k);
        assert(bs.drop_last().take(k) =~= bs.take(k));
        let a = nav_links(bs.drop_last(), active);
        let b = nav_links(bs.take(k), active);
        assert(nav_links(bs, active).subrange(0, b.len() as int) =~= a.subrange(0, b.len() as int));
    }
}

/// How many times `c` occurs in `s`.
pub open spec fn count_char(s: Seq<char>, c: char) -> nat
    decreases s.len(),
{
    if s.len() == 0 {
        0
    } else {
        count_char(s.drop_last(), c) + if s.last() == c {
            1nat
        } else {
            0nat
        }
    }
}

/// How many line breaks `ps` holds.
pub open spec fn count_breaks(ps: Seq<Piece>) -> nat
    decreases ps.len(),
{
    if ps.len() == 0 {
        0
    } else {
        count_breaks(ps.drop_last()) + if ps.last() is LineBreak {
            1nat
        } else {
            0nat
        }
    }
}

proof fn lemma_pieces_text_no_line_feed(ps: Seq<Piece>)
    requires
        forall|i: int| 0 <= i < ps.len() ==> #[trigger] ps[i] != Piece::Text('\n'),
    ensures
        forall|j: int| 0 <= j < pieces_text(ps).len() ==> #[trigger] pieces_text(ps)[j] != '\n',
    decreases ps.len(),
{
    reveal_strlit("<code>");
    reveal_strlit("</code>");
    reveal_strlit("<br>");
    reveal_strlit("&amp;");
    reveal_strlit("&lt;");
    reveal_strlit("&gt;");
    reveal_strlit("&quot;");
    if ps.len() > 0 {
        let init = ps.drop_last();
        assert forall|i: int| 0 <= i < init.len() implies #[trigger] init[i] != Piece::Text('\n') by {
            assert(init[i] == ps[i]);
        }
        lemma_pieces_text_no_line_feed(init);
        let a = pieces_text(init);
        let b = piece_text(ps.last());
        assert(ps.last() == ps[ps.len() - 1]);
        assert forall|j: int| 0 <= j < b.len() implies #[trigger] b[j] != '\n' by {}
        assert forall|j: int| 0 <= j < pieces_text(ps).len() implies #[trigger] pieces_text(ps)[j]
            != '\n' by {
            if j < a.len() {
                assert(pieces_text(ps)[j] == a[j]);
            } else {
                assert(pieces_text(ps)[j] == b[j - a.len()]);
            }
        }
    }
}

proof fn lemma_verse_pieces_breaks(s: Seq<char>)
    ensures
        verse_pieces(s).len() == s.len(),
        forall|i: int| 0 <= i < verse_pieces(s).len() ==> #[trigger] verse_pieces(s)[i] != Piece::Text('\n'),
        count_breaks(verse_pieces(s)) == count_char(s, '\n'),
    decreases s.len(),
{
    if s.len() > 0 {
        lemma_verse_pieces_breaks(s.drop_last());
        let ps = verse_pieces(s);
        assert(ps.drop_last() =~= verse_pieces(s.drop_last()));
        assert forall|i: int| 0 <= i < ps.len() implies #[trigger] ps[i] != Piece::Text('\n') by {
            if i < ps.len() - 1 {
                assert(ps[i] == verse_pieces(s.drop_last())[i]);
            }
        }
    }
}

/// Law: every line feed of a verse text becomes a line break, inside a code
/// span or not: the rendered verse holds no line feed, and as many line breaks as
/// the text holds line feeds.
pub proof fn law_line_feeds_become_breaks(s: Seq<char>)
    ensures
        forall|j: int| 0 <= j < verse_html(s).len() ==> #[trigger] verse_html(s)[j] != '\n',
        count_breaks(rendered_pieces(s)) == count_char(s, '\n'),
{
    lemma_verse_pieces_breaks(s);
    let ps = rendered_pieces(s);
    if in_code_after(s) {
        assert(ps.drop_last() =~= verse_pieces(s));
        assert forall|i: int| 0 <= i < ps.len() implies #[trigger] ps[i] != Piece::Text('\n') by {
            if i < ps.len() - 1 {
                assert(ps[i] == verse_pieces(s)[i]);
            }
        }
    }
    lemma_pieces_text_no_line_feed(ps);
}

/// Law: escaping changes exactly `&`, `<`, `>` and `"`, into their entities, and
/// keeps every other character as it is.
pub proof fn law_escape_table(c: char)
    ensures
        escaped(seq![c]) == if c == '&' {
            "&amp;"@
        } else if c == '<' {
            "&lt;"@
        } else if c == '>' {
            "&gt;"@
        } else if c == '"' {
            "&quot;"@
        } else {
            seq![c]
        },
        c != '&' && c != '<' && c != '>' && c != '"' ==> escaped(seq![c]) == seq![c],
{
    reveal_strlit("&amp;");
    reveal_strlit("&lt;");
    reveal_strlit("&gt;");
    reveal_strlit("&quot;");
    assert(seq![c].drop_last() =~= Seq::<char>::empty());
    assert(escaped(Seq::<char>::empty()) =~= Seq::<char>::empty());
    assert(escaped(seq![c]) =~= Seq::<char>::empty() + escape_char(c));
    assert(escaped(seq![c]) =~= escape_char(c));
    assert("&amp;"@ =~= seq!['&', 'a', 'm', 'p', ';']);
    assert("&lt;"@ =~= seq!['&', 'l', 't', ';']);
    assert("&gt;"@ =~= seq!['&', 'g', 't', ';']);
    assert("&quot;"@ =~= seq!['&', 'q', 'u', 'o', 't', ';']);
}

} // verus!
