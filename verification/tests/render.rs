use gospel_render::book::{Book, Chapter, Verse};
use gospel_render::render::{
    generate_book_page, generate_index, html_escape, render_verse_html, STYLE_SHEET,
};

fn escape_oracle(s: &str) -> String {
    s.replace('&', "&amp;")
        .replace('<', "&lt;")
        .replace('>', "&gt;")
        .replace('"', "&quot;")
}

fn verse(chapter_num: u32, verse_num: u32, text: &str) -> Verse {
    Verse { chapter_num, verse_num, text: text.to_string() }
}

fn sample_book(filename: &str, number: u32, cn: &str) -> Book {
    Book {
        filename: filename.to_string(),
        number,
        title_cn: cn.to_string(),
        title_en: "A & B".to_string(),
        chapters: vec![Chapter {
            number: 1,
            title: "<起初>".to_string(),
            verses: vec![verse(1, 1, "a`b`c"), verse(1, 2, "d\ne"), verse(2, 1, "f"), verse(2, 1, "g")],
        }],
    }
}

#[test]
fn escapes_markup_characters() {
    assert_eq!(html_escape("a<b>&\"c\"'"), "a&lt;b&gt;&amp;&quot;c&quot;'");
    assert_eq!(html_escape("&amp;"), "&amp;amp;");
    assert_eq!(html_escape("普通文字"), "普通文字");
    assert_eq!(html_escape(""), "");
}

#[test]
fn escaping_agrees_with_successive_replacements() {
    for s in ["", "&", "<&>", "\"&lt;\"", "a&b<c>d\"e", "&&&<<<", "文&字"] {
        assert_eq!(html_escape(s), escape_oracle(s));
    }
}

#[test]
fn escaped_text_has_no_markup() {
    let e = html_escape("<script>alert(\"x\")</script>");
    assert!(!e.contains('<') && !e.contains('>') && !e.contains('"'));
}

#[test]
fn verse_code_spans_and_breaks() {
    assert_eq!(render_verse_html("用`cargo`编译"), "用<code>cargo</code>编译");
    assert_eq!(render_verse_html("一\n二"), "一<br>二");
    assert_eq!(render_verse_html("`<a>`"), "<code>&lt;a&gt;</code>");
    assert_eq!(render_verse_html("open `code"), "open <code>code</code>");
    assert_eq!(render_verse_html("``"), "<code></code>");
    assert_eq!(render_verse_html(""), "");
}

#[test]
fn plain_verse_is_escaped_text() {
    let t = "a < b & \"c\"";
    assert_eq!(render_verse_html(t), html_escape(t));
}

#[test]
fn code_tags_balance() {
    for t in ["`", "``", "```", "a`b`c`d", "`x\ny`z"] {
        let h = render_verse_html(t);
        assert_eq!(h.matches("<code>").count(), h.matches("</code>").count(), "{:?}", t);
    }
}

#[test]
fn book_page_exact() {
    let a = sample_book("01-genesis", 1, "创世记");
    let b = sample_book("02-exodus", 2, "出<埃及>记");
    let all = vec![a, b];
    let html = generate_book_page(&all[1], &all);
    let mut expected = String::new();
    expected.push_str("<!DOCTYPE html>\n<html lang=\"zh-CN\">\n<head>\n");
    expected.push_str("<meta charset=\"UTF-8\">\n");
    expected.push_str("<meta name=\"viewport\" content=\"width=device-width, initial-scale=1.0\">\n");
    expected.push_str("<title>出&lt;埃及&gt;记 —— 计算机嘉豪福音</title>\n");
    expected.push_str("<style>");
    expected.push_str(STYLE_SHEET);
    expected.push_str("</style>\n</head>\n<body>\n");
    expected.push_str("<nav class=\"top-nav\">\n");
    expected.push_str("<a href=\"index.html\">📖 目录</a>\n");
    expected.push_str("<span class=\"sep\">|</span>\n");
    expected.push_str("<a href=\"01-genesis.html\">1. 创世记</a>\n");
    expected.push_str("<span class=\"sep\">|</span>\n");
    expected.push_str("<a href=\"02-exodus.html\" class=\"active\">2. 出&lt;埃及&gt;记</a>\n");
    expected.push_str("</nav>\n");
    expected.push_str("<main>\n");
    expected.push_str("<div class=\"book-title\">\n");
    expected.push_str("<h1>卷2：出&lt;埃及&gt;记 (A &amp; B)</h1>\n");
    expected.push_str("</div>\n");
    expected.push_str("<div class=\"chapter\">\n");
    expected.push_str("<h2>第1章：&lt;起初&gt;</h2>\n");
    expected.push_str("<p class=\"verse\"><sup class=\"verse-num\">1:1</sup>a<code>b</code>c</p>\n");
    expected.push_str("<p class=\"verse\"><sup class=\"verse-num\">2</sup>d<br>e</p>\n");
    expected.push_str("<p class=\"verse\"><sup class=\"verse-num\">2:1</sup>f</p>\n");
    expected.push_str("<p class=\"verse\"><sup class=\"verse-num\">1</sup>g</p>\n");
    expected.push_str("</div>\n");
    expected.push_str("<footer>\n");
    expected.push_str("<p>《计算机嘉豪福音》—— 一部虚构的文学戏仿作品</p>\n");
    expected.push_str("<p>本作品采用 <a href=\"https://creativecommons.org/licenses/by-nc-sa/4.0/\">CC BY-NC-SA 4.0</a> 协议 | 经文由 Rust 重写世间一切而生成</p>\n");
    expected.push_str("</footer>\n");
    expected.push_str("</main>\n</body>\n</html>\n");
    assert_eq!(html, expected);
}

#[test]
fn verse_numbers_restart_chapter_label_from_zero() {
    let mut b = sample_book("x", 3, "书");
    b.chapters[0].verses = vec![verse(0, 5, "z"), verse(0, 6, "y")];
    let all = vec![b];
    let html = generate_book_page(&all[0], &all);
    assert!(html.contains("<sup class=\"verse-num\">5</sup>z"));
    assert!(html.contains("<sup class=\"verse-num\">6</sup>y"));
}

#[test]
fn index_page_exact() {
    let all = vec![sample_book("01-genesis", 1, "创世记"), sample_book("10-x", 10, "a&b")];
    let html = generate_index(&all);
    let mut expected = String::new();
    expected.push_str("<!DOCTYPE html>\n<html lang=\"zh-CN\">\n<head>\n");
    expected.push_str("<meta charset=\"UTF-8\">\n");
    expected.push_str("<meta name=\"viewport\" content=\"width=device-width, initial-scale=1.0\">\n");
    expected.push_str("<title>计算机嘉豪福音 — 正典全集</title>\n");
    expected.push_str("<style>");
    expected.push_str(STYLE_SHEET);
    expected.push_str("</style>\n</head>\n<body>\n");
    expected.push_str("<main class=\"index-main\">\n");
    expected.push_str("<h1>📖 计算机嘉豪福音</h1>\n");
    expected.push_str("<p class=\"subtitle\">The Gospel of Computer Jiahao</p>\n");
    expected.push_str("<p class=\"verse-quote\">起初，嘉豪面对漆黑的终端，屏幕渊面混沌。<br>嘉豪的灵运行在键盘之上。</p>\n");
    expected.push_str("<ul class=\"toc\">\n");
    expected.push_str("<li><a href=\"01-genesis.html\"><span class=\"num\">卷1</span>创世记</a>\n</li>\n");
    expected.push_str("<li><a href=\"10-x.html\"><span class=\"num\">卷10</span>a&amp;b</a>\n</li>\n");
    expected.push_str("</ul>\n");
    expected.push_str("<footer>\n");
    expected.push_str("<p>《计算机嘉豪福音》—— 一部虚构的文学戏仿作品</p>\n");
    expected.push_str("<p>本作品采用 <a href=\"https://creativecommons.org/licenses/by-nc-sa/4.0/\">CC BY-NC-SA 4.0</a> 协议 | 经文由 Rust 重写世间一切而生成</p>\n");
    expected.push_str("</footer>\n");
    expected.push_str("</main>\n</body>\n</html>\n");
    assert_eq!(html, expected);
}

#[test]
fn style_sheet_is_embedded() {
    assert!(STYLE_SHEET.starts_with("\n:root {"));
    assert!(STYLE_SHEET.contains(".verse-num::after { content: \" \"; }"));
    assert!(STYLE_SHEET.ends_with("footer a { color: var(--link); }\n"));
}
