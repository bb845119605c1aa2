use gospel_render::book::{Book, Chapter, Verse};
use gospel_render::markdown::{read_markdown_events, MdEvent};
use gospel_render::scan::{book_from_events, parse_book_markdown};

fn verses(ch: &Chapter) -> Vec<(u32, u32, String)> {
    ch.verses.iter().map(|v: &Verse| (v.chapter_num, v.verse_num, v.text.clone())).collect()
}

fn titles(b: &Book) -> Vec<(u32, String)> {
    b.chapters.iter().map(|c| (c.number, c.title.clone())).collect()
}

const SAMPLE: &str = "# 卷一：创世记 (Genesis)

开头的段落，没有经节。

## 第一章：起初

1:1 起初，嘉豪创造`Rust`。

1:2 地是空虚
混沌。

继续的文字。

## 第二章

2:1,2 两节同文。

## 不是章

3:1 在无名之章。
";

#[test]
fn reads_a_book() {
    let b = parse_book_markdown("01-genesis", SAMPLE).expect("a book");
    assert_eq!(b.filename, "01-genesis");
    assert_eq!(b.number, 1);
    assert_eq!(b.title_cn, "创世记");
    assert_eq!(b.title_en, "Genesis");
    assert_eq!(
        titles(&b),
        vec![(1, "起初".to_string()), (2, String::new()), (3, "不是章".to_string())]
    );
    assert_eq!(
        verses(&b.chapters[0]),
        vec![
            (1, 1, "起初，嘉豪创造`Rust`。".to_string()),
            (1, 2, "地是空虚\n混沌。 继续的文字。".to_string()),
        ]
    );
    assert_eq!(
        verses(&b.chapters[1]),
        vec![(2, 1, "两节同文。".to_string()), (2, 2, "两节同文。".to_string())]
    );
    assert_eq!(verses(&b.chapters[2]), vec![(3, 1, "在无名之章。".to_string())]);
}

#[test]
fn no_book_heading_no_book() {
    assert!(parse_book_markdown("x", "## 第一章\n\n1:1 文字\n").is_none());
    assert!(parse_book_markdown("x", "# 没有冒号\n\n1:1 文字\n").is_none());
    assert!(parse_book_markdown("x", "").is_none());
}

#[test]
fn verses_before_any_chapter_open_an_untitled_chapter() {
    let b = parse_book_markdown("x", "# 卷二：书\n\n5:7 文字\n\n更多\n").unwrap();
    assert_eq!(titles(&b), vec![(5, String::new())]);
    assert_eq!(verses(&b.chapters[0]), vec![(5, 7, "文字 更多".to_string())]);
}

#[test]
fn code_block_is_a_paragraph() {
    let b = parse_book_markdown("x", "# 卷三：书\n\n## 第一章\n\n```\n1:1 let x = 1;\n```\n").unwrap();
    assert_eq!(verses(&b.chapters[0]), vec![(1, 1, "let x = 1;".to_string())]);
}

#[test]
fn open_code_span_carries_into_the_next_paragraph() {
    let md = "# 卷一：书\n\n## 第一章\n\n1:1 看`x`\n\n1:2 y\n";
    let b = parse_book_markdown("x", md).unwrap();
    assert_eq!(verses(&b.chapters[0]), vec![(1, 1, "看`x `1:2 y".to_string())]);
}

#[test]
fn heading_code_loses_backticks() {
    let b = parse_book_markdown("x", "# 卷一：书\n\n## 第一章：`main` 函数\n").unwrap();
    assert_eq!(titles(&b), vec![(1, "main 函数".to_string())]);
}

#[test]
fn markdown_events_of_a_short_text() {
    let evs = read_markdown_events("# 卷一：书\n\n1:1 `a`\n");
    let kinds: Vec<String> = evs
        .iter()
        .map(|e| match e {
            MdEvent::HeadingStart(l) => format!("H{}", l),
            MdEvent::HeadingEnd => "/H".to_string(),
            MdEvent::ParagraphStart => "P".to_string(),
            MdEvent::ParagraphEnd => "/P".to_string(),
            MdEvent::CodeBlockStart => "CB".to_string(),
            MdEvent::CodeBlockEnd => "/CB".to_string(),
            MdEvent::Text(t) => format!("T:{}", t),
            MdEvent::Code(t) => format!("C:{}", t),
            MdEvent::Html(t) => format!("M:{}", t),
            MdEvent::InlineHtml(t) => format!("I:{}", t),
            MdEvent::SoftBreak => "SB".to_string(),
            MdEvent::HardBreak => "HB".to_string(),
            MdEvent::Other => "?".to_string(),
        })
        .collect();
    assert_eq!(kinds, vec!["H1", "T:卷一：书", "/H", "P", "T:1:1 ", "C:a", "/P"]);
    let evs = read_markdown_events("```\ncode\n```\n\na  \nb\nc <b>\n\n<div>\n");
    let kinds: Vec<String> = evs
        .iter()
        .map(|e| match e {
            MdEvent::CodeBlockStart => "CB".to_string(),
            MdEvent::CodeBlockEnd => "/CB".to_string(),
            MdEvent::ParagraphStart => "P".to_string(),
            MdEvent::ParagraphEnd => "/P".to_string(),
            MdEvent::Text(t) => format!("T:{}", t),
            MdEvent::Html(t) => format!("M:{}", t),
            MdEvent::InlineHtml(t) => format!("I:{}", t),
            MdEvent::SoftBreak => "SB".to_string(),
            MdEvent::HardBreak => "HB".to_string(),
            _ => "?".to_string(),
        })
        .collect();
    assert_eq!(
        kinds,
        vec!["CB", "T:code\n", "/CB", "P", "T:a", "HB", "T:b", "SB", "T:c ", "I:<b>", "/P", "?", "M:<div>\n", "?"]
    );
}

fn text(s: &str) -> MdEvent {
    MdEvent::Text(s.to_string())
}

#[test]
fn a_later_book_heading_starts_the_book_anew() {
    let evs = vec![
        MdEvent::HeadingStart(1),
        text("卷一：甲"),
        MdEvent::HeadingEnd,
        MdEvent::HeadingStart(2),
        text("第一章：一"),
        MdEvent::HeadingEnd,
        MdEvent::HeadingStart(2),
        text("第二章：二"),
        MdEvent::HeadingEnd,
        MdEvent::HeadingStart(1),
        text("卷二：乙 (B)"),
        MdEvent::HeadingEnd,
        MdEvent::ParagraphStart,
        text("  9:9 九  "),
        MdEvent::ParagraphEnd,
    ];
    let b = book_from_events("f", &evs).unwrap();
    assert_eq!(b.number, 2);
    assert_eq!(b.title_en, "B");
    assert_eq!(titles(&b), vec![(2, "二".to_string())]);
    assert_eq!(verses(&b.chapters[0]), vec![(9, 9, "九".to_string())]);
}

#[test]
fn html_and_breaks_in_paragraphs() {
    let evs = vec![
        MdEvent::HeadingStart(1),
        text("卷一：甲"),
        MdEvent::Html("<b>".to_string()),
        MdEvent::HeadingEnd,
        MdEvent::HeadingStart(3),
        text("第五章"),
        MdEvent::HeadingEnd,
        MdEvent::HeadingStart(2),
        MdEvent::HeadingEnd,
        MdEvent::ParagraphStart,
        text("1:1 a"),
        MdEvent::HardBreak,
        MdEvent::InlineHtml("<i>".to_string()),
        MdEvent::Other,
        MdEvent::Code("c".to_string()),
        MdEvent::ParagraphEnd,
        MdEvent::CodeBlockStart,
        text("x"),
        MdEvent::SoftBreak,
        text("y"),
        MdEvent::CodeBlockEnd,
    ];
    let b = book_from_events("f", &evs).unwrap();
    assert_eq!(titles(&b), vec![(1, String::new())]);
    assert_eq!(verses(&b.chapters[0]), vec![(1, 1, "a\n<i>`c `x\ny".to_string())]);
}
