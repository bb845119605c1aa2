use gospel_render::digits::decimal_string;
use gospel_render::verse::parse_verse_start;

fn reference_oracle(text: &str) -> Option<(u32, Vec<u32>, usize)> {
    let re = regex_lite::Regex::new(r"^(\d+):(\d+(?:,\d+)*)\s").ok()?;
    let caps = re.captures(text)?;
    let chapter: u32 = caps.get(1)?.as_str().parse().ok()?;
    let verse_str = caps.get(2)?.as_str();
    let verse_len = caps.get(0)?.end();
    let nums: Vec<u32> = verse_str
        .split(',')
        .filter_map(|s| s.parse().ok())
        .collect();
    if nums.is_empty() {
        return None;
    }
    Some((chapter, nums, verse_len))
}

#[test]
fn single_verse_reference() {
    assert_eq!(parse_verse_start("3:16 起初"), Some((3, vec![16], 5)));
}

#[test]
fn list_of_verses() {
    assert_eq!(parse_verse_start("12:1,2,30\t文"), Some((12, vec![1, 2, 30], 10)));
}

#[test]
fn leading_zeros_and_newline() {
    assert_eq!(parse_verse_start("007:010\nx"), Some((7, vec![10], 8)));
}

#[test]
fn malformed_references() {
    assert_eq!(parse_verse_start("3:16"), None);
    assert_eq!(parse_verse_start("3:16,"), None);
    assert_eq!(parse_verse_start("3:16, 17 x"), None);
    assert_eq!(parse_verse_start("3:1,,2 x"), None);
    assert_eq!(parse_verse_start(":16 x"), None);
    assert_eq!(parse_verse_start("a3:16 x"), None);
    assert_eq!(parse_verse_start(" 3:16 x"), None);
    assert_eq!(parse_verse_start("3:16\u{3000}x"), None);
    assert_eq!(parse_verse_start("３:16 x"), None);
}

#[test]
fn numbers_too_large() {
    assert_eq!(parse_verse_start("4294967296:1 x"), None);
    assert_eq!(parse_verse_start("4294967295:1 x"), Some((4294967295, vec![1], 13)));
    assert_eq!(parse_verse_start("1:4294967296 x"), None);
    assert_eq!(
        parse_verse_start("1:4294967296,5,99999999999 x"),
        Some((1, vec![5], 27))
    );
}

#[test]
fn offset_slices_the_verse_text() {
    let text = "2:3,4 在那里，有光。";
    let (_, _, off) = parse_verse_start(text).unwrap();
    assert_eq!(&text[off..], "在那里，有光。");
}

#[test]
fn written_reference_reads_back() {
    for (c, v) in [(0u32, 0u32), (1, 1), (9, 10), (123, 4567), (u32::MAX, u32::MAX)] {
        let text = format!("{}:{} 文字", decimal_string(c), decimal_string(v));
        let len = decimal_string(c).len() + decimal_string(v).len() + 2;
        assert_eq!(parse_verse_start(&text), Some((c, vec![v], len)));
    }
}

#[test]
fn agrees_with_the_pattern() {
    let pieces = ["1", "23", "0", "4294967296", ":", ",", " ", "\t", "\n", "a", "文", "\u{3000}", ""];
    let mut inputs: Vec<String> = vec![String::new()];
    for _ in 0..4 {
        let mut next = Vec::new();
        for s in &inputs {
            for p in pieces {
                next.push(format!("{}{}", s, p));
            }
        }
        inputs = next;
        inputs.sort();
        inputs.dedup();
    }
    for s in &inputs {
        assert_eq!(parse_verse_start(s), reference_oracle(s), "input {:?}", s);
    }
}
