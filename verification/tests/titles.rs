use gospel_render::titles::{chinese_num_to_u32, parse_book_title, parse_chapter_title};
use std::collections::HashMap;

fn numeral_oracle(s: &str) -> Option<u32> {
    let map: HashMap<char, u32> = [
        ('一', 1),
        ('二', 2),
        ('三', 3),
        ('四', 4),
        ('五', 5),
        ('六', 6),
        ('七', 7),
        ('八', 8),
        ('九', 9),
        ('十', 10),
        ('百', 100),
    ]
    .into_iter()
    .collect();
    let chars: Vec<char> = s.chars().collect();
    if chars.is_empty() {
        return None;
    }
    if chars.len() == 1 {
        return map.get(&chars[0]).copied();
    }
    if chars.len() == 2 && chars[1] == '十' {
        return Some(map.get(&chars[0])? * 10);
    }
    if chars.len() == 2 && chars[0] == '十' {
        return Some(10 + map.get(&chars[1])?);
    }
    if chars.len() == 3 && chars[1] == '十' {
        return Some(map.get(&chars[0])? * 10 + map.get(&chars[2])?);
    }
    None
}

#[test]
fn chinese_numerals_single() {
    assert_eq!(chinese_num_to_u32("一"), Some(1));
    assert_eq!(chinese_num_to_u32("九"), Some(9));
    assert_eq!(chinese_num_to_u32("十"), Some(10));
    assert_eq!(chinese_num_to_u32("百"), Some(100));
    assert_eq!(chinese_num_to_u32("零"), None);
    assert_eq!(chinese_num_to_u32(""), None);
}

#[test]
fn chinese_numerals_compound() {
    assert_eq!(chinese_num_to_u32("十二"), Some(12));
    assert_eq!(chinese_num_to_u32("二十"), Some(20));
    assert_eq!(chinese_num_to_u32("三十七"), Some(37));
    assert_eq!(chinese_num_to_u32("九十九"), Some(99));
    assert_eq!(chinese_num_to_u32("十十"), Some(100));
    assert_eq!(chinese_num_to_u32("百十"), Some(1000));
    assert_eq!(chinese_num_to_u32("百十百"), Some(1100));
    assert_eq!(chinese_num_to_u32("二三"), None);
    assert_eq!(chinese_num_to_u32("x十"), None);
    assert_eq!(chinese_num_to_u32("一二三四"), None);
}

#[test]
fn chinese_numerals_agree_with_table_lookup() {
    let alphabet = ['一', '五', '九', '十', '百', 'a', '零'];
    let mut inputs: Vec<String> = vec![String::new()];
    for len in 1..=4 {
        let mut next = Vec::new();
        for s in inputs.iter().filter(|s| s.chars().count() == len - 1) {
            for c in alphabet {
                let mut t = s.clone();
                t.push(c);
                next.push(t);
            }
        }
        inputs.extend(next);
    }
    for s in &inputs {
        assert_eq!(chinese_num_to_u32(s), numeral_oracle(s), "input {:?}", s);
    }
}

#[test]
fn book_title_full_width_colon() {
    assert_eq!(
        parse_book_title("# 卷一：创世记 (Genesis)"),
        Some((1, "创世记".to_string(), "Genesis".to_string()))
    );
}

#[test]
fn book_title_ascii_colon_and_no_english() {
    assert_eq!(
        parse_book_title("#卷十二: 出埃及记"),
        Some((12, "出埃及记".to_string(), String::new()))
    );
}

#[test]
fn book_title_last_parenthesis_and_trailing_marks() {
    assert_eq!(
        parse_book_title("# 卷三：书 (甲) (Book (B)))"),
        Some((3, "书 (甲) (Book".to_string(), "B".to_string()))
    );
    assert_eq!(
        parse_book_title("## 卷二十：名字(Name"),
        Some((20, "名字".to_string(), "Name".to_string()))
    );
}

#[test]
fn book_title_full_width_colon_wins() {
    // The full-width colon is looked for first, even after an ASCII one.
    assert_eq!(parse_book_title("# 卷一:甲：乙"), None);
    assert_eq!(
        parse_book_title("# 一:甲：乙"),
        None
    );
    assert_eq!(
        parse_book_title("# 卷五：甲:乙"),
        Some((5, "甲:乙".to_string(), String::new()))
    );
}

#[test]
fn book_title_rejections() {
    assert_eq!(parse_book_title("# 卷一 创世记"), None);
    assert_eq!(parse_book_title("# 第一：创世记"), None);
    assert_eq!(parse_book_title(""), None);
}

#[test]
fn book_title_whitespace_is_unicode() {
    assert_eq!(
        parse_book_title("#\u{3000}卷七：\u{3000}名\u{3000}(En)\u{3000}"),
        Some((7, "名".to_string(), "En".to_string()))
    );
}

#[test]
fn chapter_title_forms() {
    assert_eq!(
        parse_chapter_title("## 第一章：起初"),
        Some((1, "起初".to_string()))
    );
    assert_eq!(
        parse_chapter_title("## 第十五章:  光 "),
        Some((15, "光".to_string()))
    );
    assert_eq!(parse_chapter_title("## 第三章"), Some((3, String::new())));
    assert_eq!(parse_chapter_title("## 二章 标题"), Some((2, "标题".to_string())));
    assert_eq!(parse_chapter_title("## 第四章：：双"), Some((4, "：双".to_string())));
}

#[test]
fn chapter_title_rejections() {
    assert_eq!(parse_chapter_title("## 序言"), None);
    assert_eq!(parse_chapter_title("## 第零章：无"), None);
    assert_eq!(parse_chapter_title("## 第章"), None);
}
