use gospel_render::digits::decimal_string;

#[test]
fn decimal_numerals() {
    assert_eq!(decimal_string(0), "0");
    assert_eq!(decimal_string(7), "7");
    assert_eq!(decimal_string(10), "10");
    assert_eq!(decimal_string(1234567), "1234567");
    assert_eq!(decimal_string(u32::MAX), "4294967295");
}

#[test]
fn decimal_numerals_match_formatting() {
    for n in (0..100_000u32).chain([u32::MAX - 1, u32::MAX, 1 << 31]) {
        assert_eq!(decimal_string(n), n.to_string());
        assert_eq!(decimal_string(n).parse::<u32>().unwrap(), n);
    }
}
