use zipsurf::color::{parse_color, Color};
use zipsurf::strmap::StrMap;
use zipsurf::text::{
    chars_of, find_char, is_blank, is_literal, lower, quotes_stripped, split_whitespace, string_of,
    string_of_range,
};
use zipsurf::units::{
    digit_of, format_px, parse_decimal, read_percent, read_pixels, scale, written_as_percentage,
};

fn px(s: &str) -> Option<u64> {
    read_pixels(&s.to_string())
}

fn pct(s: &str) -> Option<u64> {
    read_percent(&s.to_string())
}

#[test]
fn pixels_are_read_in_thousandths() {
    assert_eq!(px("16px"), Some(16000));
    assert_eq!(px("1.5px"), Some(1500));
    assert_eq!(px("0.005px"), Some(5));
    assert_eq!(px("1.2349px"), Some(1234));
    assert_eq!(px(".5px"), Some(500));
    assert_eq!(px("5.px"), Some(5000));
    assert_eq!(px("007px"), Some(7000));
    assert_eq!(px("1000000px"), Some(1000000000));
    assert_eq!(px("1000000.999px"), Some(1000000999));
}

#[test]
fn pixels_that_cannot_be_read() {
    assert_eq!(px("px"), None);
    assert_eq!(px(".px"), None);
    assert_eq!(px("16"), None);
    assert_eq!(px("16pt"), None);
    assert_eq!(px("-1px"), None);
    assert_eq!(px("+1px"), None);
    assert_eq!(px("1e3px"), None);
    assert_eq!(px("1.2.3px"), None);
    assert_eq!(px("1 px"), None);
    assert_eq!(px("1000001px"), None);
    assert_eq!(px("99999999999999999999999999px"), None);
    assert_eq!(px(""), None);
}

#[test]
fn percent_is_read_in_thousandths() {
    assert_eq!(pct("50%"), Some(50000));
    assert_eq!(pct("62.5%"), Some(62500));
    assert_eq!(pct("%"), None);
    assert_eq!(pct("50"), None);
    assert_eq!(pct("5%0%"), None);
    assert!(written_as_percentage(&"x%".to_string()));
    assert!(!written_as_percentage(&"%x".to_string()));
    assert!(!written_as_percentage(&"".to_string()));
}

#[test]
fn lengths_are_written_without_needless_digits() {
    assert_eq!(format_px(16000), "16px");
    assert_eq!(format_px(1500), "1.5px");
    assert_eq!(format_px(1050), "1.05px");
    assert_eq!(format_px(1005), "1.005px");
    assert_eq!(format_px(5), "0.005px");
    assert_eq!(format_px(120), "0.12px");
    assert_eq!(format_px(0), "0px");
    assert_eq!(format_px(1234567), "1234.567px");
    assert_eq!(format_px(u64::MAX), "18446744073709551.615px");
}

#[test]
fn what_is_written_reads_back() {
    for v in [0u64, 1, 10, 100, 999, 1000, 1001, 16000, 14400, 5333, 1000000999] {
        assert_eq!(read_pixels(&format_px(v)), Some(v));
    }
}

#[test]
fn scale_takes_a_share() {
    assert_eq!(scale(16000, 200000), 32000);
    assert_eq!(scale(32000, 50000), 16000);
    assert_eq!(scale(16000, 33333), 5333);
    assert_eq!(scale(0, 50000), 0);
    assert_eq!(scale(1000000999, 1000000999), 10000019980009);
}

#[test]
fn decimal_of_a_range() {
    let v = chars_of("ab12.5cd");
    assert_eq!(parse_decimal(&v, 2, 6), Some(12500));
    assert_eq!(parse_decimal(&v, 2, 4), Some(12000));
    assert_eq!(parse_decimal(&v, 1, 4), None);
    assert_eq!(parse_decimal(&v, 3, 3), None);
    assert_eq!(digit_of('7'), Some(7));
    assert_eq!(digit_of('a'), None);
    assert_eq!(digit_of('\u{0663}'), None);
}

#[test]
fn colors_by_name_and_by_number() {
    let c = |s: &str| parse_color(&s.to_string());
    assert_eq!(c("#ff0080"), Some(Color { r: 255, g: 0, b: 128, a: 255 }));
    assert_eq!(c("#FF0080"), Some(Color { r: 255, g: 0, b: 128, a: 255 }));
    assert_eq!(c("#0a0B0c"), Some(Color { r: 10, g: 11, b: 12, a: 255 }));
    assert_eq!(c("red"), Some(Color { r: 255, g: 0, b: 0, a: 255 }));
    assert_eq!(c("green"), Some(Color { r: 0, g: 128, b: 0, a: 255 }));
    assert_eq!(c("lightblue"), Some(Color { r: 173, g: 216, b: 230, a: 255 }));
    assert_eq!(c("gray"), Some(Color { r: 128, g: 128, b: 128, a: 255 }));
    assert_eq!(c("transparent"), Some(Color { r: 0, g: 0, b: 0, a: 0 }));
    assert_eq!(c("#fff"), None);
    assert_eq!(c("#gggggg"), None);
    assert_eq!(c("#ff00800"), None);
    assert_eq!(c("Red"), None);
    assert_eq!(c(""), None);
}

#[test]
fn strmap_binds_and_replaces() {
    let mut m = StrMap::new();
    assert!(m.is_empty());
    assert_eq!(m.get("a"), None);
    m.insert("a".to_string(), "1".to_string());
    m.insert("b".to_string(), "2".to_string());
    m.insert("a".to_string(), "3".to_string());
    assert!(!m.is_empty());
    assert_eq!(m.get("a").unwrap(), "3");
    assert_eq!(m.get("b").unwrap(), "2");
    assert!(m.contains_key("b"));
    assert!(!m.contains_key("c"));
    let copy = m.clone();
    assert_eq!(copy.get("a").unwrap(), "3");
}

#[test]
fn strmap_extend_prefers_the_other() {
    let mut m = StrMap::new();
    m.insert("a".to_string(), "1".to_string());
    m.insert("b".to_string(), "2".to_string());
    let mut other = StrMap::new();
    other.insert("b".to_string(), "3".to_string());
    other.insert("c".to_string(), "4".to_string());
    m.extend(&other);
    assert_eq!(m.get("a").unwrap(), "1");
    assert_eq!(m.get("b").unwrap(), "3");
    assert_eq!(m.get("c").unwrap(), "4");
    assert_eq!(other.get("a"), None);
}

#[test]
fn text_helpers() {
    let v = chars_of("  a\u{e9}b \t c\n");
    assert_eq!(v.len(), 10);
    assert_eq!(string_of(&v), "  a\u{e9}b \t c\n");
    assert_eq!(string_of_range(&v, 2, 5), "a\u{e9}b");
    assert_eq!(split_whitespace(&v), vec!["a\u{e9}b", "c"]);
    assert!(split_whitespace(&chars_of(" \n ")).is_empty());
    assert!(is_blank(&chars_of(" \t\r\n\u{a0}")));
    assert!(is_blank(&chars_of("")));
    assert!(!is_blank(&v));
    assert_eq!(find_char(&v, 'b'), 4);
    assert_eq!(find_char(&v, 'z'), 10);
    assert!(is_literal(&"html".to_string(), "html"));
    assert!(!is_literal(&"html".to_string(), "htm"));
    assert_eq!(lower(&"DiV \u{c9}".to_string()), "div \u{e9}");
}

#[test]
fn quotes_at_either_end() {
    let v = chars_of("'\"a'b\"'");
    assert_eq!(quotes_stripped(&v), (2, 5));
    let all = chars_of("''\"");
    let (a, b) = quotes_stripped(&all);
    assert_eq!(a, b);
    assert_eq!(quotes_stripped(&chars_of("plain")), (0, 5));
    assert_eq!(quotes_stripped(&chars_of("")), (0, 0));
}

fn in_white_space_set(c: char) -> bool {
    matches!(
        c,
        '\u{9}'..='\u{d}'
            | ' '
            | '\u{85}'
            | '\u{a0}'
            | '\u{1680}'
            | '\u{2000}'..='\u{200a}'
            | '\u{2028}'
            | '\u{2029}'
            | '\u{202f}'
            | '\u{205f}'
            | '\u{3000}'
    )
}

#[test]
fn white_space_is_the_listed_set() {
    let mut count = 0;
    for code in 0..=0x10ffffu32 {
        if let Some(c) = char::from_u32(code) {
            assert_eq!(c.is_whitespace(), in_white_space_set(c), "U+{:04X}", code);
            assert_eq!(is_blank(&vec![c]), in_white_space_set(c), "U+{:04X}", code);
            if in_white_space_set(c) {
                count += 1;
            }
        }
    }
    assert_eq!(count, 25);
}

#[test]
fn ascii_letters_and_digits_are_alphanumeric() {
    for code in 0..128u8 {
        let c = code as char;
        let expected = matches!(c, 'a'..='z' | 'A'..='Z' | '0'..='9');
        assert_eq!(c.is_alphanumeric(), expected, "{:?}", c);
    }
    assert!('\u{e9}'.is_alphanumeric());
    assert!(!'\u{2014}'.is_alphanumeric());
}

#[test]
fn ascii_is_lower_cased_letter_by_letter() {
    let all: String = (0..128u8).map(|b| b as char).collect();
    let expected: String = (0..128u8)
        .map(|b| if b.is_ascii_uppercase() { (b + 32) as char } else { b as char })
        .collect();
    assert_eq!(lower(&all), expected);
    assert_eq!(lower(&"IMG Alt-1".to_string()), "img alt-1");
    assert_eq!(lower(&"\u{c9}A".to_string()), "\u{e9}a");
}
