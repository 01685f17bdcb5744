use zipsurf::css_parser::CssParser;
use zipsurf::selector::{Selector, SelectorType};
use zipsurf::strmap::StrMap;

fn show(s: &Selector) -> String {
    match &s.selector {
        SelectorType::Tag { tag } => tag.clone(),
        SelectorType::Descendant { ancestor, descendant } => {
            format!("({} {})", show(ancestor), show(descendant))
        }
    }
}

fn value(m: &StrMap, key: &str) -> Option<String> {
    m.get(key).cloned()
}

#[test]
fn parse_reads_rules_in_order() {
    let rules = CssParser::new("p { color: red; font-size: 12px; } h1{font-weight:bold}")
        .parse()
        .unwrap();
    assert_eq!(rules.len(), 2);
    assert_eq!(show(&rules[0].0), "p");
    assert_eq!(value(&rules[0].1, "color"), Some("red".to_string()));
    assert_eq!(value(&rules[0].1, "font-size"), Some("12px".to_string()));
    assert_eq!(show(&rules[1].0), "h1");
    assert_eq!(value(&rules[1].1, "font-weight"), Some("bold".to_string()));
}

#[test]
fn malformed_rule_is_skipped_and_parsing_goes_on() {
    let rules = CssParser::new("a{color:red;} b bad-decl c{font-size:1px;}")
        .parse()
        .unwrap();
    assert!(rules.len() >= 1);
    assert_eq!(show(&rules[0].0), "a");
    assert_eq!(value(&rules[0].1, "color"), Some("red".to_string()));
    // the words before the second block read as one selector
    assert_eq!(rules.len(), 2);
    assert_eq!(show(&rules[1].0), "((b bad-decl) c)");
    assert_eq!(value(&rules[1].1, "font-size"), Some("1px".to_string()));
}

#[test]
fn rule_that_cannot_be_read_is_skipped_to_the_next_brace() {
    let rules = CssParser::new("a{color:red;} {} ! x { color: blue } p{color:green;}")
        .parse()
        .unwrap();
    let shown: Vec<String> = rules.iter().map(|r| show(&r.0)).collect();
    assert_eq!(shown, vec!["a", "p"]);
    assert_eq!(value(&rules[1].1, "color"), Some("green".to_string()));
}

#[test]
fn sheet_without_a_closing_brace_keeps_what_was_read() {
    let rules = CssParser::new("a{color:red;} b{color:blue;").parse().unwrap();
    assert_eq!(rules.len(), 1);
    assert_eq!(show(&rules[0].0), "a");
}

#[test]
fn empty_sheet_has_no_rules() {
    assert_eq!(CssParser::new("").parse().unwrap().len(), 0);
    assert_eq!(CssParser::new("  \n ").parse().unwrap().len(), 0);
}

#[test]
fn descendant_selector_folds_to_the_left() {
    let rules = CssParser::new("DIV p  span {color:red}").parse().unwrap();
    assert_eq!(rules.len(), 1);
    assert_eq!(show(&rules[0].0), "((div p) span)");
    assert_eq!(rules[0].0.priority(), 3);
}

#[test]
fn declaration_that_cannot_be_read_is_skipped() {
    let mut parser = CssParser::new("color:red; what; font-size : 10px ;;; x:y z; a:b}rest");
    let body = parser.body().unwrap();
    assert_eq!(value(&body, "color"), Some("red".to_string()));
    assert_eq!(value(&body, "font-size"), Some("10px".to_string()));
    assert_eq!(value(&body, "x"), Some("y".to_string()));
    assert_eq!(value(&body, "a"), Some("b".to_string()));
    assert_eq!(value(&body, "what"), None);
    // the cursor is left at the brace
    assert!(parser.literal('}').is_ok());
    assert_eq!(parser.word().unwrap(), "rest");
}

#[test]
fn property_names_are_lower_cased_and_values_are_not() {
    let mut parser = CssParser::new("COLOR:Red");
    let body = parser.body().unwrap();
    assert_eq!(value(&body, "color"), Some("Red".to_string()));
    assert_eq!(value(&body, "COLOR"), None);
}

#[test]
fn later_declaration_replaces_earlier() {
    let mut parser = CssParser::new("color:red;color:blue;");
    let body = parser.body().unwrap();
    assert_eq!(value(&body, "color"), Some("blue".to_string()));
}

#[test]
fn word_reads_letters_digits_and_some_marks() {
    let mut parser = CssParser::new("#a-b.c%9 next");
    assert_eq!(parser.word().unwrap(), "#a-b.c%9");
    assert_eq!(parser.word().unwrap_err(), "Parsing error: Expected word");
    parser.whitespace();
    assert_eq!(parser.word().unwrap(), "next");
    assert_eq!(parser.word().unwrap_err(), "Parsing error: Expected word");
}

#[test]
fn literal_reports_what_it_expected() {
    let mut parser = CssParser::new("{x");
    assert_eq!(parser.literal('}').unwrap_err(), "Parsing error: Expected literal '}'");
    assert!(parser.literal('{').is_ok());
    assert_eq!(parser.literal('{').unwrap_err(), "Parsing error: Expected literal '{'");
}

#[test]
fn pair_reads_property_and_value() {
    let mut parser = CssParser::new("Font-Size : 12px;");
    assert_eq!(parser.pair().unwrap(), ("font-size".to_string(), "12px".to_string()));
    assert!(parser.literal(';').is_ok());
    let mut parser = CssParser::new("color red");
    assert_eq!(parser.pair().unwrap_err(), "Parsing error: Expected literal ':'");
    let mut parser = CssParser::new("color: ;");
    assert_eq!(parser.pair().unwrap_err(), "Parsing error: Expected word");
}

#[test]
fn ignore_until_stops_at_the_first_of_the_characters() {
    let mut parser = CssParser::new("abc;def}");
    assert_eq!(parser.ignore_until(vec!['}', ';']), Some(';'));
    assert_eq!(parser.ignore_until(vec!['}']), Some('}'));
    assert!(parser.literal('}').is_ok());
    assert_eq!(parser.ignore_until(vec!['}']), None);
}

#[test]
fn handle_body_error_goes_on_after_a_semicolon_and_stops_at_a_brace() {
    let mut parser = CssParser::new("junk;  next}");
    assert!(!parser.handle_body_error());
    assert_eq!(parser.word().unwrap(), "next");
    assert!(parser.handle_body_error());
    assert!(parser.literal('}').is_ok());
}

#[test]
fn selector_fails_on_a_character_that_is_no_word() {
    let mut parser = CssParser::new("p > a {");
    assert_eq!(parser.selector().unwrap_err(), "Parsing error: Expected word");
}

#[test]
fn parse_internal_adds_one_rule() {
    let mut parser = CssParser::new(" p{color:red} q{");
    let mut rules = Vec::new();
    assert!(parser.parse_internal(&mut rules).is_ok());
    assert_eq!(rules.len(), 1);
    assert!(parser.parse_internal(&mut rules).is_err());
    assert_eq!(rules.len(), 1);
}

#[test]
fn word_reads_ascii_letters_digits_and_the_four_marks() {
    for code in 0..128u8 {
        let c = code as char;
        let expected = matches!(c, 'a'..='z' | 'A'..='Z' | '0'..='9' | '#' | '-' | '.' | '%');
        let text = c.to_string();
        let mut parser = CssParser::new(&text);
        assert_eq!(parser.word().is_ok(), expected, "{:?}", c);
    }
}

#[test]
fn parse_leaves_the_cursor_at_the_end() {
    for css in ["a{x:1} b{y:2}", "a{x:1} junk", "a{x:1} b{", "", "}}}", "a{x:1}   "] {
        let mut parser = CssParser::new(css);
        assert!(parser.parse().is_ok());
        assert_eq!(parser.ignore_until(vec!['}', ';', 'a']), None);
        assert!(parser.word().is_err());
        assert_eq!(parser.parse().unwrap().len(), 0);
    }
}
