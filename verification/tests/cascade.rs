use zipsurf::cascade::{sort_rules, style, style_node};
use zipsurf::css_parser::CssParser;
use zipsurf::html_parser::parse_markup;
use zipsurf::node::Document;
use zipsurf::selector::{Selector, SelectorType};
use zipsurf::strmap::StrMap;

fn rules(css: &str) -> Vec<(Selector, StrMap)> {
    sort_rules(&CssParser::new(css).parse().unwrap())
}

fn value(doc: &Document, node: usize, property: &str) -> Option<String> {
    doc.node(node).style.get(property).cloned()
}

fn styled(markup: &str, css: &str) -> Document {
    let mut doc = parse_markup(markup).unwrap();
    style(&mut doc, &rules(css));
    doc
}

#[test]
fn inline_style_wins_over_a_rule() {
    let doc = styled("<p style=\"color:blue\">x</p>", "p{color:red}");
    assert_eq!(value(&doc, 2, "color"), Some("blue".to_string()));
}

#[test]
fn inline_style_wins_over_a_rule_of_any_priority() {
    let doc = styled("<div><p style=\"color:blue\">x</p></div>", "html body div p{color:red}");
    assert_eq!(value(&doc, 3, "color"), Some("blue".to_string()));
}

#[test]
fn higher_priority_wins_whatever_the_order() {
    let first = styled("<div><p>x</p></div>", "div p {color:red} p {color:blue}");
    assert_eq!(value(&first, 3, "color"), Some("red".to_string()));
    let second = styled("<div><p>x</p></div>", "p {color:blue} div p {color:red}");
    assert_eq!(value(&second, 3, "color"), Some("red".to_string()));
}

#[test]
fn later_rule_wins_among_equal_priority() {
    let doc = styled("<p>x</p>", "p{color:red} p{color:green}");
    assert_eq!(value(&doc, 2, "color"), Some("green".to_string()));
}

#[test]
fn percentage_font_sizes_chain() {
    // 0 html, 1 body, 2 div, 3 p, 4 x
    let doc = styled(
        "<div style=\"font-size:200%\"><p style=\"font-size:50%\">x</p></div>",
        "",
    );
    assert_eq!(value(&doc, 0, "font-size"), Some("16px".to_string()));
    assert_eq!(value(&doc, 1, "font-size"), Some("16px".to_string()));
    assert_eq!(value(&doc, 2, "font-size"), Some("32px".to_string()));
    assert_eq!(value(&doc, 3, "font-size"), Some("16px".to_string()));
    assert_eq!(value(&doc, 4, "font-size"), Some("16px".to_string()));
}

#[test]
fn percentage_of_the_root_counts_from_sixteen_pixels() {
    let doc = styled("<html style=\"font-size:150%\">x</html>", "");
    assert_eq!(value(&doc, 0, "font-size"), Some("24px".to_string()));
}

#[test]
fn percentage_is_rounded_down_to_thousandths() {
    let doc = styled("<p style=\"font-size:33.333%\">x</p>", "");
    // 16000 * 33333 / 100000 = 5333.28
    assert_eq!(value(&doc, 2, "font-size"), Some("5.333px".to_string()));
    let doc = styled("<p>x</p>", "p{font-size:90%}");
    assert_eq!(value(&doc, 2, "font-size"), Some("14.4px".to_string()));
}

#[test]
fn percentage_that_cannot_be_read_leaves_the_size_of_the_parent() {
    let doc = styled("<div style=\"font-size:20px\"><p style=\"font-size:big%\">x</p></div>", "");
    assert_eq!(value(&doc, 3, "font-size"), Some("20px".to_string()));
    let doc = styled("<div style=\"font-size:2em\"><p style=\"font-size:50%\">x</p></div>", "");
    assert_eq!(value(&doc, 2, "font-size"), Some("2em".to_string()));
    assert_eq!(value(&doc, 3, "font-size"), Some("2em".to_string()));
}

#[test]
fn root_gets_the_defaults() {
    let doc = styled("<p>x</p>", "");
    assert_eq!(value(&doc, 0, "color"), Some("black".to_string()));
    assert_eq!(value(&doc, 0, "font-size"), Some("16px".to_string()));
    assert_eq!(value(&doc, 0, "font-weight"), Some("normal".to_string()));
    assert_eq!(value(&doc, 0, "font-style"), Some("normal".to_string()));
    assert_eq!(value(&doc, 0, "background-color"), None);
}

#[test]
fn inherited_properties_reach_the_text() {
    // 0 html, 1 body, 2 p, 3 b, 4 x
    let doc = styled("<p><b>x</b></p>", "p{color:red;background-color:gray} b{font-weight:bold}");
    assert_eq!(value(&doc, 2, "color"), Some("red".to_string()));
    assert_eq!(value(&doc, 3, "color"), Some("red".to_string()));
    assert_eq!(value(&doc, 4, "color"), Some("red".to_string()));
    assert_eq!(value(&doc, 4, "font-weight"), Some("bold".to_string()));
    assert_eq!(value(&doc, 2, "font-weight"), Some("normal".to_string()));
    // the background is not inherited
    assert_eq!(value(&doc, 2, "background-color"), Some("gray".to_string()));
    assert_eq!(value(&doc, 3, "background-color"), None);
}

#[test]
fn style_node_resolves_one_node() {
    let mut doc = parse_markup("<p>x</p>").unwrap();
    let r = rules("p{color:red}");
    style_node(&mut doc, 0, &r);
    style_node(&mut doc, 1, &r);
    style_node(&mut doc, 2, &r);
    assert_eq!(value(&doc, 2, "color"), Some("red".to_string()));
    assert!(doc.node(3).style.is_empty());
}

#[test]
fn styling_again_replaces_the_style() {
    let mut doc = parse_markup("<p>x</p>").unwrap();
    style(&mut doc, &rules("p{color:red;margin:1px}"));
    style(&mut doc, &rules("p{color:blue}"));
    assert_eq!(value(&doc, 2, "color"), Some("blue".to_string()));
    assert_eq!(value(&doc, 2, "margin"), None);
}

#[test]
fn sort_rules_is_stable_and_rising() {
    let parsed = CssParser::new("a b c{x:1} p{x:2} d e{x:3} q{x:4} f g{x:5}").parse().unwrap();
    let sorted = sort_rules(&parsed);
    let order: Vec<String> = sorted.iter().map(|r| r.1.get("x").unwrap().clone()).collect();
    assert_eq!(order, vec!["2", "4", "3", "5", "1"]);
    let priorities: Vec<usize> = sorted.iter().map(|r| r.0.priority()).collect();
    assert_eq!(priorities, vec![1, 1, 2, 2, 3]);
    match &sorted[0].0.selector {
        SelectorType::Tag { tag } => assert_eq!(tag, "p"),
        SelectorType::Descendant { .. } => panic!("expected a tag"),
    }
}
