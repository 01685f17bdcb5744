use zipsurf::html_parser::parse_markup;
use zipsurf::selector::Selector;

fn tag(name: &str) -> Selector {
    Selector::new_tag(name.to_string())
}

#[test]
fn tag_selector_matches_elements_of_that_name() {
    // 0 html, 1 body, 2 div, 3 p, 4 x, 5 p, 6 y
    let doc = parse_markup("<div><p>x</p></div><p>y</p>").unwrap();
    let p = tag("p");
    assert!(p.matches(&doc, 3));
    assert!(p.matches(&doc, 5));
    assert!(!p.matches(&doc, 2));
    assert!(!p.matches(&doc, 0));
}

#[test]
fn text_never_matches() {
    let doc = parse_markup("<p>p</p>").unwrap();
    assert!(!tag("p").matches(&doc, 3));
    assert!(!Selector::new_descendant(tag("p"), tag("p")).matches(&doc, 3));
}

#[test]
fn descendant_selector_needs_a_node_above() {
    let doc = parse_markup("<div><p>x</p></div><p>y</p>").unwrap();
    let div_p = Selector::new_descendant(tag("div"), tag("p"));
    assert!(div_p.matches(&doc, 3));
    assert!(!div_p.matches(&doc, 5));
    let body_p = Selector::new_descendant(tag("body"), tag("p"));
    assert!(body_p.matches(&doc, 3));
    assert!(body_p.matches(&doc, 5));
    let html_p = Selector::new_descendant(tag("html"), tag("p"));
    assert!(html_p.matches(&doc, 3));
}

#[test]
fn descendant_selector_does_not_count_the_node_itself() {
    let doc = parse_markup("<p>x</p>").unwrap();
    assert!(!Selector::new_descendant(tag("p"), tag("p")).matches(&doc, 2));
    assert!(!Selector::new_descendant(tag("html"), tag("html")).matches(&doc, 0));
    let nested = parse_markup("<div><div>x</div></div>").unwrap();
    let div_div = Selector::new_descendant(tag("div"), tag("div"));
    assert!(div_div.matches(&nested, 3));
    assert!(!div_div.matches(&nested, 2));
}

#[test]
fn chain_of_three() {
    // 0 html, 1 body, 2 ul, 3 li, 4 a, 5 x, 6 a, 7 y
    let doc = parse_markup("<ul><li><a>x</a></li></ul><a>y</a>").unwrap();
    let chain = Selector::new_descendant(Selector::new_descendant(tag("ul"), tag("li")), tag("a"));
    assert!(chain.matches(&doc, 4));
    assert!(!chain.matches(&doc, 6));
    assert_eq!(chain.priority(), 3);
}

#[test]
fn priority_counts_tag_names() {
    assert_eq!(tag("p").priority(), 1);
    assert_eq!(Selector::new_descendant(tag("div"), tag("p")).priority(), 2);
    let four = Selector::new_descendant(
        Selector::new_descendant(tag("a"), tag("b")),
        Selector::new_descendant(tag("c"), tag("d")),
    );
    assert_eq!(four.priority(), 4);
}

#[test]
fn clone_keeps_the_selector() {
    let doc = parse_markup("<div><p>x</p></div><p>y</p>").unwrap();
    let div_p = Selector::new_descendant(tag("div"), tag("p")).clone();
    assert!(div_p.matches(&doc, 3));
    assert!(!div_p.matches(&doc, 5));
}
