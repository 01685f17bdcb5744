use zipsurf::browser::Browser;
use zipsurf::html_parser::{get_attributes, head_tag, lex, parse_markup, void_tag, HtmlParser};
use zipsurf::node::{Document, HtmlNodeType};

fn tag(doc: &Document, i: usize) -> String {
    match &doc.node(i).node_type {
        HtmlNodeType::Element(e) => e.tag.clone(),
        HtmlNodeType::Text(_) => panic!("node {} is text", i),
    }
}

fn text(doc: &Document, i: usize) -> String {
    match &doc.node(i).node_type {
        HtmlNodeType::Text(t) => t.text.clone(),
        HtmlNodeType::Element(_) => panic!("node {} is an element", i),
    }
}

fn attribute(doc: &Document, i: usize, key: &str) -> Option<String> {
    match &doc.node(i).node_type {
        HtmlNodeType::Element(e) => e.attributes.get(key).cloned(),
        HtmlNodeType::Text(_) => None,
    }
}

#[test]
fn title_and_paragraph_get_head_and_body() {
    let doc = parse_markup("<title>X</title><p>Y</p>").unwrap();
    assert_eq!(doc.len(), 7);
    assert_eq!(tag(&doc, 0), "html");
    assert_eq!(doc.node(0).parent, None);
    assert_eq!(doc.node(0).children, vec![1, 4]);
    assert_eq!(tag(&doc, 1), "head");
    assert_eq!(doc.node(1).children, vec![2]);
    assert_eq!(tag(&doc, 2), "title");
    assert_eq!(doc.node(2).children, vec![3]);
    assert_eq!(text(&doc, 3), "X");
    assert_eq!(doc.node(3).parent, Some(2));
    assert_eq!(tag(&doc, 4), "body");
    assert_eq!(doc.node(4).children, vec![5]);
    assert_eq!(tag(&doc, 5), "p");
    assert_eq!(doc.node(5).children, vec![6]);
    assert_eq!(text(&doc, 6), "Y");
    assert_eq!(doc.node(6).parent, Some(5));
}

#[test]
fn void_tag_is_a_sibling_not_a_parent() {
    let doc = parse_markup("<img><p>Y</p>").unwrap();
    assert_eq!(doc.len(), 5);
    assert_eq!(tag(&doc, 1), "body");
    assert_eq!(tag(&doc, 2), "img");
    assert_eq!(tag(&doc, 3), "p");
    assert_eq!(doc.node(1).children, vec![2, 3]);
    assert!(doc.node(2).children.is_empty());
    assert_eq!(doc.node(2).parent, Some(1));
    assert_eq!(doc.node(3).parent, Some(1));
    assert_eq!(text(&doc, 4), "Y");
}

#[test]
fn siblings_keep_the_order_of_the_markup() {
    let doc = parse_markup("<div><p>a</p>b<br><p>c</p></div><div>d</div>").unwrap();
    // html body div p a b br p c div d
    let names: Vec<String> = (0..doc.len())
        .map(|i| match &doc.node(i).node_type {
            HtmlNodeType::Element(e) => e.tag.clone(),
            HtmlNodeType::Text(t) => format!("#{}", t.text),
        })
        .collect();
    assert_eq!(
        names,
        vec!["html", "body", "div", "p", "#a", "#b", "br", "p", "#c", "div", "#d"]
    );
    assert_eq!(doc.node(1).children, vec![2, 9]);
    assert_eq!(doc.node(2).children, vec![3, 5, 6, 7]);
    for i in 1..doc.len() {
        let parent = doc.node(i).parent.unwrap();
        assert!(parent < i);
        assert!(doc.node(parent).children.contains(&i));
    }
}

#[test]
fn empty_markup_gives_html_and_body() {
    let doc = parse_markup("").unwrap();
    assert_eq!(doc.len(), 2);
    assert_eq!(tag(&doc, 0), "html");
    assert_eq!(tag(&doc, 1), "body");
    assert_eq!(doc.node(0).children, vec![1]);
}

#[test]
fn text_alone_goes_into_the_body() {
    let doc = parse_markup("hello world").unwrap();
    assert_eq!(doc.len(), 3);
    assert_eq!(tag(&doc, 1), "body");
    assert_eq!(text(&doc, 2), "hello world");
    assert_eq!(doc.node(2).parent, Some(1));
}

#[test]
fn blank_text_is_dropped() {
    let doc = parse_markup("<p> \n\t </p>").unwrap();
    assert_eq!(doc.len(), 3);
    assert!(doc.node(2).children.is_empty());
}

#[test]
fn text_after_the_head_closes_the_head() {
    let doc = parse_markup("<title>T</title>after").unwrap();
    // html head title T body after
    assert_eq!(doc.len(), 6);
    assert_eq!(tag(&doc, 4), "body");
    assert_eq!(text(&doc, 5), "after");
    assert_eq!(doc.node(5).parent, Some(4));
}

#[test]
fn explicit_structure_is_not_repeated() {
    let doc = parse_markup("<html><head></head><body><p>x</p></body></html>").unwrap();
    assert_eq!(doc.len(), 5);
    assert_eq!(tag(&doc, 0), "html");
    assert_eq!(tag(&doc, 1), "head");
    assert_eq!(tag(&doc, 2), "body");
    assert_eq!(tag(&doc, 3), "p");
    assert_eq!(doc.node(0).children, vec![1, 2]);
}

#[test]
fn comments_and_doctype_are_dropped() {
    let doc = parse_markup("<!doctype html><!-- note --><p>x</p>").unwrap();
    assert_eq!(doc.len(), 4);
    assert_eq!(tag(&doc, 2), "p");
}

#[test]
fn stray_close_tag_leaves_the_root_open() {
    // each stray close tag opens a body and closes it again
    let doc = parse_markup("</p></p><b>x</b>").unwrap();
    assert_eq!(doc.len(), 6);
    assert_eq!(tag(&doc, 0), "html");
    assert_eq!(tag(&doc, 1), "body");
    assert_eq!(tag(&doc, 2), "body");
    assert_eq!(tag(&doc, 3), "body");
    assert_eq!(tag(&doc, 4), "b");
    assert_eq!(doc.node(0).children, vec![1, 2, 3]);
    assert_eq!(doc.node(4).parent, Some(3));
}

#[test]
fn close_tag_with_the_root_alone_open_does_nothing() {
    let doc = parse_markup("<html></html></html>x").unwrap();
    assert_eq!(doc.len(), 3);
    assert_eq!(tag(&doc, 1), "body");
    assert_eq!(text(&doc, 2), "x");
}

#[test]
fn close_tag_closes_the_innermost_element_whatever_its_name() {
    let doc = parse_markup("<p><b>x</p>y").unwrap();
    // </p> closes b, so y goes into p
    assert_eq!(tag(&doc, 2), "p");
    assert_eq!(tag(&doc, 3), "b");
    assert_eq!(text(&doc, 5), "y");
    assert_eq!(doc.node(5).parent, Some(2));
}

#[test]
fn unclosed_elements_are_kept() {
    let doc = parse_markup("<div><p>x").unwrap();
    assert_eq!(doc.len(), 5);
    assert_eq!(doc.node(4).parent, Some(3));
    assert_eq!(doc.node(3).parent, Some(2));
}

#[test]
fn unfinished_tag_at_the_end_is_dropped() {
    let doc = parse_markup("<p>x<b").unwrap();
    assert_eq!(doc.len(), 4);
    assert_eq!(text(&doc, 3), "x");
}

#[test]
fn empty_tag_gives_an_element_without_a_name() {
    let doc = parse_markup("<>x").unwrap();
    assert_eq!(tag(&doc, 2), "");
    assert_eq!(text(&doc, 3), "x");
}

#[test]
fn tag_names_and_attribute_names_are_lower_cased() {
    let doc = parse_markup("<A HREF=\"Page.html\" Class=big disabled>x</A>").unwrap();
    assert_eq!(tag(&doc, 2), "a");
    assert_eq!(attribute(&doc, 2, "href"), Some("Page.html".to_string()));
    assert_eq!(attribute(&doc, 2, "class"), Some("big".to_string()));
    assert_eq!(attribute(&doc, 2, "disabled"), Some("".to_string()));
    assert_eq!(attribute(&doc, 2, "HREF"), None);
}

#[test]
fn get_attributes_strips_quotes() {
    let e = get_attributes("link rel='stylesheet' href=\"a.css\" x='' y=\"qq z=a=b=c w=\"q v=q' u=\"'");
    assert_eq!(e.tag, "link");
    assert_eq!(e.attributes.get("rel").unwrap(), "stylesheet");
    assert_eq!(e.attributes.get("href").unwrap(), "a.css");
    assert_eq!(e.attributes.get("x").unwrap(), "");
    assert_eq!(e.attributes.get("y").unwrap(), "qq");
    assert_eq!(e.attributes.get("w").unwrap(), "q");
    assert_eq!(e.attributes.get("v").unwrap(), "q");
    assert_eq!(e.attributes.get("u").unwrap(), "");
    assert_eq!(e.attributes.get("z").unwrap(), "a");
    assert!(!e.attributes.contains_key("missing"));
}

#[test]
fn get_attributes_strips_quotes_from_short_values() {
    let e = get_attributes("IMG alt=\"\" TITLE=\"x\"");
    assert_eq!(e.tag, "img");
    assert_eq!(e.attributes.get("alt").unwrap(), "");
    assert_eq!(e.attributes.get("title").unwrap(), "x");
    let e = get_attributes("p title='\u{e9}");
    assert_eq!(e.attributes.get("title").unwrap(), "\u{e9}");
    let e = get_attributes("p title='a");
    assert_eq!(e.attributes.get("title").unwrap(), "a");
    // marks inside a value stay
    let e = get_attributes("p title='it's'");
    assert_eq!(e.attributes.get("title").unwrap(), "it's");
}

#[test]
fn get_attributes_later_attribute_wins() {
    let e = get_attributes("p id=one id=two");
    assert_eq!(e.attributes.get("id").unwrap(), "two");
}

#[test]
fn get_attributes_of_empty_text() {
    let e = get_attributes("  ");
    assert_eq!(e.tag, "");
    assert!(e.attributes.is_empty());
}

#[test]
fn lex_splits_text_and_tags() {
    let tokens = lex("a<b c>d</b>e");
    let shown: Vec<String> = tokens
        .iter()
        .map(|t| match t {
            HtmlNodeType::Element(e) => format!("<{}>", e.tag),
            HtmlNodeType::Text(t) => t.text.clone(),
        })
        .collect();
    assert_eq!(shown, vec!["a", "<b c>", "d", "</b>", "e"]);
}

#[test]
fn lex_keeps_empty_tags_and_drops_an_open_tag_at_the_end() {
    let tokens = Browser::lex("<>x<y");
    assert_eq!(tokens.len(), 2);
    match &tokens[0] {
        HtmlNodeType::Element(e) => {
            assert_eq!(e.tag, "");
            assert!(e.attributes.is_empty());
        }
        HtmlNodeType::Text(_) => panic!("expected a tag"),
    }
    match &tokens[1] {
        HtmlNodeType::Text(t) => assert_eq!(t.text, "x"),
        HtmlNodeType::Element(_) => panic!("expected text"),
    }
}

#[test]
fn lex_treats_an_angle_bracket_inside_a_tag_as_a_new_start() {
    let tokens = lex("<a<b>");
    assert_eq!(tokens.len(), 2);
    match &tokens[0] {
        HtmlNodeType::Text(t) => assert_eq!(t.text, "a"),
        HtmlNodeType::Element(_) => panic!("expected text"),
    }
}

#[test]
fn parser_can_be_driven_step_by_step() {
    let mut parser = HtmlParser::new("");
    parser.add_tag("p class=x");
    parser.add_text(&"hi".to_string());
    parser.add_tag("/p");
    parser.implicit_tags(None);
    let doc = parser.finish();
    assert_eq!(doc.len(), 4);
    assert_eq!(tag(&doc, 2), "p");
    assert_eq!(attribute(&doc, 2, "class"), Some("x".to_string()));
    assert_eq!(text(&doc, 3), "hi");
    // the parser is as new
    let doc = parser.parse();
    assert_eq!(doc.len(), 2);
}

#[test]
fn implicit_tags_open_head_for_head_tags() {
    let mut parser = HtmlParser::new("");
    parser.implicit_tags(Some("meta"));
    let doc = parser.finish();
    assert_eq!(doc.len(), 2);
    assert_eq!(tag(&doc, 1), "head");
}

#[test]
fn head_tag_after_body_stays_in_the_body() {
    let doc = parse_markup("<p>x</p><meta charset=utf-8>").unwrap();
    assert_eq!(tag(&doc, 4), "meta");
    assert_eq!(doc.node(4).parent, Some(1));
    assert_eq!(tag(&doc, 1), "body");
}

#[test]
fn void_and_head_tag_sets() {
    for t in ["area", "base", "br", "col", "embed", "hr", "img", "input", "link", "meta", "param", "source", "track", "wbr"] {
        assert!(void_tag(&t.to_string()), "{}", t);
    }
    for t in ["title", "meta", "link", "style", "script", "noscript", "base"] {
        assert!(head_tag(&t.to_string()), "{}", t);
    }
    assert!(!void_tag(&"p".to_string()));
    assert!(!void_tag(&"br/".to_string()));
    assert!(!head_tag(&"head".to_string()));
    assert!(!head_tag(&"p".to_string()));
}

#[test]
fn browser_load_keeps_markup_tokens_and_document() {
    let mut browser = Browser::new();
    assert!(browser.nodes().is_none());
    assert!(browser.load("<p>x</p>"));
    let doc = browser.nodes().unwrap();
    assert_eq!(doc.len(), 4);
    assert_eq!(tag(doc, 2), "p");
}
