use zipsurf::css_parser::CssParser;
use zipsurf::hit::enclosing_links;
use zipsurf::html_parser::parse_markup;
use zipsurf::layout::{node_words, LayoutError, NodeMetrics, WordMetrics};
use zipsurf::node::Document;
use zipsurf::tab::{collect_rules, find_stylesheet_links, Tab, TabError, TabState};
use zipsurf::url::Url;

const DEFAULT_SHEET: &str = "pre { background-color: gray; } a { color: blue; } i { font-style: italic; } b { font-weight: bold; } small { font-size: 90%; } big { font-size: 110%; }";

fn metrics(doc: &Document) -> Vec<NodeMetrics> {
    (0..doc.len())
        .map(|i| NodeMetrics {
            space_width: 5000,
            words: node_words(doc, i)
                .iter()
                .map(|_| WordMetrics { width: 40000, height: 20000, ascent: 16000 })
                .collect(),
        })
        .collect()
}

#[test]
fn links_to_stylesheets_are_found_in_order() {
    let doc = parse_markup(
        "<link rel=stylesheet href=a.css><link rel=icon href=i.png><link rel=stylesheet>\
         <p>x</p><link href=\"b.css\" rel=\"stylesheet\"><a rel=stylesheet href=c.css>y</a>",
    )
    .unwrap();
    assert_eq!(find_stylesheet_links(&doc), vec!["a.css", "b.css"]);
    assert!(find_stylesheet_links(&parse_markup("<p>x</p>").unwrap()).is_empty());
}

#[test]
fn rules_are_collected_sheet_by_sheet() {
    let first = CssParser::new("a{x:1} b{x:2}").parse().unwrap();
    let sheets = vec!["c{x:3}".to_string(), "broken".to_string(), "d{x:4} e f{x:5}".to_string()];
    let all = collect_rules(&first, &sheets);
    let order: Vec<String> = all.iter().map(|r| r.1.get("x").unwrap().clone()).collect();
    assert_eq!(order, vec!["1", "2", "3", "4", "5"]);
    assert_eq!(collect_rules(&first, &Vec::new()).len(), 2);
}

#[test]
fn tab_goes_from_markup_to_display_list() {
    let mut tab = Tab::new();
    assert_eq!(tab.current_state(), TabState::Empty);
    assert!(tab.nodes().is_none());
    assert!(tab.url().is_none());
    assert!(tab.draw_commands().is_empty());

    let url = Url::new("http://example.org/page").unwrap();
    assert_eq!(tab.load(url, "<link rel=stylesheet href=s.css><p>Hello <b>big</b> world</p>"), Ok(()));
    assert_eq!(tab.current_state(), TabState::Parsed);
    assert_eq!(tab.url().unwrap().host, "example.org");
    assert_eq!(tab.links().unwrap(), vec!["s.css"]);

    let default_rules = CssParser::new(DEFAULT_SHEET).parse().unwrap();
    let sheets = vec!["p b { color: red; } b { color: green; font-size: 200% }".to_string()];
    assert_eq!(tab.style(&default_rules, &sheets), Ok(()));
    assert_eq!(tab.current_state(), TabState::Styled);
    {
        let doc = tab.nodes().unwrap();
        // 0 html, 1 head, 2 link, 3 body, 4 p, 5 Hello, 6 b, 7 big, 8 world
        assert_eq!(doc.node(6).style.get("font-weight").unwrap(), "bold");
        assert_eq!(doc.node(6).style.get("color").unwrap(), "red");
        assert_eq!(doc.node(6).style.get("font-size").unwrap(), "32px");
        assert_eq!(doc.node(7).style.get("color").unwrap(), "red");
        assert_eq!(doc.node(8).style.get("color").unwrap(), "black");
    }
    assert!(tab.document().is_none());

    let m = metrics(tab.nodes().unwrap());
    assert_eq!(tab.layout(&m), Ok(()));
    assert_eq!(tab.current_state(), TabState::LaidOut);
    assert_eq!(tab.draw_commands().len(), 3);
    assert_eq!(tab.document().unwrap().size.y, 42000);
    // a new layout replaces the old one
    assert_eq!(tab.layout(&m), Ok(()));
    assert_eq!(tab.draw_commands().len(), 3);
    // styling again drops the layout
    assert_eq!(tab.style(&default_rules, &Vec::new()), Ok(()));
    assert_eq!(tab.current_state(), TabState::Styled);
    assert!(tab.draw_commands().is_empty());
    assert_eq!(tab.nodes().unwrap().node(6).style.get("color").unwrap(), "black");
    // loading again starts over
    assert_eq!(tab.load(Url::new("http://example.org/other").unwrap(), "x"), Ok(()));
    assert_eq!(tab.current_state(), TabState::Parsed);
    assert_eq!(tab.url().unwrap().path, "/other");
}

#[test]
fn tab_refuses_what_its_state_does_not_allow() {
    let mut tab = Tab::new();
    let rules = CssParser::new("").parse().unwrap();
    assert_eq!(tab.links().unwrap_err(), TabError::WrongState);
    assert_eq!(tab.style(&rules, &Vec::new()), Err(TabError::WrongState));
    assert_eq!(tab.layout(&Vec::new()), Err(TabError::WrongState));
    assert_eq!(tab.current_state(), TabState::Empty);
    assert_eq!(tab.load(Url::new("http://h/").unwrap(), "<p>x</p>"), Ok(()));
    assert_eq!(tab.layout(&Vec::new()), Err(TabError::WrongState));
    assert_eq!(tab.current_state(), TabState::Parsed);
    assert_eq!(tab.style(&rules, &Vec::new()), Ok(()));
    assert_eq!(tab.layout(&Vec::new()), Err(TabError::Layout(LayoutError::Metrics)));
    assert_eq!(tab.current_state(), TabState::Styled);
}

#[test]
fn click_finds_the_links_around_the_point() {
    let mut tab = Tab::new();
    assert_eq!(tab.click(0, 0).unwrap_err(), TabError::WrongState);
    // 0 html, 1 body, 2 p, 3 text, 4 a, 5 text, 6 a, 7 b, 8 text, 9 text
    let markup = "<p>one <a href=out.html>two <a href=in.html><b>three</b></a></a> four</p>";
    assert_eq!(tab.load(Url::new("http://h/").unwrap(), markup), Ok(()));
    let rules = CssParser::new("").parse().unwrap();
    assert_eq!(tab.click(0, 0).unwrap_err(), TabError::WrongState);
    assert_eq!(tab.style(&rules, &Vec::new()), Ok(()));
    assert_eq!(tab.click(0, 0).unwrap_err(), TabError::WrongState);
    let m = metrics(tab.nodes().unwrap());
    assert_eq!(tab.layout(&m), Ok(()));
    // words of 40000 with 5000 between them, from 13000 on; the line is
    // 25000 high from 17000 on, the words 20000 high from 21000 on
    let empty: Vec<String> = Vec::new();
    assert_eq!(tab.click(20000, 30000).unwrap(), empty);
    assert_eq!(tab.click(60000, 30000).unwrap(), vec!["out.html"]);
    assert_eq!(tab.click(110000, 30000).unwrap(), vec!["in.html", "out.html"]);
    assert_eq!(tab.click(150000, 30000).unwrap(), empty);
    // between two words, and above the words but in the line
    assert_eq!(tab.click(55000, 30000).unwrap(), empty);
    assert_eq!(tab.click(60000, 20000).unwrap(), empty);
    // outside the page
    assert_eq!(tab.click(5000, 5000).unwrap(), empty);
    assert_eq!(tab.click(60000, 500000).unwrap(), empty);
    let page = tab.document().unwrap();
    assert_eq!(page.hit(5000, 5000), None);
    assert_eq!(page.hit(20000, 30000), Some(3));
    assert_eq!(page.hit(60000, 30000), Some(5));
    assert_eq!(page.hit(110000, 30000), Some(8));
    assert_eq!(page.hit(150000, 30000), Some(9));
    assert_eq!(page.hit(55000, 30000), Some(2));
    assert_eq!(page.hit(700000, 50000), Some(2));
    assert_eq!(page.hit(700000, 59000), Some(2));
    assert_eq!(page.hit(700000, 59001), None);
    // the edges count
    assert_eq!(page.hit(13000, 21000), Some(3));
    assert_eq!(page.hit(53000, 41000), Some(3));
    assert_eq!(page.hit(53001, 41000), Some(2));
    assert_eq!(page.hit(13000, 20999), Some(2));
    assert_eq!(page.hit(12999, 21000), None);
    let doc = tab.nodes().unwrap();
    assert_eq!(enclosing_links(doc, 8), vec!["in.html", "out.html"]);
    assert_eq!(enclosing_links(doc, 4), vec!["out.html"]);
    assert_eq!(enclosing_links(doc, 0), empty);
}
