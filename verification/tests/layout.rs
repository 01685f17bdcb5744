use zipsurf::cascade::{sort_rules, style};
use zipsurf::color::Color;
use zipsurf::css_parser::CssParser;
use zipsurf::html_parser::parse_markup;
use zipsurf::layout::{
    background, block_tag, check_metrics, font_for, layout_block, layout_document, layout_mode,
    node_words, text_color, BlockLayout, LayoutError, LayoutNode, LayoutNodeType, Mode,
    NodeMetrics, Vec2, WordMetrics, HEIGHT, HSTEP, MAX_METRIC, VSTEP, WIDTH,
};
use zipsurf::node::Document;
use zipsurf::paint::{display_list, DrawCommand};
use zipsurf::strmap::StrMap;

fn styled(markup: &str, css: &str) -> Document {
    let mut doc = parse_markup(markup).unwrap();
    let rules = sort_rules(&CssParser::new(css).parse().unwrap());
    style(&mut doc, &rules);
    doc
}

/// Every word of every text node gets the same measurement.
fn uniform(doc: &Document, width: u64, height: u64, ascent: u64, space: u64) -> Vec<NodeMetrics> {
    (0..doc.len())
        .map(|i| NodeMetrics {
            space_width: space,
            words: node_words(doc, i).iter().map(|_| WordMetrics { width, height, ascent }).collect(),
        })
        .collect()
}

/// Each word is as wide as it has characters, times `unit`.
fn by_length(doc: &Document, unit: u64, space: u64) -> Vec<NodeMetrics> {
    (0..doc.len())
        .map(|i| NodeMetrics {
            space_width: space,
            words: node_words(doc, i)
                .iter()
                .map(|w| WordMetrics { width: unit * w.chars().count() as u64, height: 20000, ascent: 15000 })
                .collect(),
        })
        .collect()
}

fn word(node: &LayoutNode) -> String {
    match &node.content {
        LayoutNodeType::Text { word, .. } => word.clone(),
        _ => panic!("not a word"),
    }
}

#[test]
fn constants_of_the_window() {
    assert_eq!(WIDTH, 800000);
    assert_eq!(HEIGHT, 600000);
    assert_eq!(HSTEP, 13000);
    assert_eq!(VSTEP, 17000);
    assert_eq!(MAX_METRIC, 4294967296);
}

#[test]
fn words_wrap_greedily() {
    // 0 html, 1 body, 2 p, 3 text
    let doc = styled("<p>aa bb cc</p>", "");
    let metrics = uniform(&doc, 300000, 20000, 15000, 10000);
    let page = layout_document(&doc, &metrics).unwrap();
    assert!(matches!(page.content, LayoutNodeType::Document));
    assert_eq!(page.position, Vec2 { x: 13000, y: 17000 });
    assert_eq!(page.size, Vec2 { x: 774000, y: 67000 });
    let html = &page.children[0];
    assert_eq!(html.node, 0);
    assert_eq!(html.size, Vec2 { x: 774000, y: 67000 });
    let body = &html.children[0];
    assert_eq!(body.node, 1);
    let p = &body.children[0];
    assert_eq!(p.node, 2);
    assert!(matches!(p.content, LayoutNodeType::Block));
    assert_eq!(p.position, Vec2 { x: 13000, y: 17000 });
    // two lines of 25000 and the space below the paragraph
    assert_eq!(p.size, Vec2 { x: 774000, y: 67000 });
    assert_eq!(p.children.len(), 2);
    let first = &p.children[0];
    match first.content {
        LayoutNodeType::Line { max_ascent, max_descent } => {
            assert_eq!(max_ascent, 15000);
            assert_eq!(max_descent, 5000);
        }
        _ => panic!("not a line"),
    }
    assert_eq!(first.position, Vec2 { x: 13000, y: 17000 });
    assert_eq!(first.size, Vec2 { x: 774000, y: 25000 });
    assert_eq!(first.children.len(), 2);
    assert_eq!(word(&first.children[0]), "aa");
    assert_eq!(first.children[0].position, Vec2 { x: 0, y: 3750 });
    assert_eq!(first.children[0].size, Vec2 { x: 300000, y: 20000 });
    assert_eq!(first.children[0].node, 3);
    assert_eq!(word(&first.children[1]), "bb");
    assert_eq!(first.children[1].position, Vec2 { x: 310000, y: 3750 });
    let second = &p.children[1];
    assert_eq!(second.position, Vec2 { x: 13000, y: 42000 });
    assert_eq!(second.children.len(), 1);
    assert_eq!(word(&second.children[0]), "cc");
    assert_eq!(second.children[0].position, Vec2 { x: 0, y: 3750 });
}

#[test]
fn lines_are_full_and_within_the_width() {
    let text = "a bb ccc dddd eeeee ffffff ggggggg hhhhhhhh iiiiiiiii jjjjjjjjjj k ll mmm";
    let doc = styled(&format!("<div>{}</div>", text), "");
    let unit = 50000;
    let space = 20000;
    let metrics = by_length(&doc, unit, space);
    let page = layout_document(&doc, &metrics).unwrap();
    let div = &page.children[0].children[0].children[0];
    let width = 774000;
    let mut words = Vec::new();
    for (i, line) in div.children.iter().enumerate() {
        assert!(!line.children.is_empty());
        assert_eq!(line.children[0].position.x, 0);
        let mut cursor = 0;
        for w in &line.children {
            assert_eq!(w.position.x, cursor);
            assert!(w.position.x + w.size.x <= width);
            cursor = w.position.x + w.size.x + space;
            words.push(word(w));
        }
        if i + 1 < div.children.len() {
            let next = &div.children[i + 1].children[0];
            assert!(cursor + next.size.x > width);
        }
    }
    let expected: Vec<String> = text.split_whitespace().map(|w| w.to_string()).collect();
    assert_eq!(words, expected);
    assert_eq!(div.children.len(), 6);
}

#[test]
fn word_wider_than_the_block_gets_a_line_of_its_own() {
    let doc = styled("<div>a b c</div>", "");
    let mut metrics = uniform(&doc, 100000, 20000, 15000, 10000);
    metrics[3].words[1].width = 900000;
    let page = layout_document(&doc, &metrics).unwrap();
    let div = &page.children[0].children[0].children[0];
    let lines: Vec<Vec<String>> = div.children.iter().map(|l| l.children.iter().map(word).collect()).collect();
    assert_eq!(lines, vec![vec!["a"], vec!["b"], vec!["c"]]);
}

#[test]
fn words_of_different_size_share_a_baseline() {
    // 0 html, 1 body, 2 div, 3 small, 4 text, 5 text
    let doc = styled("<div><small>a</small> B</div>", "");
    let mut metrics = uniform(&doc, 100000, 26000, 20000, 10000);
    metrics[4].words[0] = WordMetrics { width: 50000, height: 14000, ascent: 10000 };
    metrics[4].space_width = 5000;
    let page = layout_document(&doc, &metrics).unwrap();
    let div = &page.children[0].children[0].children[0];
    assert_eq!(div.children.len(), 1);
    let line = &div.children[0];
    match line.content {
        LayoutNodeType::Line { max_ascent, max_descent } => {
            assert_eq!(max_ascent, 20000);
            assert_eq!(max_descent, 6000);
        }
        _ => panic!("not a line"),
    }
    assert_eq!(line.size.y, 32500);
    assert_eq!(line.children[0].position, Vec2 { x: 0, y: 15000 });
    assert_eq!(line.children[1].position, Vec2 { x: 55000, y: 5000 });
    assert_eq!(div.size.y, 32500);
}

#[test]
fn line_height_is_rounded_down() {
    let doc = styled("<div>a</div>", "");
    let metrics = uniform(&doc, 100, 3, 2, 1);
    let page = layout_document(&doc, &metrics).unwrap();
    let line = &page.children[0].children[0].children[0].children[0];
    // 5 * 3 / 4
    assert_eq!(line.size.y, 3);
    // 5 * 2 / 4 - 2
    assert_eq!(line.children[0].position.y, 0);
}

#[test]
fn br_ends_the_line_and_p_leaves_space() {
    // 0 html, 1 body, 2 div, 3 a, 4 br, 5 b, 6 p, 7 c, 8 d
    let doc = styled("<div>a<br>b<span>c</span><i><br></i>d</div>", "");
    let metrics = uniform(&doc, 100000, 20000, 15000, 10000);
    let page = layout_document(&doc, &metrics).unwrap();
    let div = &page.children[0].children[0].children[0];
    let lines: Vec<Vec<String>> = div.children.iter().map(|l| l.children.iter().map(word).collect()).collect();
    assert_eq!(lines, vec![vec!["a"], vec!["b", "c"], vec!["d"]]);
    assert_eq!(div.size.y, 75000);
}

#[test]
fn blocks_stand_one_below_the_other() {
    // 0 html, 1 body, 2 p, 3 a, 4 div, 5 p, 6 b, 7 h1, 8 c
    let doc = styled("<p>a</p><div></div><p>b</p><h1>c</h1>", "");
    let metrics = uniform(&doc, 100000, 20000, 15000, 10000);
    let page = layout_document(&doc, &metrics).unwrap();
    let body = &page.children[0].children[0];
    assert_eq!(body.children.len(), 4);
    let tops: Vec<u64> = body.children.iter().map(|b| b.position.y).collect();
    let heights: Vec<u64> = body.children.iter().map(|b| b.size.y).collect();
    assert_eq!(heights, vec![42000, 0, 42000, 25000]);
    assert_eq!(tops, vec![17000, 59000, 59000, 101000]);
    for b in &body.children {
        assert_eq!(b.position.x, 13000);
        assert_eq!(b.size.x, 774000);
    }
    assert_eq!(body.size.y, 109000);
    assert_eq!(page.size.y, 109000);
}

#[test]
fn text_beside_a_block_gets_an_empty_block() {
    // 0 html, 1 body, 2 div, 3 text, 4 p, 5 x, 6 span, 7 y
    let doc = styled("<div>loose<p>x</p><span>y</span></div>", "");
    let metrics = uniform(&doc, 100000, 20000, 15000, 10000);
    let page = layout_document(&doc, &metrics).unwrap();
    let div = &page.children[0].children[0].children[0];
    assert_eq!(div.children.len(), 3);
    assert_eq!(div.children[0].node, 3);
    assert!(div.children[0].children.is_empty());
    assert_eq!(div.children[0].size.y, 0);
    // the inline sibling gets a block of its own
    assert_eq!(div.children[2].node, 6);
    assert!(matches!(div.children[2].content, LayoutNodeType::Block));
    assert_eq!(word(&div.children[2].children[0].children[0]), "y");
    let commands = display_list(&page, &doc).unwrap();
    assert_eq!(commands.len(), 2);
}

#[test]
fn layout_modes() {
    let doc = styled("<div><p>x</p>y</div><span>z<b>w</b></span><p></p>", "");
    // 0 html, 1 body, 2 div, 3 p, 4 x, 5 y, 6 span, 7 z, 8 b, 9 w, 10 p
    assert_eq!(layout_mode(&doc, 0), Mode::Block);
    assert_eq!(layout_mode(&doc, 1), Mode::Block);
    assert_eq!(layout_mode(&doc, 2), Mode::Block);
    assert_eq!(layout_mode(&doc, 3), Mode::Inline);
    assert_eq!(layout_mode(&doc, 4), Mode::Empty);
    assert_eq!(layout_mode(&doc, 6), Mode::Inline);
    assert_eq!(layout_mode(&doc, 10), Mode::Empty);
    assert!(block_tag(&"blockquote".to_string()));
    assert!(block_tag(&"summary".to_string()));
    assert!(!block_tag(&"span".to_string()));
    assert!(!block_tag(&"a".to_string()));
}

#[test]
fn laying_out_twice_gives_the_same_places() {
    let doc = styled("<h1>Title here</h1><p style=\"background-color:gray\">some words that wrap around</p>", "");
    let metrics = by_length(&doc, 60000, 15000);
    let first = display_list(&layout_document(&doc, &metrics).unwrap(), &doc).unwrap();
    let second = display_list(&layout_document(&doc, &metrics).unwrap(), &doc).unwrap();
    assert_eq!(first.len(), second.len());
    for (a, b) in first.iter().zip(second.iter()) {
        assert_eq!(a.top(), b.top());
        assert_eq!(a.bottom(), b.bottom());
        match (a, b) {
            (DrawCommand::DrawText(x), DrawCommand::DrawText(y)) => {
                assert_eq!((x.x, x.y, &x.word), (y.x, y.y, &y.word));
            }
            (DrawCommand::DrawRect(x), DrawCommand::DrawRect(y)) => {
                assert_eq!((x.top_left, x.bottom_right, x.color), (y.top_left, y.bottom_right, y.color));
            }
            _ => panic!("different commands"),
        }
    }
    let mut page = layout_document(&doc, &metrics).unwrap();
    let height = page.size.y;
    assert_eq!(page.layout(&doc, &metrics), Ok(()));
    assert_eq!(page.size.y, height);
    assert_eq!(page.children.len(), 1);
}

#[test]
fn display_list_has_absolute_places() {
    // 0 html, 1 body, 2 p, 3 text
    let doc = styled("<p>aa bb cc</p>", "p{background-color:lightblue;color:#102030;font-weight:bold;font-size:150%}");
    let metrics = uniform(&doc, 300000, 20000, 15000, 10000);
    let page = layout_document(&doc, &metrics).unwrap();
    let commands = display_list(&page, &doc).unwrap();
    assert_eq!(commands.len(), 4);
    match &commands[0] {
        DrawCommand::DrawRect(r) => {
            assert_eq!(r.top_left, Vec2 { x: 13000, y: 17000 });
            assert_eq!(r.bottom_right, Vec2 { x: 787000, y: 84000 });
            assert_eq!(r.color, Color { r: 173, g: 216, b: 230, a: 255 });
        }
        DrawCommand::DrawText(_) => panic!("expected the background first"),
    }
    assert_eq!(commands[0].top(), 17000);
    assert_eq!(commands[0].bottom(), 84000);
    let expected = [("aa", 13000, 20750), ("bb", 323000, 20750), ("cc", 13000, 45750)];
    for (command, (w, x, y)) in commands[1..].iter().zip(expected.iter()) {
        match command {
            DrawCommand::DrawText(t) => {
                assert_eq!(&t.word, w);
                assert_eq!(t.x, *x);
                assert_eq!(t.y, *y);
                assert_eq!(t.bottom, *y + 20000);
                assert_eq!(t.color, Color { r: 16, g: 32, b: 48, a: 255 });
                assert_eq!(t.font.weight, "bold");
                assert_eq!(t.font.style, "normal");
                assert_eq!(t.font.size, 24000);
            }
            DrawCommand::DrawRect(_) => panic!("expected text"),
        }
        assert_eq!(command.top(), *y);
        assert_eq!(command.bottom(), *y + 20000);
    }
}

#[test]
fn transparent_or_unreadable_background_is_not_drawn() {
    let doc = styled("<p style=\"background-color:transparent\">a</p><p style=\"background-color:nope\">b</p>", "");
    let metrics = uniform(&doc, 100000, 20000, 15000, 10000);
    let page = layout_document(&doc, &metrics).unwrap();
    let commands = display_list(&page, &doc).unwrap();
    assert_eq!(commands.len(), 2);
    assert!(commands.iter().all(|c| matches!(c, DrawCommand::DrawText(_))));
}

#[test]
fn style_readers() {
    let mut s = StrMap::new();
    assert_eq!(font_for(&s).size, 16000);
    assert_eq!(font_for(&s).weight, "normal");
    assert_eq!(font_for(&s).style, "normal");
    assert_eq!(text_color(&s), Color { r: 0, g: 0, b: 0, a: 255 });
    assert_eq!(background(&s), None);
    s.insert("font-size".to_string(), "12.5px".to_string());
    s.insert("font-style".to_string(), "italic".to_string());
    s.insert("color".to_string(), "blue".to_string());
    s.insert("background-color".to_string(), "#010203".to_string());
    assert_eq!(font_for(&s).size, 12500);
    assert_eq!(font_for(&s).style, "italic");
    assert_eq!(text_color(&s), Color { r: 0, g: 0, b: 255, a: 255 });
    assert_eq!(background(&s), Some(Color { r: 1, g: 2, b: 3, a: 255 }));
    s.insert("font-size".to_string(), "2em".to_string());
    s.insert("color".to_string(), "nope".to_string());
    assert_eq!(font_for(&s).size, 16000);
    assert_eq!(text_color(&s), Color { r: 0, g: 0, b: 0, a: 255 });
}

#[test]
fn measurements_that_do_not_fit_are_refused() {
    let doc = styled("<p>aa bb</p>", "");
    let good = uniform(&doc, 100, 20, 15, 10);
    assert!(check_metrics(&doc, &good));
    let mut short = uniform(&doc, 100, 20, 15, 10);
    short.pop();
    assert!(!check_metrics(&doc, &short));
    assert_eq!(layout_document(&doc, &short).unwrap_err(), LayoutError::Metrics);
    let mut fewer = uniform(&doc, 100, 20, 15, 10);
    fewer[3].words.pop();
    assert_eq!(layout_document(&doc, &fewer).unwrap_err(), LayoutError::Metrics);
    let mut extra = uniform(&doc, 100, 20, 15, 10);
    extra[2].words.push(WordMetrics { width: 1, height: 1, ascent: 1 });
    assert_eq!(layout_document(&doc, &extra).unwrap_err(), LayoutError::Metrics);
    let mut wide = uniform(&doc, 100, 20, 15, 10);
    wide[3].words[0].width = MAX_METRIC + 1;
    assert_eq!(layout_document(&doc, &wide).unwrap_err(), LayoutError::Metrics);
    let mut high = uniform(&doc, 100, 20, 15, 10);
    high[3].words[0].ascent = 21;
    assert_eq!(layout_document(&doc, &high).unwrap_err(), LayoutError::Metrics);
    let mut space = uniform(&doc, 100, 20, 15, 10);
    space[0].space_width = MAX_METRIC + 1;
    assert_eq!(layout_document(&doc, &space).unwrap_err(), LayoutError::Metrics);
    let mut limit = uniform(&doc, MAX_METRIC, MAX_METRIC, MAX_METRIC, MAX_METRIC);
    limit[0].space_width = MAX_METRIC;
    assert!(layout_document(&doc, &limit).is_ok());
}

#[test]
fn layout_of_a_single_box() {
    let doc = styled("<p>aa bb</p>", "");
    let metrics = uniform(&doc, 100000, 20000, 15000, 10000);
    let mut block = LayoutNode::new_block(2, 5000, 7000, 150000);
    assert_eq!(block.size.y, 0);
    assert_eq!(block.layout(&doc, &metrics), Ok(()));
    assert_eq!(block.position, Vec2 { x: 5000, y: 7000 });
    assert_eq!(block.children.len(), 2);
    assert_eq!(block.children[1].position, Vec2 { x: 5000, y: 32000 });
    assert_eq!(block.size, Vec2 { x: 150000, y: 67000 });
    let same = layout_block(&doc, &metrics, 2, 5000, 7000, 150000).unwrap();
    assert_eq!(same.size, block.size);

    let mut missing = LayoutNode::new_block(99, 0, 0, 100);
    assert_eq!(missing.layout(&doc, &metrics), Err(LayoutError::NoSuchNode));
    let mut low = LayoutNode::new_block(2, 0, u64::MAX - 10, 150000);
    assert_eq!(low.layout(&doc, &metrics), Err(LayoutError::TooLarge));
    assert!(low.children.is_empty());
    let mut wide = LayoutNode::new_block(2, 0, 0, MAX_METRIC + 1);
    assert_eq!(wide.layout(&doc, &metrics), Err(LayoutError::TooLarge));
    let mut page = LayoutNode::new_document();
    assert_eq!(page.position, Vec2 { x: 13000, y: 17000 });
    assert_eq!(page.size, Vec2 { x: 774000, y: 0 });
    assert_eq!(page.layout(&doc, &metrics), Ok(()));
    assert_eq!(page.size.y, 42000);
    let mut line = LayoutNode {
        node: 0,
        children: Vec::new(),
        content: LayoutNodeType::Line { max_ascent: 1, max_descent: 1 },
        position: Vec2 { x: 1, y: 2 },
        size: Vec2 { x: 3, y: 4 },
    };
    assert_eq!(line.layout(&doc, &metrics), Ok(()));
    assert_eq!(line.size, Vec2 { x: 3, y: 4 });
}

#[test]
fn line_breaker_step_by_step() {
    let doc = styled("<p>x</p>", "");
    let m = WordMetrics { width: 60, height: 20, ascent: 16 };
    let mut b = BlockLayout::new(2, 10, 100, 150);
    assert_eq!(b.word(&doc, 3, "one".to_string(), m, 5), Ok(()));
    assert_eq!(b.word(&doc, 3, "two".to_string(), m, 5), Ok(()));
    assert_eq!(b.word(&doc, 3, "three".to_string(), m, 5), Ok(()));
    assert_eq!(b.open_tag(&doc, &"b".to_string()), Ok(()));
    assert_eq!(b.open_tag(&doc, &"br".to_string()), Ok(()));
    assert_eq!(b.open_tag(&doc, &"br".to_string()), Ok(()));
    assert_eq!(b.word(&doc, 3, "four".to_string(), m, 5), Ok(()));
    assert_eq!(b.close_tag(&doc, &"b".to_string()), Ok(()));
    assert_eq!(b.close_tag(&doc, &"p".to_string()), Ok(()));
    assert_eq!(b.flush_line(&doc), Ok(()));
    let mut low = BlockLayout::new(2, 0, u64::MAX - 20, 150);
    assert_eq!(low.word(&doc, 3, "one".to_string(), m, 5), Ok(()));
    assert_eq!(low.flush_line(&doc), Err(LayoutError::TooLarge));
    let mut edge = BlockLayout::new(2, 0, u64::MAX - 25, 150);
    assert_eq!(edge.word(&doc, 3, "one".to_string(), m, 5), Ok(()));
    assert_eq!(edge.close_tag(&doc, &"p".to_string()), Err(LayoutError::TooLarge));
}

#[test]
fn paint_of_a_box_that_does_not_fit() {
    let doc = styled("<p style=\"background-color:red\">x</p>", "");
    let text = LayoutNode {
        node: 3,
        children: Vec::new(),
        content: LayoutNodeType::Text {
            word: "x".to_string(),
            font: font_for(&doc.node(3).style),
            color: text_color(&doc.node(3).style),
        },
        position: Vec2 { x: 5, y: 6 },
        size: Vec2 { x: 7, y: 8 },
    };
    let mut commands = Vec::new();
    assert!(text.paint_tree(&doc, &mut commands, Vec2 { x: 100, y: 200 }));
    assert_eq!(commands.len(), 1);
    assert_eq!(commands[0].top(), 206);
    assert_eq!(commands[0].bottom(), 214);
    assert!(!text.paint_tree(&doc, &mut commands, Vec2 { x: 100, y: u64::MAX - 10 }));
    assert!(!text.paint(&doc, &mut commands, Vec2 { x: u64::MAX, y: 0 }));
    assert_eq!(commands.len(), 1);
    let block = LayoutNode {
        node: 2,
        children: Vec::new(),
        content: LayoutNodeType::Block,
        position: Vec2 { x: u64::MAX - 1, y: 0 },
        size: Vec2 { x: 2, y: 2 },
    };
    assert!(!block.paint(&doc, &mut commands, Vec2 { x: 0, y: 0 }));
    // a block without a background asks for nothing, so nothing can fail
    let plain = LayoutNode {
        node: 1,
        children: Vec::new(),
        content: LayoutNodeType::Block,
        position: Vec2 { x: u64::MAX - 1, y: 0 },
        size: Vec2 { x: 2, y: 2 },
    };
    assert!(plain.paint_tree(&doc, &mut commands, Vec2 { x: 0, y: 0 }));
    assert!(display_list(&block, &doc).is_none());
}
