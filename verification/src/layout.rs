//! The box layout: block boxes one below the other, text broken into lines
//! inside them, and every box with its place and size.
//!
//! Lengths are whole numbers of thousandths of a pixel. The widths and
//! heights of words are not computed here: they are handed in, one
//! measurement for every word of every text node.

use vstd::prelude::*;
use crate::color::{color_value, parse_color, rgb, Color};
use crate::node::{tree_wf, Document, HtmlNodeType, NodeKind, NodeView};
use crate::strmap::StrMap;
use crate::text::{chars_of, is_literal, split_whitespace, words};
use crate::units::{pixels, read_pixels};

verus! {

/// The width of the window.
pub const WIDTH: u64 = 800000;

/// The height of the window.
pub const HEIGHT: u64 = 600000;

/// The space left free at the left and at the right of the page.
pub const HSTEP: u64 = 13000;

/// The space left free above the page, and the space below a paragraph.
pub const VSTEP: u64 = 17000;

/// The greatest width, height or space that a measurement may give.
pub const MAX_METRIC: u64 = 0x1_0000_0000;

/// The measurement of a word: its width, the height of its font and the
/// part of that height that lies above the baseline.
#[derive(Clone, Copy, Debug, PartialEq, Eq, Structural)]
pub struct WordMetrics {
    pub width: u64,
    pub height: u64,
    pub ascent: u64,
}

/// The measurements for one node of the document: the width of a space in
/// the font of the node and, for a text node, one measurement for each of
/// its words.
#[derive(Debug)]
pub struct NodeMetrics {
    pub space_width: u64,
    pub words: Vec<WordMetrics>,
}

/// The mathematical content of a [`NodeMetrics`].
pub struct MetricsView {
    pub space_width: u64,
    pub words: Seq<WordMetrics>,
}

impl View for NodeMetrics {
    type V = MetricsView;

    open spec fn view(&self) -> MetricsView {
        MetricsView { space_width: self.space_width, words: self.words@ }
    }
}

/// The mathematical content of a list of measurements.
pub open spec fn measures(metrics: Seq<NodeMetrics>) -> Seq<MetricsView> {
    Seq::new(metrics.len(), |i: int| metrics[i]@)
}

/// A font, as the style of a node asks for it.
#[derive(Debug)]
pub struct FontSpec {
    pub weight: String,
    pub style: String,
    pub size: u64,
}

/// The mathematical content of a [`FontSpec`].
pub struct FontView {
    pub weight: Seq<char>,
    pub style: Seq<char>,
    pub size: int,
}

impl View for FontSpec {
    type V = FontView;

    open spec fn view(&self) -> FontView {
        FontView { weight: self.weight@, style: self.style@, size: self.size as int }
    }
}

/// The value of `property` in `style`, or `default` where it has none.
pub open spec fn value_or(style: Map<Seq<char>, Seq<char>>, property: Seq<char>, default: Seq<char>) -> Seq<char> {
    if style.contains_key(property) {
        style[property]
    } else {
        default
    }
}

/// The font that a style asks for. A font size that is not given in
/// pixels counts as 16 pixels.
pub open spec fn font_of(style: Map<Seq<char>, Seq<char>>) -> FontView {
    FontView {
        weight: value_or(style, "font-weight"@, "normal"@),
        style: value_or(style, "font-style"@, "normal"@),
        size: match pixels(value_or(style, "font-size"@, "16px"@)) {
            Some(n) => n as int,
            None => 16000,
        },
    }
}

/// The color of text that a style asks for; black where it names none
/// that can be read.
pub open spec fn text_color_of(style: Map<Seq<char>, Seq<char>>) -> Color {
    match color_value(value_or(style, "color"@, "black"@)) {
        Some(c) => c,
        None => rgb(0, 0, 0),
    }
}

/// The color of the background that a style asks for, if it asks for one
/// that can be read and that is not fully transparent.
pub open spec fn background_of(style: Map<Seq<char>, Seq<char>>) -> Option<Color> {
    if style.contains_key("background-color"@) {
        match color_value(style["background-color"@]) {
            Some(c) => if c.a != 0 {
                Some(c)
            } else {
                None
            },
            None => None,
        }
    } else {
        None
    }
}

/// Whether `tag` names an element that is laid out as a block.
pub open spec fn is_block_tag(tag: Seq<char>) -> bool {
    ||| tag == "html"@
    ||| tag == "body"@
    ||| tag == "article"@
    ||| tag == "section"@
    ||| tag == "nav"@
    ||| tag == "aside"@
    ||| tag == "h1"@
    ||| tag == "h2"@
    ||| tag == "h3"@
    ||| tag == "h4"@
    ||| tag == "h5"@
    ||| tag == "h6"@
    ||| tag == "hgroup"@
    ||| tag == "header"@
    ||| tag == "footer"@
    ||| tag == "address"@
    ||| tag == "p"@
    ||| tag == "hr"@
    ||| tag == "pre"@
    ||| tag == "blockquote"@
    ||| tag == "ol"@
    ||| tag == "ul"@
    ||| tag == "menu"@
    ||| tag == "li"@
    ||| tag == "dl"@
    ||| tag == "dt"@
    ||| tag == "dd"@
    ||| tag == "figure"@
    ||| tag == "figcaption"@
    ||| tag == "main"@
    ||| tag == "div"@
    ||| tag == "table"@
    ||| tag == "form"@
    ||| tag == "fieldset"@
    ||| tag == "legend"@
    ||| tag == "details"@
    ||| tag == "summary"@
}

/// How the content of a block is laid out.
#[derive(Clone, Copy, Debug, PartialEq, Eq, Structural)]
pub enum Mode {
    /// One block for each child, one below the other.
    Block,
    /// The whole content as text in lines.
    Inline,
    /// No content.
    Empty,
}

/// Whether node `node` is an element that is laid out as a block.
pub open spec fn is_block_element(t: Seq<NodeView>, node: int) -> bool {
    t[node].kind.tag() matches Some(tag) && is_block_tag(tag)
}

/// How the content of node `node` is laid out: as blocks where one child
/// at least is a block element, else in lines where it has a child at
/// all.
pub open spec fn mode(t: Seq<NodeView>, node: int) -> Mode {
    if exists|j: int|
        0 <= j < t[node].children.len() && is_block_element(t, #[trigger] t[node].children[j] as int) {
        Mode::Block
    } else if t[node].children.len() > 0 {
        Mode::Inline
    } else {
        Mode::Empty
    }
}

/// The words of a text node; an element has none.
pub open spec fn words_of(t: Seq<NodeView>, node: int) -> Seq<Seq<char>> {
    match t[node].kind {
        NodeKind::Text { text } => words(text),
        NodeKind::Element { .. } => Seq::empty(),
    }
}

/// Whether `m` measures the document `t`: one entry for each node, in a
/// text node one measurement for each word, no width, height or space
/// above [`MAX_METRIC`], and no ascent above the height.
pub open spec fn metrics_match(t: Seq<NodeView>, m: Seq<MetricsView>) -> bool {
    &&& m.len() == t.len()
    &&& forall|i: int|
        0 <= i < t.len() ==> (#[trigger] m[i]).words.len() == words_of(t, i).len()
            && m[i].space_width <= MAX_METRIC
    &&& forall|i: int, j: int|
        0 <= i < t.len() && 0 <= j < m[i].words.len() ==> metric_ok(#[trigger] m[i].words[j])
}

/// A measurement within the limits.
pub open spec fn metric_ok(w: WordMetrics) -> bool {
    w.width <= MAX_METRIC && w.height <= MAX_METRIC && w.ascent <= w.height
}

/// A word with its measurement, as the line breaker sees it.
pub struct Word {
    pub node: usize,
    pub text: Seq<char>,
    pub width: int,
    pub height: int,
    pub ascent: int,
    pub space: int,
}

/// What the walk through the content of a block meets.
pub enum Item {
    /// A word of a text node.
    Word(Word),
    /// The start of a `br` element: the line ends here.
    Break,
    /// The end of a `p` element: the line ends here, and space follows.
    ParagraphEnd,
}

/// Word `j` of the text node `node`.
pub open spec fn word_item(t: Seq<NodeView>, m: Seq<MetricsView>, node: int, j: int) -> Item {
    Item::Word(
        Word {
            node: node as usize,
            text: words_of(t, node)[j],
            width: m[node].words[j].width as int,
            height: m[node].words[j].height as int,
            ascent: m[node].words[j].ascent as int,
            space: m[node].space_width as int,
        },
    )
}

/// The first `k` words of the text node `node`.
pub open spec fn word_items(t: Seq<NodeView>, m: Seq<MetricsView>, node: int, k: int) -> Seq<Item> {
    Seq::new(k as nat, |j: int| word_item(t, m, node, j))
}

/// What the walk through node `node` and all below it meets, in the order
/// of the document.
pub open spec fn items(t: Seq<NodeView>, m: Seq<MetricsView>, node: int) -> Seq<Item>
    decreases t.len() - node, 1nat, 0nat,
{
    match t[node].kind {
        NodeKind::Text { .. } => word_items(t, m, node, words_of(t, node).len() as int),
        NodeKind::Element { tag, .. } => opening(tag) + child_items(
            t,
            m,
            node,
            t[node].children.len() as int,
        ) + closing(tag),
    }
}

/// What the walk meets in the first `k` children of `node`.
pub open spec fn child_items(t: Seq<NodeView>, m: Seq<MetricsView>, node: int, k: int) -> Seq<Item>
    decreases t.len() - node, 0nat, k,
{
    if 0 < k <= t[node].children.len() {
        let child = t[node].children[k - 1] as int;
        if node < child < t.len() {
            child_items(t, m, node, k - 1) + items(t, m, child)
        } else {
            child_items(t, m, node, k - 1)
        }
    } else {
        Seq::empty()
    }
}

/// What the start of an element with tag `tag` is to the walk.
pub open spec fn opening(tag: Seq<char>) -> Seq<Item> {
    if tag == "br"@ {
        seq![Item::Break]
    } else {
        Seq::empty()
    }
}

/// What the end of an element with tag `tag` is to the walk.
pub open spec fn closing(tag: Seq<char>) -> Seq<Item> {
    if tag == "p"@ {
        seq![Item::ParagraphEnd]
    } else {
        Seq::empty()
    }
}

/// What a box is.
pub enum BoxKind {
    /// The page.
    Document,
    /// The box of a node of the document.
    Block,
    /// A line of text; its words stand on one baseline.
    Line { max_ascent: int, max_descent: int },
    /// A word.
    Text { word: Seq<char>, font: FontView, color: Color },
}

/// The mathematical content of a [`LayoutNode`]. The place of a page, a
/// block or a line is counted from the corner of the window; the place of
/// a word is counted from the corner of its line.
pub struct BoxView {
    pub node: usize,
    pub kind: BoxKind,
    pub x: int,
    pub y: int,
    pub width: int,
    pub height: int,
    pub children: Seq<BoxView>,
}

/// A word that is placed on the line being filled: `x` is its distance
/// from the left edge of the block.
pub struct Placed {
    pub word: Word,
    pub x: int,
}

/// The state of the line breaker: the block it fills, the lines that are
/// complete, the words on the line being filled, and the cursor. `cursor_x`
/// is counted from the left edge of the block, `cursor_y` from the top of
/// the window.
pub struct InlineState {
    pub lines: Seq<BoxView>,
    pub pending: Seq<Placed>,
    pub cursor_x: int,
    pub cursor_y: int,
}

/// The greatest ascent among `p`.
pub open spec fn max_ascent(p: Seq<Placed>) -> int
    decreases p.len(),
{
    if p.len() == 0 {
        0
    } else {
        let rest = max_ascent(p.drop_last());
        if p.last().word.ascent > rest {
            p.last().word.ascent
        } else {
            rest
        }
    }
}

/// The greatest descent among `p`: the part of the height below the
/// baseline.
pub open spec fn max_descent(p: Seq<Placed>) -> int
    decreases p.len(),
{
    if p.len() == 0 {
        0
    } else {
        let rest = max_descent(p.drop_last());
        let d = p.last().word.height - p.last().word.ascent;
        if d > rest {
            d
        } else {
            rest
        }
    }
}

/// The distance of the baseline of a line from its top.
pub open spec fn baseline(p: Seq<Placed>) -> int {
    5 * max_ascent(p) / 4
}

/// The height of a line: one and a quarter times its greatest ascent and
/// descent.
pub open spec fn line_height(p: Seq<Placed>) -> int {
    5 * (max_ascent(p) + max_descent(p)) / 4
}

/// The geometry of a block that is filled with lines, and the node it
/// belongs to.
pub struct Frame {
    pub node: usize,
    pub x: int,
    pub width: int,
}

/// The box of a word on a line whose baseline lies `base` below its top.
pub open spec fn text_box(t: Seq<NodeView>, p: Placed, base: int) -> BoxView {
    BoxView {
        node: p.word.node,
        kind: BoxKind::Text {
            word: p.word.text,
            font: font_of(t[p.word.node as int].style),
            color: text_color_of(t[p.word.node as int].style),
        },
        x: p.x,
        y: base - p.word.ascent,
        width: p.word.width,
        height: p.word.height,
        children: Seq::empty(),
    }
}

/// The box of the line made of the words `p`, with its top at `y`.
pub open spec fn line_box(t: Seq<NodeView>, f: Frame, y: int, p: Seq<Placed>) -> BoxView {
    BoxView {
        node: f.node,
        kind: BoxKind::Line { max_ascent: max_ascent(p), max_descent: max_descent(p) },
        x: f.x,
        y,
        width: f.width,
        height: line_height(p),
        children: Seq::new(p.len(), |i: int| text_box(t, p[i], baseline(p))),
    }
}

/// The line being filled is complete: it becomes a box, and the cursor
/// moves to the start of the next line. Nothing happens where no word is
/// on the line.
pub open spec fn flush(t: Seq<NodeView>, f: Frame, st: InlineState) -> InlineState {
    if st.pending.len() == 0 {
        st
    } else {
        InlineState {
            lines: st.lines.push(line_box(t, f, st.cursor_y, st.pending)),
            pending: Seq::empty(),
            cursor_x: 0,
            cursor_y: st.cursor_y + line_height(st.pending),
        }
    }
}

/// A word is placed: on the line being filled where it fits in the width
/// that is left, else on a new line. Behind it the cursor leaves the
/// width of a space.
pub open spec fn place(t: Seq<NodeView>, f: Frame, st: InlineState, w: Word) -> InlineState {
    let s = if st.cursor_x + w.width > f.width {
        flush(t, f, st)
    } else {
        st
    };
    InlineState {
        lines: s.lines,
        pending: s.pending.push(Placed { word: w, x: s.cursor_x }),
        cursor_x: s.cursor_x + w.width + w.space,
        cursor_y: s.cursor_y,
    }
}

/// What one item of the walk does to the line breaker.
pub open spec fn step(t: Seq<NodeView>, f: Frame, st: InlineState, item: Item) -> InlineState {
    match item {
        Item::Word(w) => place(t, f, st, w),
        Item::Break => flush(t, f, st),
        Item::ParagraphEnd => {
            let s = flush(t, f, st);
            InlineState {
                lines: s.lines,
                pending: s.pending,
                cursor_x: s.cursor_x,
                cursor_y: s.cursor_y + VSTEP,
            }
        },
    }
}

/// The line breaker after the items `its`.
pub open spec fn run(t: Seq<NodeView>, f: Frame, st: InlineState, its: Seq<Item>) -> InlineState
    decreases its.len(),
{
    if its.len() == 0 {
        st
    } else {
        step(t, f, run(t, f, st, its.drop_last()), its.last())
    }
}

/// The line breaker at the start of a block whose top is at `y`.
pub open spec fn start(y: int) -> InlineState {
    InlineState { lines: Seq::empty(), pending: Seq::empty(), cursor_x: 0, cursor_y: y }
}

/// The lines of the content of `node`, in a block at (`x`, `y`) of width
/// `width`: the line breaker after the walk through `node`, with the last
/// line complete.
pub open spec fn inline_layout(
    t: Seq<NodeView>,
    m: Seq<MetricsView>,
    node: int,
    x: int,
    y: int,
    width: int,
) -> InlineState {
    let f = Frame { node: node as usize, x, width };
    flush(t, f, run(t, f, start(y), items(t, m, node)))
}

/// Running over two lists of items, one after the other, is running over
/// both.
pub proof fn lemma_run_concat(
    t: Seq<NodeView>,
    f: Frame,
    st: InlineState,
    a: Seq<Item>,
    b: Seq<Item>,
)
    ensures
        run(t, f, st, a + b) == run(t, f, run(t, f, st, a), b),
    decreases b.len(),
{
    if b.len() > 0 {
        lemma_run_concat(t, f, st, a, b.drop_last());
        assert((a + b).drop_last() == a + b.drop_last());
    }
}

/// The box of node `node` as a block at (`x`, `y`) of width `width`. In
/// block mode its children are the blocks of the children of the node, one
/// below the other, and its height is the sum of theirs. In inline mode
/// its children are the lines of its content, and its height is what the
/// lines take. Without content it has no height.
pub open spec fn block_box(
    t: Seq<NodeView>,
    m: Seq<MetricsView>,
    node: int,
    x: int,
    y: int,
    width: int,
) -> BoxView
    decreases t.len() - node, 1nat, 0nat,
{
    match mode(t, node) {
        Mode::Block => {
            let children = child_blocks(t, m, node, t[node].children.len() as int, x, y, width);
            BoxView {
                node: node as usize,
                kind: BoxKind::Block,
                x,
                y,
                width,
                height: bottom(children, y) - y,
                children,
            }
        },
        Mode::Inline => {
            let st = inline_layout(t, m, node, x, y, width);
            BoxView {
                node: node as usize,
                kind: BoxKind::Block,
                x,
                y,
                width,
                height: st.cursor_y - y,
                children: st.lines,
            }
        },
        Mode::Empty => BoxView {
            node: node as usize,
            kind: BoxKind::Block,
            x,
            y,
            width,
            height: 0,
            children: Seq::empty(),
        },
    }
}

/// Where the next box goes below the boxes `b`, which start at `y`.
pub open spec fn bottom(b: Seq<BoxView>, y: int) -> int {
    if b.len() == 0 {
        y
    } else {
        b.last().y + b.last().height
    }
}

/// The blocks of the first `k` children of `node`, one below the other
/// from `y` on.
pub open spec fn child_blocks(
    t: Seq<NodeView>,
    m: Seq<MetricsView>,
    node: int,
    k: int,
    x: int,
    y: int,
    width: int,
) -> Seq<BoxView>
    decreases t.len() - node, 0nat, k,
{
    if 0 < k <= t[node].children.len() {
        let before = child_blocks(t, m, node, k - 1, x, y, width);
        let child = t[node].children[k - 1] as int;
        if node < child < t.len() {
            before.push(block_box(t, m, child, x, bottom(before, y), width))
        } else {
            before
        }
    } else {
        Seq::empty()
    }
}

/// The box of a page at (`x`, `y`) of width `width`: it holds the block
/// of the root and is as high as that block.
pub open spec fn page_box(t: Seq<NodeView>, m: Seq<MetricsView>, x: int, y: int, width: int) -> BoxView {
    let child = block_box(t, m, 0, x, y, width);
    BoxView {
        node: 0,
        kind: BoxKind::Document,
        x,
        y,
        width,
        height: child.height,
        children: seq![child],
    }
}

/// The box of the page in the window: it leaves [`HSTEP`] free at either
/// side and [`VSTEP`] above.
pub open spec fn document_box(t: Seq<NodeView>, m: Seq<MetricsView>) -> BoxView {
    page_box(t, m, HSTEP as int, VSTEP as int, WIDTH - 2 * HSTEP)
}

/// Why a layout was not made.
#[derive(Clone, Copy, Debug, PartialEq, Eq, Structural)]
pub enum LayoutError {
    /// The measurements do not fit the document, see [`metrics_match`].
    Metrics,
    /// A box would be wider than [`MAX_METRIC`], or end below the greatest
    /// length that can be counted.
    TooLarge,
    /// The block stands for a node that the document does not have.
    NoSuchNode,
}

/// A pair of lengths: a place or a size.
#[derive(Clone, Copy, Debug, PartialEq, Eq, Structural)]
pub struct Vec2 {
    pub x: u64,
    pub y: u64,
}

/// What a node of the layout is.
#[derive(Debug)]
pub enum LayoutNodeType {
    Document,
    Block,
    Line { max_ascent: u64, max_descent: u64 },
    Text { word: String, font: FontSpec, color: Color },
}

/// A node of the layout: a box with its children. `node` is the index of
/// the node of the document that the box was made for.
#[derive(Debug)]
pub struct LayoutNode {
    pub node: usize,
    pub children: Vec<LayoutNode>,
    pub content: LayoutNodeType,
    pub position: Vec2,
    pub size: Vec2,
}

impl View for LayoutNodeType {
    type V = BoxKind;

    open spec fn view(&self) -> BoxKind {
        match self {
            LayoutNodeType::Document => BoxKind::Document,
            LayoutNodeType::Block => BoxKind::Block,
            LayoutNodeType::Line { max_ascent, max_descent } => BoxKind::Line {
                max_ascent: *max_ascent as int,
                max_descent: *max_descent as int,
            },
            LayoutNodeType::Text { word, font, color } => BoxKind::Text {
                word: word@,
                font: font@,
                color: *color,
            },
        }
    }
}

impl LayoutNode {
    /// The mathematical content of the box and of all boxes in it.
    pub open spec fn model(&self) -> BoxView
        decreases self,
    {
        BoxView {
            node: self.node,
            kind: self.content@,
            x: self.position.x as int,
            y: self.position.y as int,
            width: self.size.x as int,
            height: self.size.y as int,
            children: Seq::new(
                self.children@.len(),
                |i: int|
                    if 0 <= i < self.children@.len() {
                        self.children@[i].model()
                    } else {
                        arbitrary()
                    },
            ),
        }
    }
}

impl View for LayoutNode {
    type V = BoxView;

    open spec fn view(&self) -> BoxView {
        self.model()
    }
}

/// The mathematical content of a list of boxes.
pub open spec fn models(v: Seq<LayoutNode>) -> Seq<BoxView> {
    Seq::new(v.len(), |i: int| v[i]@)
}

fn style_value(style: &StrMap, property: &str, default: &str) -> (r: String)
    ensures
        r@ == value_or(style@, property@, default@),
{
    match style.get(property) {
        Some(v) => v.clone(),
        None => default.to_string(),
    }
}

/// The font that the style of a node asks for.
pub fn font_for(style: &StrMap) -> (f: FontSpec)
    ensures
        f@ == font_of(style@),
{
    let size = match read_pixels(&style_value(style, "font-size", "16px")) {
        Some(n) => n,
        None => 16000,
    };
    FontSpec {
        weight: style_value(style, "font-weight", "normal"),
        style: style_value(style, "font-style", "normal"),
        size,
    }
}

/// The color of text that the style of a node asks for.
pub fn text_color(style: &StrMap) -> (c: Color)
    ensures
        c == text_color_of(style@),
{
    match parse_color(&style_value(style, "color", "black")) {
        Some(c) => c,
        None => Color { r: 0, g: 0, b: 0, a: 255 },
    }
}

/// The color of the background that the style of a node asks for.
pub fn background(style: &StrMap) -> (r: Option<Color>)
    ensures
        r == background_of(style@),
{
    match style.get("background-color") {
        Some(v) => match parse_color(v) {
            Some(c) => if c.a != 0 {
                Some(c)
            } else {
                None
            },
            None => None,
        },
        None => None,
    }
}

/// Whether `tag` names an element that is laid out as a block.
pub fn block_tag(tag: &String) -> (b: bool)
    ensures
        b == is_block_tag(tag@),
{
    is_literal(tag, "html") || is_literal(tag, "body") || is_literal(tag, "article")
        || is_literal(tag, "section") || is_literal(tag, "nav") || is_literal(tag, "aside")
        || is_literal(tag, "h1") || is_literal(tag, "h2") || is_literal(tag, "h3") || is_literal(
        tag,
        "h4",
    ) || is_literal(tag, "h5") || is_literal(tag, "h6") || is_literal(tag, "hgroup")
        || is_literal(tag, "header") || is_literal(tag, "footer") || is_literal(tag, "address")
        || is_literal(tag, "p") || is_literal(tag, "hr") || is_literal(tag, "pre") || is_literal(
        tag,
        "blockquote",
    ) || is_literal(tag, "ol") || is_literal(tag, "ul") || is_literal(tag, "menu") || is_literal(
        tag,
        "li",
    ) || is_literal(tag, "dl") || is_literal(tag, "dt") || is_literal(tag, "dd") || is_literal(
        tag,
        "figure",
    ) || is_literal(tag, "figcaption") || is_literal(tag, "main") || is_literal(tag, "div")
        || is_literal(tag, "table") || is_literal(tag, "form") || is_literal(tag, "fieldset")
        || is_literal(tag, "legend") || is_literal(tag, "details") || is_literal(tag, "summary")
}

/// How the content of node `node` is laid out.
pub fn layout_mode(doc: &Document, node: usize) -> (r: Mode)
    requires
        doc.wf(),
        node < doc@.len(),
    ensures
        r == mode(doc@, node as int),
{
    let n = doc.node(node);
    let mut j: usize = 0;
    while j < n.children.len()
        invariant
            doc.wf(),
            node < doc@.len(),
            n@ == doc@[node as int],
            j <= n.children.len(),
            forall|i: int| 0 <= i < j ==> !is_block_element(doc@, #[trigger] doc@[node as int].children[i] as int),
        decreases n.children.len() - j,
    {
        let child = n.children[j];
        let block = match doc.node(child).tag() {
            Some(tag) => block_tag(tag),
            None => false,
        };
        if block {
            return Mode::Block;
        }
        j += 1;
    }
    if n.children.len() > 0 {
        Mode::Inline
    } else {
        Mode::Empty
    }
}

/// The words of node `node`: those of its text; an element has none.
pub fn node_words(doc: &Document, node: usize) -> (r: Vec<String>)
    requires
        node < doc@.len(),
    ensures
        r.deep_view() == words_of(doc@, node as int),
{
    match &doc.node(node).node_type {
        HtmlNodeType::Text(t) => {
            let chars = chars_of(t.text.as_str());
            split_whitespace(&chars)
        },
        HtmlNodeType::Element(_) => {
            let r: Vec<String> = Vec::new();
            r
        },
    }
}

/// Whether `metrics` measures `doc`.
#[verifier::loop_isolation(false)]
pub fn check_metrics(doc: &Document, metrics: &Vec<NodeMetrics>) -> (b: bool)
    ensures
        b == metrics_match(doc@, measures(metrics@)),
{
    if metrics.len() != doc.len() {
        return false;
    }
    let mut i: usize = 0;
    while i < metrics.len()
        invariant
            i <= metrics.len() == doc@.len(),
            forall|k: int|
                0 <= k < i ==> (#[trigger] measures(metrics@)[k]).words.len() == words_of(doc@, k).len()
                    && measures(metrics@)[k].space_width <= MAX_METRIC,
            forall|k: int, j: int|
                0 <= k < i && 0 <= j < measures(metrics@)[k].words.len() ==> metric_ok(
                    #[trigger] measures(metrics@)[k].words[j],
                ),
        decreases metrics.len() - i,
    {
        let words = node_words(doc, i);
        let entry = &metrics[i];
        assert(measures(metrics@)[i as int] == entry@);
        if entry.words.len() != words.len() || entry.space_width > MAX_METRIC {
            return false;
        }
        let mut j: usize = 0;
        while j < entry.words.len()
            invariant
                j <= entry.words.len(),
                forall|q: int| 0 <= q < j ==> metric_ok(#[trigger] entry.words[q]),
            decreases entry.words.len() - j,
        {
            let w = entry.words[j];
            if w.width > MAX_METRIC || w.height > MAX_METRIC || w.ascent > w.height {
                return false;
            }
            j += 1;
        }
        i += 1;
    }
    true
}

/// A word within the limits of a measurement, in a node of the tree.
pub open spec fn word_ok(t: Seq<NodeView>, w: Word) -> bool {
    &&& w.node < t.len()
    &&& 0 <= w.width <= MAX_METRIC
    &&& 0 <= w.ascent <= w.height <= MAX_METRIC
    &&& 0 <= w.space <= MAX_METRIC
}

/// An item whose word, if it is one, is within the limits.
pub open spec fn item_ok(t: Seq<NodeView>, item: Item) -> bool {
    item matches Item::Word(w) ==> word_ok(t, w)
}

/// A state of the line breaker that the steps keep: the cursor is at the
/// left edge whenever the line is empty, and never further right than a
/// word and a space behind the width of the block.
pub open spec fn state_ok(t: Seq<NodeView>, f: Frame, st: InlineState) -> bool {
    &&& 0 <= f.width <= MAX_METRIC
    &&& 0 <= f.x
    &&& 0 <= st.cursor_y
    &&& 0 <= st.cursor_x <= f.width + 2 * MAX_METRIC
    &&& st.pending.len() == 0 ==> st.cursor_x == 0
    &&& forall|i: int|
        0 <= i < st.pending.len() ==> word_ok(t, (#[trigger] st.pending[i]).word) && 0
            <= st.pending[i].x <= f.width + 2 * MAX_METRIC
}

/// The greatest ascent and descent of words within the limits are within
/// the limits, and no word rises above the greatest ascent.
pub proof fn lemma_max(t: Seq<NodeView>, p: Seq<Placed>)
    requires
        forall|i: int| 0 <= i < p.len() ==> word_ok(t, (#[trigger] p[i]).word),
    ensures
        0 <= max_ascent(p) <= MAX_METRIC,
        0 <= max_descent(p) <= MAX_METRIC,
        forall|i: int|
            0 <= i < p.len() ==> (#[trigger] p[i]).word.ascent <= max_ascent(p) && p[i].word.height
                - p[i].word.ascent <= max_descent(p),
        0 <= line_height(p) <= 3 * MAX_METRIC,
        0 <= baseline(p) <= 2 * MAX_METRIC,
        max_ascent(p) <= baseline(p),
        baseline(p) + max_descent(p) <= line_height(p),
    decreases p.len(),
{
    if p.len() > 0 {
        lemma_max(t, p.drop_last());
        assert forall|i: int| 0 <= i < p.len() implies (#[trigger] p[i]).word.ascent
            <= max_ascent(p) && p[i].word.height - p[i].word.ascent <= max_descent(p) by {
            if i < p.len() - 1 {
                assert(p.drop_last()[i] == p[i]);
            }
        }
    }
}

/// A step keeps the state in order and does not move the cursor up.
pub proof fn lemma_step(t: Seq<NodeView>, f: Frame, st: InlineState, item: Item)
    requires
        state_ok(t, f, st),
        item_ok(t, item),
    ensures
        state_ok(t, f, step(t, f, st, item)),
        state_ok(t, f, flush(t, f, st)),
        step(t, f, st, item).cursor_y >= st.cursor_y,
        flush(t, f, st).cursor_y >= st.cursor_y,
{
    lemma_max(t, st.pending);
    match item {
        Item::Word(w) => {},
        Item::Break => {},
        Item::ParagraphEnd => {},
    }
}

/// A run over items within the limits keeps the state in order and does
/// not move the cursor up.
pub proof fn lemma_run(t: Seq<NodeView>, f: Frame, st: InlineState, its: Seq<Item>)
    requires
        state_ok(t, f, st),
        forall|i: int| 0 <= i < its.len() ==> item_ok(t, #[trigger] its[i]),
    ensures
        state_ok(t, f, run(t, f, st, its)),
        run(t, f, st, its).cursor_y >= st.cursor_y,
    decreases its.len(),
{
    if its.len() > 0 {
        lemma_run(t, f, st, its.drop_last());
        lemma_step(t, f, run(t, f, st, its.drop_last()), its.last());
    }
}

/// With measurements that fit the document, every item of the walk is
/// within the limits.
pub proof fn lemma_items_ok(t: Seq<NodeView>, m: Seq<MetricsView>, node: int)
    requires
        tree_wf(t),
        metrics_match(t, m),
        0 <= node < t.len(),
    ensures
        forall|i: int|
            0 <= i < items(t, m, node).len() ==> item_ok(t, #[trigger] items(t, m, node)[i]),
    decreases t.len() - node, 1nat, 0nat,
{
    match t[node].kind {
        NodeKind::Text { .. } => {},
        NodeKind::Element { tag, .. } => {
            let inner = child_items(t, m, node, t[node].children.len() as int);
            lemma_child_items_ok(t, m, node, t[node].children.len() as int);
            assert(items(t, m, node) == opening(tag) + inner + closing(tag));
        },
    }
}

/// With measurements that fit the document, every item of the walk
/// through the first children of a node is within the limits.
pub proof fn lemma_child_items_ok(t: Seq<NodeView>, m: Seq<MetricsView>, node: int, k: int)
    requires
        tree_wf(t),
        metrics_match(t, m),
        0 <= node < t.len(),
        0 <= k <= t[node].children.len(),
    ensures
        forall|i: int|
            0 <= i < child_items(t, m, node, k).len() ==> item_ok(
                t,
                #[trigger] child_items(t, m, node, k)[i],
            ),
    decreases t.len() - node, 0nat, k,
{
    if k > 0 {
        lemma_child_items_ok(t, m, node, k - 1);
        let child = t[node].children[k - 1] as int;
        lemma_items_ok(t, m, child);
        let before = child_items(t, m, node, k - 1);
        let all = child_items(t, m, node, k);
        assert(all == before + items(t, m, child));
    }
}

/// A word on the line being filled.
#[derive(Debug)]
pub struct PendingWord {
    pub node: usize,
    pub word: String,
    pub x: u64,
    pub width: u64,
    pub height: u64,
    pub ascent: u64,
    pub space: u64,
}

impl View for PendingWord {
    type V = Placed;

    open spec fn view(&self) -> Placed {
        Placed {
            word: Word {
                node: self.node,
                text: self.word@,
                width: self.width as int,
                height: self.height as int,
                ascent: self.ascent as int,
                space: self.space as int,
            },
            x: self.x as int,
        }
    }
}

/// The line breaker of one block.
#[derive(Debug)]
pub struct BlockLayout {
    node: usize,
    x: u64,
    width: u64,
    cursor_x: u64,
    cursor_y: u64,
    line: Vec<PendingWord>,
    lines: Vec<LayoutNode>,
}

impl BlockLayout {
    /// The block that is filled.
    pub closed spec fn frame(&self) -> Frame {
        Frame { node: self.node, x: self.x as int, width: self.width as int }
    }

    /// The state of the line breaker.
    pub closed spec fn state(&self) -> InlineState {
        InlineState {
            lines: models(self.lines@),
            pending: Seq::new(self.line@.len(), |i: int| self.line@[i]@),
            cursor_x: self.cursor_x as int,
            cursor_y: self.cursor_y as int,
        }
    }

    /// The state is in order, see [`state_ok`].
    pub open spec fn wf(&self, t: Seq<NodeView>) -> bool {
        state_ok(t, self.frame(), self.state())
    }

    /// A line breaker at the start of the block of `node`, at (`x`, `y`)
    /// and of width `width`.
    pub fn new(node: usize, x: u64, y: u64, width: u64) -> (b: BlockLayout)
        ensures
            b.frame() == (Frame { node, x: x as int, width: width as int }),
            b.state() == start(y as int),
    {
        let b = BlockLayout {
            node,
            x,
            width,
            cursor_x: 0,
            cursor_y: y,
            line: Vec::new(),
            lines: Vec::new(),
        };
        assert(b.state().lines == Seq::<BoxView>::empty());
        assert(b.state().pending == Seq::<Placed>::empty());
        b
    }

    /// Ends the line being filled, see [`flush`].
    pub fn flush_line(&mut self, doc: &Document) -> (r: Result<(), LayoutError>)
        requires
            old(self).wf(doc@),
        ensures
            final(self).frame() == old(self).frame(),
            match r {
                Ok(_) => final(self).state() == flush(doc@, old(self).frame(), old(self).state())
                    && final(self).wf(doc@),
                Err(e) => e == LayoutError::TooLarge && flush(
                    doc@,
                    old(self).frame(),
                    old(self).state(),
                ).cursor_y > u64::MAX && final(self).state() == old(self).state(),
            },
    {
        let ghost t = doc@;
        let ghost f = self.frame();
        let ghost st = self.state();
        let ghost p = st.pending;
        if self.line.len() == 0 {
            return Ok(());
        }
        proof {
            lemma_max(t, p);
            lemma_step(t, f, st, Item::Break);
        }
        let mut ascent: u64 = 0;
        let mut descent: u64 = 0;
        let mut i: usize = 0;
        while i < self.line.len()
            invariant
                i <= self.line.len(),
                *self == *old(self),
                p == self.state().pending,
                p.len() == self.line.len(),
                forall|k: int| 0 <= k < p.len() ==> word_ok(t, (#[trigger] p[k]).word),
                ascent == max_ascent(p.take(i as int)),
                descent == max_descent(p.take(i as int)),
            decreases self.line.len() - i,
        {
            proof {
                assert(p.take(i + 1).drop_last() == p.take(i as int));
                assert(p.take(i + 1).last() == self.line@[i as int]@);
            }
            let w = &self.line[i];
            if w.ascent > ascent {
                ascent = w.ascent;
            }
            if w.height - w.ascent > descent {
                descent = w.height - w.ascent;
            }
            i += 1;
        }
        assert(p.take(p.len() as int) == p);
        let base: u64 = 5 * ascent / 4;
        let height: u64 = 5 * (ascent + descent) / 4;
        if height > u64::MAX - self.cursor_y {
            return Err(LayoutError::TooLarge);
        }
        let mut texts: Vec<LayoutNode> = Vec::new();
        let mut j: usize = 0;
        while j < self.line.len()
            invariant
                j <= self.line.len(),
                *self == *old(self),
                t == doc@,
                p == self.state().pending,
                p.len() == self.line.len(),
                forall|k: int| 0 <= k < p.len() ==> word_ok(t, (#[trigger] p[k]).word),
                forall|k: int| 0 <= k < p.len() ==> (#[trigger] p[k]).word.ascent <= max_ascent(p),
                base == baseline(p),
                max_ascent(p) <= base,
                texts@.len() == j,
                forall|k: int| 0 <= k < j ==> (#[trigger] texts@[k])@ == text_box(t, p[k], base as int),
            decreases self.line.len() - j,
        {
            let w = &self.line[j];
            assert(p[j as int] == w@);
            let style = &doc.node(w.node).style;
            let text = LayoutNode {
                node: w.node,
                children: Vec::new(),
                content: LayoutNodeType::Text {
                    word: w.word.clone(),
                    font: font_for(style),
                    color: text_color(style),
                },
                position: Vec2 { x: w.x, y: base - w.ascent },
                size: Vec2 { x: w.width, y: w.height },
            };
            assert(text@.children == Seq::<BoxView>::empty());
            texts.push(text);
            j += 1;
        }
        let line = LayoutNode {
            node: self.node,
            children: texts,
            content: LayoutNodeType::Line { max_ascent: ascent, max_descent: descent },
            position: Vec2 { x: self.x, y: self.cursor_y },
            size: Vec2 { x: self.width, y: height },
        };
        proof {
            assert(line@.children == line_box(t, f, st.cursor_y, p).children);
        }
        let ghost before = models(self.lines@);
        self.lines.push(line);
        assert(models(self.lines@) == before.push(line@));
        self.line = Vec::new();
        self.cursor_x = 0;
        self.cursor_y = self.cursor_y + height;
        assert(self.state().pending == Seq::<Placed>::empty());
        Ok(())
    }

    /// Places a word, see [`place`].
    pub fn word(&mut self, doc: &Document, node: usize, word: String, metrics: WordMetrics, space: u64) -> (r: Result<(), LayoutError>)
        requires
            old(self).wf(doc@),
            node < doc@.len(),
            metric_ok(metrics),
            space <= MAX_METRIC,
        ensures
            final(self).frame() == old(self).frame(),
            match r {
                Ok(_) => final(self).state() == place(
                    doc@,
                    old(self).frame(),
                    old(self).state(),
                    word_of(node, word@, metrics, space),
                ) && final(self).wf(doc@),
                Err(e) => e == LayoutError::TooLarge && place(
                    doc@,
                    old(self).frame(),
                    old(self).state(),
                    word_of(node, word@, metrics, space),
                ).cursor_y > u64::MAX && final(self).state() == old(self).state(),
            },
    {
        let ghost t = doc@;
        let ghost f = self.frame();
        let ghost st = self.state();
        let ghost w = word_of(node, word@, metrics, space);
        proof {
            lemma_step(t, f, st, Item::Word(w));
        }
        if self.cursor_x + metrics.width > self.width {
            match self.flush_line(doc) {
                Ok(_) => {},
                Err(e) => {
                    return Err(e);
                },
            }
        }
        let ghost s = self.state();
        let ghost before = s.pending;
        self.line.push(
            PendingWord {
                node,
                word,
                x: self.cursor_x,
                width: metrics.width,
                height: metrics.height,
                ascent: metrics.ascent,
                space,
            },
        );
        self.cursor_x = self.cursor_x + metrics.width + space;
        assert(self.state().pending == before.push(Placed { word: w, x: s.cursor_x }));
        Ok(())
    }

    /// The start of an element: `br` ends the line.
    pub fn open_tag(&mut self, doc: &Document, tag: &String) -> (r: Result<(), LayoutError>)
        requires
            old(self).wf(doc@),
        ensures
            final(self).frame() == old(self).frame(),
            match r {
                Ok(_) => final(self).state() == run(
                    doc@,
                    old(self).frame(),
                    old(self).state(),
                    opening(tag@),
                ) && final(self).wf(doc@),
                Err(e) => e == LayoutError::TooLarge && run(
                    doc@,
                    old(self).frame(),
                    old(self).state(),
                    opening(tag@),
                ).cursor_y > u64::MAX && final(self).state() == old(self).state(),
            },
    {
        proof {
            lemma_run_one(doc@, self.frame(), self.state(), Item::Break);
        }
        if is_literal(tag, "br") {
            self.flush_line(doc)
        } else {
            Ok(())
        }
    }

    /// The end of an element: `p` ends the line and leaves [`VSTEP`] free
    /// below it.
    pub fn close_tag(&mut self, doc: &Document, tag: &String) -> (r: Result<(), LayoutError>)
        requires
            old(self).wf(doc@),
        ensures
            final(self).frame() == old(self).frame(),
            match r {
                Ok(_) => final(self).state() == run(
                    doc@,
                    old(self).frame(),
                    old(self).state(),
                    closing(tag@),
                ) && final(self).wf(doc@),
                Err(e) => e == LayoutError::TooLarge && run(
                    doc@,
                    old(self).frame(),
                    old(self).state(),
                    closing(tag@),
                ).cursor_y > u64::MAX && (final(self).state() == old(self).state()
                    || final(self).state() == flush(doc@, old(self).frame(), old(self).state())),
            },
    {
        proof {
            lemma_run_one(doc@, self.frame(), self.state(), Item::ParagraphEnd);
            lemma_step(doc@, self.frame(), self.state(), Item::ParagraphEnd);
        }
        if is_literal(tag, "p") {
            match self.flush_line(doc) {
                Ok(_) => {},
                Err(e) => {
                    return Err(e);
                },
            }
            if self.cursor_y > u64::MAX - VSTEP {
                return Err(LayoutError::TooLarge);
            }
            self.cursor_y = self.cursor_y + VSTEP;
            Ok(())
        } else {
            Ok(())
        }
    }
}

/// The word `text` of node `node` with its measurement.
pub open spec fn word_of(node: usize, text: Seq<char>, metrics: WordMetrics, space: u64) -> Word {
    Word {
        node,
        text,
        width: metrics.width as int,
        height: metrics.height as int,
        ascent: metrics.ascent as int,
        space: space as int,
    }
}

/// A run over one item is one step.
pub proof fn lemma_run_one(t: Seq<NodeView>, f: Frame, st: InlineState, item: Item)
    ensures
        run(t, f, st, seq![item]) == step(t, f, st, item),
        run(t, f, st, Seq::empty()) == st,
{
    assert(run(t, f, st, seq![item].drop_last()) == st);
}

/// Once the cursor is below what can be counted, it stays there.
pub proof fn lemma_run_overflow(
    t: Seq<NodeView>,
    f: Frame,
    st: InlineState,
    a: Seq<Item>,
    b: Seq<Item>,
)
    requires
        state_ok(t, f, st),
        forall|i: int| 0 <= i < a.len() ==> item_ok(t, #[trigger] a[i]),
        forall|i: int| 0 <= i < b.len() ==> item_ok(t, #[trigger] b[i]),
    ensures
        run(t, f, st, a + b).cursor_y >= run(t, f, st, a).cursor_y,
        state_ok(t, f, run(t, f, st, a)),
{
    lemma_run(t, f, st, a);
    lemma_run_concat(t, f, st, a, b);
    lemma_run(t, f, run(t, f, st, a), b);
}

/// The walk through more children moves the cursor no higher.
pub proof fn lemma_child_items_grow(
    t: Seq<NodeView>,
    m: Seq<MetricsView>,
    f: Frame,
    st: InlineState,
    node: int,
    k1: int,
    k2: int,
)
    requires
        tree_wf(t),
        metrics_match(t, m),
        0 <= node < t.len(),
        0 <= k1 <= k2 <= t[node].children.len(),
        state_ok(t, f, st),
    ensures
        run(t, f, st, child_items(t, m, node, k2)).cursor_y >= run(
            t,
            f,
            st,
            child_items(t, m, node, k1),
        ).cursor_y,
    decreases k2 - k1,
{
    if k1 < k2 {
        lemma_child_items_grow(t, m, f, st, node, k1, k2 - 1);
        let child = t[node].children[k2 - 1] as int;
        lemma_child_items_ok(t, m, node, k2 - 1);
        lemma_items_ok(t, m, child);
        lemma_run_overflow(t, f, st, child_items(t, m, node, k2 - 1), items(t, m, child));
    }
}

impl BlockLayout {
    /// Walks through `node` and all below it, see [`items`], and places
    /// every word.
    #[verifier::loop_isolation(false)]
    pub fn recurse(&mut self, doc: &Document, metrics: &Vec<NodeMetrics>, node: usize) -> (r:
        Result<(), LayoutError>)
        requires
            old(self).wf(doc@),
            doc.wf(),
            metrics_match(doc@, measures(metrics@)),
            node < doc@.len(),
        ensures
            final(self).frame() == old(self).frame(),
            match r {
                Ok(_) => final(self).state() == run(
                    doc@,
                    old(self).frame(),
                    old(self).state(),
                    items(doc@, measures(metrics@), node as int),
                ) && final(self).wf(doc@),
                Err(e) => e == LayoutError::TooLarge && run(
                    doc@,
                    old(self).frame(),
                    old(self).state(),
                    items(doc@, measures(metrics@), node as int),
                ).cursor_y > u64::MAX,
            },
        decreases doc@.len() - node,
    {
        let ghost t = doc@;
        let ghost m = measures(metrics@);
        let ghost f = self.frame();
        let ghost st0 = self.state();
        let ghost all = items(t, m, node as int);
        proof {
            lemma_items_ok(t, m, node as int);
        }
        match &doc.node(node).node_type {
            HtmlNodeType::Text(_) => {
                let words = node_words(doc, node);
                let entry = &metrics[node];
                let n = words.len();
                let mut j: usize = 0;
                while j < n
                    invariant
                        j <= n == words.len(),
                        t == doc@,
                        m == measures(metrics@),
                        doc.wf(),
                        metrics_match(t, m),
                        node < t.len(),
                        entry@ == m[node as int],
                        words.deep_view() == words_of(t, node as int),
                        all == word_items(t, m, node as int, n as int),
                        forall|i: int| 0 <= i < all.len() ==> item_ok(t, #[trigger] all[i]),
                        state_ok(t, f, st0),
                        self.frame() == f,
                        self.wf(t),
                        self.state() == run(t, f, st0, word_items(t, m, node as int, j as int)),
                    decreases n - j,
                {
                    let ghost done = word_items(t, m, node as int, j as int);
                    let ghost next = word_items(t, m, node as int, j + 1);
                    proof {
                        assert(next.drop_last() == done);
                        assert(all == next + all.skip(j + 1));
                        lemma_run_overflow(t, f, st0, next, all.skip(j + 1));
                    }
                    match self.word(doc, node, words[j].clone(), entry.words[j], entry.space_width) {
                        Ok(_) => {},
                        Err(e) => {
                            return Err(e);
                        },
                    }
                    j += 1;
                }
                Ok(())
            },
            HtmlNodeType::Element(element) => {
                let tag = &element.tag;
                let ghost inner = child_items(t, m, node as int, t[node as int].children.len() as int);
                proof {
                    lemma_child_items_ok(t, m, node as int, t[node as int].children.len() as int);
                    lemma_run_overflow(t, f, st0, opening(tag@), inner + closing(tag@));
                    assert(opening(tag@) + (inner + closing(tag@)) == all);
                    lemma_run_concat(t, f, st0, opening(tag@), inner + closing(tag@));
                    lemma_run_concat(t, f, st0, opening(tag@) + inner, closing(tag@));
                    lemma_run_concat(t, f, st0, opening(tag@), inner);
                }
                match self.open_tag(doc, tag) {
                    Ok(_) => {},
                    Err(e) => {
                        return Err(e);
                    },
                }
                let ghost st1 = self.state();
                let children = &doc.node(node).children;
                let n = children.len();
                let mut k: usize = 0;
                proof {
                    lemma_run_overflow(t, f, st1, inner, closing(tag@));
                }
                while k < n
                    invariant
                        k <= n == children.len(),
                        t == doc@,
                        m == measures(metrics@),
                        doc.wf(),
                        metrics_match(t, m),
                        node < t.len(),
                        children@ == t[node as int].children,
                        inner == child_items(t, m, node as int, n as int),
                        state_ok(t, f, st1),
                        self.frame() == f,
                        self.wf(t),
                        self.state() == run(t, f, st1, child_items(t, m, node as int, k as int)),
                    decreases n - k,
                {
                    let child = children[k];
                    proof {
                        lemma_run_concat(
                            t,
                            f,
                            st1,
                            child_items(t, m, node as int, k as int),
                            items(t, m, child as int),
                        );
                        lemma_child_items_grow(t, m, f, st1, node as int, k + 1, n as int);
                    }
                    match self.recurse(doc, metrics, child) {
                        Ok(_) => {},
                        Err(e) => {
                            return Err(e);
                        },
                    }
                    k += 1;
                }
                self.close_tag(doc, tag)
            },
        }
    }
}

/// A block is not higher than nothing, and stands where it was put.
pub proof fn lemma_block_height(
    t: Seq<NodeView>,
    m: Seq<MetricsView>,
    node: int,
    x: int,
    y: int,
    width: int,
)
    requires
        tree_wf(t),
        metrics_match(t, m),
        0 <= node < t.len(),
        0 <= x,
        0 <= y,
        0 <= width <= MAX_METRIC,
    ensures
        block_box(t, m, node, x, y, width).height >= 0,
        block_box(t, m, node, x, y, width).y == y,
    decreases t.len() - node, 1nat, 0nat,
{
    match mode(t, node) {
        Mode::Block => {
            lemma_child_blocks(t, m, node, 0, t[node].children.len() as int, x, y, width);
        },
        Mode::Inline => {
            let f = Frame { node: node as usize, x, width };
            lemma_items_ok(t, m, node);
            lemma_run(t, f, start(y), items(t, m, node));
            lemma_step(t, f, run(t, f, start(y), items(t, m, node)), Item::Break);
        },
        Mode::Empty => {},
    }
}

/// The blocks of more children end no higher, and none ends above `y`.
pub proof fn lemma_child_blocks(
    t: Seq<NodeView>,
    m: Seq<MetricsView>,
    node: int,
    k1: int,
    k2: int,
    x: int,
    y: int,
    width: int,
)
    requires
        tree_wf(t),
        metrics_match(t, m),
        0 <= node < t.len(),
        0 <= k1 <= k2 <= t[node].children.len(),
        0 <= x,
        0 <= y,
        0 <= width <= MAX_METRIC,
    ensures
        y <= bottom(child_blocks(t, m, node, k1, x, y, width), y) <= bottom(
            child_blocks(t, m, node, k2, x, y, width),
            y,
        ),
    decreases t.len() - node, 0nat, k2,
{
    if k2 > 0 {
        if k1 < k2 {
            lemma_child_blocks(t, m, node, k1, k2 - 1, x, y, width);
        }
        lemma_child_blocks(t, m, node, k2 - 1, k2 - 1, x, y, width);
        let before = child_blocks(t, m, node, k2 - 1, x, y, width);
        let child = t[node].children[k2 - 1] as int;
        lemma_block_height(t, m, child, x, bottom(before, y), width);
    }
}

/// Lays out node `node` as a block at (`x`, `y`) of width `width`, see
/// [`block_box`]. It fails where the block would end below what can be
/// counted.
#[verifier::loop_isolation(false)]
pub fn layout_block(
    doc: &Document,
    metrics: &Vec<NodeMetrics>,
    node: usize,
    x: u64,
    y: u64,
    width: u64,
) -> (r: Result<LayoutNode, LayoutError>)
    requires
        doc.wf(),
        metrics_match(doc@, measures(metrics@)),
        node < doc@.len(),
        width <= MAX_METRIC,
    ensures
        match r {
            Ok(b) => b@ == block_box(doc@, measures(metrics@), node as int, x as int, y as int, width as int)
                && b@.y + b@.height <= u64::MAX,
            Err(e) => e == LayoutError::TooLarge && y + block_box(
                doc@,
                measures(metrics@),
                node as int,
                x as int,
                y as int,
                width as int,
            ).height > u64::MAX,
        },
    decreases doc@.len() - node,
{
    let ghost t = doc@;
    let ghost m = measures(metrics@);
    match layout_mode(doc, node) {
        Mode::Block => {
            let children = &doc.node(node).children;
            let n = children.len();
            let mut boxes: Vec<LayoutNode> = Vec::new();
            let mut cursor: u64 = y;
            let mut k: usize = 0;
            while k < n
                invariant
                    k <= n == children.len(),
                    t == doc@,
                    m == measures(metrics@),
                    doc.wf(),
                    metrics_match(t, m),
                    node < t.len(),
                    width <= MAX_METRIC,
                    children@ == t[node as int].children,
                    models(boxes@) == child_blocks(
                        t,
                        m,
                        node as int,
                        k as int,
                        x as int,
                        y as int,
                        width as int,
                    ),
                    cursor == bottom(models(boxes@), y as int),
                decreases n - k,
            {
                let child = children[k];
                proof {
                    lemma_child_blocks(
                        t,
                        m,
                        node as int,
                        k + 1,
                        n as int,
                        x as int,
                        y as int,
                        width as int,
                    );
                    lemma_block_height(t, m, child as int, x as int, cursor as int, width as int);
                }
                let b = match layout_block(doc, metrics, child, x, cursor, width) {
                    Ok(b) => b,
                    Err(e) => {
                        return Err(e);
                    },
                };
                cursor = b.position.y + b.size.y;
                boxes.push(b);
                k += 1;
            }
            proof {
                lemma_child_blocks(t, m, node as int, 0, n as int, x as int, y as int, width as int);
            }
            let b = LayoutNode {
                node,
                children: boxes,
                content: LayoutNodeType::Block,
                position: Vec2 { x, y },
                size: Vec2 { x: width, y: cursor - y },
            };
            assert(b@.children == models(boxes@));
            Ok(b)
        },
        Mode::Inline => {
            let mut inline = BlockLayout::new(node, x, y, width);
            let ghost f = inline.frame();
            proof {
                lemma_items_ok(t, m, node as int);
                lemma_run(t, f, start(y as int), items(t, m, node as int));
                lemma_step(t, f, run(t, f, start(y as int), items(t, m, node as int)), Item::Break);
            }
            match inline.recurse(doc, metrics, node) {
                Ok(_) => {},
                Err(e) => {
                    return Err(e);
                },
            }
            match inline.flush_line(doc) {
                Ok(_) => {},
                Err(e) => {
                    return Err(e);
                },
            }
            let b = LayoutNode {
                node,
                children: inline.lines,
                content: LayoutNodeType::Block,
                position: Vec2 { x, y },
                size: Vec2 { x: width, y: inline.cursor_y - y },
            };
            assert(b@.children == inline.state().lines);
            Ok(b)
        },
        Mode::Empty => {
            let b = LayoutNode {
                node,
                children: Vec::new(),
                content: LayoutNodeType::Block,
                position: Vec2 { x, y },
                size: Vec2 { x: width, y: 0 },
            };
            assert(b@.children == Seq::<BoxView>::empty());
            Ok(b)
        },
    }
}

impl LayoutNode {
    /// The box of the page before it is laid out: it has no content and
    /// no height.
    pub fn new_document() -> (b: LayoutNode)
        ensures
            b@ == (BoxView {
                node: 0,
                kind: BoxKind::Document,
                x: HSTEP as int,
                y: VSTEP as int,
                width: WIDTH - 2 * HSTEP,
                height: 0,
                children: Seq::empty(),
            }),
    {
        let b = LayoutNode {
            node: 0,
            children: Vec::new(),
            content: LayoutNodeType::Document,
            position: Vec2 { x: HSTEP, y: VSTEP },
            size: Vec2 { x: WIDTH - 2 * HSTEP, y: 0 },
        };
        assert(b@.children == Seq::<BoxView>::empty());
        b
    }

    /// The box of node `node` before it is laid out: a block at (`x`, `y`)
    /// of width `width` without content and without height.
    pub fn new_block(node: usize, x: u64, y: u64, width: u64) -> (b: LayoutNode)
        ensures
            b@ == (BoxView {
                node,
                kind: BoxKind::Block,
                x: x as int,
                y: y as int,
                width: width as int,
                height: 0,
                children: Seq::empty(),
            }),
    {
        let b = LayoutNode {
            node,
            children: Vec::new(),
            content: LayoutNodeType::Block,
            position: Vec2 { x, y },
            size: Vec2 { x: width, y: 0 },
        };
        assert(b@.children == Seq::<BoxView>::empty());
        b
    }

    /// What [`LayoutNode::layout`] makes of the box `b`: a page gets the
    /// block of the root, a block gets its content, and a line or a word
    /// stays as it is.
    pub open spec fn laid_out(b: BoxView, t: Seq<NodeView>, m: Seq<MetricsView>) -> BoxView {
        match b.kind {
            BoxKind::Document => BoxView { node: b.node, ..page_box(t, m, b.x, b.y, b.width) },
            BoxKind::Block => block_box(t, m, b.node as int, b.x, b.y, b.width),
            _ => b,
        }
    }

    /// The error that [`LayoutNode::layout`] ends with for the box `b`, if
    /// it ends with one.
    pub open spec fn layout_error(b: BoxView, t: Seq<NodeView>, m: Seq<MetricsView>) -> Option<
        LayoutError,
    > {
        if !metrics_match(t, m) {
            Some(LayoutError::Metrics)
        } else if b.kind is Line || b.kind is Text {
            None
        } else if b.kind is Block && b.node >= t.len() {
            Some(LayoutError::NoSuchNode)
        } else if b.width > MAX_METRIC || b.y + Self::laid_out(b, t, m).height > u64::MAX {
            Some(LayoutError::TooLarge)
        } else {
            None
        }
    }

    /// Lays out the content of the box, see [`LayoutNode::laid_out`]. On
    /// an error the box is left as it was.
    pub fn layout(&mut self, doc: &Document, metrics: &Vec<NodeMetrics>) -> (r: Result<
        (),
        LayoutError,
    >)
        requires
            doc.wf(),
        ensures
            match r {
                Ok(_) => Self::layout_error(old(self)@, doc@, measures(metrics@)) is None && final(self)@
                    == Self::laid_out(old(self)@, doc@, measures(metrics@)),
                Err(e) => Self::layout_error(old(self)@, doc@, measures(metrics@)) == Some(e) && *final(self)
                    == *old(self),
            },
    {
        if !check_metrics(doc, metrics) {
            return Err(LayoutError::Metrics);
        }
        match &self.content {
            LayoutNodeType::Document => {
                if self.size.x > MAX_METRIC {
                    return Err(LayoutError::TooLarge);
                }
                let child = match layout_block(
                    doc,
                    metrics,
                    0,
                    self.position.x,
                    self.position.y,
                    self.size.x,
                ) {
                    Ok(b) => b,
                    Err(e) => {
                        return Err(e);
                    },
                };
                self.size.y = child.size.y;
                let mut children: Vec<LayoutNode> = Vec::new();
                children.push(child);
                self.children = children;
                assert(self@.children == seq![child@]);
                Ok(())
            },
            LayoutNodeType::Block => {
                if self.node >= doc.len() {
                    return Err(LayoutError::NoSuchNode);
                }
                if self.size.x > MAX_METRIC {
                    return Err(LayoutError::TooLarge);
                }
                let b = match layout_block(
                    doc,
                    metrics,
                    self.node,
                    self.position.x,
                    self.position.y,
                    self.size.x,
                ) {
                    Ok(b) => b,
                    Err(e) => {
                        return Err(e);
                    },
                };
                *self = b;
                Ok(())
            },
            _ => Ok(()),
        }
    }
}

/// Lays out the page in the window, see [`document_box`].
pub fn layout_document(doc: &Document, metrics: &Vec<NodeMetrics>) -> (r: Result<
    LayoutNode,
    LayoutError,
>)
    requires
        doc.wf(),
    ensures
        match r {
            Ok(b) => metrics_match(doc@, measures(metrics@)) && b@ == document_box(doc@, measures(metrics@)) && VSTEP
                + b@.height <= u64::MAX,
            Err(e) => e == (if metrics_match(doc@, measures(metrics@)) {
                LayoutError::TooLarge
            } else {
                LayoutError::Metrics
            }) && (metrics_match(doc@, measures(metrics@)) ==> VSTEP + document_box(doc@, measures(metrics@)).height
                > u64::MAX),
        },
{
    let mut page = LayoutNode::new_document();
    match page.layout(doc, metrics) {
        Ok(_) => Ok(page),
        Err(e) => Err(e),
    }
}

/// The lines that the line breaker completes while it runs from `st` over
/// `its`, each as the words placed on it.
pub open spec fn completed(t: Seq<NodeView>, f: Frame, st: InlineState, its: Seq<Item>) -> Seq<
    Seq<Placed>,
>
    decreases its.len(),
{
    if its.len() == 0 {
        Seq::empty()
    } else {
        let before = completed(t, f, st, its.drop_last());
        let s = run(t, f, st, its.drop_last());
        let ends = match its.last() {
            Item::Word(w) => s.cursor_x + w.width > f.width,
            _ => true,
        };
        if ends && s.pending.len() > 0 {
            before.push(s.pending)
        } else {
            before
        }
    }
}

/// All lines of a block whose content is `its`: those completed during
/// the run, and the line that is left at the end.
pub open spec fn word_lines(t: Seq<NodeView>, f: Frame, y: int, its: Seq<Item>) -> Seq<Seq<Placed>> {
    let s = run(t, f, start(y), its);
    if s.pending.len() > 0 {
        completed(t, f, start(y), its).push(s.pending)
    } else {
        completed(t, f, start(y), its)
    }
}

/// The boxes of the words of a line.
pub open spec fn text_boxes(t: Seq<NodeView>, p: Seq<Placed>) -> Seq<BoxView> {
    Seq::new(p.len(), |i: int| text_box(t, p[i], baseline(p)))
}

/// Each line box that a run adds holds the words of the line that was
/// completed, in order.
pub proof fn lemma_completed_boxes(t: Seq<NodeView>, f: Frame, st: InlineState, its: Seq<Item>)
    ensures
        run(t, f, st, its).lines.len() == st.lines.len() + completed(t, f, st, its).len(),
        forall|i: int|
            0 <= i < st.lines.len() ==> (#[trigger] run(t, f, st, its).lines[i]) == st.lines[i],
        forall|i: int|
            0 <= i < completed(t, f, st, its).len() ==> (#[trigger] run(t, f, st, its).lines[st.lines.len()
                + i]).children == text_boxes(t, completed(t, f, st, its)[i]),
    decreases its.len(),
{
    if its.len() > 0 {
        lemma_completed_boxes(t, f, st, its.drop_last());
    }
}

/// The line boxes of a block laid out in lines hold the words of
/// [`word_lines`], line by line.
pub proof fn lemma_inline_layout_lines(
    t: Seq<NodeView>,
    m: Seq<MetricsView>,
    node: int,
    x: int,
    y: int,
    width: int,
)
    ensures
        ({
            let f = Frame { node: node as usize, x, width };
            let lines = inline_layout(t, m, node, x, y, width).lines;
            let words = word_lines(t, f, y, items(t, m, node));
            &&& lines.len() == words.len()
            &&& forall|i: int| 0 <= i < lines.len() ==> (#[trigger] lines[i]).children == text_boxes(t, words[i])
        }),
{
    let f = Frame { node: node as usize, x, width };
    let its = items(t, m, node);
    lemma_completed_boxes(t, f, start(y), its);
    let s = run(t, f, start(y), its);
    let c = completed(t, f, start(y), its);
    let lines = inline_layout(t, m, node, x, y, width).lines;
    let words = word_lines(t, f, y, its);
    assert forall|i: int| 0 <= i < lines.len() implies (#[trigger] lines[i]).children == text_boxes(
        t,
        words[i],
    ) by {
        if i < c.len() {
            assert(lines[i] == s.lines[0 + i]);
        }
    }
}

/// A line that holds a word, starts at the left edge, sets each word a
/// space behind the one before, and ends within `width`.
pub open spec fn line_within(l: Seq<Placed>, width: int) -> bool {
    &&& l.len() > 0
    &&& l[0].x == 0
    &&& forall|j: int| 0 <= j < l.len() ==> (#[trigger] l[j]).x + l[j].word.width <= width
    &&& forall|j: int|
        0 < j < l.len() ==> (#[trigger] l[j]).x == l[j - 1].x + l[j - 1].word.width + l[j
            - 1].word.space
}

/// Where the cursor stands behind the line `l`.
pub open spec fn line_end_x(l: Seq<Placed>) -> int {
    l.last().x + l.last().word.width + l.last().word.space
}

/// The first word of `next` did not fit behind the line `l`.
pub open spec fn line_full(l: Seq<Placed>, next: Seq<Placed>, width: int) -> bool {
    line_end_x(l) + next[0].word.width > width
}

/// Whether every item is a word that is no wider than `width`.
pub open spec fn words_within(its: Seq<Item>, width: int) -> bool {
    forall|i: int|
        0 <= i < its.len() ==> ((#[trigger] its[i]) matches Item::Word(w) && 0 <= w.width <= width
            && 0 <= w.space)
}

proof fn lemma_greedy(t: Seq<NodeView>, f: Frame, y: int, its: Seq<Item>)
    requires
        words_within(its, f.width),
    ensures
        ({
            let s = run(t, f, start(y), its);
            let c = completed(t, f, start(y), its);
            &&& forall|i: int| 0 <= i < c.len() ==> line_within(#[trigger] c[i], f.width)
            &&& forall|i: int| 0 <= i < c.len() - 1 ==> line_full(#[trigger] c[i], c[i + 1], f.width)
            &&& s.pending.len() > 0 ==> line_within(s.pending, f.width) && s.cursor_x == line_end_x(
                s.pending,
            )
            &&& s.pending.len() == 0 ==> s.cursor_x == 0 && c.len() == 0 && its.len() == 0
            &&& c.len() > 0 ==> line_full(c.last(), s.pending, f.width)
        }),
    decreases its.len(),
{
    if its.len() > 0 {
        let head = its.drop_last();
        lemma_greedy(t, f, y, head);
        let s0 = run(t, f, start(y), head);
        let w = its.last()->Word_0;
    }
}

/// Lines are filled greedily. Let a block of width `width` hold words
/// only, none wider than the block. Then every line starts at the left
/// edge, its words follow each other with a space between them, and the
/// last word ends within the width; and every line but the last is full:
/// the first word of the next line would have ended outside the width.
pub proof fn lemma_greedy_lines(t: Seq<NodeView>, f: Frame, y: int, its: Seq<Item>)
    requires
        words_within(its, f.width),
    ensures
        forall|i: int|
            0 <= i < word_lines(t, f, y, its).len() ==> line_within(
                #[trigger] word_lines(t, f, y, its)[i],
                f.width,
            ),
        forall|i: int|
            0 <= i < word_lines(t, f, y, its).len() - 1 ==> line_full(
                #[trigger] word_lines(t, f, y, its)[i],
                word_lines(t, f, y, its)[i + 1],
                f.width,
            ),
{
    lemma_greedy(t, f, y, its);
}

/// A line that holds a word, starts at the left edge, and sets each word
/// a space behind the one before.
pub open spec fn line_spaced(l: Seq<Placed>) -> bool {
    &&& l.len() > 0
    &&& l[0].x == 0
    &&& forall|j: int|
        0 < j < l.len() ==> (#[trigger] l[j]).x == l[j - 1].x + l[j - 1].word.width + l[j
            - 1].word.space
}

/// Whether every item is a word.
pub open spec fn only_words(its: Seq<Item>) -> bool {
    forall|i: int| 0 <= i < its.len() ==> (#[trigger] its[i]) is Word
}

proof fn lemma_full(t: Seq<NodeView>, f: Frame, y: int, its: Seq<Item>)
    requires
        only_words(its),
    ensures
        ({
            let s = run(t, f, start(y), its);
            let c = completed(t, f, start(y), its);
            &&& forall|i: int| 0 <= i < c.len() ==> line_spaced(#[trigger] c[i])
            &&& forall|i: int| 0 <= i < c.len() - 1 ==> line_full(#[trigger] c[i], c[i + 1], f.width)
            &&& s.pending.len() > 0 ==> line_spaced(s.pending) && s.cursor_x == line_end_x(s.pending)
            &&& s.pending.len() == 0 ==> s.cursor_x == 0 && c.len() == 0 && its.len() == 0
            &&& c.len() > 0 ==> line_full(c.last(), s.pending, f.width)
        }),
    decreases its.len(),
{
    if its.len() > 0 {
        let head = its.drop_last();
        assert forall|i: int| 0 <= i < head.len() implies (#[trigger] head[i]) is Word by {
            assert(head[i] == its[i]);
        }
        lemma_full(t, f, y, head);
        let s0 = run(t, f, start(y), head);
        let c0 = completed(t, f, start(y), head);
        let s = run(t, f, start(y), its);
        let c = completed(t, f, start(y), its);
        let w = its.last()->Word_0;
        assert(its[its.len() - 1] is Word);
        if s0.cursor_x + w.width > f.width && s0.pending.len() > 0 {
            assert(c == c0.push(s0.pending));
            assert(s.pending == seq![Placed { word: w, x: 0 }]);
            assert forall|i: int| 0 <= i < c.len() - 1 implies line_full(
                #[trigger] c[i],
                c[i + 1],
                f.width,
            ) by {
                if i < c0.len() - 1 {
                    assert(c[i] == c0[i] && c[i + 1] == c0[i + 1]);
                } else {
                    assert(c[i] == c0.last() && c[i + 1] == s0.pending);
                }
            }
        } else {
            assert(c == c0);
            assert(s.pending == s0.pending.push(Placed { word: w, x: s0.cursor_x }));
            if s0.pending.len() > 0 {
                assert(s.pending[0] == s0.pending[0]);
            }
        }
    }
}

/// Every line but the last is full, however wide the words are. Let a
/// block hold words only. Then every line holds a word and starts at the
/// left edge, its words follow each other with a space between them, and
/// the first word of the next line would have ended outside the width of
/// the block.
pub proof fn lemma_full_lines(t: Seq<NodeView>, f: Frame, y: int, its: Seq<Item>)
    requires
        only_words(its),
    ensures
        forall|i: int|
            0 <= i < word_lines(t, f, y, its).len() ==> line_spaced(
                #[trigger] word_lines(t, f, y, its)[i],
            ),
        forall|i: int|
            0 <= i < word_lines(t, f, y, its).len() - 1 ==> line_full(
                #[trigger] word_lines(t, f, y, its)[i],
                word_lines(t, f, y, its)[i + 1],
                f.width,
            ),
{
    lemma_full(t, f, y, its);
}

/// Laying out a box that was laid out changes nothing.
pub proof fn lemma_layout_again(b: BoxView, t: Seq<NodeView>, m: Seq<MetricsView>)
    ensures
        LayoutNode::laid_out(LayoutNode::laid_out(b, t, m), t, m) == LayoutNode::laid_out(b, t, m),
{
}

} // verus!
