//! The display list: what a laid-out page asks the renderer to draw, in
//! the order in which it is to be drawn.

use vstd::prelude::*;
use crate::color::Color;
use crate::layout::{
    background, background_of, block_box, bottom, child_blocks, document_box, flush, inline_layout,
    item_ok, items, lemma_block_height, lemma_child_blocks, lemma_items_ok, lemma_max, lemma_step,
    line_box, metrics_match, run, start, state_ok, step, BoxKind, BoxView, FontSpec, FontView,
    Frame, InlineState, Item, LayoutNode, LayoutNodeType, MetricsView, Mode, Vec2, HSTEP,
    MAX_METRIC, VSTEP, WIDTH,
};
use crate::node::tree_wf;
use crate::node::{Document, NodeView};

verus! {

/// A word to draw: its corner, its lower edge, and how it looks.
#[derive(Debug)]
pub struct DrawText {
    pub x: u64,
    pub y: u64,
    pub bottom: u64,
    pub word: String,
    pub font: FontSpec,
    pub color: Color,
}

/// A filled rectangle to draw.
#[derive(Debug)]
pub struct DrawRect {
    pub top_left: Vec2,
    pub bottom_right: Vec2,
    pub color: Color,
}

/// A command of the display list.
#[derive(Debug)]
pub enum DrawCommand {
    DrawText(DrawText),
    DrawRect(DrawRect),
}

/// The mathematical content of a [`DrawCommand`].
pub enum Command {
    Text { x: int, y: int, bottom: int, word: Seq<char>, font: FontView, color: Color },
    Rect { left: int, top: int, right: int, bottom: int, color: Color },
}

impl View for DrawCommand {
    type V = Command;

    open spec fn view(&self) -> Command {
        match self {
            DrawCommand::DrawText(t) => Command::Text {
                x: t.x as int,
                y: t.y as int,
                bottom: t.bottom as int,
                word: t.word@,
                font: t.font@,
                color: t.color,
            },
            DrawCommand::DrawRect(r) => Command::Rect {
                left: r.top_left.x as int,
                top: r.top_left.y as int,
                right: r.bottom_right.x as int,
                bottom: r.bottom_right.y as int,
                color: r.color,
            },
        }
    }
}

impl Command {
    /// The upper edge of what is drawn.
    pub open spec fn top(self) -> int {
        match self {
            Command::Text { y, .. } => y,
            Command::Rect { top, .. } => top,
        }
    }

    /// The lower edge of what is drawn.
    pub open spec fn bottom(self) -> int {
        match self {
            Command::Text { bottom, .. } => bottom,
            Command::Rect { bottom, .. } => bottom,
        }
    }
}

impl DrawCommand {
    /// The upper edge of what is drawn.
    pub fn top(&self) -> (r: u64)
        ensures
            r == self@.top(),
    {
        match self {
            DrawCommand::DrawText(t) => t.y,
            DrawCommand::DrawRect(r) => r.top_left.y,
        }
    }

    /// The lower edge of what is drawn.
    pub fn bottom(&self) -> (r: u64)
        ensures
            r == self@.bottom(),
    {
        match self {
            DrawCommand::DrawText(t) => t.bottom,
            DrawCommand::DrawRect(r) => r.bottom_right.y,
        }
    }
}

/// The mathematical content of a display list.
pub open spec fn commands_view(v: Seq<DrawCommand>) -> Seq<Command> {
    Seq::new(v.len(), |i: int| v[i]@)
}

/// What the box `b` itself asks to draw, with (`ox`, `oy`) the place from
/// which its own place is counted. A block asks for a rectangle where the
/// style of its node has a background; a word asks for its text; a page
/// and a line ask for nothing.
pub open spec fn paint(b: BoxView, t: Seq<NodeView>, ox: int, oy: int) -> Seq<Command> {
    match b.kind {
        BoxKind::Block => if b.node < t.len() {
            match background_of(t[b.node as int].style) {
                Some(color) => seq![
                    Command::Rect {
                        left: b.x,
                        top: b.y,
                        right: b.x + b.width,
                        bottom: b.y + b.height,
                        color,
                    },
                ],
                None => Seq::empty(),
            }
        } else {
            Seq::empty()
        },
        BoxKind::Text { word, font, color } => seq![
            Command::Text {
                x: ox + b.x,
                y: oy + b.y,
                bottom: oy + b.y + b.height,
                word,
                font,
                color,
            },
        ],
        _ => Seq::empty(),
    }
}

/// The place from which the children of `b` count their own: the place of
/// a line or a word itself; for the children of a page or a block, whose
/// places are counted from the corner of the window, that corner.
pub open spec fn child_origin(b: BoxView, ox: int, oy: int) -> (int, int) {
    match b.kind {
        BoxKind::Document => (0, 0),
        BoxKind::Block => (0, 0),
        _ => (ox + b.x, oy + b.y),
    }
}

/// What the box `b` and all boxes in it ask to draw: the box first, then
/// its children in order.
pub open spec fn paint_tree(b: BoxView, t: Seq<NodeView>, ox: int, oy: int) -> Seq<Command>
    decreases b, 1nat, 0nat,
{
    let origin = child_origin(b, ox, oy);
    paint(b, t, ox, oy) + paint_children(b.children, t, origin.0, origin.1, b.children.len() as int)
}

/// What the first `k` of the boxes `c` ask to draw.
pub open spec fn paint_children(c: Seq<BoxView>, t: Seq<NodeView>, ox: int, oy: int, k: int) -> Seq<
    Command,
>
    decreases c, 0nat, k,
{
    if 0 < k <= c.len() {
        paint_children(c, t, ox, oy, k - 1) + paint_tree(c[k - 1], t, ox, oy)
    } else {
        Seq::empty()
    }
}

/// Whether every length of a command can be counted.
pub open spec fn command_fits(c: Command) -> bool {
    match c {
        Command::Text { x, y, bottom, .. } => x <= u64::MAX && bottom <= u64::MAX,
        Command::Rect { right, bottom, .. } => right <= u64::MAX && bottom <= u64::MAX,
    }
}

/// Whether the box `b` and all boxes in it can be drawn: every length of
/// every command can be counted, and so can the place of every box that
/// has children.
pub open spec fn paintable(b: BoxView, t: Seq<NodeView>, ox: int, oy: int) -> bool
    decreases b, 1nat, 0nat,
{
    let origin = child_origin(b, ox, oy);
    &&& forall|i: int|
        0 <= i < paint(b, t, ox, oy).len() ==> command_fits(#[trigger] paint(b, t, ox, oy)[i])
    &&& b.children.len() > 0 ==> origin.0 <= u64::MAX && origin.1 <= u64::MAX
        && children_paintable(b.children, t, origin.0, origin.1, b.children.len() as int)
}

/// Whether the first `k` of the boxes `c` can be drawn.
pub open spec fn children_paintable(c: Seq<BoxView>, t: Seq<NodeView>, ox: int, oy: int, k: int) -> bool
    decreases c, 0nat, k,
{
    if 0 < k <= c.len() {
        children_paintable(c, t, ox, oy, k - 1) && paintable(c[k - 1], t, ox, oy)
    } else {
        true
    }
}

/// Whether the list `long` starts with the list `short`.
pub open spec fn extends(long: Seq<DrawCommand>, short: Seq<DrawCommand>) -> bool {
    long.len() >= short.len() && long.subrange(0, short.len() as int) == short
}

proof fn lemma_extends(long: Seq<DrawCommand>, mid: Seq<DrawCommand>, short: Seq<DrawCommand>)
    requires
        extends(long, mid),
        extends(mid, short),
    ensures
        extends(long, short),
        extends(short, short),
        long.subrange(0, short.len() as int) == short,
{
    assert(long.subrange(0, short.len() as int) =~= mid.subrange(0, short.len() as int));
    assert(short.subrange(0, short.len() as int) =~= short);
}

fn sum(a: u64, b: u64) -> (r: Option<u64>)
    ensures
        match r {
            Some(s) => s == a + b,
            None => a + b > u64::MAX,
        },
{
    if a > u64::MAX - b {
        None
    } else {
        Some(a + b)
    }
}

impl LayoutNode {
    /// Adds to `commands` what the box itself asks to draw, see [`paint`].
    /// Where a length cannot be counted, `commands` is left as it was and
    /// `false` is returned.
    pub fn paint(&self, doc: &Document, commands: &mut Vec<DrawCommand>, offset: Vec2) -> (ok: bool)
        ensures
            ok == (forall|i: int|
                0 <= i < paint(self@, doc@, offset.x as int, offset.y as int).len()
                    ==> command_fits(
                    #[trigger] paint(self@, doc@, offset.x as int, offset.y as int)[i],
                )),
            ok ==> commands_view(final(commands)@) == commands_view(old(commands)@) + paint(
                self@,
                doc@,
                offset.x as int,
                offset.y as int,
            ),
            !ok ==> final(commands)@ == old(commands)@,
            extends(final(commands)@, old(commands)@),
    {
        let ghost spec = paint(self@, doc@, offset.x as int, offset.y as int);
        assert(commands@.subrange(0, commands@.len() as int) =~= commands@);
        match &self.content {
            LayoutNodeType::Block => {
                if self.node < doc.len() {
                    match background(&doc.node(self.node).style) {
                        Some(color) => {
                            let right = sum(self.position.x, self.size.x);
                            let bottom = sum(self.position.y, self.size.y);
                            match (right, bottom) {
                                (Some(r), Some(b)) => {
                                    let c = DrawCommand::DrawRect(
                                        DrawRect {
                                            top_left: self.position,
                                            bottom_right: Vec2 { x: r, y: b },
                                            color,
                                        },
                                    );
                                    commands.push(c);
                                    assert(commands@.subrange(0, old(commands)@.len() as int)
                                        =~= old(commands)@);
                                    assert(command_fits(spec[0]));
                                    true
                                },
                                _ => {
                                    false
                                },
                            }
                        },
                        None => {
                            true
                        },
                    }
                } else {
                    true
                }
            },
            LayoutNodeType::Text { word, font, color } => {
                let x = sum(offset.x, self.position.x);
                let y = sum(offset.y, self.position.y);
                let bottom = match y {
                    Some(top) => sum(top, self.size.y),
                    None => None,
                };
                match (x, y, bottom) {
                    (Some(x), Some(y), Some(bottom)) => {
                        let c = DrawCommand::DrawText(
                            DrawText {
                                x,
                                y,
                                bottom,
                                word: word.clone(),
                                font: FontSpec {
                                    weight: font.weight.clone(),
                                    style: font.style.clone(),
                                    size: font.size,
                                },
                                color: *color,
                            },
                        );
                        commands.push(c);
                        assert(commands@.subrange(0, old(commands)@.len() as int) =~= old(commands)@);
                        true
                    },
                    _ => {
                        false
                    },
                }
            },
            _ => {
                true
            },
        }
    }

    /// Adds to `commands` what the box and all boxes in it ask to draw,
    /// see [`paint_tree`]. Where a length cannot be counted, see
    /// [`paintable`], `commands` is left as it was and `false` is
    /// returned.
    #[verifier::loop_isolation(false)]
    pub fn paint_tree(&self, doc: &Document, commands: &mut Vec<DrawCommand>, offset: Vec2) -> (ok:
        bool)
        ensures
            ok == paintable(self@, doc@, offset.x as int, offset.y as int),
            ok ==> commands_view(final(commands)@) == commands_view(old(commands)@) + paint_tree(
                self@,
                doc@,
                offset.x as int,
                offset.y as int,
            ),
            !ok ==> final(commands)@ == old(commands)@,
            extends(final(commands)@, old(commands)@),
        decreases self,
    {
        let ghost t = doc@;
        let ghost ox = offset.x as int;
        let ghost oy = offset.y as int;
        let ghost origin = child_origin(self@, ox, oy);
        let length = commands.len();
        if !self.paint(doc, commands, offset) {
            return false;
        }
        let n = self.children.len();
        if n == 0 {
            return true;
        }
        let inner = match &self.content {
            LayoutNodeType::Document => Vec2 { x: 0, y: 0 },
            LayoutNodeType::Block => Vec2 { x: 0, y: 0 },
            _ => {
                match (sum(offset.x, self.position.x), sum(offset.y, self.position.y)) {
                    (Some(x), Some(y)) => Vec2 { x, y },
                    _ => {
                        proof {
                            assert(commands@.subrange(0, commands@.len() as int) =~= commands@);
                    lemma_extends(commands@, commands@, old(commands)@);
                        }
                        commands.truncate(length);
                        return false;
                    },
                }
            },
        };
        let ghost own = commands_view(commands@);
        let ghost c = self@.children;
        let mut k: usize = 0;
        while k < n
            invariant
                k <= n == self.children.len(),
                c == self@.children,
                c.len() == n,
                t == doc@,
                inner.x == origin.0,
                inner.y == origin.1,
                children_paintable(c, t, origin.0, origin.1, k as int),
                commands_view(commands@) == own + paint_children(c, t, origin.0, origin.1, k as int),
                extends(commands@, old(commands)@),
            decreases n - k,
        {
            let ghost previous = commands@;
            if !self.children[k].paint_tree(doc, commands, inner) {
                proof {
                    if children_paintable(c, t, origin.0, origin.1, n as int) {
                        lemma_children_paintable(c, t, origin.0, origin.1, k + 1, n as int);
                    }
                }
                proof {
                    lemma_extends(commands@, commands@, old(commands)@);
                }
                commands.truncate(length);
                return false;
            }
            proof {
                lemma_extends(commands@, previous, old(commands)@);
                let a = paint_children(c, t, origin.0, origin.1, k as int);
                let b = paint_tree(c[k as int], t, origin.0, origin.1);
            }
            k += 1;
        }
        proof {
            let a = paint(self@, t, ox, oy);
            let b = paint_children(c, t, origin.0, origin.1, n as int);
        }
        true
    }
}

/// Where more boxes can be drawn, fewer can.
pub proof fn lemma_children_paintable(c: Seq<BoxView>, t: Seq<NodeView>, ox: int, oy: int, k1: int, k2: int)
    requires
        0 <= k1 <= k2 <= c.len(),
        children_paintable(c, t, ox, oy, k2),
    ensures
        children_paintable(c, t, ox, oy, k1),
    decreases k2 - k1,
{
    if k1 < k2 {
        lemma_children_paintable(c, t, ox, oy, k1, k2 - 1);
    }
}

/// Two layouts of one document with the same measurements are the same
/// boxes and give the same display list: every word and every rectangle
/// at the same place.
pub proof fn lemma_layout_repeatable(a: LayoutNode, b: LayoutNode, t: Seq<NodeView>, m: Seq<MetricsView>)
    requires
        a@ == document_box(t, m),
        b@ == document_box(t, m),
    ensures
        a@ == b@,
        paint_tree(a@, t, 0, 0) == paint_tree(b@, t, 0, 0),
{
}

/// The display list of a page.
pub fn display_list(page: &LayoutNode, doc: &Document) -> (r: Option<Vec<DrawCommand>>)
    ensures
        match r {
            Some(commands) => paintable(page@, doc@, 0, 0) && commands_view(commands@)
                == paint_tree(page@, doc@, 0, 0),
            None => !paintable(page@, doc@, 0, 0),
        },
{
    let mut commands: Vec<DrawCommand> = Vec::new();
    if page.paint_tree(doc, &mut commands, Vec2 { x: 0, y: 0 }) {
        Some(commands)
    } else {
        None
    }
}

/// A word that lies within its line: it has no boxes in it, starts no
/// further right than a block is wide and a word and a space more, and
/// ends no lower than the line, which is `height` high.
pub open spec fn text_inside(c: BoxView, height: int) -> bool {
    &&& c.kind is Text
    &&& c.children.len() == 0
    &&& 0 <= c.x <= 3 * MAX_METRIC
    &&& 0 <= c.y
    &&& c.y + c.height <= height
}

/// A line at the left edge `x` that ends no lower than `limit` and holds
/// words that lie within it.
pub open spec fn line_inside(b: BoxView, x: int, limit: int) -> bool {
    &&& b.kind is Line
    &&& b.x == x
    &&& 0 <= b.y
    &&& 0 <= b.height
    &&& b.y + b.height <= limit
    &&& forall|i: int| 0 <= i < b.children.len() ==> text_inside(#[trigger] b.children[i], b.height)
}

/// Whether all lines of `lines` are lines at `x` that end no lower than
/// `limit`.
pub open spec fn lines_inside(lines: Seq<BoxView>, x: int, limit: int) -> bool {
    forall|i: int| 0 <= i < lines.len() ==> line_inside(#[trigger] lines[i], x, limit)
}

/// A step of the line breaker keeps the lines within what the cursor has
/// passed.
proof fn lemma_step_lines(t: Seq<NodeView>, f: Frame, st: InlineState, item: Item)
    requires
        state_ok(t, f, st),
        item_ok(t, item),
        lines_inside(st.lines, f.x, st.cursor_y),
    ensures
        lines_inside(step(t, f, st, item).lines, f.x, step(t, f, st, item).cursor_y),
        lines_inside(flush(t, f, st).lines, f.x, flush(t, f, st).cursor_y),
{
    lemma_max(t, st.pending);
    lemma_step(t, f, st, item);
    let done = flush(t, f, st);
    if st.pending.len() > 0 {
        let line = line_box(t, f, st.cursor_y, st.pending);
        assert(line_inside(line, f.x, done.cursor_y)) by {
            assert forall|i: int| 0 <= i < line.children.len() implies text_inside(
                #[trigger] line.children[i],
                line.height,
            ) by {
                assert(crate::layout::word_ok(t, st.pending[i].word));
            }
        }
        assert forall|i: int| 0 <= i < done.lines.len() implies line_inside(
            #[trigger] done.lines[i],
            f.x,
            done.cursor_y,
        ) by {
            if i < st.lines.len() {
                assert(done.lines[i] == st.lines[i]);
            }
        }
    }
    let next = step(t, f, st, item);
    assert forall|i: int| 0 <= i < next.lines.len() implies line_inside(
        #[trigger] next.lines[i],
        f.x,
        next.cursor_y,
    ) by {
        if next.lines.len() == st.lines.len() {
            assert(next.lines[i] == st.lines[i]);
        } else {
            assert(next.lines[i] == done.lines[i]);
        }
    }
}

/// A run of the line breaker keeps the lines within what the cursor has
/// passed.
proof fn lemma_run_lines(t: Seq<NodeView>, f: Frame, st: InlineState, its: Seq<Item>)
    requires
        state_ok(t, f, st),
        forall|i: int| 0 <= i < its.len() ==> item_ok(t, #[trigger] its[i]),
        lines_inside(st.lines, f.x, st.cursor_y),
    ensures
        state_ok(t, f, run(t, f, st, its)),
        lines_inside(run(t, f, st, its).lines, f.x, run(t, f, st, its).cursor_y),
    decreases its.len(),
{
    if its.len() > 0 {
        assert forall|i: int| 0 <= i < its.drop_last().len() implies item_ok(
            t,
            #[trigger] its.drop_last()[i],
        ) by {
            assert(its.drop_last()[i] == its[i]);
        }
        lemma_run_lines(t, f, st, its.drop_last());
        lemma_step_lines(t, f, run(t, f, st, its.drop_last()), its.last());
        lemma_step(t, f, run(t, f, st, its.drop_last()), its.last());
    }
}

/// The first boxes of a list can be drawn or not whatever follows them.
proof fn lemma_children_prefix(c: Seq<BoxView>, b: BoxView, t: Seq<NodeView>, ox: int, oy: int, k: int)
    requires
        0 <= k <= c.len(),
    ensures
        children_paintable(c.push(b), t, ox, oy, k) == children_paintable(c, t, ox, oy, k),
    decreases k,
{
    if k > 0 {
        lemma_children_prefix(c, b, t, ox, oy, k - 1);
        assert(c.push(b)[k - 1] == c[k - 1]);
    }
}

/// The words of a line that lies within what can be counted can be drawn.
proof fn lemma_words_paintable(b: BoxView, t: Seq<NodeView>, limit: int, k: int)
    requires
        line_inside(b, b.x, limit),
        limit <= u64::MAX,
        0 <= b.x,
        b.x + 3 * MAX_METRIC <= u64::MAX,
        0 <= k <= b.children.len(),
    ensures
        children_paintable(b.children, t, b.x, b.y, k),
    decreases k,
{
    if k > 0 {
        lemma_words_paintable(b, t, limit, k - 1);
        let c = b.children[k - 1];
        let commands = paint(c, t, b.x, b.y);
        assert(text_inside(c, b.height));
        assert(commands.len() == 1 && command_fits(commands[0]));
        assert(paintable(c, t, b.x, b.y));
    }
}

/// Lines that lie within what can be counted can be drawn.
proof fn lemma_lines_paintable(lines: Seq<BoxView>, t: Seq<NodeView>, x: int, limit: int, k: int)
    requires
        lines_inside(lines, x, limit),
        limit <= u64::MAX,
        0 <= x,
        x + 3 * MAX_METRIC <= u64::MAX,
        0 <= k <= lines.len(),
    ensures
        children_paintable(lines, t, 0, 0, k),
    decreases k,
{
    if k > 0 {
        lemma_lines_paintable(lines, t, x, limit, k - 1);
        let b = lines[k - 1];
        assert(line_inside(b, x, limit));
        lemma_words_paintable(b, t, limit, b.children.len() as int);
        assert(paint(b, t, 0, 0).len() == 0);
        assert(child_origin(b, 0, 0) == (b.x, b.y));
        assert(paintable(b, t, 0, 0));
    }
}

/// A block that ends where lengths can still be counted can be drawn, with
/// all that is in it.
pub proof fn lemma_block_paintable(
    t: Seq<NodeView>,
    m: Seq<MetricsView>,
    node: int,
    x: int,
    y: int,
    width: int,
)
    requires
        tree_wf(t),
        metrics_match(t, m),
        0 <= node < t.len(),
        0 <= x,
        x + 3 * MAX_METRIC <= u64::MAX,
        0 <= y,
        0 <= width <= MAX_METRIC,
        y + block_box(t, m, node, x, y, width).height <= u64::MAX,
    ensures
        paintable(block_box(t, m, node, x, y, width), t, 0, 0),
    decreases t.len() - node, 1nat, 0nat,
{
    let b = block_box(t, m, node, x, y, width);
    lemma_block_height(t, m, node, x, y, width);
    assert forall|i: int| 0 <= i < paint(b, t, 0, 0).len() implies command_fits(
        #[trigger] paint(b, t, 0, 0)[i],
    ) by {}
    match crate::layout::mode(t, node) {
        Mode::Block => {
            let n = t[node].children.len() as int;
            lemma_child_blocks_paintable(t, m, node, n, x, y, width);
        },
        Mode::Inline => {
            let f = Frame { node: node as usize, x, width };
            let its = items(t, m, node);
            lemma_items_ok(t, m, node);
            lemma_run_lines(t, f, start(y), its);
            let st = run(t, f, start(y), its);
            lemma_step_lines(t, f, st, Item::Break);
            let lines = inline_layout(t, m, node, x, y, width).lines;
            lemma_lines_paintable(lines, t, x, y + b.height, lines.len() as int);
        },
        Mode::Empty => {},
    }
}

/// The blocks of the children of a node can be drawn where the last of
/// them ends where lengths can still be counted.
pub proof fn lemma_child_blocks_paintable(
    t: Seq<NodeView>,
    m: Seq<MetricsView>,
    node: int,
    k: int,
    x: int,
    y: int,
    width: int,
)
    requires
        tree_wf(t),
        metrics_match(t, m),
        0 <= node < t.len(),
        0 <= k <= t[node].children.len(),
        0 <= x,
        x + 3 * MAX_METRIC <= u64::MAX,
        0 <= y,
        0 <= width <= MAX_METRIC,
        bottom(child_blocks(t, m, node, k, x, y, width), y) <= u64::MAX,
    ensures
        child_blocks(t, m, node, k, x, y, width).len() == k,
        children_paintable(child_blocks(t, m, node, k, x, y, width), t, 0, 0, k),
    decreases t.len() - node, 0nat, k,
{
    if k > 0 {
        let before = child_blocks(t, m, node, k - 1, x, y, width);
        let child = t[node].children[k - 1] as int;
        lemma_child_blocks(t, m, node, k - 1, k, x, y, width);
        lemma_child_blocks_paintable(t, m, node, k - 1, x, y, width);
        let b = block_box(t, m, child, x, bottom(before, y), width);
        lemma_block_height(t, m, child, x, bottom(before, y), width);
        lemma_block_paintable(t, m, child, x, bottom(before, y), width);
        lemma_children_prefix(before, b, t, 0, 0, k - 1);
        assert(before.push(b)[k - 1] == b);
    }
}

/// A page that was laid out can be drawn: once the layout has ended where
/// lengths can still be counted, so does every box in it, and every
/// command of the display list.
pub proof fn lemma_page_paintable(t: Seq<NodeView>, m: Seq<MetricsView>)
    requires
        tree_wf(t),
        metrics_match(t, m),
        VSTEP + document_box(t, m).height <= u64::MAX,
    ensures
        paintable(document_box(t, m), t, 0, 0),
{
    let page = document_box(t, m);
    let block = block_box(t, m, 0, HSTEP as int, VSTEP as int, WIDTH - 2 * HSTEP);
    lemma_block_paintable(t, m, 0, HSTEP as int, VSTEP as int, WIDTH - 2 * HSTEP);
    assert(page.children == seq![block]);
    assert(children_paintable(page.children, t, 0, 0, 0));
    assert(children_paintable(page.children, t, 0, 0, 1));
}

} // verus!
