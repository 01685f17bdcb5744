//! Finding what lies under a point of the page, and the links around it.

use vstd::prelude::*;
use crate::layout::{BoxKind, BoxView, LayoutNode, LayoutNodeType, Vec2};
use crate::node::{Document, HtmlNodeType, NodeKind, NodeView};
use crate::paint::child_origin;
use crate::text::is_literal;

verus! {

/// Whether the point (`px`, `py`) lies in the rectangle with corner
/// (`x`, `y`), width `w` and height `h`, edges included.
pub open spec fn contains(x: int, y: int, w: int, h: int, px: int, py: int) -> bool {
    x <= px <= x + w && y <= py <= y + h
}

/// The corner of the box `b`, counted from the corner of the window, where
/// (`ox`, `oy`) is the place from which a line or a word counts its own.
pub open spec fn corner(b: BoxView, ox: int, oy: int) -> (int, int) {
    match b.kind {
        BoxKind::Document => (b.x, b.y),
        BoxKind::Block => (b.x, b.y),
        _ => (ox + b.x, oy + b.y),
    }
}

/// The second of two finds, or the first where there is no second.
pub open spec fn later(a: Option<usize>, b: Option<usize>) -> Option<usize> {
    if b is Some {
        b
    } else {
        a
    }
}

/// The node of the document whose box lies under the point (`px`, `py`):
/// of all boxes in `b` that hold the point, the one that is painted last.
pub open spec fn hit(b: BoxView, ox: int, oy: int, px: int, py: int) -> Option<usize>
    decreases b, 1nat, 0nat,
{
    let at = corner(b, ox, oy);
    let origin = child_origin(b, ox, oy);
    let own = if contains(at.0, at.1, b.width, b.height, px, py) {
        Some(b.node)
    } else {
        None
    };
    later(own, hit_children(b.children, origin.0, origin.1, px, py, b.children.len() as int))
}

/// The find among the first `k` of the boxes `c`.
pub open spec fn hit_children(c: Seq<BoxView>, ox: int, oy: int, px: int, py: int, k: int) -> Option<
    usize,
>
    decreases c, 0nat, k,
{
    if 0 < k <= c.len() {
        later(hit_children(c, ox, oy, px, py, k - 1), hit(c[k - 1], ox, oy, px, py))
    } else {
        None
    }
}

/// The address that a node links to, if it is an `a` element with an
/// `href`.
pub open spec fn link_of(kind: NodeKind) -> Option<Seq<char>> {
    match kind {
        NodeKind::Element { tag, attributes } => if tag == "a"@ && attributes.contains_key("href"@) {
            Some(attributes["href"@])
        } else {
            None
        },
        NodeKind::Text { .. } => None,
    }
}

/// The addresses that `node` and the nodes above it link to, the
/// innermost first.
pub open spec fn links_around(t: Seq<NodeView>, node: int) -> Seq<Seq<char>>
    decreases node,
{
    let own = match link_of(t[node].kind) {
        Some(href) => seq![href],
        None => Seq::empty(),
    };
    match t[node].parent {
        Some(p) => if 0 <= p < node {
            own + links_around(t, p as int)
        } else {
            own
        },
        None => own,
    }
}

fn sum(a: u64, b: u64) -> (r: Option<u64>)
    ensures
        match r {
            Some(s) => s == a + b,
            None => a + b > u64::MAX,
        },
{
    if a > u64::MAX - b {
        None
    } else {
        Some(a + b)
    }
}

impl LayoutNode {
    #[verifier::loop_isolation(false)]
    fn hit_from(&self, origin: Option<Vec2>, x: u64, y: u64, Ghost(ox): Ghost<int>, Ghost(oy): Ghost<int>) -> (r: Option<usize>)
        requires
            0 <= ox,
            0 <= oy,
            match origin {
                Some(o) => o.x == ox && o.y == oy,
                None => ox > u64::MAX || oy > u64::MAX,
            },
        ensures
            r == hit(self@, ox, oy, x as int, y as int),
        decreases self,
    {
        let ghost inner = child_origin(self@, ox, oy);
        let absolute = match &self.content {
            LayoutNodeType::Document => true,
            LayoutNodeType::Block => true,
            _ => false,
        };
        let place: Option<Vec2> = if absolute {
            Some(self.position)
        } else {
            match origin {
                Some(o) => match (sum(o.x, self.position.x), sum(o.y, self.position.y)) {
                    (Some(px), Some(py)) => Some(Vec2 { x: px, y: py }),
                    _ => None,
                },
                None => None,
            }
        };
        let mut found: Option<usize> = match place {
            Some(c) => if c.x <= x && x - c.x <= self.size.x && c.y <= y && y - c.y <= self.size.y {
                Some(self.node)
            } else {
                None
            },
            None => None,
        };
        let next: Option<Vec2> = if absolute {
            Some(Vec2 { x: 0, y: 0 })
        } else {
            place
        };
        let ghost own = found;
        let ghost c = self@.children;
        let n = self.children.len();
        let mut k: usize = 0;
        while k < n
            invariant
                k <= n == self.children.len(),
                c == self@.children,
                found == later(own, hit_children(c, inner.0, inner.1, x as int, y as int, k as int)),
            decreases n - k,
        {
            let below = self.children[k].hit_from(next, x, y, Ghost(inner.0), Ghost(inner.1));
            if below.is_some() {
                found = below;
            }
            k += 1;
        }
        found
    }

    /// The node of the document whose box lies under the point (`x`,
    /// `y`), counted from the corner of the window, see [`hit`].
    pub fn hit(&self, x: u64, y: u64) -> (r: Option<usize>)
        ensures
            r == hit(self@, 0, 0, x as int, y as int),
    {
        self.hit_from(Some(Vec2 { x: 0, y: 0 }), x, y, Ghost(0), Ghost(0))
    }
}

/// The addresses that `node` and the nodes above it link to, the innermost
/// first.
pub fn enclosing_links(doc: &Document, node: usize) -> (links: Vec<String>)
    requires
        doc.wf(),
        node < doc@.len(),
    ensures
        links.deep_view() == links_around(doc@, node as int),
{
    let mut links: Vec<String> = Vec::new();
    let mut current = node;
    loop
        invariant
            doc.wf(),
            current < doc@.len(),
            links.deep_view() + links_around(doc@, current as int) == links_around(doc@, node as int),
        decreases current,
    {
        let n = doc.node(current);
        match &n.node_type {
            HtmlNodeType::Element(e) => {
                if is_literal(&e.tag, "a") {
                    match e.attributes.get("href") {
                        Some(href) => {
                            let link = href.clone();
                            links.push(link);
                        },
                        None => {},
                    }
                }
            },
            HtmlNodeType::Text(_) => {},
        }
        match n.parent {
            Some(p) => {
                current = p;
            },
            None => {
                return links;
            },
        }
    }
}

} // verus!
