//! The document tree: nodes held in one arena and addressed by index.

use vstd::prelude::*;
use crate::strmap::StrMap;

verus! {

/// A run of text between two tags.
#[derive(Debug)]
pub struct Text {
    pub text: String,
}

/// An element: its tag name and its attributes.
#[derive(Debug)]
pub struct Element {
    pub tag: String,
    pub attributes: StrMap,
}

/// What a node of the document is.
#[derive(Debug)]
pub enum HtmlNodeType {
    Element(Element),
    Text(Text),
}

/// A node of the document. `children` and `parent` are indices into the
/// document that holds the node; `style` is filled in by the cascade.
#[derive(Debug)]
pub struct HtmlNode {
    pub node_type: HtmlNodeType,
    pub children: Vec<usize>,
    pub parent: Option<usize>,
    pub style: StrMap,
}

/// A document: node 0 is the root, and every other node comes after its
/// parent.
#[derive(Debug)]
pub struct Document {
    nodes: Vec<HtmlNode>,
}

/// The mathematical content of an [`HtmlNodeType`].
pub enum NodeKind {
    Element { tag: Seq<char>, attributes: Map<Seq<char>, Seq<char>> },
    Text { text: Seq<char> },
}

/// The mathematical content of an [`HtmlNode`].
pub struct NodeView {
    pub kind: NodeKind,
    pub children: Seq<usize>,
    pub parent: Option<usize>,
    pub style: Map<Seq<char>, Seq<char>>,
}

impl View for HtmlNodeType {
    type V = NodeKind;

    open spec fn view(&self) -> NodeKind {
        match self {
            HtmlNodeType::Element(e) => NodeKind::Element {
                tag: e.tag@,
                attributes: e.attributes@,
            },
            HtmlNodeType::Text(t) => NodeKind::Text { text: t.text@ },
        }
    }
}

impl View for HtmlNode {
    type V = NodeView;

    open spec fn view(&self) -> NodeView {
        NodeView {
            kind: self.node_type@,
            children: self.children@,
            parent: self.parent,
            style: self.style@,
        }
    }
}

impl View for Document {
    type V = Seq<NodeView>;

    closed spec fn view(&self) -> Seq<NodeView> {
        Seq::new(self.nodes@.len(), |i: int| self.nodes@[i]@)
    }
}

impl NodeKind {
    /// The tag name of an element; a text node has none.
    pub open spec fn tag(self) -> Option<Seq<char>> {
        match self {
            NodeKind::Element { tag, .. } => Some(tag),
            NodeKind::Text { .. } => None,
        }
    }
}

/// A fresh node without children and without style.
pub open spec fn leaf(kind: NodeKind, parent: Option<usize>) -> NodeView {
    NodeView { kind, children: Seq::empty(), parent, style: Map::empty() }
}

/// `t` with `child` added as the last child of `parent`.
pub open spec fn with_child(t: Seq<NodeView>, parent: int, child: usize) -> Seq<NodeView> {
    t.update(
        parent,
        NodeView {
            kind: t[parent].kind,
            children: t[parent].children.push(child),
            parent: t[parent].parent,
            style: t[parent].style,
        },
    )
}

/// `t` with a new last node of kind `kind`, added as the last child of
/// `parent`.
pub open spec fn appended(t: Seq<NodeView>, parent: usize, kind: NodeKind) -> Seq<NodeView> {
    with_child(t, parent as int, t.len() as usize).push(leaf(kind, Some(parent)))
}

/// `t` with the style of node `i` replaced.
pub open spec fn with_style(t: Seq<NodeView>, i: int, style: Map<Seq<char>, Seq<char>>) -> Seq<
    NodeView,
> {
    t.update(
        i,
        NodeView { kind: t[i].kind, children: t[i].children, parent: t[i].parent, style },
    )
}

/// The shape of a document: the root is node 0, every other node comes
/// after its parent and is listed among its children, and every list of
/// children is in rising order.
pub open spec fn tree_wf(t: Seq<NodeView>) -> bool {
    &&& 1 <= t.len() <= usize::MAX
    &&& t[0].parent is None
    &&& forall|i: int|
        0 < i < t.len() ==> ((#[trigger] t[i].parent) matches Some(p) && p < i
            && t[p as int].children.contains(i as usize))
    &&& forall|p: int, j: int|
        0 <= p < t.len() && 0 <= j < t[p].children.len() ==> p < (#[trigger] t[p].children[j])
            < t.len() && t[t[p].children[j] as int].parent == Some(p as usize)
    &&& forall|p: int, j: int, k: int|
        0 <= p < t.len() && 0 <= j < k < t[p].children.len() ==> (#[trigger] t[p].children[j])
            < (#[trigger] t[p].children[k])
}

impl Clone for Text {
    fn clone(&self) -> (r: Self)
        ensures
            r.text@ == self.text@,
    {
        Text { text: self.text.clone() }
    }
}

impl Clone for Element {
    fn clone(&self) -> (r: Self)
        ensures
            r.tag@ == self.tag@,
            r.attributes@ == self.attributes@,
    {
        Element { tag: self.tag.clone(), attributes: self.attributes.clone() }
    }
}

impl Clone for HtmlNodeType {
    fn clone(&self) -> (r: Self)
        ensures
            r@ == self@,
    {
        match self {
            HtmlNodeType::Element(e) => HtmlNodeType::Element(e.clone()),
            HtmlNodeType::Text(t) => HtmlNodeType::Text(t.clone()),
        }
    }
}

impl HtmlNode {
    /// A node without children and without style.
    pub fn new(node_type: HtmlNodeType, parent: Option<usize>) -> (n: HtmlNode)
        ensures
            n@ == leaf(node_type@, parent),
    {
        HtmlNode { node_type, children: Vec::new(), parent, style: StrMap::new() }
    }

    /// The tag name of an element; a text node has none.
    pub fn tag(&self) -> (r: Option<&String>)
        ensures
            match r {
                Some(t) => self@.kind.tag() == Some(t@),
                None => self@.kind.tag() is None,
            },
    {
        match &self.node_type {
            HtmlNodeType::Element(e) => Some(&e.tag),
            HtmlNodeType::Text(_) => None,
        }
    }
}

impl Document {
    /// Whether the document has the shape of a tree, see [`tree_wf`].
    pub open spec fn wf(&self) -> bool {
        tree_wf(self@)
    }

    /// The document that holds the root alone.
    pub fn new(root: HtmlNodeType) -> (d: Document)
        ensures
            d@ == seq![leaf(root@, None)],
            d.wf(),
    {
        let mut nodes: Vec<HtmlNode> = Vec::new();
        nodes.push(HtmlNode::new(root, None));
        let d = Document { nodes };
        d
    }

    /// The number of nodes.
    pub fn len(&self) -> (n: usize)
        ensures
            n == self@.len(),
    {
        self.nodes.len()
    }

    /// Node `i`.
    pub fn node(&self, i: usize) -> (n: &HtmlNode)
        requires
            i < self@.len(),
        ensures
            n@ == self@[i as int],
    {
        &self.nodes[i]
    }

    /// Adds a node of type `node_type` as the last child of `parent` and
    /// returns its index.
    pub fn append_child(&mut self, parent: usize, node_type: HtmlNodeType) -> (id: usize)
        requires
            old(self).wf(),
            parent < old(self)@.len(),
            old(self)@.len() < usize::MAX,
        ensures
            id == old(self)@.len(),
            final(self)@ == appended(old(self)@, parent, node_type@),
            final(self).wf(),
    {
        let id = self.nodes.len();
        self.nodes[parent].children.push(id);
        self.nodes.push(HtmlNode::new(node_type, Some(parent)));
        proof {
            lemma_appended_wf(old(self)@, parent, node_type@);
        }
        id
    }

    /// Replaces the style of node `i`.
    pub fn set_style(&mut self, i: usize, style: StrMap)
        requires
            old(self).wf(),
            i < old(self)@.len(),
        ensures
            final(self)@ == with_style(old(self)@, i as int, style@),
            final(self).wf(),
    {
        self.nodes[i].style = style;
        proof {
            lemma_with_style_wf(old(self)@, i as int, style@);
        }
    }
}

/// Adding a last node under any parent keeps the shape of a tree.
pub proof fn lemma_appended_wf(t: Seq<NodeView>, parent: usize, kind: NodeKind)
    requires
        tree_wf(t),
        parent < t.len(),
        t.len() < usize::MAX,
    ensures
        tree_wf(appended(t, parent, kind)),
{
    let id = t.len() as usize;
    let u = appended(t, parent, kind);
    assert forall|i: int| 0 < i < u.len() implies ((#[trigger] u[i].parent) matches Some(p) && p < i
        && u[p as int].children.contains(i as usize)) by {
        if i == id {
            assert(u[parent as int].children[t[parent as int].children.len() as int] == id);
        } else {
            let p = t[i].parent->0;
            let j = choose|j: int|
                0 <= j < t[p as int].children.len() && t[p as int].children[j] == i as usize;
            assert(u[p as int].children[j] == i as usize);
        }
    }
}

/// Replacing a style keeps the shape of a tree.
pub proof fn lemma_with_style_wf(t: Seq<NodeView>, i: int, style: Map<Seq<char>, Seq<char>>)
    requires
        tree_wf(t),
        0 <= i < t.len(),
    ensures
        tree_wf(with_style(t, i, style)),
{
}

} // verus!
