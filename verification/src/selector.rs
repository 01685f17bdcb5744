//! Selectors: which nodes a style rule applies to, and how much weight
//! the rule has.

use vstd::prelude::*;
use crate::node::{Document, NodeView};

verus! {

/// A selector of a style rule.
#[derive(Debug)]
pub struct Selector {
    pub selector: SelectorType,
}

/// The two forms of a selector: a tag name, and a selector that holds
/// below another.
#[derive(Debug)]
pub enum SelectorType {
    Tag { tag: String },
    Descendant { ancestor: Box<Selector>, descendant: Box<Selector> },
}

/// The mathematical content of a [`Selector`].
pub enum SelectorView {
    Tag { tag: Seq<char> },
    Descendant { ancestor: Box<SelectorView>, descendant: Box<SelectorView> },
}

impl Selector {
    /// The mathematical content of the selector.
    pub open spec fn model(&self) -> SelectorView
        decreases self,
    {
        match self.selector {
            SelectorType::Tag { tag } => SelectorView::Tag { tag: tag@ },
            SelectorType::Descendant { ancestor, descendant } => SelectorView::Descendant {
                ancestor: Box::new(ancestor.model()),
                descendant: Box::new(descendant.model()),
            },
        }
    }
}

impl View for Selector {
    type V = SelectorView;

    open spec fn view(&self) -> SelectorView {
        self.model()
    }
}

impl SelectorView {
    /// The weight of a selector: the number of tag names in it.
    pub open spec fn priority(self) -> nat
        decreases self,
    {
        match self {
            SelectorView::Tag { .. } => 1,
            SelectorView::Descendant { ancestor, descendant } => ancestor.priority()
                + descendant.priority(),
        }
    }

    /// Whether the selector holds of node `node` of the tree `t`. A tag
    /// name holds of the elements with that name. A descendant selector
    /// holds where its second part holds of the node and its first part
    /// holds of a node above it.
    pub open spec fn matches(self, t: Seq<NodeView>, node: int) -> bool
        decreases self, 0nat, 0nat,
    {
        match self {
            SelectorView::Tag { tag } => t[node].kind.tag() == Some(tag),
            SelectorView::Descendant { ancestor, descendant } => descendant.matches(t, node)
                && ancestor.matches_above(t, node),
        }
    }

    /// Whether the selector holds of a node above `node`: of its parent,
    /// or of a node above its parent.
    pub open spec fn matches_above(self, t: Seq<NodeView>, node: int) -> bool
        decreases self, 1nat, node,
    {
        match t[node].parent {
            Some(p) => 0 <= p < node && (self.matches(t, p as int) || self.matches_above(
                t,
                p as int,
            )),
            None => false,
        }
    }
}

impl Clone for Selector {
    fn clone(&self) -> (r: Self)
        ensures
            r@ == self@,
        decreases self,
    {
        match &self.selector {
            SelectorType::Tag { tag } => Selector { selector: SelectorType::Tag { tag: tag.clone() } },
            SelectorType::Descendant { ancestor, descendant } => {
                let a = (**ancestor).clone();
                let d = (**descendant).clone();
                Selector {
                    selector: SelectorType::Descendant {
                        ancestor: Box::new(a),
                        descendant: Box::new(d),
                    },
                }
            },
        }
    }
}

impl Selector {
    /// The selector that holds of the elements named `tag`.
    pub fn new_tag(tag: String) -> (s: Selector)
        ensures
            s@ == (SelectorView::Tag { tag: tag@ }),
    {
        Selector { selector: SelectorType::Tag { tag } }
    }

    /// The selector that holds where `descendant` holds below a node of
    /// which `ancestor` holds.
    pub fn new_descendant(ancestor: Selector, descendant: Selector) -> (s: Selector)
        ensures
            s@ == (SelectorView::Descendant {
                ancestor: Box::new(ancestor@),
                descendant: Box::new(descendant@),
            }),
    {
        Selector {
            selector: SelectorType::Descendant {
                ancestor: Box::new(ancestor),
                descendant: Box::new(descendant),
            },
        }
    }

    /// Whether the selector holds of node `node` of `doc`.
    #[verifier::loop_isolation(false)]
    pub fn matches(&self, doc: &Document, node: usize) -> (b: bool)
        requires
            doc.wf(),
            node < doc@.len(),
        ensures
            b == self@.matches(doc@, node as int),
        decreases self,
    {
        match &self.selector {
            SelectorType::Tag { tag } => {
                match doc.node(node).tag() {
                    Some(t) => *t == *tag,
                    None => false,
                }
            },
            SelectorType::Descendant { ancestor, descendant } => {
                if !descendant.matches(doc, node) {
                    return false;
                }
                let mut current = node;
                loop
                    invariant
                        doc.wf(),
                        current < doc@.len(),
                        ancestor@.matches_above(doc@, node as int) == ancestor@.matches_above(
                            doc@,
                            current as int,
                        ),
                    decreases current,
                {
                    match doc.node(current).parent {
                        None => {
                            return false;
                        },
                        Some(p) => {
                            if ancestor.matches(doc, p) {
                                return true;
                            }
                            current = p;
                        },
                    }
                }
            },
        }
    }

    /// The weight of the selector.
    pub fn priority(&self) -> (p: usize)
        requires
            self@.priority() <= usize::MAX,
        ensures
            p == self@.priority(),
        decreases self,
    {
        match &self.selector {
            SelectorType::Tag { .. } => 1,
            SelectorType::Descendant { ancestor, descendant } => ancestor.priority()
                + descendant.priority(),
        }
    }
}

} // verus!
