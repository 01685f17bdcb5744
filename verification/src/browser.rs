//! A browser that shows one page: what it holds of the page once the
//! markup has arrived.

use vstd::prelude::*;
use crate::html_parser::{kinds, parse_markup, parsed, tokens};
use crate::node::{Document, HtmlNodeType, NodeKind, NodeView};

verus! {

/// The page of a browser: the markup as it arrived, its tokens and its
/// document.
#[derive(Debug)]
pub struct Browser {
    tokens: Vec<HtmlNodeType>,
    body: String,
    nodes: Option<Document>,
}

impl Browser {
    /// The markup of the page; empty before a page was loaded.
    pub closed spec fn markup(&self) -> Seq<char> {
        self.body@
    }

    /// The tokens of the page.
    pub closed spec fn token_list(&self) -> Seq<NodeKind> {
        kinds(self.tokens@)
    }

    /// The document of the page, once one was loaded.
    pub closed spec fn document(&self) -> Option<Seq<NodeView>> {
        match self.nodes {
            Some(d) => Some(d@),
            None => None,
        }
    }

    /// A browser without a page.
    pub fn new() -> (b: Browser)
        ensures
            b.markup() == Seq::<char>::empty(),
            b.token_list() == Seq::<NodeKind>::empty(),
            b.document() is None,
    {
        let b = Browser { tokens: Vec::new(), body: String::new(), nodes: None };
        assert(b.token_list() == Seq::<NodeKind>::empty());
        b
    }

    /// Splits markup into text and tag tokens, see [`tokens`].
    pub fn lex(text: &str) -> (output: Vec<HtmlNodeType>)
        ensures
            kinds(output@) == tokens(text@),
    {
        crate::html_parser::lex(text)
    }

    /// Takes the markup of a page that has arrived: the browser then holds
    /// its tokens and its document. Markup that is too long for its nodes
    /// to be counted is refused, and the browser stays as it was.
    pub fn load(&mut self, body: &str) -> (ok: bool)
        ensures
            ok == (3 * body@.len() + 5 <= usize::MAX),
            ok ==> final(self).markup() == body@ && final(self).token_list() == tokens(body@)
                && final(self).document() == Some(parsed(body@)),
            !ok ==> *final(self) == *old(self),
    {
        match parse_markup(body) {
            Some(doc) => {
                self.tokens = Self::lex(body);
                self.body = body.to_string();
                self.nodes = Some(doc);
                true
            },
            None => false,
        }
    }

    /// The document of the page.
    pub fn nodes(&self) -> (r: Option<&Document>)
        ensures
            match r {
                Some(d) => self.document() == Some(d@),
                None => self.document() is None,
            },
    {
        self.nodes.as_ref()
    }
}

} // verus!
