//! A tab: one page on its way from markup to a display list.

use vstd::pervasive::unreached;
use vstd::prelude::*;
use crate::cascade::{cascade_order, sort_rules, style, styled};
use crate::css_parser::{rules_view, sheet, CssParser, RuleView};
use crate::hit::{enclosing_links, hit, links_around};
use crate::html_parser::{parse_markup, parsed};
use crate::layout::{
    document_box, layout_document, measures, metrics_match, BoxView, LayoutError, LayoutNode,
    MetricsView, NodeMetrics, VSTEP,
};
use crate::node::{Document, HtmlNodeType, NodeKind, NodeView};
use crate::paint::{
    commands_view, display_list, lemma_page_paintable, paint_tree, Command, DrawCommand,
};
use crate::selector::Selector;
use crate::strmap::StrMap;
use crate::text::is_literal;
use crate::url::{Url, UrlView};

verus! {

/// How far a tab has come with its page.
#[derive(Clone, Copy, Debug, PartialEq, Eq, Structural)]
pub enum TabState {
    /// No page was loaded.
    Empty,
    /// The markup was parsed.
    Parsed,
    /// Every node has its style.
    Styled,
    /// The page was laid out and has its display list.
    LaidOut,
}

/// Why a tab did not do what it was asked for.
#[derive(Clone, Copy, Debug, PartialEq, Eq, Structural)]
pub enum TabError {
    /// The tab is not in a state in which this can be done.
    WrongState,
    /// The markup is too long for its nodes to be counted.
    TooLong,
    /// The page could not be laid out.
    Layout(LayoutError),
}

/// A tab.
#[derive(Debug)]
pub struct Tab {
    draw_commands: Vec<DrawCommand>,
    nodes: Option<Document>,
    document: Option<LayoutNode>,
    url: Option<Url>,
    is_styled: bool,
}

/// The stylesheet that node `i` links to, if it does: the `href` of a
/// `link` element whose `rel` is `stylesheet`.
pub open spec fn stylesheet_link(kind: NodeKind) -> Option<Seq<char>> {
    match kind {
        NodeKind::Element { tag, attributes } => if tag == "link"@ && attributes.contains_key("rel"@)
            && attributes["rel"@] == "stylesheet"@ && attributes.contains_key("href"@) {
            Some(attributes["href"@])
        } else {
            None
        },
        NodeKind::Text { .. } => None,
    }
}

/// The stylesheets that the first `k` nodes link to, in the order of the
/// nodes.
pub open spec fn stylesheet_links(t: Seq<NodeView>, k: int) -> Seq<Seq<char>>
    decreases k,
{
    if k <= 0 {
        Seq::empty()
    } else {
        match stylesheet_link(t[k - 1].kind) {
            Some(href) => stylesheet_links(t, k - 1).push(href),
            None => stylesheet_links(t, k - 1),
        }
    }
}

/// The rules of the first `k` of the sheets `sheets`, behind the rules
/// `first`.
pub open spec fn collected(first: Seq<RuleView>, sheets: Seq<Seq<char>>, k: int) -> Seq<RuleView>
    decreases k,
{
    if k <= 0 {
        first
    } else {
        collected(first, sheets, k - 1) + sheet(sheets[k - 1])
    }
}

/// The addresses that a click at (`x`, `y`) on the page `b` asks for:
/// those that the node under the point and the nodes above it link to;
/// none where nothing of the document lies under the point.
pub open spec fn clicked(b: BoxView, t: Seq<NodeView>, x: int, y: int) -> Seq<Seq<char>> {
    match hit(b, 0, 0, x, y) {
        Some(node) => if node < t.len() {
            links_around(t, node as int)
        } else {
            Seq::empty()
        },
        None => Seq::empty(),
    }
}

/// The stylesheets that `doc` links to, in the order of the nodes.
pub fn find_stylesheet_links(doc: &Document) -> (links: Vec<String>)
    ensures
        links.deep_view() == stylesheet_links(doc@, doc@.len() as int),
{
    let mut links: Vec<String> = Vec::new();
    let n = doc.len();
    let mut i: usize = 0;
    while i < n
        invariant
            i <= n == doc@.len(),
            links.deep_view() == stylesheet_links(doc@, i as int),
        decreases n - i,
    {
        match &doc.node(i).node_type {
            HtmlNodeType::Element(e) => {
                if is_literal(&e.tag, "link") {
                    match (e.attributes.get("rel"), e.attributes.get("href")) {
                        (Some(rel), Some(href)) => {
                            if is_literal(rel, "stylesheet") {
                                let link = href.clone();
                                links.push(link);
                            }
                        },
                        _ => {},
                    }
                }
            },
            HtmlNodeType::Text(_) => {},
        }
        i += 1;
    }
    links
}

/// The rules `first` with the rules of every sheet of `sheets` behind
/// them.
pub fn collect_rules(first: &Vec<(Selector, StrMap)>, sheets: &Vec<String>) -> (rules: Vec<
    (Selector, StrMap),
>)
    requires
        forall|k: int| 0 <= k < first.len() ==> (#[trigger] first[k]).0@.priority() <= usize::MAX,
    ensures
        rules_view(rules@) == collected(rules_view(first@), sheets.deep_view(), sheets.len() as int),
        forall|k: int| 0 <= k < rules.len() ==> (#[trigger] rules[k]).0@.priority() <= usize::MAX,
{
    let mut rules: Vec<(Selector, StrMap)> = Vec::new();
    let mut i: usize = 0;
    while i < first.len()
        invariant
            i <= first.len(),
            forall|k: int| 0 <= k < first.len() ==> (#[trigger] first[k]).0@.priority() <= usize::MAX,
            rules@.len() == i,
            rules_view(rules@) == rules_view(first@).take(i as int),
            forall|k: int| 0 <= k < rules.len() ==> (#[trigger] rules[k]).0@.priority() <= usize::MAX,
        decreases first.len() - i,
    {
        let rule = (first[i].0.clone(), first[i].1.clone());
        rules.push(rule);
        i += 1;
    }
    let mut j: usize = 0;
    while j < sheets.len()
        invariant
            j <= sheets.len(),
            rules_view(rules@) == collected(rules_view(first@), sheets.deep_view(), j as int),
            forall|k: int| 0 <= k < rules.len() ==> (#[trigger] rules[k]).0@.priority() <= usize::MAX,
        decreases sheets.len() - j,
    {
        let ghost before = rules_view(rules@);
        let mut parser = CssParser::new(sheets[j].as_str());
        match parser.parse() {
            Ok(mut more) => {
                let ghost added = rules_view(more@);
                rules.append(&mut more);
                assert(rules_view(rules@) == before + added);
            },
            Err(_) => {},
        }
        j += 1;
    }
    rules
}

impl Tab {
    /// How far the tab has come with its page.
    pub closed spec fn state(&self) -> TabState {
        if self.nodes is None {
            TabState::Empty
        } else if !self.is_styled {
            TabState::Parsed
        } else if self.document is None {
            TabState::Styled
        } else {
            TabState::LaidOut
        }
    }

    /// The document of the page, once the markup was parsed.
    pub closed spec fn nodes_view(&self) -> Seq<NodeView> {
        self.nodes->0@
    }

    /// The layout of the page, once it was laid out.
    pub closed spec fn layout_view(&self) -> BoxView {
        self.document->0@
    }

    /// The display list of the page; empty before the page was laid out.
    pub closed spec fn commands(&self) -> Seq<Command> {
        commands_view(self.draw_commands@)
    }

    /// The address of the page, once one was loaded.
    pub closed spec fn address(&self) -> Option<UrlView> {
        match self.url {
            Some(u) => Some(u@),
            None => None,
        }
    }

    /// What a tab keeps true: its document is a tree, and it has a display
    /// list only once the page was laid out.
    pub closed spec fn wf(&self) -> bool {
        &&& self.nodes matches Some(d) ==> d.wf()
        &&& self.nodes is None ==> !self.is_styled && self.document is None
        &&& !self.is_styled ==> self.document is None
        &&& self.document is None ==> self.draw_commands@.len() == 0
    }

    /// A tab without a page.
    pub fn new() -> (tab: Tab)
        ensures
            tab.wf(),
            tab.state() == TabState::Empty,
            tab.commands() == Seq::<Command>::empty(),
            tab.address() is None,
    {
        let tab = Tab {
            draw_commands: Vec::new(),
            nodes: None,
            document: None,
            url: None,
            is_styled: false,
        };
        tab
    }

    /// How far the tab has come with its page.
    pub fn current_state(&self) -> (s: TabState)
        ensures
            s == self.state(),
    {
        if self.nodes.is_none() {
            TabState::Empty
        } else if !self.is_styled {
            TabState::Parsed
        } else if self.document.is_none() {
            TabState::Styled
        } else {
            TabState::LaidOut
        }
    }

    /// Takes the markup `body` that arrived from `url`: what the tab held
    /// before is dropped, and the markup is parsed. Markup that is too long
    /// for its nodes to be counted is refused, and the tab stays as it
    /// was.
    pub fn load(&mut self, url: Url, body: &str) -> (r: Result<(), TabError>)
        requires
            old(self).wf(),
        ensures
            final(self).wf(),
            match r {
                Ok(_) => final(self).state() == TabState::Parsed && final(self).nodes_view()
                    == parsed(body@) && final(self).address() == Some(url@) && final(self).commands() == Seq::<Command>::empty(),
                Err(e) => e == TabError::TooLong && 3 * body@.len() + 5 > usize::MAX && *final(self)
                    == *old(self),
            },
    {
        match parse_markup(body) {
            Some(doc) => {
                self.url = Some(url);
                self.draw_commands = Vec::new();
                self.document = None;
                self.is_styled = false;
                self.nodes = Some(doc);
                Ok(())
            },
            None => Err(TabError::TooLong),
        }
    }

    /// The stylesheets that the page links to, in the order of the
    /// document.
    pub fn links(&self) -> (r: Result<Vec<String>, TabError>)
        requires
            self.wf(),
        ensures
            match r {
                Ok(links) => self.state() != TabState::Empty && links.deep_view()
                    == stylesheet_links(self.nodes_view(), self.nodes_view().len() as int),
                Err(e) => e == TabError::WrongState && self.state() == TabState::Empty,
            },
    {
        match &self.nodes {
            Some(doc) => Ok(find_stylesheet_links(doc)),
            None => Err(TabError::WrongState),
        }
    }

    /// Gives every node its style: from the rules `default_rules` and the
    /// rules of the sheets `sheets`, in the order of the cascade. A layout
    /// made before is dropped.
    pub fn style(&mut self, default_rules: &Vec<(Selector, StrMap)>, sheets: &Vec<String>) -> (r:
        Result<(), TabError>)
        requires
            old(self).wf(),
            forall|k: int|
                0 <= k < default_rules.len() ==> (#[trigger] default_rules[k]).0@.priority()
                    <= usize::MAX,
        ensures
            final(self).wf(),
            final(self).address() == old(self).address(),
            match r {
                Ok(_) => old(self).state() != TabState::Empty && final(self).state()
                    == TabState::Styled && final(self).nodes_view() == styled(
                    old(self).nodes_view(),
                    cascade_order(
                        collected(
                            rules_view(default_rules@),
                            sheets.deep_view(),
                            sheets.len() as int,
                        ),
                    ),
                ) && final(self).commands() == Seq::<Command>::empty(),
                Err(e) => e == TabError::WrongState && old(self).state() == TabState::Empty
                    && *final(self) == *old(self),
            },
    {
        match self.nodes.take() {
            Some(mut doc) => {
                let rules = collect_rules(default_rules, sheets);
                let sorted = sort_rules(&rules);
                style(&mut doc, &sorted);
                self.nodes = Some(doc);
                self.is_styled = true;
                self.document = None;
                self.draw_commands = Vec::new();
                Ok(())
            },
            None => Err(TabError::WrongState),
        }
    }

    /// Lays the page out with the measurements `metrics` and makes its
    /// display list; a page that was laid out can always be drawn. On an
    /// error the tab stays as it was.
    pub fn layout(&mut self, metrics: &Vec<NodeMetrics>) -> (r: Result<(), TabError>)
        requires
            old(self).wf(),
        ensures
            final(self).wf(),
            match r {
                Ok(_) => Self::layout_error(
                    old(self).state(),
                    old(self).nodes_view(),
                    measures(metrics@),
                ) is None && final(self).state() == TabState::LaidOut && final(self).nodes_view()
                    == old(self).nodes_view() && final(self).address() == old(self).address()
                    && final(self).layout_view() == document_box(
                    final(self).nodes_view(),
                    measures(metrics@),
                ) && final(self).commands() == paint_tree(
                    final(self).layout_view(),
                    final(self).nodes_view(),
                    0,
                    0,
                ),
                Err(e) => *final(self) == *old(self) && Self::layout_error(
                    old(self).state(),
                    old(self).nodes_view(),
                    measures(metrics@),
                ) == Some(e),
            },
    {
        if !self.is_styled {
            return Err(TabError::WrongState);
        }
        let page = match &self.nodes {
            Some(doc) => {
                let page = match layout_document(doc, metrics) {
                    Ok(page) => page,
                    Err(e) => {
                        return Err(TabError::Layout(e));
                    },
                };
                proof {
                    lemma_page_paintable(doc@, measures(metrics@));
                }
                match display_list(&page, doc) {
                    Some(commands) => (page, commands),
                    None => unreached(),
                }
            },
            None => {
                return Err(TabError::WrongState);
            },
        };
        self.document = Some(page.0);
        self.draw_commands = page.1;
        Ok(())
    }

    /// The error that [`Tab::layout`] ends with, if it ends with one, for
    /// a tab in state `state` with the document `t`.
    pub open spec fn layout_error(state: TabState, t: Seq<NodeView>, m: Seq<MetricsView>) -> Option<
        TabError,
    > {
        if state == TabState::Empty || state == TabState::Parsed {
            Some(TabError::WrongState)
        } else if !metrics_match(t, m) {
            Some(TabError::Layout(LayoutError::Metrics))
        } else if VSTEP + document_box(t, m).height > u64::MAX {
            Some(TabError::Layout(LayoutError::TooLarge))
        } else {
            None
        }
    }

    /// The addresses that a click at (`x`, `y`) asks for: those that the
    /// node under the point and the nodes above it link to, the innermost
    /// first. The point is counted from the corner of the page, not of
    /// the window.
    pub fn click(&self, x: u64, y: u64) -> (r: Result<Vec<String>, TabError>)
        requires
            self.wf(),
        ensures
            match r {
                Ok(links) => self.state() == TabState::LaidOut && links.deep_view() == clicked(
                    self.layout_view(),
                    self.nodes_view(),
                    x as int,
                    y as int,
                ),
                Err(e) => e == TabError::WrongState && self.state() != TabState::LaidOut,
            },
    {
        match (&self.document, &self.nodes) {
            (Some(page), Some(doc)) => {
                match page.hit(x, y) {
                    Some(node) => {
                        if node < doc.len() {
                            Ok(enclosing_links(doc, node))
                        } else {
                            let links: Vec<String> = Vec::new();
                            Ok(links)
                        }
                    },
                    None => {
                        let links: Vec<String> = Vec::new();
                        Ok(links)
                    },
                }
            },
            _ => Err(TabError::WrongState),
        }
    }

    /// The document of the page.
    pub fn nodes(&self) -> (r: Option<&Document>)
        ensures
            match r {
                Some(d) => self.state() != TabState::Empty && d@ == self.nodes_view(),
                None => self.state() == TabState::Empty,
            },
    {
        self.nodes.as_ref()
    }

    /// The layout of the page.
    pub fn document(&self) -> (r: Option<&LayoutNode>)
        requires
            self.wf(),
        ensures
            match r {
                Some(b) => self.state() == TabState::LaidOut && b@ == self.layout_view(),
                None => self.state() != TabState::LaidOut,
            },
    {
        self.document.as_ref()
    }

    /// The display list of the page.
    pub fn draw_commands(&self) -> (r: &Vec<DrawCommand>)
        ensures
            commands_view(r@) == self.commands(),
    {
        &self.draw_commands
    }

    /// The address of the page.
    pub fn url(&self) -> (r: Option<&Url>)
        ensures
            match r {
                Some(u) => self.address() == Some(u@),
                None => self.address() is None,
            },
    {
        self.url.as_ref()
    }
}

} // verus!
