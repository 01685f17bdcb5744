//! The markup parser: a tokenizer, the reading of a tag's attributes, and a
//! tree builder that repairs what the markup leaves out.

use vstd::prelude::*;
use crate::node::{appended, leaf, tree_wf, Document, Element, HtmlNodeType, NodeKind, NodeView, Text};
use crate::order::{in_document_order, in_subtree, lemma_in_document_order_walk, walk};
use crate::strmap::StrMap;
use crate::text::{
    blank, chars_of, find_char, first_index, is_blank, is_literal, lowercase, lower,
    quotes_stripped, split_whitespace, string_of_range, strip_quotes, words,
};

verus! {

/// A token that stands for a tag: an element with the raw text between the
/// angle brackets as its tag and with no attributes.
pub open spec fn tag_token(raw: Seq<char>) -> NodeKind {
    NodeKind::Element { tag: raw, attributes: Map::empty() }
}

/// A token that stands for a run of text.
pub open spec fn text_token(text: Seq<char>) -> NodeKind {
    NodeKind::Text { text }
}

/// The state of the tokenizer: the tokens that are complete, the
/// characters read since the last angle bracket, and whether the last
/// angle bracket opened a tag.
pub struct LexState {
    pub tokens: Seq<NodeKind>,
    pub buffer: Seq<char>,
    pub in_tag: bool,
}

/// What one character does to the tokenizer. `<` ends a run of text, which
/// becomes a token unless it is empty; `>` ends a tag, which becomes a
/// token even when it is empty; any other character is kept.
pub open spec fn lex_step(st: LexState, c: char) -> LexState {
    if c == '<' {
        LexState {
            tokens: if st.buffer.len() > 0 {
                st.tokens.push(text_token(st.buffer))
            } else {
                st.tokens
            },
            buffer: Seq::empty(),
            in_tag: true,
        }
    } else if c == '>' {
        LexState { tokens: st.tokens.push(tag_token(st.buffer)), buffer: Seq::empty(), in_tag: false }
    } else {
        LexState { tokens: st.tokens, buffer: st.buffer.push(c), in_tag: st.in_tag }
    }
}

/// The tokenizer after it has read `s`.
pub open spec fn lex_scan(s: Seq<char>) -> LexState
    decreases s.len(),
{
    if s.len() == 0 {
        LexState { tokens: Seq::empty(), buffer: Seq::empty(), in_tag: false }
    } else {
        lex_step(lex_scan(s.drop_last()), s.last())
    }
}

/// The tokens of `s`. Text left at the end is a token; a tag left open at
/// the end is dropped.
pub open spec fn tokens(s: Seq<char>) -> Seq<NodeKind> {
    let st = lex_scan(s);
    if !st.in_tag && st.buffer.len() > 0 {
        st.tokens.push(text_token(st.buffer))
    } else {
        st.tokens
    }
}

/// The mathematical content of a list of node types.
pub open spec fn kinds(v: Seq<HtmlNodeType>) -> Seq<NodeKind> {
    Seq::new(v.len(), |i: int| v[i]@)
}

/// Splits markup into text and tag tokens.
pub fn lex(text: &str) -> (output: Vec<HtmlNodeType>)
    ensures
        kinds(output@) == tokens(text@),
{
    let chars = chars_of(text);
    let mut output: Vec<HtmlNodeType> = Vec::new();
    let mut buffer = String::new();
    let mut in_tag = false;
    let mut i: usize = 0;
    while i < chars.len()
        invariant
            i <= chars.len(),
            kinds(output@) == lex_scan(chars@.take(i as int)).tokens,
            buffer@ == lex_scan(chars@.take(i as int)).buffer,
            in_tag == lex_scan(chars@.take(i as int)).in_tag,
        decreases chars.len() - i,
    {
        let c = chars[i];
        proof {
            assert(chars@.take(i + 1).drop_last() == chars@.take(i as int));
        }
        if c == '<' {
            in_tag = true;
            if !buffer.as_str().is_empty() {
                output.push(HtmlNodeType::Text(Text { text: buffer }));
            }
            buffer = String::new();
        } else if c == '>' {
            in_tag = false;
            output.push(
                HtmlNodeType::Element(Element { tag: buffer, attributes: StrMap::new() }),
            );
            buffer = String::new();
        } else {
            buffer.push(c);
        }
        i += 1;
    }
    assert(chars@.take(chars@.len() as int) == chars@);
    if !in_tag && !buffer.as_str().is_empty() {
        output.push(HtmlNodeType::Text(Text { text: buffer }));
    }
    output
}

/// The key and the value that one word of a tag stands for. A word with
/// `=` gives what stands before the first `=` as the key and what stands
/// between the first and the second `=` as the value, without the
/// quotation marks at either end; a word without gives itself as the key
/// and an empty value. Keys are lower-cased.
pub open spec fn attribute_of(word: Seq<char>) -> (Seq<char>, Seq<char>) {
    let eq = first_index(word, '=');
    if eq < word.len() {
        let rest = word.skip(eq + 1);
        (lowercase(word.take(eq)), strip_quotes(rest.take(first_index(rest, '='))))
    } else {
        (lowercase(word), Seq::empty())
    }
}

/// The attributes that the words of a tag stand for; where a key comes
/// twice, the later word stays.
pub open spec fn attributes_of(words: Seq<Seq<char>>) -> Map<Seq<char>, Seq<char>>
    decreases words.len(),
{
    if words.len() == 0 {
        Map::empty()
    } else {
        let (key, value) = attribute_of(words.last());
        attributes_of(words.drop_last()).insert(key, value)
    }
}

/// The tag name that the text of a tag gives: its first word, lower-cased;
/// empty where the text has no word.
pub open spec fn tag_name_of(text: Seq<char>) -> Seq<char> {
    if words(text).len() > 0 {
        lowercase(words(text)[0])
    } else {
        Seq::empty()
    }
}

/// The element that the text of a tag stands for.
pub open spec fn element_of(text: Seq<char>) -> NodeKind {
    NodeKind::Element {
        tag: tag_name_of(text),
        attributes: if words(text).len() > 0 {
            attributes_of(words(text).skip(1))
        } else {
            Map::empty()
        },
    }
}

fn attribute(word: &String) -> (r: (String, String))
    ensures
        (r.0@, r.1@) == attribute_of(word@),
{
    let chars = chars_of(word.as_str());
    let eq = find_char(&chars, '=');
    if eq < chars.len() {
        let key = string_of_range(&chars, 0, eq);
        let mut rest: Vec<char> = Vec::new();
        let mut i: usize = eq + 1;
        while i < chars.len()
            invariant
                eq < i <= chars.len(),
                rest@ == chars@.subrange(eq + 1, i as int),
            decreases chars.len() - i,
        {
            rest.push(chars[i]);
            i += 1;
        }
        let end = find_char(&rest, '=');
        let mut value: Vec<char> = Vec::new();
        let mut j: usize = 0;
        while j < end
            invariant
                j <= end <= rest.len(),
                value@ == rest@.take(j as int),
            decreases end - j,
        {
            value.push(rest[j]);
            j += 1;
        }
        let (a, b) = quotes_stripped(&value);
        (lower(&key), string_of_range(&value, a, b))
    } else {
        (lower(word), String::new())
    }
}

/// Reads the text of a tag: the tag name and the attributes.
pub fn get_attributes(text: &str) -> (element: Element)
    ensures
        HtmlNodeType::Element(element)@ == element_of(text@),
{
    let chars = chars_of(text);
    let parts = split_whitespace(&chars);
    let mut attributes = StrMap::new();
    if parts.len() == 0 {
        return Element { tag: String::new(), attributes };
    }
    let tag = lower(&parts[0]);
    let mut i: usize = 1;
    let ghost rest = parts.deep_view().skip(1);
    while i < parts.len()
        invariant
            1 <= i <= parts.len(),
            rest == parts.deep_view().skip(1),
            attributes@ == attributes_of(rest.take(i - 1)),
        decreases parts.len() - i,
    {
        let (key, value) = attribute(&parts[i]);
        proof {
            assert(rest.take(i as int).drop_last() == rest.take(i - 1));
        }
        attributes.insert(key, value);
        i += 1;
    }
    assert(rest.take(rest.len() as int) == rest);
    Element { tag, attributes }
}

/// Whether `tag` names an element that has no content and no closing tag.
pub open spec fn is_void_tag(tag: Seq<char>) -> bool {
    ||| tag == "area"@
    ||| tag == "base"@
    ||| tag == "br"@
    ||| tag == "col"@
    ||| tag == "embed"@
    ||| tag == "hr"@
    ||| tag == "img"@
    ||| tag == "input"@
    ||| tag == "link"@
    ||| tag == "meta"@
    ||| tag == "param"@
    ||| tag == "source"@
    ||| tag == "track"@
    ||| tag == "wbr"@
}

/// Whether `tag` names an element that belongs in the head of a document.
pub open spec fn is_head_tag(tag: Seq<char>) -> bool {
    ||| tag == "title"@
    ||| tag == "meta"@
    ||| tag == "link"@
    ||| tag == "style"@
    ||| tag == "script"@
    ||| tag == "noscript"@
    ||| tag == "base"@
}

/// Whether `tag` names an element that has no content and no closing tag.
pub fn void_tag(tag: &String) -> (b: bool)
    ensures
        b == is_void_tag(tag@),
{
    is_literal(tag, "area") || is_literal(tag, "base") || is_literal(tag, "br") || is_literal(
        tag,
        "col",
    ) || is_literal(tag, "embed") || is_literal(tag, "hr") || is_literal(tag, "img")
        || is_literal(tag, "input") || is_literal(tag, "link") || is_literal(tag, "meta")
        || is_literal(tag, "param") || is_literal(tag, "source") || is_literal(tag, "track")
        || is_literal(tag, "wbr")
}

/// Whether `tag` names an element that belongs in the head of a document.
pub fn head_tag(tag: &String) -> (b: bool)
    ensures
        b == is_head_tag(tag@),
{
    is_literal(tag, "title") || is_literal(tag, "meta") || is_literal(tag, "link") || is_literal(
        tag,
        "style",
    ) || is_literal(tag, "script") || is_literal(tag, "noscript") || is_literal(tag, "base")
}

/// The tree builder: the nodes made so far and the elements that are
/// still open, outermost first.
pub struct Builder {
    pub tree: Seq<NodeView>,
    pub stack: Seq<usize>,
}

/// The builder before any token.
pub open spec fn empty_builder() -> Builder {
    Builder { tree: Seq::empty(), stack: Seq::empty() }
}

/// The open elements are nodes of the tree, the tree has the shape of a
/// document, and nothing is open only as long as nothing was made.
pub open spec fn builder_wf(b: Builder) -> bool {
    &&& b.stack.len() == 0 <==> b.tree.len() == 0
    &&& b.tree.len() > 0 ==> tree_wf(b.tree)
    &&& forall|i: int| 0 <= i < b.stack.len() ==> (#[trigger] b.stack[i]) < b.tree.len()
}

/// A new element becomes the last child of the innermost open element and
/// is open itself; with nothing open it becomes the root.
pub open spec fn open_element(b: Builder, kind: NodeKind) -> Builder {
    if b.stack.len() == 0 {
        Builder { tree: seq![leaf(kind, None)], stack: seq![0usize] }
    } else {
        Builder {
            tree: appended(b.tree, b.stack.last(), kind),
            stack: b.stack.push(b.tree.len() as usize),
        }
    }
}

/// A new node becomes the last child of the innermost open element and
/// is not open itself.
pub open spec fn add_leaf(b: Builder, kind: NodeKind) -> Builder {
    if b.stack.len() == 0 {
        b
    } else {
        Builder { tree: appended(b.tree, b.stack.last(), kind), stack: b.stack }
    }
}

/// The innermost open element is closed, unless it is the root.
pub open spec fn close_element(b: Builder) -> Builder {
    if b.stack.len() > 1 {
        Builder { tree: b.tree, stack: b.stack.drop_last() }
    } else {
        b
    }
}

/// The tag name of the `i`-th open element.
pub open spec fn open_tag(b: Builder, i: int) -> Option<Seq<char>> {
    b.tree[b.stack[i] as int].kind.tag()
}

/// One round of repair before a token with tag name `tag` (`None` for
/// text and for the end of the markup). With nothing open, `html` is
/// opened, unless the tag is `html`. With `html` alone open, `head` is
/// opened before a tag that belongs in the head and `body` before
/// anything else, unless the tag is `head`, `body` or `/html`. With `html`
/// and `head` open, `head` is closed before anything that is not `/head`
/// and does not belong in the head.
pub open spec fn implicit_once(b: Builder, tag: Option<Seq<char>>) -> Builder {
    let in_head = tag is Some && is_head_tag(tag->0);
    if b.stack.len() == 0 {
        if tag != Some("html"@) {
            open_element(b, tag_token("html"@))
        } else {
            b
        }
    } else if b.stack.len() == 1 && open_tag(b, 0) == Some("html"@) {
        if tag != Some("head"@) && tag != Some("body"@) && tag != Some("/html"@) {
            if in_head {
                open_element(b, tag_token("head"@))
            } else {
                open_element(b, tag_token("body"@))
            }
        } else {
            b
        }
    } else if b.stack.len() == 2 && open_tag(b, 0) == Some("html"@) && open_tag(b, 1) == Some(
        "head"@,
    ) {
        if !in_head && tag != Some("/head"@) {
            close_element(b)
        } else {
            b
        }
    } else {
        b
    }
}

/// The repair before a token: two rounds, after which a third changes
/// nothing (see [`lemma_implicit_stable`]).
pub open spec fn implicit(b: Builder, tag: Option<Seq<char>>) -> Builder {
    implicit_once(implicit_once(b, tag), tag)
}

/// Whether `s` starts with `c`.
pub open spec fn starts_with(s: Seq<char>, c: char) -> bool {
    s.len() > 0 && s[0] == c
}

/// What a run of text does to the builder: blank text is dropped, other
/// text becomes a leaf after the repair.
pub open spec fn with_text(b: Builder, text: Seq<char>) -> Builder {
    if blank(text) {
        b
    } else {
        add_leaf(implicit(b, None), text_token(text))
    }
}

/// What a tag does to the builder. A tag whose name starts with `!` is
/// dropped. Any other is preceded by the repair; then a name that starts
/// with `/` closes the innermost open element, a void element becomes a
/// leaf, and any other element is opened.
pub open spec fn with_tag(b: Builder, raw: Seq<char>) -> Builder {
    let tag = tag_name_of(raw);
    if starts_with(tag, '!') {
        b
    } else {
        let repaired = implicit(b, Some(tag));
        if starts_with(tag, '/') {
            close_element(repaired)
        } else if is_void_tag(tag) {
            add_leaf(repaired, element_of(raw))
        } else {
            open_element(repaired, element_of(raw))
        }
    }
}

/// What a token does to the builder.
pub open spec fn with_token(b: Builder, token: NodeKind) -> Builder {
    match token {
        NodeKind::Text { text } => with_text(b, text),
        NodeKind::Element { tag, .. } => with_tag(b, tag),
    }
}

/// The builder `b` after the tokens `ts`.
pub open spec fn build(b: Builder, ts: Seq<NodeKind>) -> Builder
    decreases ts.len(),
{
    if ts.len() == 0 {
        b
    } else {
        with_token(build(b, ts.drop_last()), ts.last())
    }
}

/// The tree that the builder hands out at the end: where nothing was
/// made, the repair makes `html` and `body`.
pub open spec fn finished(b: Builder) -> Seq<NodeView> {
    if b.stack.len() == 0 {
        implicit(b, None).tree
    } else {
        b.tree
    }
}

/// The document that `markup` stands for.
pub open spec fn parsed(markup: Seq<char>) -> Seq<NodeView> {
    finished(build(empty_builder(), tokens(markup)))
}

/// The three steps of the builder keep it well formed, and say by how
/// much the tree grows.
pub proof fn lemma_steps_wf(b: Builder, kind: NodeKind)
    requires
        builder_wf(b),
        b.tree.len() < usize::MAX,
    ensures
        builder_wf(open_element(b, kind)),
        builder_wf(add_leaf(b, kind)),
        builder_wf(close_element(b)),
        open_element(b, kind).tree.len() == b.tree.len() + 1,
        add_leaf(b, kind).tree.len() <= b.tree.len() + 1,
        close_element(b).tree == b.tree,
{
    if b.stack.len() > 0 {
        crate::node::lemma_appended_wf(b.tree, b.stack.last(), kind);
    }
}

/// The repair keeps the builder well formed and adds at most two nodes.
pub proof fn lemma_implicit_wf(b: Builder, tag: Option<Seq<char>>)
    requires
        builder_wf(b),
        b.tree.len() + 2 <= usize::MAX,
    ensures
        builder_wf(implicit_once(b, tag)),
        implicit_once(b, tag).tree.len() <= b.tree.len() + 1,
        builder_wf(implicit(b, tag)),
        implicit(b, tag).tree.len() <= b.tree.len() + 2,
{
    lemma_steps_wf(b, tag_token("html"@));
    lemma_steps_wf(b, tag_token("head"@));
    lemma_steps_wf(b, tag_token("body"@));
    let c = implicit_once(b, tag);
    lemma_steps_wf(c, tag_token("html"@));
    lemma_steps_wf(c, tag_token("head"@));
    lemma_steps_wf(c, tag_token("body"@));
}

/// A token keeps the builder well formed and adds at most three nodes.
pub proof fn lemma_with_token_wf(b: Builder, token: NodeKind)
    requires
        builder_wf(b),
        b.tree.len() + 3 <= usize::MAX,
    ensures
        builder_wf(with_token(b, token)),
        with_token(b, token).tree.len() <= b.tree.len() + 3,
{
    match token {
        NodeKind::Text { text } => {
            lemma_implicit_wf(b, None);
            lemma_steps_wf(implicit(b, None), text_token(text));
        },
        NodeKind::Element { tag, .. } => {
            let name = tag_name_of(tag);
            lemma_implicit_wf(b, Some(name));
            lemma_steps_wf(implicit(b, Some(name)), element_of(tag));
        },
    }
}

/// A parser of markup: the markup and the state of the tree builder.
#[derive(Debug)]
pub struct HtmlParser {
    body: String,
    doc: Option<Document>,
    unfinished: Vec<usize>,
}

impl HtmlParser {
    /// The tree builder that the parser holds.
    pub closed spec fn model(&self) -> Builder {
        Builder {
            tree: match self.doc {
                Some(d) => d@,
                None => Seq::empty(),
            },
            stack: self.unfinished@,
        }
    }

    /// The markup that the parser was made for.
    pub closed spec fn markup(&self) -> Seq<char> {
        self.body@
    }

    /// The builder is well formed.
    pub closed spec fn wf(&self) -> bool {
        &&& builder_wf(self.model())
        &&& self.doc matches Some(d) ==> d@.len() > 0
    }

    /// A parser for `body` that has read nothing yet.
    pub fn new(body: &str) -> (p: HtmlParser)
        ensures
            p.markup() == body@,
            p.model() == empty_builder(),
            p.wf(),
    {
        HtmlParser { body: body.to_string(), doc: None, unfinished: Vec::new() }
    }

    fn open(&mut self, element: Element)
        requires
            old(self).wf(),
            old(self).model().tree.len() < usize::MAX,
        ensures
            final(self).model() == open_element(
                old(self).model(),
                HtmlNodeType::Element(element)@,
            ),
            final(self).wf(),
            final(self).markup() == old(self).markup(),
    {
        proof {
            lemma_steps_wf(self.model(), HtmlNodeType::Element(element)@);
        }
        let node_type = HtmlNodeType::Element(element);
        let n = self.unfinished.len();
        match self.doc.take() {
            None => {
                self.doc = Some(Document::new(node_type));
                self.unfinished.push(0);
                assert(self.unfinished@ == seq![0usize]);
            },
            Some(mut doc) => {
                let top = self.unfinished[n - 1];
                let id = doc.append_child(top, node_type);
                self.doc = Some(doc);
                self.unfinished.push(id);
            },
        }
    }

    fn leaf(&mut self, node_type: HtmlNodeType)
        requires
            old(self).wf(),
            old(self).model().tree.len() < usize::MAX,
        ensures
            final(self).model() == add_leaf(old(self).model(), node_type@),
            final(self).wf(),
            final(self).markup() == old(self).markup(),
    {
        proof {
            lemma_steps_wf(self.model(), node_type@);
        }
        let n = self.unfinished.len();
        match self.doc.take() {
            None => {},
            Some(mut doc) => {
                let top = self.unfinished[n - 1];
                let _ = doc.append_child(top, node_type);
                self.doc = Some(doc);
            },
        }
    }

    fn close(&mut self)
        requires
            old(self).wf(),
        ensures
            final(self).model() == close_element(old(self).model()),
            final(self).wf(),
            final(self).markup() == old(self).markup(),
    {
        if self.unfinished.len() > 1 {
            let _ = self.unfinished.pop();
        }
    }

    fn open_tag_is(&self, i: usize, lit: &str) -> (b: bool)
        requires
            self.wf(),
            i < self.model().stack.len(),
        ensures
            b == (open_tag(self.model(), i as int) == Some(lit@)),
    {
        match &self.doc {
            None => false,
            Some(doc) => {
                match doc.node(self.unfinished[i]).tag() {
                    Some(t) => is_literal(t, lit),
                    None => false,
                }
            },
        }
    }

    fn implicit_step(&mut self, tag: &Option<String>)
        requires
            old(self).wf(),
            old(self).model().tree.len() < usize::MAX,
        ensures
            final(self).model() == implicit_once(old(self).model(), option_view(*tag)),
            final(self).wf(),
            final(self).markup() == old(self).markup(),
    {
        let in_head = match tag {
            Some(t) => head_tag(t),
            None => false,
        };
        let n = self.unfinished.len();
        if n == 0 {
            if !tag_is(tag, "html") {
                self.open(Element { tag: "html".to_string(), attributes: StrMap::new() });
            }
        } else if n == 1 && self.open_tag_is(0, "html") {
            if !tag_is(tag, "head") && !tag_is(tag, "body") && !tag_is(tag, "/html") {
                if in_head {
                    self.open(Element { tag: "head".to_string(), attributes: StrMap::new() });
                } else {
                    self.open(Element { tag: "body".to_string(), attributes: StrMap::new() });
                }
            }
        } else if n == 2 && self.open_tag_is(0, "html") && self.open_tag_is(1, "head") {
            if !in_head && !tag_is(tag, "/head") {
                self.close();
            }
        }
    }

    fn repair(&mut self, tag: &Option<String>)
        requires
            old(self).wf(),
            old(self).model().tree.len() + 2 <= usize::MAX,
        ensures
            final(self).model() == implicit(old(self).model(), option_view(*tag)),
            final(self).wf(),
            final(self).markup() == old(self).markup(),
    {
        proof {
            lemma_implicit_wf(self.model(), option_view(*tag));
        }
        self.implicit_step(tag);
        self.implicit_step(tag);
    }

    /// Repairs the open elements before a token with tag name `tag`
    /// (`None` for text and for the end of the markup).
    pub fn implicit_tags(&mut self, tag: Option<&str>)
        requires
            old(self).wf(),
            old(self).model().tree.len() + 2 <= usize::MAX,
        ensures
            final(self).model() == implicit(
                old(self).model(),
                match tag {
                    Some(t) => Some(t@),
                    None => None,
                },
            ),
            final(self).wf(),
            final(self).markup() == old(self).markup(),
    {
        let owned = match tag {
            Some(t) => Some(t.to_string()),
            None => None,
        };
        self.repair(&owned);
    }

    /// Adds a run of text.
    pub fn add_text(&mut self, text: &String)
        requires
            old(self).wf(),
            old(self).model().tree.len() + 3 <= usize::MAX,
        ensures
            final(self).model() == with_text(old(self).model(), text@),
            final(self).wf(),
            final(self).markup() == old(self).markup(),
    {
        let chars = chars_of(text.as_str());
        if is_blank(&chars) {
            return ;
        }
        proof {
            lemma_implicit_wf(self.model(), None);
        }
        self.repair(&None);
        self.leaf(HtmlNodeType::Text(Text { text: text.clone() }));
    }

    /// Adds the tag whose text between the angle brackets is `tag`.
    pub fn add_tag(&mut self, tag: &str)
        requires
            old(self).wf(),
            old(self).model().tree.len() + 3 <= usize::MAX,
        ensures
            final(self).model() == with_tag(old(self).model(), tag@),
            final(self).wf(),
            final(self).markup() == old(self).markup(),
    {
        let element = get_attributes(tag);
        if first_is(&element.tag, '!') {
            return ;
        }
        let name = Some(element.tag.clone());
        proof {
            lemma_implicit_wf(self.model(), Some(tag_name_of(tag@)));
        }
        self.repair(&name);
        if first_is(&element.tag, '/') {
            self.close();
        } else if void_tag(&element.tag) {
            self.leaf(HtmlNodeType::Element(element));
        } else {
            self.open(element);
        }
    }

    /// Hands out the document and leaves the parser as new.
    pub fn finish(&mut self) -> (doc: Document)
        requires
            old(self).wf(),
            old(self).model().tree.len() + 2 <= usize::MAX,
        ensures
            doc@ == finished(old(self).model()),
            doc.wf(),
            final(self).model() == empty_builder(),
            final(self).wf(),
            final(self).markup() == old(self).markup(),
    {
        if self.unfinished.len() == 0 {
            self.repair(&None);
        }
        proof {
            lemma_finished_nonempty(old(self).model());
        }
        self.unfinished.clear();
        self.doc.take().unwrap()
    }

    /// Reads the markup token by token and hands out the document. A
    /// parser that is new gives `parsed` of its markup.
    pub fn parse(&mut self) -> (doc: Document)
        requires
            old(self).wf(),
            old(self).model().tree.len() + 3 * old(self).markup().len() + 5 <= usize::MAX,
        ensures
            doc@ == finished(build(old(self).model(), tokens(old(self).markup()))),
            doc.wf(),
            final(self).model() == empty_builder(),
            final(self).wf(),
            final(self).markup() == old(self).markup(),
    {
        let tokens = lex(self.body.as_str());
        proof {
            lemma_tokens_len(self.body@);
        }
        let ghost ts = kinds(tokens@);
        let mut i: usize = 0;
        while i < tokens.len()
            invariant
                i <= tokens.len(),
                ts == kinds(tokens@),
                old(self).model().tree.len() + 3 * tokens.len() + 2 <= usize::MAX,
                self.wf(),
                self.markup() == old(self).markup(),
                self.model() == build(old(self).model(), ts.take(i as int)),
                self.model().tree.len() <= old(self).model().tree.len() + 3 * i,
            decreases tokens.len() - i,
        {
            proof {
                assert(ts.take(i + 1).drop_last() == ts.take(i as int));
                lemma_with_token_wf(self.model(), tokens[i as int]@);
            }
            match &tokens[i] {
                HtmlNodeType::Text(t) => {
                    self.add_text(&t.text);
                },
                HtmlNodeType::Element(e) => {
                    self.add_tag(e.tag.as_str());
                },
            }
            i += 1;
        }
        assert(ts.take(ts.len() as int) == ts);
        self.finish()
    }
}

/// Parses `markup` into a document; `None` where the markup is too long
/// for its nodes to be counted.
pub fn parse_markup(markup: &str) -> (r: Option<Document>)
    ensures
        match r {
            Some(doc) => 3 * markup@.len() + 5 <= usize::MAX && doc@ == parsed(markup@) && doc.wf(),
            None => 3 * markup@.len() + 5 > usize::MAX,
        },
{
    let n = markup.unicode_len();
    if n > (usize::MAX - 5) / 3 {
        return None;
    }
    let mut parser = HtmlParser::new(markup);
    Some(parser.parse())
}

/// The view of an optional string.
pub open spec fn option_view(tag: Option<String>) -> Option<Seq<char>> {
    match tag {
        Some(t) => Some(t@),
        None => None,
    }
}

fn tag_is(tag: &Option<String>, lit: &str) -> (b: bool)
    ensures
        b == (option_view(*tag) == Some(lit@)),
{
    match tag {
        Some(t) => is_literal(t, lit),
        None => false,
    }
}

fn first_is(s: &String, c: char) -> (b: bool)
    ensures
        b == starts_with(s@, c),
{
    let chars = chars_of(s.as_str());
    chars.len() > 0 && chars[0] == c
}

/// At the end there is a tree to hand out.
pub proof fn lemma_finished_nonempty(b: Builder)
    requires
        builder_wf(b),
        b.tree.len() + 2 <= usize::MAX,
    ensures
        finished(b).len() > 0,
        tree_wf(finished(b)),
{
    lemma_implicit_wf(b, None);
    if b.stack.len() == 0 {
        let c = implicit_once(b, None);
        lemma_implicit_wf(c, None);
        lemma_steps_wf(c, tag_token("body"@));
        lemma_steps_wf(c, tag_token("head"@));
    }
}

/// There are no more tokens than characters, and one more at most.
pub proof fn lemma_tokens_len(s: Seq<char>)
    ensures
        lex_scan(s).tokens.len() <= s.len(),
        tokens(s).len() <= s.len() + 1,
    decreases s.len(),
{
    if s.len() > 0 {
        lemma_tokens_len(s.drop_last());
    }
}

/// Whether a node of this kind can have children: an element that is not
/// void.
pub open spec fn can_hold(kind: NodeKind) -> bool {
    kind matches NodeKind::Element { tag, .. } && !is_void_tag(tag)
}

/// Whether every text node and every void element is without children.
pub open spec fn leaves_empty(t: Seq<NodeView>) -> bool {
    forall|i: int| 0 <= i < t.len() && !can_hold((#[trigger] t[i]).kind) ==> t[i].children.len() == 0
}

/// What the builder keeps true: it is well formed, the nodes are in
/// document order, text and void elements have no children, every open
/// element can have children and is the child of the one opened before
/// it, and the node made last lies below the innermost open element.
pub open spec fn builder_inv(b: Builder) -> bool {
    &&& builder_wf(b)
    &&& in_document_order(b.tree)
    &&& leaves_empty(b.tree)
    &&& forall|i: int| 0 <= i < b.stack.len() ==> can_hold(b.tree[(#[trigger] b.stack[i]) as int].kind)
    &&& forall|i: int|
        0 < i < b.stack.len() ==> b.tree[(#[trigger] b.stack[i]) as int].parent == Some(
            b.stack[i - 1],
        )
    &&& b.stack.len() > 0 ==> in_subtree(b.tree, b.stack.last() as int, b.tree.len() - 1)
}

/// `html`, `head` and `body` are not void, and `body` is not `head`.
pub proof fn lemma_structure_tags()
    ensures
        !is_void_tag("html"@),
        !is_void_tag("head"@),
        !is_void_tag("body"@),
        "body"@ != "head"@,
{
    reveal_strlit("html");
    reveal_strlit("head");
    reveal_strlit("body");
    reveal_strlit("area");
    reveal_strlit("base");
    reveal_strlit("br");
    reveal_strlit("col");
    reveal_strlit("embed");
    reveal_strlit("hr");
    reveal_strlit("img");
    reveal_strlit("input");
    reveal_strlit("link");
    reveal_strlit("meta");
    reveal_strlit("param");
    reveal_strlit("source");
    reveal_strlit("track");
    reveal_strlit("wbr");
    assert("html"@[0] == 'h' && "head"@[0] == 'h' && "body"@[0] == 'b');
    assert("html"@[1] == 't' && "head"@[1] == 'e' && "body"@[1] == 'o');
}

/// Adding a node at the end changes nothing of what lies below what among
/// the nodes that were there.
pub proof fn lemma_in_subtree_appended(t: Seq<NodeView>, parent: usize, kind: NodeKind, a: int, x: int)
    requires
        0 <= x < t.len(),
        parent < t.len(),
        in_subtree(t, a, x),
    ensures
        in_subtree(appended(t, parent, kind), a, x),
    decreases x,
{
    if x != a {
        let p = t[x].parent->0;
        lemma_in_subtree_appended(t, parent, kind, a, p as int);
    }
}

/// What lies below a node lies below its parent.
pub proof fn lemma_in_subtree_up(t: Seq<NodeView>, a: int, p: usize, x: int)
    requires
        0 < a < t.len(),
        t[a].parent == Some(p),
        p < a,
        in_subtree(t, a, x),
    ensures
        in_subtree(t, p as int, x),
    decreases x,
{
    if x != a {
        let q = t[x].parent->0;
        lemma_in_subtree_up(t, a, p, q as int);
    } else {
        assert(in_subtree(t, p as int, p as int));
    }
}

/// Adding a node below the innermost open element keeps the nodes in
/// document order and the leaves empty.
proof fn lemma_appended_inv(b: Builder, kind: NodeKind)
    requires
        builder_inv(b),
        b.stack.len() > 0,
        b.tree.len() < usize::MAX,
    ensures
        tree_wf(appended(b.tree, b.stack.last(), kind)),
        in_document_order(appended(b.tree, b.stack.last(), kind)),
        leaves_empty(appended(b.tree, b.stack.last(), kind)),
        forall|i: int|
            0 <= i < b.tree.len() ==> (#[trigger] appended(b.tree, b.stack.last(), kind)[i]).kind
                == b.tree[i].kind && appended(b.tree, b.stack.last(), kind)[i].parent
                == b.tree[i].parent,
        forall|a: int, x: int|
            0 <= x < b.tree.len() && in_subtree(b.tree, a, x) ==> #[trigger] in_subtree(
                appended(b.tree, b.stack.last(), kind),
                a,
                x,
            ),
{
    let t = b.tree;
    let top = b.stack.last();
    let u = appended(t, top, kind);
    crate::node::lemma_appended_wf(t, top, kind);
    assert forall|a: int, x: int| 0 <= x < t.len() && in_subtree(t, a, x) implies #[trigger] in_subtree(
        u,
        a,
        x,
    ) by {
        lemma_in_subtree_appended(t, top, kind, a, x);
    }
}

/// Opening an element that can have children keeps what the builder
/// keeps true.
pub proof fn lemma_open_inv(b: Builder, kind: NodeKind)
    requires
        builder_inv(b),
        can_hold(kind),
        b.tree.len() < usize::MAX,
    ensures
        builder_inv(open_element(b, kind)),
{
    lemma_steps_wf(b, kind);
    if b.stack.len() > 0 {
        lemma_appended_inv(b, kind);
    }
}

/// Adding a leaf keeps what the builder keeps true.
pub proof fn lemma_leaf_inv(b: Builder, kind: NodeKind)
    requires
        builder_inv(b),
        b.tree.len() < usize::MAX,
    ensures
        builder_inv(add_leaf(b, kind)),
{
    let c = add_leaf(b, kind);
    lemma_steps_wf(b, kind);
    if b.stack.len() > 0 {
        lemma_appended_inv(b, kind);
        let top = b.stack.last();
        assert(in_subtree(c.tree, top as int, top as int));
    }
}

/// Closing an element keeps what the builder keeps true.
pub proof fn lemma_close_inv(b: Builder)
    requires
        builder_inv(b),
    ensures
        builder_inv(close_element(b)),
{
    if b.stack.len() > 1 {
        let k = b.stack.len() as int;
        let top = b.stack[k - 1];
        let next = b.stack[k - 2];
        lemma_in_subtree_up(b.tree, top as int, next, b.tree.len() - 1);
    }
}

/// The repair keeps what the builder keeps true.
pub proof fn lemma_implicit_inv(b: Builder, tag: Option<Seq<char>>)
    requires
        builder_inv(b),
        b.tree.len() + 2 <= usize::MAX,
    ensures
        builder_inv(implicit_once(b, tag)),
        builder_inv(implicit(b, tag)),
{
    lemma_structure_tags();
    lemma_implicit_wf(b, tag);
    lemma_open_inv(b, tag_token("html"@));
    lemma_open_inv(b, tag_token("head"@));
    lemma_open_inv(b, tag_token("body"@));
    lemma_close_inv(b);
    let c = implicit_once(b, tag);
    lemma_open_inv(c, tag_token("html"@));
    lemma_open_inv(c, tag_token("head"@));
    lemma_open_inv(c, tag_token("body"@));
    lemma_close_inv(c);
}

/// A token keeps what the builder keeps true.
pub proof fn lemma_with_token_inv(b: Builder, token: NodeKind)
    requires
        builder_inv(b),
        b.tree.len() + 3 <= usize::MAX,
    ensures
        builder_inv(with_token(b, token)),
        with_token(b, token).tree.len() <= b.tree.len() + 3,
{
    lemma_with_token_wf(b, token);
    match token {
        NodeKind::Text { text } => {
            lemma_implicit_inv(b, None);
            lemma_implicit_wf(b, None);
            lemma_leaf_inv(implicit(b, None), text_token(text));
        },
        NodeKind::Element { tag, .. } => {
            let name = tag_name_of(tag);
            lemma_implicit_inv(b, Some(name));
            lemma_implicit_wf(b, Some(name));
            let c = implicit(b, Some(name));
            lemma_close_inv(c);
            lemma_leaf_inv(c, element_of(tag));
            if !is_void_tag(name) {
                lemma_open_inv(c, element_of(tag));
            }
        },
    }
}

/// A run of tokens keeps what the builder keeps true.
pub proof fn lemma_build_inv(b: Builder, ts: Seq<NodeKind>)
    requires
        builder_inv(b),
        b.tree.len() + 3 * ts.len() <= usize::MAX,
    ensures
        builder_inv(build(b, ts)),
        build(b, ts).tree.len() <= b.tree.len() + 3 * ts.len(),
    decreases ts.len(),
{
    if ts.len() > 0 {
        lemma_build_inv(b, ts.drop_last());
        lemma_with_token_inv(build(b, ts.drop_last()), ts.last());
    }
}

/// The tree builder keeps the order of the markup. Every token makes its
/// nodes behind all nodes made before; and in every document that is
/// parsed, the walk that goes into depth first, and through the children
/// of a node in the order of its list, meets the nodes in just the order
/// in which they were made. So the children of every node stand in the
/// order in which their tags and their text stand in the markup.
pub proof fn lemma_parsed_in_document_order(markup: Seq<char>)
    requires
        3 * markup.len() + 5 <= usize::MAX,
    ensures
        tree_wf(parsed(markup)),
        in_document_order(parsed(markup)),
        walk(parsed(markup), 0) == Seq::new(parsed(markup).len(), |i: int| i),
{
    lemma_parsed_inv(markup);
    lemma_in_document_order_walk(parsed(markup));
}

/// In every document that is parsed, a void element has no children, and
/// neither has a text node.
pub proof fn lemma_parsed_void_childless(markup: Seq<char>)
    requires
        3 * markup.len() + 5 <= usize::MAX,
    ensures
        leaves_empty(parsed(markup)),
{
    lemma_parsed_inv(markup);
}

proof fn lemma_parsed_inv(markup: Seq<char>)
    requires
        3 * markup.len() + 5 <= usize::MAX,
    ensures
        tree_wf(parsed(markup)),
        in_document_order(parsed(markup)),
        leaves_empty(parsed(markup)),
{
    lemma_tokens_len(markup);
    let ts = tokens(markup);
    lemma_build_inv(empty_builder(), ts);
    let b = build(empty_builder(), ts);
    lemma_implicit_inv(b, None);
    lemma_finished_nonempty(b);
}

/// After two rounds of repair a third changes nothing.
pub proof fn lemma_implicit_stable(b: Builder, tag: Option<Seq<char>>)
    requires
        builder_wf(b),
        b.tree.len() + 2 <= usize::MAX,
    ensures
        implicit_once(implicit(b, tag), tag) == implicit(b, tag),
{
    lemma_structure_tags();
    lemma_implicit_wf(b, tag);
}

/// After the repair an element is open, unless nothing was open and the
/// tag is `html`.
pub proof fn lemma_implicit_opens(b: Builder, tag: Option<Seq<char>>)
    requires
        builder_wf(b),
    ensures
        implicit(b, tag).stack.len() == 0 ==> b.stack.len() == 0 && tag == Some("html"@),
{
}

/// The node that a token makes, if it makes one: text that is not blank
/// makes a text node, and a tag that is neither dropped nor a closing tag
/// makes its element.
pub open spec fn node_of(token: NodeKind) -> Option<NodeKind> {
    match token {
        NodeKind::Text { text } => if blank(text) {
            None
        } else {
            Some(text_token(text))
        },
        NodeKind::Element { tag, .. } => if starts_with(tag_name_of(tag), '!') || starts_with(
            tag_name_of(tag),
            '/',
        ) {
            None
        } else {
            Some(element_of(tag))
        },
    }
}

/// Whether a node is one that the repair makes: `html`, `head` or `body`
/// without attributes.
pub open spec fn repair_node(kind: NodeKind) -> bool {
    kind == tag_token("html"@) || kind == tag_token("head"@) || kind == tag_token("body"@)
}

/// Whether the tree `after` holds the nodes of `before` at their places,
/// each as what it was and below the parent it had.
pub open spec fn keeps(before: Seq<NodeView>, after: Seq<NodeView>) -> bool {
    &&& before.len() <= after.len()
    &&& forall|i: int|
        0 <= i < before.len() ==> (#[trigger] after[i]).kind == before[i].kind && after[i].parent
            == before[i].parent
}

/// Whether all that `after` holds behind the nodes of `before` was made by
/// the repair, but for the last node where `own` says so.
pub open spec fn adds(before: Seq<NodeView>, after: Seq<NodeView>, own: Option<NodeKind>) -> bool {
    &&& keeps(before, after)
    &&& match own {
        Some(kind) => after.len() > before.len() && after.last().kind == kind && forall|i: int|
            before.len() <= i < after.len() - 1 ==> repair_node((#[trigger] after[i]).kind),
        None => forall|i: int|
            before.len() <= i < after.len() ==> repair_node((#[trigger] after[i]).kind),
    }
}

/// A node put at the end of a tree is added to it.
proof fn lemma_appended_adds(t: Seq<NodeView>, parent: usize, kind: NodeKind)
    requires
        parent < t.len(),
    ensures
        adds(t, appended(t, parent, kind), Some(kind)),
        repair_node(kind) ==> adds(t, appended(t, parent, kind), None),
{
    let u = appended(t, parent, kind);
    assert forall|i: int| 0 <= i < t.len() implies (#[trigger] u[i]).kind == t[i].kind && u[i].parent
        == t[i].parent by {}
}

/// What is added to what was added is added.
proof fn lemma_adds_after(a: Seq<NodeView>, b: Seq<NodeView>, c: Seq<NodeView>, own: Option<NodeKind>)
    requires
        adds(a, b, None),
        adds(b, c, own),
    ensures
        adds(a, c, own),
{
    assert forall|i: int| 0 <= i < a.len() implies (#[trigger] c[i]).kind == a[i].kind && c[i].parent
        == a[i].parent by {
        assert(b[i].kind == a[i].kind);
    }
    assert forall|i: int| a.len() <= i < c.len() - 1 implies repair_node((#[trigger] c[i]).kind) by {
        if i < b.len() {
            assert(repair_node(b[i].kind));
        }
    }
    if own is None {
        assert forall|i: int| a.len() <= i < c.len() implies repair_node((#[trigger] c[i]).kind) by {
            if i < b.len() {
                assert(repair_node(b[i].kind));
            }
        }
    }
}

/// The three steps of the builder add the node they are given, or none.
proof fn lemma_steps_add(b: Builder, kind: NodeKind)
    requires
        builder_wf(b),
    ensures
        adds(b.tree, open_element(b, kind).tree, Some(kind)),
        b.stack.len() > 0 ==> adds(b.tree, add_leaf(b, kind).tree, Some(kind)),
        adds(b.tree, close_element(b).tree, None),
        repair_node(kind) ==> adds(b.tree, open_element(b, kind).tree, None),
{
    if b.stack.len() > 0 {
        assert(b.stack[b.stack.len() - 1] < b.tree.len());
        lemma_appended_adds(b.tree, b.stack.last(), kind);
    }
}

/// One round of repair keeps the nodes that were there and adds a node of
/// its own at most.
proof fn lemma_implicit_once_adds(b: Builder, tag: Option<Seq<char>>)
    requires
        builder_wf(b),
    ensures
        adds(b.tree, implicit_once(b, tag).tree, None),
{
    lemma_steps_add(b, tag_token("html"@));
    lemma_steps_add(b, tag_token("head"@));
    lemma_steps_add(b, tag_token("body"@));
}

/// The repair keeps the nodes that were there and adds nodes of its own
/// only.
pub proof fn lemma_implicit_adds(b: Builder, tag: Option<Seq<char>>)
    requires
        builder_wf(b),
        b.tree.len() + 2 <= usize::MAX,
    ensures
        adds(b.tree, implicit(b, tag).tree, None),
{
    lemma_implicit_wf(b, tag);
    let c = implicit_once(b, tag);
    lemma_implicit_once_adds(b, tag);
    lemma_implicit_once_adds(c, tag);
    lemma_adds_after(b.tree, c.tree, implicit(b, tag).tree, None);
}

/// A void element is not `html`.
proof fn lemma_void_not_html(tag: Seq<char>)
    requires
        is_void_tag(tag),
    ensures
        tag != "html"@,
{
    lemma_structure_tags();
}

/// A token keeps the nodes that were there. Behind them it adds what the
/// repair makes and, last, the node of its own, where it makes one.
pub proof fn lemma_with_token_adds(b: Builder, token: NodeKind)
    requires
        builder_wf(b),
        b.tree.len() + 3 <= usize::MAX,
    ensures
        adds(b.tree, with_token(b, token).tree, node_of(token)),
{
    lemma_steps_add(b, token);
    match token {
        NodeKind::Text { text } => {
            if !blank(text) {
                let c = implicit(b, None);
                lemma_implicit_adds(b, None);
                lemma_implicit_wf(b, None);
                lemma_implicit_opens(b, None);
                lemma_steps_add(c, text_token(text));
                lemma_adds_after(b.tree, c.tree, with_token(b, token).tree, node_of(token));
            }
        },
        NodeKind::Element { tag, .. } => {
            let name = tag_name_of(tag);
            if !starts_with(name, '!') {
                let c = implicit(b, Some(name));
                lemma_implicit_adds(b, Some(name));
                lemma_implicit_wf(b, Some(name));
                lemma_implicit_opens(b, Some(name));
                lemma_steps_add(c, element_of(tag));
                if is_void_tag(name) {
                    lemma_void_not_html(name);
                }
                lemma_adds_after(b.tree, c.tree, with_token(b, token).tree, node_of(token));
            }
        },
    }
}

/// The place of the node that token `k` of `ts` makes: the last node of
/// the tree once the builder has read the token.
pub open spec fn place_of(ts: Seq<NodeKind>, k: int) -> int {
    build(empty_builder(), ts.take(k + 1)).tree.len() - 1
}

/// Whether the nodes that the tokens `ts` make stand in the tree `t` in
/// the order of the tokens: the node of every token is in the tree, the
/// node of a later token stands behind the node of an earlier one, and
/// every other node of the tree was made by the repair.
pub open spec fn follows_tokens(t: Seq<NodeView>, ts: Seq<NodeKind>, n: int) -> bool {
    &&& forall|k: int|
        0 <= k < n && node_of(ts[k]) is Some ==> 0 <= #[trigger] place_of(ts, k) < t.len()
            && t[place_of(ts, k)].kind == node_of(ts[k])->0
    &&& forall|j: int, k: int|
        0 <= j < k < n && node_of(ts[j]) is Some && node_of(ts[k]) is Some ==> #[trigger] place_of(
            ts,
            j,
        ) < #[trigger] place_of(ts, k)
    &&& forall|i: int|
        0 <= i < t.len() ==> repair_node((#[trigger] t[i]).kind) || exists|k: int|
            0 <= k < n && node_of(ts[k]) is Some && #[trigger] place_of(ts, k) == i
}

/// The tokens keep their order when one more token is read.
proof fn lemma_follows_next(t0: Seq<NodeView>, t: Seq<NodeView>, ts: Seq<NodeKind>, n: int)
    requires
        0 < n <= ts.len(),
        follows_tokens(t0, ts, n - 1),
        adds(t0, t, node_of(ts[n - 1])),
        place_of(ts, n - 1) == t.len() - 1,
    ensures
        follows_tokens(t, ts, n),
{
    assert forall|k: int| 0 <= k < n && node_of(ts[k]) is Some implies 0 <= #[trigger] place_of(
        ts,
        k,
    ) < t.len() && t[place_of(ts, k)].kind == node_of(ts[k])->0 by {
        if k < n - 1 {
            assert(t[place_of(ts, k)].kind == t0[place_of(ts, k)].kind);
        }
    }
    assert forall|j: int, k: int|
        0 <= j < k < n && node_of(ts[j]) is Some && node_of(ts[k]) is Some implies #[trigger] place_of(
        ts,
        j,
    ) < #[trigger] place_of(ts, k) by {
        if k == n - 1 {
            assert(place_of(ts, j) < t0.len());
        }
    }
    assert forall|i: int| 0 <= i < t.len() implies repair_node((#[trigger] t[i]).kind) || exists|
        k: int,
    |
        0 <= k < n && node_of(ts[k]) is Some && #[trigger] place_of(ts, k) == i by {
        if i < t0.len() {
            assert(t[i].kind == t0[i].kind);
            if !repair_node(t0[i].kind) {
                let k = choose|k: int|
                    0 <= k < n - 1 && node_of(ts[k]) is Some && #[trigger] place_of(ts, k) == i;
                assert(0 <= k < n && node_of(ts[k]) is Some && place_of(ts, k) == i);
            }
        } else if !repair_node(t[i].kind) {
            assert(0 <= n - 1 < n && node_of(ts[n - 1]) is Some && place_of(ts, n - 1) == i);
        }
    }
}

proof fn lemma_build_follows(ts: Seq<NodeKind>, n: int)
    requires
        0 <= n <= ts.len(),
        3 * ts.len() <= usize::MAX,
    ensures
        builder_inv(build(empty_builder(), ts.take(n))),
        build(empty_builder(), ts.take(n)).tree.len() <= 3 * n,
        follows_tokens(build(empty_builder(), ts.take(n)).tree, ts, n),
    decreases n,
{
    if n == 0 {
        assert(ts.take(0) == Seq::<NodeKind>::empty());
    } else {
        lemma_build_follows(ts, n - 1);
        let before = build(empty_builder(), ts.take(n - 1));
        let token = ts[n - 1];
        assert(ts.take(n).drop_last() == ts.take(n - 1));
        assert(ts.take(n).last() == token);
        let after = build(empty_builder(), ts.take(n));
        assert(after == with_token(before, token));
        lemma_with_token_inv(before, token);
        lemma_with_token_adds(before, token);
        assert(ts.take(n - 1 + 1) == ts.take(n));
        lemma_follows_next(before.tree, after.tree, ts, n);
    }
}

/// The nodes of a parsed document follow the tokens of the markup. Every
/// run of text that is not blank and every opening tag has its node in
/// the document, and the node of a later one stands behind the node of
/// an earlier one; what else the document holds is the `html`, `head` and
/// `body` of the repair. With [`lemma_parsed_in_document_order`], by
/// which the walk through the document meets the nodes in the order of
/// their places, the walk meets text and elements in the order in which
/// they stand in the markup.
pub proof fn lemma_parsed_follows_tokens(markup: Seq<char>)
    requires
        3 * markup.len() + 5 <= usize::MAX,
    ensures
        follows_tokens(parsed(markup), tokens(markup), tokens(markup).len() as int),
{
    lemma_tokens_len(markup);
    let ts = tokens(markup);
    let n = ts.len() as int;
    lemma_build_follows(ts, n);
    assert(ts.take(n) == ts);
    let b = build(empty_builder(), ts);
    let t = parsed(markup);
    if b.stack.len() == 0 {
        lemma_implicit_adds(b, None);
        assert(b.tree.len() == 0);
        assert forall|i: int| 0 <= i < t.len() implies repair_node((#[trigger] t[i]).kind) by {}
    }
}

} // verus!
