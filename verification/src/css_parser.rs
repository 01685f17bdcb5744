//! The style sheet parser: a cursor over the characters of a sheet, with
//! recovery after a declaration or a rule that cannot be read.

use vstd::prelude::*;
use crate::selector::{Selector, SelectorView};
use crate::strmap::StrMap;
use crate::text::{alphanumeric, chars_of, lowercase, lower, string_of_range, whitespace};

verus! {

/// A map of declarations: property names and their values.
pub type Declarations = Map<Seq<char>, Seq<char>>;

/// The first place at or after `i` that holds no white space.
pub open spec fn skip_whitespace(s: Seq<char>, i: int) -> int
    decreases s.len() - i,
{
    if 0 <= i < s.len() && whitespace(s[i]) {
        skip_whitespace(s, i + 1)
    } else {
        i
    }
}

/// The characters a word is made of: letters, digits and `#-.%`.
pub open spec fn word_char(c: char) -> bool {
    !whitespace(c) && (alphanumeric(c) || c == '#' || c == '-' || c == '.' || c == '%')
}

/// The first place at or after `i` that holds no character of a word.
pub open spec fn word_end(s: Seq<char>, i: int) -> int
    decreases s.len() - i,
{
    if 0 <= i < s.len() && word_char(s[i]) {
        word_end(s, i + 1)
    } else {
        i
    }
}

/// The first place at or after `i` that holds one of `stops`, or the end.
pub open spec fn scan_to(s: Seq<char>, i: int, stops: Seq<char>) -> int
    decreases s.len() - i,
{
    if 0 <= i < s.len() && !stops.contains(s[i]) {
        scan_to(s, i + 1, stops)
    } else {
        i
    }
}

/// The three scans move forward and stay inside the text.
pub proof fn lemma_scans(s: Seq<char>, i: int, stops: Seq<char>)
    requires
        0 <= i <= s.len(),
    ensures
        i <= skip_whitespace(s, i) <= s.len(),
        i <= word_end(s, i) <= s.len(),
        i <= scan_to(s, i, stops) <= s.len(),
        scan_to(s, i, stops) < s.len() ==> stops.contains(s[scan_to(s, i, stops)]),
    decreases s.len() - i,
{
    if i < s.len() {
        lemma_scans(s, i + 1, stops);
    }
}

/// What a step of the parser gives: a value, or none where the text
/// cannot be read, and the place where the cursor is left.
pub struct Step<T> {
    pub value: Option<T>,
    pub end: int,
}

/// Reading a declaration at `i`: a word, `:` and a word, with white space
/// allowed around the `:`. The property name is lower-cased. Where the
/// text cannot be read the cursor is left at the place that did not fit.
pub open spec fn pair_at(s: Seq<char>, i: int) -> Step<(Seq<char>, Seq<char>)> {
    let e1 = word_end(s, i);
    let colon = skip_whitespace(s, e1);
    let start = skip_whitespace(s, colon + 1);
    let e2 = word_end(s, start);
    if e1 <= i {
        Step { value: None, end: i }
    } else if !(colon < s.len() && s[colon] == ':') {
        Step { value: None, end: colon }
    } else if e2 <= start {
        Step { value: None, end: start }
    } else {
        Step { value: Some((lowercase(s.subrange(i, e1)), s.subrange(start, e2))), end: e2 }
    }
}

/// Where reading goes on after a declaration that cannot be read.
pub struct Recovery {
    pub stop: bool,
    pub end: int,
}

/// Recovery inside a block of declarations: the cursor moves to the next
/// `;` or `}`. After a `;` and the white space behind it reading goes on;
/// at a `}` or at the end it stops.
pub open spec fn recover(s: Seq<char>, i: int) -> Recovery {
    let j = scan_to(s, i, seq![';', '}']);
    if j < s.len() && s[j] == ';' {
        Recovery { stop: false, end: skip_whitespace(s, j + 1) }
    } else {
        Recovery { stop: true, end: j }
    }
}

/// What a block of declarations gives: the declarations, and the place
/// where the cursor is left.
pub struct Body {
    pub pairs: Declarations,
    pub end: int,
}

/// Reading declarations from `i` on, with `acc` read before. Reading ends
/// at a `}` or at the end of the text. Each declaration is followed by
/// `;`. A declaration that cannot be read is skipped, and so is what stands
/// between a declaration and the next `;`; a later declaration replaces an
/// earlier one of the same property.
pub open spec fn body_from(s: Seq<char>, i: int, acc: Declarations) -> Body
    decreases s.len() - i,
    via body_from_decreases
{
    if 0 <= i < s.len() && s[i] != '}' {
        let p = pair_at(s, i);
        match p.value {
            None => {
                let r = recover(s, p.end);
                if r.stop {
                    Body { pairs: acc, end: r.end }
                } else {
                    body_from(s, r.end, acc)
                }
            },
            Some((property, value)) => {
                let acc2 = acc.insert(property, value);
                let j = skip_whitespace(s, p.end);
                if j < s.len() && s[j] == ';' {
                    body_from(s, skip_whitespace(s, j + 1), acc2)
                } else {
                    let r = recover(s, j);
                    if r.stop {
                        Body { pairs: acc2, end: r.end }
                    } else {
                        body_from(s, r.end, acc2)
                    }
                }
            },
        }
    } else {
        Body { pairs: acc, end: i }
    }
}

#[via_fn]
proof fn body_from_decreases(s: Seq<char>, i: int, acc: Declarations) {
    if 0 <= i < s.len() {
        lemma_pair_at(s, i);
        lemma_recover(s, pair_at(s, i).end);
        let j = skip_whitespace(s, pair_at(s, i).end);
        lemma_scans(s, pair_at(s, i).end, seq![]);
        lemma_recover(s, j);
        if j < s.len() {
            lemma_scans(s, j + 1, seq![]);
        }
    }
}

/// A declaration ends after the place where it starts, a failure does not
/// move back, and both stay inside the text.
pub proof fn lemma_pair_at(s: Seq<char>, i: int)
    requires
        0 <= i <= s.len(),
    ensures
        i <= pair_at(s, i).end <= s.len(),
        pair_at(s, i).value is Some ==> i < pair_at(s, i).end,
{
    let e1 = word_end(s, i);
    lemma_scans(s, i, seq![]);
    lemma_scans(s, e1, seq![]);
    let colon = skip_whitespace(s, e1);
    if colon < s.len() {
        lemma_scans(s, colon + 1, seq![]);
        lemma_scans(s, skip_whitespace(s, colon + 1), seq![]);
    }
}

/// Recovery does not move back and stays inside the text; where reading
/// goes on, the cursor has moved.
pub proof fn lemma_recover(s: Seq<char>, i: int)
    requires
        0 <= i <= s.len(),
    ensures
        i <= recover(s, i).end <= s.len(),
        !recover(s, i).stop ==> i < recover(s, i).end,
{
    let j = scan_to(s, i, seq![';', '}']);
    lemma_scans(s, i, seq![';', '}']);
    if j < s.len() {
        lemma_scans(s, j + 1, seq![]);
    }
}

/// A block of declarations ends inside the text, at or after its start.
pub proof fn lemma_body_from(s: Seq<char>, i: int, acc: Declarations)
    requires
        0 <= i <= s.len(),
    ensures
        i <= body_from(s, i, acc).end <= s.len(),
    decreases s.len() - i,
{
    if i < s.len() && s[i] != '}' {
        let p = pair_at(s, i);
        lemma_pair_at(s, i);
        lemma_recover(s, p.end);
        lemma_scans(s, p.end, seq![]);
        let j = skip_whitespace(s, p.end);
        lemma_recover(s, j);
        if j < s.len() {
            lemma_scans(s, j + 1, seq![]);
        }
        match p.value {
            None => {
                let r = recover(s, p.end);
                if !r.stop {
                    lemma_body_from(s, r.end, acc);
                }
            },
            Some((property, value)) => {
                let acc2 = acc.insert(property, value);
                if j < s.len() && s[j] == ';' {
                    lemma_body_from(s, skip_whitespace(s, j + 1), acc2);
                } else {
                    let r = recover(s, j);
                    if !r.stop {
                        lemma_body_from(s, r.end, acc2);
                    }
                }
            },
        }
    }
}

/// The selector that names the elements with tag `tag`.
pub open spec fn tag_selector(tag: Seq<char>) -> SelectorView {
    SelectorView::Tag { tag: lowercase(tag) }
}

/// Reading the rest of a selector at `i`, with `out` read before: each
/// further word, up to `{` or the end of the text, narrows the selector to
/// the elements of that name below what `out` selects.
pub open spec fn selector_rest(s: Seq<char>, i: int, out: SelectorView) -> Step<SelectorView>
    decreases s.len() - i,
    via selector_rest_decreases
{
    if 0 <= i < s.len() && s[i] != '{' {
        let e = word_end(s, i);
        if e <= i {
            Step { value: None, end: i }
        } else {
            selector_rest(
                s,
                skip_whitespace(s, e),
                SelectorView::Descendant {
                    ancestor: Box::new(out),
                    descendant: Box::new(tag_selector(s.subrange(i, e))),
                },
            )
        }
    } else {
        Step { value: Some(out), end: i }
    }
}

#[via_fn]
proof fn selector_rest_decreases(s: Seq<char>, i: int, out: SelectorView) {
    if 0 <= i < s.len() {
        lemma_scans(s, i, seq![]);
        lemma_scans(s, word_end(s, i), seq![]);
    }
}

/// Reading a selector at `i`: words set apart by white space, the
/// outermost first.
pub open spec fn selector_at(s: Seq<char>, i: int) -> Step<SelectorView> {
    let e = word_end(s, i);
    if e <= i {
        Step { value: None, end: i }
    } else {
        selector_rest(s, skip_whitespace(s, e), tag_selector(s.subrange(i, e)))
    }
}

/// A selector ends inside the text; one that was read ends after its
/// start and has no more tag names than characters.
pub proof fn lemma_selector_rest(s: Seq<char>, i: int, out: SelectorView)
    requires
        0 <= i <= s.len(),
    ensures
        i <= selector_rest(s, i, out).end <= s.len(),
        selector_rest(s, i, out).value matches Some(sel) ==> sel.priority() <= out.priority()
            + selector_rest(s, i, out).end - i,
    decreases s.len() - i,
{
    if i < s.len() && s[i] != '{' {
        let e = word_end(s, i);
        lemma_scans(s, i, seq![]);
        lemma_scans(s, e, seq![]);
        if e > i {
            let next = SelectorView::Descendant {
                ancestor: Box::new(out),
                descendant: Box::new(tag_selector(s.subrange(i, e))),
            };
            assert(tag_selector(s.subrange(i, e)).priority() == 1);
            lemma_selector_rest(s, skip_whitespace(s, e), next);
        }
    }
}

/// A rule of a sheet: a selector and its declarations.
pub type RuleView = (SelectorView, Declarations);

/// Reading a rule at `i`: a selector, `{`, a block of declarations and
/// `}`, with white space allowed before the selector and after the `{`.
pub open spec fn rule_at(s: Seq<char>, i: int) -> Step<RuleView> {
    let sel = selector_at(s, skip_whitespace(s, i));
    let body = body_from(s, skip_whitespace(s, sel.end + 1), Map::empty());
    if sel.value is None {
        Step { value: None, end: sel.end }
    } else if !(sel.end < s.len() && s[sel.end] == '{') {
        Step { value: None, end: sel.end }
    } else if !(body.end < s.len() && s[body.end] == '}') {
        Step { value: None, end: body.end }
    } else {
        Step { value: Some((sel.value->0, body.pairs)), end: body.end + 1 }
    }
}

/// A rule ends inside the text; one that was read ends after its start.
pub proof fn lemma_rule_at(s: Seq<char>, i: int)
    requires
        0 <= i <= s.len(),
    ensures
        i <= rule_at(s, i).end <= s.len(),
        rule_at(s, i).value is Some ==> i < rule_at(s, i).end,
        rule_at(s, i).value matches Some(r) ==> r.0.priority() <= s.len(),
{
    lemma_scans(s, i, seq![]);
    let start = skip_whitespace(s, i);
    let e = word_end(s, start);
    lemma_scans(s, start, seq![]);
    lemma_scans(s, e, seq![]);
    if e > start {
        lemma_selector_rest(s, skip_whitespace(s, e), tag_selector(s.subrange(start, e)));
    }
    let sel = selector_at(s, start);
    if sel.end < s.len() {
        lemma_scans(s, sel.end + 1, seq![]);
        lemma_body_from(s, skip_whitespace(s, sel.end + 1), Map::empty());
    }
}

/// Reading rules from `i` on, with `acc` read before. A rule that cannot
/// be read is skipped up to and with the next `}`; where there is none,
/// reading ends.
pub open spec fn rules_from(s: Seq<char>, i: int, acc: Seq<RuleView>) -> Seq<RuleView>
    decreases s.len() - i,
    via rules_from_decreases
{
    if 0 <= i < s.len() {
        let r = rule_at(s, i);
        match r.value {
            Some(rule) => rules_from(s, r.end, acc.push(rule)),
            None => {
                let close = scan_to(s, r.end, seq!['}']);
                if close < s.len() {
                    rules_from(s, skip_whitespace(s, close + 1), acc)
                } else {
                    acc
                }
            },
        }
    } else {
        acc
    }
}

#[via_fn]
proof fn rules_from_decreases(s: Seq<char>, i: int, acc: Seq<RuleView>) {
    if 0 <= i < s.len() {
        lemma_rule_at(s, i);
        let r = rule_at(s, i);
        lemma_scans(s, r.end, seq!['}']);
        let close = scan_to(s, r.end, seq!['}']);
        if close < s.len() {
            lemma_scans(s, close + 1, seq![]);
        }
    }
}

/// Recovery loses nothing that was read: the rules read before stay, in
/// their order, whatever follows them in the sheet.
pub proof fn lemma_rules_kept(s: Seq<char>, i: int, acc: Seq<RuleView>)
    requires
        0 <= i <= s.len(),
    ensures
        rules_from(s, i, acc).len() >= acc.len(),
        rules_from(s, i, acc).take(acc.len() as int) == acc,
    decreases s.len() - i,
{
    if i < s.len() {
        lemma_rule_at(s, i);
        let r = rule_at(s, i);
        lemma_scans(s, r.end, seq!['}']);
        match r.value {
            Some(rule) => {
                lemma_rules_kept(s, r.end, acc.push(rule));
            },
            None => {
                let close = scan_to(s, r.end, seq!['}']);
                if close < s.len() {
                    lemma_scans(s, close + 1, seq![]);
                    lemma_rules_kept(s, skip_whitespace(s, close + 1), acc);
                }
            },
        }
    }
}

/// The rules of the sheet `s`.
pub open spec fn sheet(s: Seq<char>) -> Seq<RuleView> {
    rules_from(s, 0, Seq::empty())
}

/// The declarations of the text `s` of a `style` attribute.
pub open spec fn inline_declarations(s: Seq<char>) -> Declarations {
    body_from(s, 0, Map::empty()).pairs
}

/// The message of a parser that found no word.
pub open spec fn expected_word() -> Seq<char> {
    "Parsing error: Expected word"@
}

/// The message of a parser that did not find the character `c`.
pub open spec fn expected_literal(c: char) -> Seq<char> {
    "Parsing error: Expected literal '"@.push(c).push('\'')
}

/// The message with which reading a declaration at `i` fails: a word is
/// missed at the place of the property or of the value, and `:` between
/// them.
pub open spec fn pair_error(s: Seq<char>, i: int) -> Seq<char> {
    let e1 = word_end(s, i);
    let colon = skip_whitespace(s, e1);
    if e1 > i && !(colon < s.len() && s[colon] == ':') {
        expected_literal(':')
    } else {
        expected_word()
    }
}

/// The message with which reading a rule at `i` fails: a word is missed
/// in the selector, `{` behind it, or `}` behind the declarations.
pub open spec fn rule_error(s: Seq<char>, i: int) -> Seq<char> {
    let sel = selector_at(s, skip_whitespace(s, i));
    if sel.value is None {
        expected_word()
    } else if !(sel.end < s.len() && s[sel.end] == '{') {
        expected_literal('{')
    } else {
        expected_literal('}')
    }
}

/// The mathematical content of a list of rules.
pub open spec fn rules_view(rules: Seq<(Selector, StrMap)>) -> Seq<RuleView> {
    Seq::new(rules.len(), |i: int| (rules[i].0@, rules[i].1@))
}

/// A parser of style sheets: the characters of the sheet and a cursor.
#[derive(Debug)]
pub struct CssParser {
    style: Vec<char>,
    index: usize,
}

impl CssParser {
    #[verifier::type_invariant]
    spec fn cursor_inside(self) -> bool {
        self.index <= self.style@.len()
    }

    /// The characters of the sheet.
    pub closed spec fn text(&self) -> Seq<char> {
        self.style@
    }

    /// The place of the cursor.
    pub closed spec fn pos(&self) -> int {
        self.index as int
    }

    /// A parser at the start of `styles`.
    pub fn new(styles: &str) -> (p: Self)
        ensures
            p.text() == styles@,
            p.pos() == 0,
    {
        Self { style: chars_of(styles), index: 0 }
    }

    /// Moves the cursor over white space.
    pub fn whitespace(&mut self)
        ensures
            final(self).text() == old(self).text(),
            final(self).pos() == skip_whitespace(old(self).text(), old(self).pos()),
    {
        proof {
            use_type_invariant(&*self);
        }
        while self.index < self.style.len() && self.style[self.index].is_whitespace()
            invariant
                self.index <= self.style.len(),
                self.style@ == old(self).style@,
                skip_whitespace(self.style@, self.index as int) == skip_whitespace(
                    old(self).style@,
                    old(self).index as int,
                ),
            decreases self.style.len() - self.index,
        {
            self.index += 1;
        }
    }

    /// Reads a word and moves the cursor behind it; fails, without moving,
    /// where no word starts at the cursor.
    pub fn word(&mut self) -> (r: Result<String, String>)
        ensures
            final(self).text() == old(self).text(),
            final(self).pos() == word_end(old(self).text(), old(self).pos()),
            match r {
                Ok(w) => old(self).pos() < final(self).pos() && w@ == old(self).text().subrange(
                    old(self).pos(),
                    final(self).pos(),
                ),
                Err(e) => final(self).pos() == old(self).pos() && e@ == expected_word(),
            },
    {
        proof {
            use_type_invariant(&*self);
        }
        let start = self.index;
        while self.index < self.style.len() && is_word_char(self.style[self.index])
            invariant
                start <= self.index <= self.style.len(),
                self.style@ == old(self).style@,
                word_end(self.style@, self.index as int) == word_end(
                    old(self).style@,
                    start as int,
                ),
            decreases self.style.len() - self.index,
        {
            self.index += 1;
        }
        if self.index <= start {
            return Err("Parsing error: Expected word".to_string());
        }
        Ok(string_of_range(&self.style, start, self.index))
    }

    /// Moves the cursor over the character `literal`; fails, without
    /// moving, where another character or the end is at the cursor.
    pub fn literal(&mut self, literal: char) -> (r: Result<(), String>)
        ensures
            final(self).text() == old(self).text(),
            match r {
                Ok(_) => old(self).pos() < old(self).text().len() && old(self).text()[old(self).pos()] == literal && final(self).pos() == old(self).pos() + 1,
                Err(e) => !(old(self).pos() < old(self).text().len() && old(self).text()[old(self).pos()] == literal) && final(self).pos() == old(self).pos() && e@
                    == expected_literal(literal),
            },
    {
        proof {
            use_type_invariant(&*self);
        }
        if !(self.index < self.style.len() && self.style[self.index] == literal) {
            let mut message = "Parsing error: Expected literal '".to_string();
            message.push(literal);
            message.push('\'');
            return Err(message);
        }
        self.index += 1;
        Ok(())
    }

    /// Reads a declaration, see [`pair_at`].
    pub fn pair(&mut self) -> (r: Result<(String, String), String>)
        ensures
            final(self).text() == old(self).text(),
            final(self).pos() == pair_at(old(self).text(), old(self).pos()).end,
            match r {
                Ok(p) => pair_at(old(self).text(), old(self).pos()).value == Some((p.0@, p.1@)),
                Err(e) => pair_at(old(self).text(), old(self).pos()).value is None && e@
                    == pair_error(old(self).text(), old(self).pos()),
            },
    {
        let prop = match self.word() {
            Ok(w) => w,
            Err(e) => {
                return Err(e);
            },
        };
        self.whitespace();
        match self.literal(':') {
            Ok(_) => {},
            Err(e) => {
                return Err(e);
            },
        }
        self.whitespace();
        let val = match self.word() {
            Ok(w) => w,
            Err(e) => {
                return Err(e);
            },
        };
        Ok((lower(&prop), val))
    }

    /// Moves the cursor to the next character that is one of `literals`
    /// and returns it; `None` where the text ends before.
    pub fn ignore_until(&mut self, literals: Vec<char>) -> (r: Option<char>)
        ensures
            final(self).text() == old(self).text(),
            final(self).pos() == scan_to(old(self).text(), old(self).pos(), literals@),
            match r {
                Some(c) => final(self).pos() < final(self).text().len() && c == final(self).text()[final(self).pos()] && literals@.contains(c),
                None => final(self).pos() == final(self).text().len(),
            },
    {
        proof {
            use_type_invariant(&*self);
        }
        while self.index < self.style.len()
            invariant
                self.index <= self.style.len(),
                self.style@ == old(self).style@,
                scan_to(self.style@, self.index as int, literals@) == scan_to(
                    old(self).style@,
                    old(self).index as int,
                    literals@,
                ),
            decreases self.style.len() - self.index,
        {
            if holds(&literals, self.style[self.index]) {
                return Some(self.style[self.index]);
            } else {
                self.index += 1;
            }
        }
        None
    }

    /// Recovers after a declaration that cannot be read, see [`recover`];
    /// returns whether reading the block is to stop.
    pub fn handle_body_error(&mut self) -> (stop: bool)
        ensures
            final(self).text() == old(self).text(),
            final(self).pos() == recover(old(self).text(), old(self).pos()).end,
            stop == recover(old(self).text(), old(self).pos()).stop,
    {
        let mut stops: Vec<char> = Vec::new();
        stops.push(';');
        stops.push('}');
        assert(stops@ == seq![';', '}']);
        let why = self.ignore_until(stops);
        if why == Some(';') {
            let _ = self.literal(';');
            self.whitespace();
            return false;
        }
        true
    }

    /// Reads a block of declarations, see [`body_from`]. A declaration
    /// that cannot be read is skipped, so this never fails.
    pub fn body(&mut self) -> (r: Result<StrMap, String>)
        ensures
            final(self).text() == old(self).text(),
            final(self).pos() == body_from(old(self).text(), old(self).pos(), Map::empty()).end,
            r matches Ok(pairs) && pairs@ == body_from(
                old(self).text(),
                old(self).pos(),
                Map::empty(),
            ).pairs,
    {
        let mut pairs = StrMap::new();
        proof {
            use_type_invariant(&*self);
        }
        loop
            invariant
                self.index <= self.style.len(),
                self.style@ == old(self).style@,
                body_from(self.style@, self.index as int, pairs@) == body_from(
                    old(self).style@,
                    old(self).index as int,
                    Map::empty(),
                ),
            decreases self.style.len() - self.index,
        {
            if !(self.index < self.style.len() && self.style[self.index] != '}') {
                return Ok(pairs);
            }
            proof {
                let s = self.style@;
                let i = self.index as int;
                lemma_pair_at(s, i);
                lemma_recover(s, pair_at(s, i).end);
                lemma_scans(s, pair_at(s, i).end, seq![]);
                let j = skip_whitespace(s, pair_at(s, i).end);
                lemma_recover(s, j);
                if j < s.len() {
                    lemma_scans(s, j + 1, seq![]);
                }
            }
            match self.pair() {
                Err(_) => {
                    if self.handle_body_error() {
                        return Ok(pairs);
                    }
                },
                Ok(p) => {
                    pairs.insert(p.0, p.1);
                    self.whitespace();
                    if self.literal(';').is_err() {
                        if self.handle_body_error() {
                            return Ok(pairs);
                        }
                    } else {
                        self.whitespace();
                    }
                },
            }
            proof {
                use_type_invariant(&*self);
            }
        }
    }

    /// Reads a selector, see [`selector_at`].
    pub fn selector(&mut self) -> (r: Result<Selector, String>)
        ensures
            final(self).text() == old(self).text(),
            final(self).pos() == selector_at(old(self).text(), old(self).pos()).end,
            match r {
                Ok(sel) => selector_at(old(self).text(), old(self).pos()).value == Some(sel@),
                Err(e) => selector_at(old(self).text(), old(self).pos()).value is None && e@
                    == expected_word(),
            },
    {
        let first = match self.word() {
            Ok(w) => w,
            Err(e) => {
                return Err(e);
            },
        };
        let mut out = Selector::new_tag(lower(&first));
        self.whitespace();
        proof {
            use_type_invariant(&*self);
        }
        loop
            invariant
                self.index <= self.style.len(),
                self.style@ == old(self).style@,
                selector_rest(self.style@, self.index as int, out@) == selector_at(
                    old(self).style@,
                    old(self).index as int,
                ),
            decreases self.style.len() - self.index,
        {
            if !(self.index < self.style.len() && self.style[self.index] != '{') {
                return Ok(out);
            }
            proof {
                lemma_scans(self.style@, self.index as int, seq![]);
                lemma_scans(self.style@, word_end(self.style@, self.index as int), seq![]);
            }
            let tag = match self.word() {
                Ok(w) => w,
                Err(e) => {
                    return Err(e);
                },
            };
            let descendant = Selector::new_tag(lower(&tag));
            out = Selector::new_descendant(out, descendant);
            self.whitespace();
            proof {
                use_type_invariant(&*self);
            }
        }
    }

    /// Reads a rule, see [`rule_at`], and adds it to `rules`.
    pub fn parse_internal(&mut self, rules: &mut Vec<(Selector, StrMap)>) -> (r: Result<
        (),
        String,
    >)
        ensures
            final(self).text() == old(self).text(),
            final(self).pos() == rule_at(old(self).text(), old(self).pos()).end,
            match r {
                Ok(_) => rule_at(old(self).text(), old(self).pos()).value matches Some(rule)
                    && rules_view(final(rules)@) == rules_view(old(rules)@).push(rule),
                Err(e) => rule_at(old(self).text(), old(self).pos()).value is None && final(rules)@
                    == old(rules)@ && e@ == rule_error(old(self).text(), old(self).pos()),
            },
    {
        self.whitespace();
        let selector = match self.selector() {
            Ok(s) => s,
            Err(e) => {
                return Err(e);
            },
        };
        match self.literal('{') {
            Ok(_) => {},
            Err(e) => {
                return Err(e);
            },
        }
        self.whitespace();
        let body = match self.body() {
            Ok(b) => b,
            Err(e) => {
                return Err(e);
            },
        };
        match self.literal('}') {
            Ok(_) => {},
            Err(e) => {
                return Err(e);
            },
        }
        rules.push((selector, body));
        Ok(())
    }

    /// Reads the rules from the cursor to the end of the sheet, where it
    /// leaves the cursor. A rule that cannot be read is skipped, so this
    /// never fails.
    pub fn parse(&mut self) -> (r: Result<Vec<(Selector, StrMap)>, String>)
        ensures
            final(self).text() == old(self).text(),
            old(self).pos() <= final(self).pos() <= final(self).text().len(),
            final(self).pos() == final(self).text().len(),
            r matches Ok(rules) && rules_view(rules@) == rules_from(
                old(self).text(),
                old(self).pos(),
                Seq::empty(),
            ) && forall|k: int|
                0 <= k < rules.len() ==> (#[trigger] rules[k]).0@.priority() <= usize::MAX,
    {
        let mut rules: Vec<(Selector, StrMap)> = Vec::new();
        proof {
            use_type_invariant(&*self);
        }
        assert(rules_view(rules@) == Seq::<RuleView>::empty());
        loop
            invariant
                old(self).index <= self.index <= self.style.len(),
                self.style@ == old(self).style@,
                rules_from(self.style@, self.index as int, rules_view(rules@)) == rules_from(
                    old(self).style@,
                    old(self).index as int,
                    Seq::empty(),
                ),
                forall|k: int|
                    0 <= k < rules.len() ==> (#[trigger] rules[k]).0@.priority() <= self.style@.len(),
            decreases self.style.len() - self.index,
        {
            if !(self.index < self.style.len()) {
                return Ok(rules);
            }
            proof {
                let s = self.style@;
                let i = self.index as int;
                lemma_rule_at(s, i);
                lemma_scans(s, rule_at(s, i).end, seq!['}']);
                let close = scan_to(s, rule_at(s, i).end, seq!['}']);
                if close < s.len() {
                    lemma_scans(s, close + 1, seq![]);
                }
            }
            let ghost before = rules@;
            match self.parse_internal(&mut rules) {
                Ok(_) => {
                    proof {
                        assert(rules_view(rules@).len() == rules@.len());
                        let last = rules@.len() - 1;
                        assert(rules_view(rules@)[last] == (rules@[last].0@, rules@[last].1@));
                        assert forall|k: int| 0 <= k < rules.len() implies (#[trigger] rules[k]).0@.priority()
                            <= self.style@.len() by {
                            if k < last {
                                assert(rules_view(rules@)[k] == rules_view(before)[k]);
                            }
                        }
                    }
                },
                Err(_) => {
                    let mut stops: Vec<char> = Vec::new();
                    stops.push('}');
                    let why = self.ignore_until(stops);
                    if why == Some('}') {
                        let _ = self.literal('}');
                        self.whitespace();
                    } else {
                        return Ok(rules);
                    }
                },
            }
            proof {
                use_type_invariant(&*self);
            }
        }
    }
}

fn is_word_char(c: char) -> (b: bool)
    ensures
        b == word_char(c),
{
    !c.is_whitespace() && (c.is_alphanumeric() || c == '#' || c == '-' || c == '.' || c == '%')
}

fn holds(literals: &Vec<char>, c: char) -> (b: bool)
    ensures
        b == literals@.contains(c),
{
    let mut i: usize = 0;
    while i < literals.len()
        invariant
            i <= literals.len(),
            forall|j: int| 0 <= j < i ==> literals@[j] != c,
        decreases literals.len() - i,
    {
        if literals[i] == c {
            return true;
        }
        i += 1;
    }
    false
}

} // verus!
