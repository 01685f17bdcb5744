//! The cascade: the style of every node, from what it inherits, from the
//! rules that select it and from its own `style` attribute.

use vstd::prelude::*;
use crate::css_parser::{inline_declarations, rules_view, CssParser, Declarations, RuleView};
use crate::node::{with_style, Document, HtmlNodeType, NodeKind, NodeView};
use crate::selector::Selector;
use crate::strmap::StrMap;
use crate::units::{
    format_px, is_percentage, percent, pixels, px_text, read_percent, read_pixels, scale, scaled,
    written_as_percentage,
};

verus! {

/// What `property` is for a node whose parent has the style `parent`: the
/// parent's value, or `default` where there is no parent or the parent
/// has no value.
pub open spec fn inherited_value(
    parent: Option<Declarations>,
    property: Seq<char>,
    default: Seq<char>,
) -> Seq<char> {
    match parent {
        Some(style) => if style.contains_key(property) {
            style[property]
        } else {
            default
        },
        None => default,
    }
}

/// The style that a node starts from: the four properties that are
/// inherited, each with the value of the parent, or with its default for
/// the root.
pub open spec fn inherited(parent: Option<Declarations>) -> Declarations {
    Map::empty().insert("color"@, inherited_value(parent, "color"@, "black"@)).insert(
        "font-size"@,
        inherited_value(parent, "font-size"@, "16px"@),
    ).insert("font-weight"@, inherited_value(parent, "font-weight"@, "normal"@)).insert(
        "font-style"@,
        inherited_value(parent, "font-style"@, "normal"@),
    )
}

/// `base` with the declarations of every rule of `rules` that selects
/// `node`, taken in the order of `rules`: a later rule replaces what an
/// earlier one declared.
pub open spec fn apply_rules(
    base: Declarations,
    rules: Seq<RuleView>,
    t: Seq<NodeView>,
    node: int,
) -> Declarations
    decreases rules.len(),
{
    if rules.len() == 0 {
        base
    } else {
        let before = apply_rules(base, rules.drop_last(), t, node);
        if rules.last().0.matches(t, node) {
            before.union_prefer_right(rules.last().1)
        } else {
            before
        }
    }
}

/// The declarations of the `style` attribute of a node.
pub open spec fn inline_style(kind: NodeKind) -> Declarations {
    match kind {
        NodeKind::Element { attributes, .. } => if attributes.contains_key("style"@) {
            inline_declarations(attributes["style"@])
        } else {
            Map::empty()
        },
        NodeKind::Text { .. } => Map::empty(),
    }
}

/// The style of the parent of `node`, if it has one.
pub open spec fn parent_style(t: Seq<NodeView>, node: int) -> Option<Declarations> {
    match t[node].parent {
        Some(p) => Some(t[p as int].style),
        None => None,
    }
}

/// `style` with a font size in percent replaced by a size in pixels: that
/// share of `base`, the font size of the parent. Where the percentage or
/// `base` cannot be read, `base` itself is the font size.
pub open spec fn resolve_font_size(style: Declarations, base: Seq<char>) -> Declarations {
    if style.contains_key("font-size"@) && is_percentage(style["font-size"@]) {
        match (percent(style["font-size"@]), pixels(base)) {
            (Some(pct), Some(size)) => style.insert("font-size"@, px_text(scaled(size, pct))),
            _ => style.insert("font-size"@, base),
        }
    } else {
        style
    }
}

/// The style of `node`, given that its parent has its style already. The
/// node starts from what it inherits; then come the rules that select it,
/// in the order of `rules`; then its `style` attribute; last, a font size
/// in percent is resolved against the font size of the parent.
pub open spec fn resolved_style(t: Seq<NodeView>, node: int, rules: Seq<RuleView>) -> Declarations {
    let seeded = inherited(parent_style(t, node));
    let ruled = apply_rules(seeded, rules, t, node);
    let inlined = ruled.union_prefer_right(inline_style(t[node].kind));
    resolve_font_size(inlined, inherited_value(parent_style(t, node), "font-size"@, "16px"@))
}

/// The tree `t` with the style of the first `k` nodes resolved, in the
/// order of the nodes, in which a parent comes before its children.
pub open spec fn styled_upto(t: Seq<NodeView>, rules: Seq<RuleView>, k: nat) -> Seq<NodeView>
    decreases k,
{
    if k == 0 {
        t
    } else {
        let before = styled_upto(t, rules, (k - 1) as nat);
        with_style(before, k - 1, resolved_style(before, k - 1, rules))
    }
}

/// The tree `t` with the style of every node resolved.
pub open spec fn styled(t: Seq<NodeView>, rules: Seq<RuleView>) -> Seq<NodeView> {
    styled_upto(t, rules, t.len())
}

fn inherit(style: &mut StrMap, parent: Option<&StrMap>, property: &str, default: &str)
    ensures
        final(style)@ == old(style)@.insert(
            property@,
            inherited_value(
                match parent {
                    Some(p) => Some(p@),
                    None => None,
                },
                property@,
                default@,
            ),
        ),
{
    let value = match parent {
        Some(p) => match p.get(property) {
            Some(v) => v.clone(),
            None => default.to_string(),
        },
        None => default.to_string(),
    };
    style.insert(property.to_string(), value);
}

/// Resolves the style of `node`, whose parent has its style already.
pub fn style_node(doc: &mut Document, node: usize, rules: &Vec<(Selector, StrMap)>)
    requires
        old(doc).wf(),
        node < old(doc)@.len(),
    ensures
        final(doc)@ == with_style(
            old(doc)@,
            node as int,
            resolved_style(old(doc)@, node as int, rules_view(rules@)),
        ),
        final(doc).wf(),
{
    let ghost t = doc@;
    let ghost rs = rules_view(rules@);
    let mut style = StrMap::new();
    let parent: Option<&StrMap> = match doc.node(node).parent {
        Some(p) => {
            Some(&doc.node(p).style)
        },
        None => None,
    };
    inherit(&mut style, parent, "color", "black");
    inherit(&mut style, parent, "font-size", "16px");
    inherit(&mut style, parent, "font-weight", "normal");
    inherit(&mut style, parent, "font-style", "normal");
    let base: String = match parent {
        Some(p) => match p.get("font-size") {
            Some(v) => v.clone(),
            None => "16px".to_string(),
        },
        None => "16px".to_string(),
    };
    let mut i: usize = 0;
    while i < rules.len()
        invariant
            i <= rules.len(),
            doc@ == t,
            doc.wf(),
            node < t.len(),
            rs == rules_view(rules@),
            style@ == apply_rules(inherited(parent_style(t, node as int)), rs.take(i as int), t, node as int),
        decreases rules.len() - i,
    {
        proof {
            assert(rs.take(i + 1).drop_last() == rs.take(i as int));
        }
        if rules[i].0.matches(doc, node) {
            style.extend(&rules[i].1);
        }
        i += 1;
    }
    assert(rs.take(rs.len() as int) == rs);
    match &doc.node(node).node_type {
        HtmlNodeType::Element(element) => {
            match element.attributes.get("style") {
                Some(text) => {
                    let mut parser = CssParser::new(text.as_str());
                    match parser.body() {
                        Ok(pairs) => {
                            style.extend(&pairs);
                        },
                        Err(_) => {},
                    }
                },
                None => {
                    assert(style@.union_prefer_right(Map::empty()) == style@);
                },
            }
        },
        HtmlNodeType::Text(_) => {
            assert(style@.union_prefer_right(Map::empty()) == style@);
        },
    }
    let size: Option<String> = match style.get("font-size") {
        Some(v) => Some(v.clone()),
        None => None,
    };
    match size {
        Some(v) => {
            if written_as_percentage(&v) {
                match (read_percent(&v), read_pixels(&base)) {
                    (Some(pct), Some(parent_size)) => {
                        style.insert("font-size".to_string(), format_px(scale(parent_size, pct)));
                    },
                    _ => {
                        style.insert("font-size".to_string(), base);
                    },
                }
            }
        },
        None => {},
    }
    doc.set_style(node, style);
}

/// Resolves the style of every node of `doc`, parents before children.
pub fn style(doc: &mut Document, rules: &Vec<(Selector, StrMap)>)
    requires
        old(doc).wf(),
    ensures
        final(doc)@ == styled(old(doc)@, rules_view(rules@)),
        final(doc).wf(),
{
    let n = doc.len();
    let mut i: usize = 0;
    while i < n
        invariant
            i <= n,
            n == old(doc)@.len(),
            doc@.len() == n,
            doc.wf(),
            doc@ == styled_upto(old(doc)@, rules_view(rules@), i as nat),
        decreases n - i,
    {
        style_node(doc, i, rules);
        i += 1;
    }
}

/// The place at which a rule of priority `p` goes into `sorted`: behind
/// the last rule whose priority is `p` or less.
pub open spec fn insert_position(sorted: Seq<RuleView>, p: nat) -> int
    decreases sorted.len(),
{
    if sorted.len() == 0 {
        0
    } else if sorted.last().0.priority() <= p {
        sorted.len() as int
    } else {
        insert_position(sorted.drop_last(), p)
    }
}

/// The rules in the order of the cascade: by rising priority, and rules
/// of one priority in the order in which they stand in `rules`.
pub open spec fn cascade_order(rules: Seq<RuleView>) -> Seq<RuleView>
    decreases rules.len(),
{
    if rules.len() == 0 {
        Seq::empty()
    } else {
        let before = cascade_order(rules.drop_last());
        before.insert(insert_position(before, rules.last().0.priority()), rules.last())
    }
}

/// The place of a rule goes up to the start of the rules of higher
/// priority at the end.
pub proof fn lemma_insert_position(sorted: Seq<RuleView>, p: nat)
    ensures
        0 <= insert_position(sorted, p) <= sorted.len(),
        forall|q: int|
            insert_position(sorted, p) <= q < sorted.len() ==> (#[trigger] sorted[q]).0.priority()
                > p,
        insert_position(sorted, p) > 0 ==> sorted[insert_position(sorted, p) - 1].0.priority()
            <= p,
    decreases sorted.len(),
{
    if sorted.len() > 0 && sorted.last().0.priority() > p {
        lemma_insert_position(sorted.drop_last(), p);
        assert forall|q: int| insert_position(sorted, p) <= q < sorted.len() implies (
        #[trigger] sorted[q]).0.priority() > p by {
            if q < sorted.len() - 1 {
                assert(sorted.drop_last()[q] == sorted[q]);
            }
        }
    }
}

/// Sorts rules into the order of the cascade.
pub fn sort_rules(rules: &Vec<(Selector, StrMap)>) -> (sorted: Vec<(Selector, StrMap)>)
    requires
        forall|i: int| 0 <= i < rules.len() ==> (#[trigger] rules[i]).0@.priority() <= usize::MAX,
    ensures
        rules_view(sorted@) == cascade_order(rules_view(rules@)),
{
    let ghost rs = rules_view(rules@);
    let mut sorted: Vec<(Selector, StrMap)> = Vec::new();
    let mut i: usize = 0;
    while i < rules.len()
        invariant
            i <= rules.len(),
            rs == rules_view(rules@),
            forall|k: int| 0 <= k < rules.len() ==> (#[trigger] rules[k]).0@.priority() <= usize::MAX,
            rules_view(sorted@) == cascade_order(rs.take(i as int)),
            sorted@.len() == i,
            forall|k: int| 0 <= k < sorted@.len() ==> (#[trigger] sorted@[k]).0@.priority() <= usize::MAX,
        decreases rules.len() - i,
    {
        let ghost before = rules_view(sorted@);
        proof {
            assert(rs.take(i + 1).drop_last() == rs.take(i as int));
        }
        let p = rules[i].0.priority();
        let mut j: usize = sorted.len();
        assert(before.take(j as int) == before);
        while j > 0 && sorted[j - 1].0.priority() > p
            invariant
                j <= sorted.len(),
                before == rules_view(sorted@),
                forall|k: int| 0 <= k < sorted@.len() ==> (#[trigger] sorted@[k]).0@.priority() <= usize::MAX,
                insert_position(before, p as nat) == insert_position(before.take(j as int), p as nat),
            decreases j,
        {
            proof {
                assert(before.take(j as int).drop_last() == before.take(j - 1));
            }
            j -= 1;
        }
        let rule = (rules[i].0.clone(), rules[i].1.clone());
        sorted.insert(j, rule);
        i += 1;
    }
    assert(rs.take(rs.len() as int) == rs);
    sorted
}

/// Whether a rule selects `node` and declares `property`.
pub open spec fn declares(rule: RuleView, t: Seq<NodeView>, node: int, property: Seq<char>) -> bool {
    rule.0.matches(t, node) && rule.1.contains_key(property)
}

/// Where rule `i` of `rules` stands in the order of the cascade.
pub open spec fn position(rules: Seq<RuleView>, i: int) -> int
    decreases rules.len(),
{
    if rules.len() == 0 {
        0
    } else {
        let before = cascade_order(rules.drop_last());
        let at = insert_position(before, rules.last().0.priority());
        if i == rules.len() - 1 {
            at
        } else {
            let q = position(rules.drop_last(), i);
            if q < at {
                q
            } else {
                q + 1
            }
        }
    }
}

/// The rule of `rules` that stands at place `q` in the order of the
/// cascade.
pub open spec fn origin(rules: Seq<RuleView>, q: int) -> int
    decreases rules.len(),
{
    if rules.len() == 0 {
        0
    } else {
        let before = cascade_order(rules.drop_last());
        let at = insert_position(before, rules.last().0.priority());
        if q == at {
            rules.len() - 1
        } else if q < at {
            origin(rules.drop_last(), q)
        } else {
            origin(rules.drop_last(), q - 1)
        }
    }
}

/// The order of the cascade holds the same rules, each once, by rising
/// priority, and rules of one priority in the order in which they stand.
pub proof fn lemma_cascade_order(rules: Seq<RuleView>)
    ensures
        cascade_order(rules).len() == rules.len(),
        forall|i: int|
            0 <= i < rules.len() ==> 0 <= #[trigger] position(rules, i) < rules.len()
                && cascade_order(rules)[position(rules, i)] == rules[i],
        forall|i: int, j: int|
            0 <= i < j < rules.len() ==> #[trigger] position(rules, i) != #[trigger] position(
                rules,
                j,
            ),
        forall|q: int|
            0 <= q < rules.len() ==> 0 <= #[trigger] origin(rules, q) < rules.len() && position(
                rules,
                origin(rules, q),
            ) == q,
        forall|a: int, b: int|
            0 <= a <= b < rules.len() ==> (#[trigger] cascade_order(rules)[a]).0.priority() <= (
            #[trigger] cascade_order(rules)[b]).0.priority(),
        forall|i: int, j: int|
            0 <= i < j < rules.len() && rules[i].0.priority() == rules[j].0.priority()
                ==> #[trigger] position(rules, i) < #[trigger] position(rules, j),
    decreases rules.len(),
{
    if rules.len() > 0 {
        let r = rules.drop_last();
        let n = r.len() as int;
        let x = rules.last();
        let before = cascade_order(r);
        let at = insert_position(before, x.0.priority());
        let s = cascade_order(rules);
        lemma_cascade_order(r);
        lemma_insert_position(before, x.0.priority());
        assert forall|i: int| 0 <= i < rules.len() implies 0 <= #[trigger] position(rules, i)
            < rules.len() && s[position(rules, i)] == rules[i] by {
            if i < n {
                let q = position(r, i);
            }
        }
        assert forall|q: int| 0 <= q < rules.len() implies 0 <= #[trigger] origin(rules, q)
            < rules.len() && position(rules, origin(rules, q)) == q by {
            if q != at {
                let q0 = if q < at {
                    q
                } else {
                    q - 1
                };
                assert(position(r, origin(r, q0)) == q0);
            }
        }
        assert forall|i: int, j: int|
            0 <= i < j < rules.len() && rules[i].0.priority()
                == rules[j].0.priority() implies #[trigger] position(rules, i) < #[trigger] position(
            rules,
            j,
        ) by {
            if j < n {
                assert(position(r, i) < position(r, j));
            }
        }
    }
}

/// The value of a property after the rules: that of the last rule that
/// declares it.
pub proof fn lemma_apply_rules_last(
    base: Declarations,
    rules: Seq<RuleView>,
    t: Seq<NodeView>,
    node: int,
    property: Seq<char>,
    last: int,
)
    requires
        0 <= last < rules.len(),
        declares(rules[last], t, node, property),
        forall|q: int| last < q < rules.len() ==> !declares(#[trigger] rules[q], t, node, property),
    ensures
        apply_rules(base, rules, t, node).contains_key(property),
        apply_rules(base, rules, t, node)[property] == rules[last].1[property],
    decreases rules.len(),
{
    if last < rules.len() - 1 {
        lemma_apply_rules_last(base, rules.drop_last(), t, node, property, last);
    }
}

/// Of the rules that select a node and declare a property, the one with
/// the greatest priority gives the value, wherever it stands in the
/// sheet; of two with the same priority the later one does.
pub proof fn lemma_specificity(
    base: Declarations,
    rules: Seq<RuleView>,
    t: Seq<NodeView>,
    node: int,
    property: Seq<char>,
    i: int,
)
    requires
        0 <= i < rules.len(),
        declares(rules[i], t, node, property),
        forall|j: int|
            0 <= j < rules.len() && j != i && declares(#[trigger] rules[j], t, node, property) ==> {
                ||| rules[j].0.priority() < rules[i].0.priority()
                ||| rules[j].0.priority() == rules[i].0.priority() && j < i
            },
    ensures
        apply_rules(base, cascade_order(rules), t, node).contains_key(property),
        apply_rules(base, cascade_order(rules), t, node)[property] == rules[i].1[property],
{
    let s = cascade_order(rules);
    lemma_cascade_order(rules);
    let at = position(rules, i);
    assert forall|q: int| at < q < s.len() implies !declares(#[trigger] s[q], t, node, property) by {
        assert(position(rules, origin(rules, q)) == q);
    }
    lemma_apply_rules_last(base, s, t, node, property, at);
}

/// The same for the style of a node: unless its `style` attribute
/// declares the property, and but for a font size in percent, which is
/// resolved, the rule with the greatest priority gives the value.
pub proof fn lemma_specificity_resolved(
    rules: Seq<RuleView>,
    t: Seq<NodeView>,
    node: int,
    property: Seq<char>,
    i: int,
)
    requires
        0 <= i < rules.len(),
        declares(rules[i], t, node, property),
        forall|j: int|
            0 <= j < rules.len() && j != i && declares(#[trigger] rules[j], t, node, property) ==> {
                ||| rules[j].0.priority() < rules[i].0.priority()
                ||| rules[j].0.priority() == rules[i].0.priority() && j < i
            },
        !inline_style(t[node].kind).contains_key(property),
        property == "font-size"@ ==> !is_percentage(rules[i].1[property]),
    ensures
        resolved_style(t, node, cascade_order(rules)).contains_key(property),
        resolved_style(t, node, cascade_order(rules))[property] == rules[i].1[property],
{
    lemma_specificity(inherited(parent_style(t, node)), rules, t, node, property, i);
}

/// What the `style` attribute of a node declares stays, whatever the rules
/// declare; but a font size in percent is resolved.
pub proof fn lemma_inline_wins(t: Seq<NodeView>, node: int, rules: Seq<RuleView>, property: Seq<char>)
    requires
        inline_style(t[node].kind).contains_key(property),
        property == "font-size"@ ==> !is_percentage(inline_style(t[node].kind)[property]),
    ensures
        resolved_style(t, node, rules).contains_key(property),
        resolved_style(t, node, rules)[property] == inline_style(t[node].kind)[property],
{
}

/// A font size in percent is a share of the font size of the parent: where
/// the parent has the size `base` and the node asks for `pct` thousandths
/// of a percent, the node has `scaled(base, pct)`. What is written for the
/// node reads back as that size, so that the sizes along a chain of nodes
/// are the shares of shares.
pub proof fn lemma_percentage_resolves(style: Declarations, base: nat, pct: nat)
    requires
        style.contains_key("font-size"@),
        percent(style["font-size"@]) == Some(pct),
        base / 1000 <= crate::units::MAX_WHOLE,
    ensures
        resolve_font_size(style, px_text(base))["font-size"@] == px_text(scaled(base, pct)),
        scaled(base, pct) / 1000 <= crate::units::MAX_WHOLE ==> pixels(
            resolve_font_size(style, px_text(base))["font-size"@],
        ) == Some(scaled(base, pct)),
{
    crate::units::lemma_decimal_text(base);
    if scaled(base, pct) / 1000 <= crate::units::MAX_WHOLE {
        crate::units::lemma_decimal_text(scaled(base, pct));
    }
}

} // verus!
