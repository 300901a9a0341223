//! The stylesheet model and the cascade: declarations over a fixed property
//! set, rules in source order, and the apply policy in which every matching
//! rule overwrites the fields its declarations set, so that later rules win
//! over earlier ones regardless of selector specificity.

use vstd::prelude::*;

use crate::selector::{list_matches, SelectorList};
use crate::element::Element;
use crate::tree::{Node, NodeInner, Tree};

verus! {

/// A length-or-percent style value, in thousandths of a unit: `Px(10000)` is
/// `10px`, `Percent(50000)` is `50%`.
#[derive(Clone, Copy, PartialEq, Eq, Structural, Debug)]
pub enum Value {
    Px(i64),
    Percent(i64),
    Auto,
    Undefined,
}

/// An RGBA color with 8-bit channels.
#[derive(Clone, Copy, PartialEq, Eq, Structural, Debug)]
pub struct Rgba {
    pub r: u8,
    pub g: u8,
    pub b: u8,
    pub a: u8,
}

/// One parsed style declaration over the understood property set.
#[derive(Clone, Copy, PartialEq, Eq, Structural, Debug)]
pub enum Declaration {
    Width(Value),
    Height(Value),
    BackgroundColor(u8, u8, u8, u8),
    MarginTop(Value),
    MarginBottom(Value),
    MarginLeft(Value),
    MarginRight(Value),
}

/// Per-node resolved property values before layout.
#[derive(Clone, Copy, PartialEq, Eq, Structural, Debug)]
pub struct ComputedStyle {
    pub width: Value,
    pub height: Value,
    pub background_color: Rgba,
    pub margin_top: Value,
    pub margin_bottom: Value,
    pub margin_left: Value,
    pub margin_right: Value,
}

impl ComputedStyle {
    /// The initial value of every property: auto sizes, zero margins, and a
    /// fully transparent background.
    pub open spec fn initial() -> ComputedStyle {
        ComputedStyle {
            width: Value::Auto,
            height: Value::Auto,
            background_color: Rgba { r: 0, g: 0, b: 0, a: 0 },
            margin_top: Value::Px(0),
            margin_bottom: Value::Px(0),
            margin_left: Value::Px(0),
            margin_right: Value::Px(0),
        }
    }
}

impl Default for ComputedStyle {
    /// The CSS initial state modelled by this library.
    fn default() -> (r: ComputedStyle)
        ensures
            r == ComputedStyle::initial(),
    {
        ComputedStyle {
            width: Value::Auto,
            height: Value::Auto,
            background_color: Rgba { r: 0, g: 0, b: 0, a: 0 },
            margin_top: Value::Px(0),
            margin_bottom: Value::Px(0),
            margin_left: Value::Px(0),
            margin_right: Value::Px(0),
        }
    }
}

/// The effect of one declaration: it overwrites exactly the field it names.
pub open spec fn spec_apply_declaration(d: Declaration, c: ComputedStyle) -> ComputedStyle {
    match d {
        Declaration::Width(v) => ComputedStyle { width: v, ..c },
        Declaration::Height(v) => ComputedStyle { height: v, ..c },
        Declaration::BackgroundColor(r, g, b, a) => ComputedStyle {
            background_color: Rgba { r, g, b, a },
            ..c
        },
        Declaration::MarginTop(v) => ComputedStyle { margin_top: v, ..c },
        Declaration::MarginBottom(v) => ComputedStyle { margin_bottom: v, ..c },
        Declaration::MarginLeft(v) => ComputedStyle { margin_left: v, ..c },
        Declaration::MarginRight(v) => ComputedStyle { margin_right: v, ..c },
    }
}

/// The effect of a declaration list, applied left to right.
pub open spec fn spec_apply_declarations(ds: Seq<Declaration>, c: ComputedStyle) -> ComputedStyle
    decreases ds.len(),
{
    if ds.len() == 0 {
        c
    } else {
        spec_apply_declarations(ds.drop_first(), spec_apply_declaration(ds[0], c))
    }
}

impl Declaration {
    /// Overwrites the one field this declaration names.
    pub fn apply(&self, computed: &mut ComputedStyle)
        ensures
            *final(computed) == spec_apply_declaration(*self, *old(computed)),
    {
        match self {
            Declaration::Width(v) => computed.width = *v,
            Declaration::Height(v) => computed.height = *v,
            Declaration::BackgroundColor(r, g, b, a) => computed.background_color = Rgba {
                r: *r,
                g: *g,
                b: *b,
                a: *a,
            },
            Declaration::MarginTop(v) => computed.margin_top = *v,
            Declaration::MarginBottom(v) => computed.margin_bottom = *v,
            Declaration::MarginLeft(v) => computed.margin_left = *v,
            Declaration::MarginRight(v) => computed.margin_right = *v,
        }
    }
}

/// A selector list plus the ordered declarations it applies.
#[derive(Debug)]
pub struct StyleRule {
    pub selectors: SelectorList,
    pub properties: Vec<Declaration>,
}

/// The effect of one rule on one node: all of its declarations when its
/// selector list matches the node, nothing otherwise.
pub open spec fn spec_apply_rule(
    ns: Seq<NodeInner<Element>>,
    i: int,
    rule: StyleRule,
    c: ComputedStyle,
) -> ComputedStyle {
    if list_matches(ns, i, rule.selectors@) {
        spec_apply_declarations(rule.properties@, c)
    } else {
        c
    }
}

/// The effect of a rule sequence on one node, in source order.
pub open spec fn spec_apply_rules(
    ns: Seq<NodeInner<Element>>,
    i: int,
    rules: Seq<StyleRule>,
    c: ComputedStyle,
) -> ComputedStyle
    decreases rules.len(),
{
    if rules.len() == 0 {
        c
    } else {
        spec_apply_rules(ns, i, rules.drop_first(), spec_apply_rule(ns, i, rules[0], c))
    }
}

impl StyleRule {
    /// Applies this rule to node `n`: when the selector list matches, every
    /// declaration overwrites its field of `computed`.
    pub fn apply(&self, tree: &Tree<Element>, n: Node, computed: &mut ComputedStyle)
        requires
            tree.well_formed(),
            n.index < tree@.len(),
        ensures
            *final(computed) == spec_apply_rule(tree@, n.index as int, *self, *old(computed)),
    {
        if self.selectors.matches(tree, n) {
            apply_declarations(&self.properties, computed);
        }
    }
}

/// Applies a declaration list left to right.
fn apply_declarations(ds: &Vec<Declaration>, computed: &mut ComputedStyle)
    ensures
        *final(computed) == spec_apply_declarations(ds@, *old(computed)),
{
    let mut k: usize = 0;
    proof {
        assert(ds@.skip(0) =~= ds@);
    }
    while k < ds.len()
        invariant
            k <= ds@.len(),
            spec_apply_declarations(ds@.skip(k as int), *computed) == spec_apply_declarations(
                ds@,
                *old(computed),
            ),
        decreases ds@.len() - k,
    {
        proof {
            assert(ds@.skip(k as int).drop_first() =~= ds@.skip(k as int + 1));
            assert(ds@.skip(k as int)[0] == ds@[k as int]);
        }
        ds[k].apply(computed);
        k = k + 1;
    }
    proof {
        assert(ds@.skip(k as int) =~= Seq::<Declaration>::empty());
    }
}

/// The mathematical view of a style rule: its selector list's view and its
/// ordered declarations.
pub struct RuleView {
    pub selectors: Seq<crate::selector::ComplexView>,
    pub properties: Seq<Declaration>,
}

/// The view of a style rule.
pub open spec fn rule_view(r: StyleRule) -> RuleView {
    RuleView {
        selectors: crate::selector::sel_list_view(r.selectors.selectors@),
        properties: r.properties@,
    }
}

/// The view of a rule sequence.
pub open spec fn rules_view(rs: Seq<StyleRule>) -> Seq<RuleView> {
    rs.map_values(|r: StyleRule| rule_view(r))
}

/// Appending a rule extends the view by its view.
pub proof fn lemma_rules_view_push(rs: Seq<StyleRule>, r: StyleRule)
    ensures
        rules_view(rs.push(r)) == rules_view(rs).push(rule_view(r)),
{
    let a = rules_view(rs.push(r));
    let b = rules_view(rs).push(rule_view(r));
    assert forall|i: int| 0 <= i < a.len() implies a[i] == b[i] by {}
    assert(a =~= b);
}

/// The view of a rule concatenation is the concatenation of the views.
pub proof fn lemma_rules_view_concat(a: Seq<StyleRule>, b: Seq<StyleRule>)
    ensures
        rules_view(a + b) == rules_view(a) + rules_view(b),
{
    let x = rules_view(a + b);
    let y = rules_view(a) + rules_view(b);
    assert forall|i: int| 0 <= i < x.len() implies x[i] == y[i] by {}
    assert(x =~= y);
}

/// An ordered sequence of style rules; order is semantically significant.
#[derive(Debug)]
pub struct StyleSheet {
    pub rules: Vec<StyleRule>,
}

impl StyleSheet {
    /// An empty stylesheet.
    pub fn new() -> (r: StyleSheet)
        ensures
            r.rules@.len() == 0,
    {
        StyleSheet { rules: Vec::new() }
    }

    /// Applies every rule whose selector list matches node `n`, in source
    /// order; later rules overwrite the fields they set.
    pub fn apply(&self, tree: &Tree<Element>, n: Node, computed: &mut ComputedStyle)
        requires
            tree.well_formed(),
            n.index < tree@.len(),
        ensures
            *final(computed) == spec_apply_rules(
                tree@,
                n.index as int,
                self.rules@,
                *old(computed),
            ),
    {
        let mut k: usize = 0;
        proof {
            assert(self.rules@.skip(0) =~= self.rules@);
        }
        while k < self.rules.len()
            invariant
                tree.well_formed(),
                n.index < tree@.len(),
                k <= self.rules@.len(),
                spec_apply_rules(tree@, n.index as int, self.rules@.skip(k as int), *computed)
                    == spec_apply_rules(tree@, n.index as int, self.rules@, *old(computed)),
            decreases self.rules@.len() - k,
        {
            proof {
                assert(self.rules@.skip(k as int).drop_first() =~= self.rules@.skip(k as int + 1));
                assert(self.rules@.skip(k as int)[0] == self.rules@[k as int]);
            }
            self.rules[k].apply(tree, n, computed);
            k = k + 1;
        }
        proof {
            assert(self.rules@.skip(k as int) =~= Seq::<StyleRule>::empty());
        }
    }
}

impl Default for StyleSheet {
    /// An empty stylesheet.
    fn default() -> (r: StyleSheet)
        ensures
            r.rules@.len() == 0,
    {
        StyleSheet { rules: Vec::new() }
    }
}

/// The cascade reads only what selector matching reads: over two
/// match-equal arenas, a rule sequence computes the same style.
pub proof fn lemma_apply_rules_congruent(
    a: Seq<NodeInner<Element>>,
    b: Seq<NodeInner<Element>>,
    i: int,
    rules: Seq<StyleRule>,
    c: ComputedStyle,
)
    requires
        crate::selector::match_eq(a, b),
    ensures
        spec_apply_rules(a, i, rules, c) == spec_apply_rules(b, i, rules, c),
    decreases rules.len(),
{
    if rules.len() > 0 {
        crate::selector::lemma_list_matches_congruent(a, b, i, rules[0].selectors@);
        lemma_apply_rules_congruent(a, b, i, rules.drop_first(), spec_apply_rule(a, i, rules[0], c));
    }
}

/// Cascade order: when two rules both match a node and each sets the same
/// property, the one later in the stylesheet decides the computed value,
/// whatever the selectors' specificity. Stated here for a rule pair setting
/// `width`.
pub proof fn lemma_cascade_later_rule_wins(
    ns: Seq<NodeInner<Element>>,
    i: int,
    r1: StyleRule,
    r2: StyleRule,
    v1: Value,
    v2: Value,
    c: ComputedStyle,
)
    requires
        r1.properties@ == seq![Declaration::Width(v1)],
        r2.properties@ == seq![Declaration::Width(v2)],
        list_matches(ns, i, r1.selectors@),
        list_matches(ns, i, r2.selectors@),
    ensures
        spec_apply_rules(ns, i, seq![r1, r2], c).width == v2,
{
    let rules = seq![r1, r2];
    assert(rules[0] == r1 && rules[1] == r2);
    assert(rules.drop_first() =~= seq![r2]);
    assert(seq![r2].drop_first() =~= Seq::<StyleRule>::empty());
    assert(r1.properties@[0] == Declaration::Width(v1));
    assert(r2.properties@[0] == Declaration::Width(v2));
    assert(r1.properties@.drop_first() =~= Seq::<Declaration>::empty());
    assert(r2.properties@.drop_first() =~= Seq::<Declaration>::empty());
    let s1 = spec_apply_declaration(Declaration::Width(v1), c);
    assert(spec_apply_declarations(r1.properties@, c) == spec_apply_declarations(
        r1.properties@.drop_first(),
        s1,
    ));
    assert(spec_apply_declarations(r1.properties@.drop_first(), s1) == s1);
    let c1 = spec_apply_rule(ns, i, r1, c);
    assert(c1 == s1);
    let s2 = spec_apply_declaration(Declaration::Width(v2), c1);
    assert(spec_apply_declarations(r2.properties@, c1) == spec_apply_declarations(
        r2.properties@.drop_first(),
        s2,
    ));
    assert(spec_apply_declarations(r2.properties@.drop_first(), s2) == s2);
    let c2 = spec_apply_rule(ns, i, r2, c1);
    assert(c2 == s2);
    assert(spec_apply_rules(ns, i, rules, c) == spec_apply_rules(ns, i, rules.drop_first(), c1));
    assert(spec_apply_rules(ns, i, rules.drop_first(), c1) == spec_apply_rules(
        ns,
        i,
        rules.drop_first().drop_first(),
        c2,
    ));
    assert(rules.drop_first().drop_first() =~= Seq::<StyleRule>::empty());
    assert(spec_apply_rules(ns, i, rules.drop_first().drop_first(), c2) == c2);
}

} // verus!
