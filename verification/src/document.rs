//! The compiled-document facade: the element tree plus its stylesheet, with
//! on-demand style recomputation and selector queries.
//!
//! Dynamic-expression attributes are evaluated by an external engine; the
//! facade publishes the expressions as jobs and takes their results back as
//! plain values, so the whole style pipeline over the results is verified.

use vstd::prelude::*;

use crate::element::{
    id_view, post_classes, post_id, Element, ElementData, RawAttributeValue, RawElementAttributes,
    RootElement,
};
use crate::selector::{list_matches, match_eq, SelectorList, SelectorParser};
use crate::style::{spec_apply_rules, ComputedStyle, StyleSheet};
use crate::tree::{links_eq, subtree, Node, NodeInner, Tree};

verus! {

/// Which attribute of a node a dynamic expression feeds.
#[derive(Clone, Copy, PartialEq, Eq, Structural, Debug)]
pub enum ScriptTarget {
    Classes,
    Id,
}

/// A dynamic-expression attribute awaiting evaluation by the external
/// engine.
#[derive(Debug)]
pub struct ScriptJob {
    pub node: Node,
    pub target: ScriptTarget,
    pub script: String,
}

/// The value an external evaluation produced for one dynamic attribute.
#[derive(Debug)]
pub enum ScriptResult {
    Classes { node: Node, values: Vec<String> },
    Id { node: Node, value: String },
}

/// Equality of two elements everywhere except the computed-style snapshot.
pub open spec fn elem_eq_mod_computed(a: Element, b: Element) -> bool {
    &&& a.data == b.data
    &&& a.raw_attributes == b.raw_attributes
    &&& a.classes == b.classes
    &&& a.id == b.id
    &&& a.style == b.style
}

/// Equality of two elements everywhere except classes, id and computed
/// style (what an attribute pass may change).
pub open spec fn elem_eq_mod_attrs(a: Element, b: Element) -> bool {
    &&& a.data == b.data
    &&& a.raw_attributes == b.raw_attributes
    &&& a.style == b.style
    &&& a.computed == b.computed
}

/// The root aggregate: the document tree and the stylesheet it was compiled
/// with.
#[derive(Debug)]
pub struct CompiledDocument {
    pub tree: Tree<Element>,
    pub stylesheet: StyleSheet,
}

/// A placeholder element swapped in while one node's element is being
/// reworked.
fn dummy_element() -> Element {
    Element::new(ElementData::Root(RootElement), RawElementAttributes::empty())
}

impl CompiledDocument {
    /// Whether the underlying tree's links are consistent. Every constructor
    /// of this library establishes it; every method preserves it.
    pub open spec fn well_formed(&self) -> bool {
        self.tree.well_formed()
    }

    /// Wraps a tree and stylesheet into a document.
    pub fn new(tree: Tree<Element>, stylesheet: StyleSheet) -> (r: CompiledDocument)
        requires
            tree.well_formed(),
        ensures
            r.well_formed(),
            r.tree == tree,
            r.stylesheet == stylesheet,
    {
        CompiledDocument { tree, stylesheet }
    }

    /// The root node of the document tree.
    pub fn root(&self) -> (r: Node)
        ensures
            r == (Node { index: 0 }),
    {
        Node { index: 0 }
    }

    /// Re-derives every node's effective classes and id from its literal
    /// raw attributes; dynamic-expression attributes keep their previous
    /// effective values until results are applied.
    pub fn refresh_attributes(&mut self)
        requires
            old(self).well_formed(),
        ensures
            final(self).well_formed(),
            final(self).stylesheet == old(self).stylesheet,
            links_eq(final(self).tree@, old(self).tree@),
            forall|j: int|
                0 <= j < old(self).tree@.len() ==> {
                    &&& elem_eq_mod_attrs(
                        #[trigger] final(self).tree@[j].data,
                        old(self).tree@[j].data,
                    )
                    &&& final(self).tree@[j].data.classes.deep_view() == post_classes(
                        old(self).tree@[j].data.raw_attributes.class,
                        old(self).tree@[j].data.classes.deep_view(),
                    )
                    &&& id_view(final(self).tree@[j].data.id) == post_id(
                        old(self).tree@[j].data.raw_attributes.id,
                        id_view(old(self).tree@[j].data.id),
                    )
                },
    {
        let n = self.tree.len();
        let mut i: usize = 0;
        while i < n
            invariant
                self.well_formed(),
                n == self.tree@.len(),
                i <= n,
                self.stylesheet == old(self).stylesheet,
                links_eq(self.tree@, old(self).tree@),
                forall|j: int|
                    i <= j < n ==> #[trigger] self.tree@[j].data == old(self).tree@[j].data,
                forall|j: int|
                    0 <= j < i ==> {
                        &&& elem_eq_mod_attrs(
                            #[trigger] self.tree@[j].data,
                            old(self).tree@[j].data,
                        )
                        &&& self.tree@[j].data.classes.deep_view() == post_classes(
                            old(self).tree@[j].data.raw_attributes.class,
                            old(self).tree@[j].data.classes.deep_view(),
                        )
                        &&& id_view(self.tree@[j].data.id) == post_id(
                            old(self).tree@[j].data.raw_attributes.id,
                            id_view(old(self).tree@[j].data.id),
                        )
                    },
            decreases n - i,
        {
            let node = Node { index: i };
            let mut el = self.tree.swap_data(node, dummy_element());
            el.refresh_plain_attributes();
            let _ = self.tree.swap_data(node, el);
            i = i + 1;
        }
    }

    /// The dynamic-expression attributes of the whole tree, in node order,
    /// for the external engine to evaluate.
    pub fn script_jobs(&self) -> (r: Vec<ScriptJob>)
        requires
            self.well_formed(),
    {
        let n = self.tree.len();
        let mut r: Vec<ScriptJob> = Vec::new();
        let mut i: usize = 0;
        while i < n
            invariant
                self.well_formed(),
                n == self.tree@.len(),
                i <= n,
            decreases n - i,
        {
            let node = Node { index: i };
            let el = &node.inner(&self.tree).data;
            match &el.raw_attributes.class {
                Some(RawAttributeValue::Script { script, .. }) => {
                    r.push(
                        ScriptJob {
                            node,
                            target: ScriptTarget::Classes,
                            script: script.clone(),
                        },
                    );
                },
                _ => {},
            }
            match &el.raw_attributes.id {
                Some(RawAttributeValue::Script { script, .. }) => {
                    r.push(ScriptJob { node, target: ScriptTarget::Id, script: script.clone() });
                },
                _ => {},
            }
            i = i + 1;
        }
        r
    }

    /// Installs one evaluation result. The result lands only on a node
    /// whose corresponding raw attribute really is a dynamic expression;
    /// anything else is ignored.
    pub fn apply_script_result(&mut self, result: ScriptResult)
        requires
            old(self).well_formed(),
        ensures
            final(self).well_formed(),
            final(self).stylesheet == old(self).stylesheet,
            links_eq(final(self).tree@, old(self).tree@),
            forall|j: int|
                0 <= j < old(self).tree@.len() ==> elem_eq_mod_attrs(
                    #[trigger] final(self).tree@[j].data,
                    old(self).tree@[j].data,
                ),
            forall|j: int|
                0 <= j < old(self).tree@.len() && !(old(
                    self,
                ).tree@[j].data.raw_attributes.class matches Some(
                    RawAttributeValue::Script { .. },
                )) ==> #[trigger] final(self).tree@[j].data.classes == old(
                    self,
                ).tree@[j].data.classes,
            forall|j: int|
                0 <= j < old(self).tree@.len() && !(old(
                    self,
                ).tree@[j].data.raw_attributes.id matches Some(
                    RawAttributeValue::Script { .. },
                )) ==> #[trigger] final(self).tree@[j].data.id == old(self).tree@[j].data.id,
            // A result aimed at a node whose raw attribute really is a
            // dynamic expression lands: the effective values become
            // exactly the supplied ones.
            match result {
                ScriptResult::Classes { node, values } => (node.index < old(self).tree@.len()
                    && old(self).tree@[node.index as int].data.raw_attributes.class matches Some(
                    RawAttributeValue::Script { .. },
                )) ==> final(self).tree@[node.index as int].data.classes == values,
                ScriptResult::Id { node, value } => (node.index < old(self).tree@.len() && old(
                    self,
                ).tree@[node.index as int].data.raw_attributes.id matches Some(
                    RawAttributeValue::Script { .. },
                )) ==> final(self).tree@[node.index as int].data.id == Some(value),
            },
    {
        match result {
            ScriptResult::Classes { node, values } => {
                if node.index < self.tree.len() {
                    let is_script = match &node.inner(&self.tree).data.raw_attributes.class {
                        Some(RawAttributeValue::Script { .. }) => true,
                        _ => false,
                    };
                    if is_script {
                        let mut el = self.tree.swap_data(node, dummy_element());
                        el.apply_class_values(values);
                        let _ = self.tree.swap_data(node, el);
                    }
                }
            },
            ScriptResult::Id { node, value } => {
                if node.index < self.tree.len() {
                    let is_script = match &node.inner(&self.tree).data.raw_attributes.id {
                        Some(RawAttributeValue::Script { .. }) => true,
                        _ => false,
                    };
                    if is_script {
                        let mut el = self.tree.swap_data(node, dummy_element());
                        el.apply_id_value(value);
                        let _ = self.tree.swap_data(node, el);
                    }
                }
            },
        }
    }

    /// Runs the cascade for every node: each computed style is rebuilt from
    /// the initial values by the stylesheet's matching rules, in source
    /// order. Nothing but computed styles changes.
    pub fn apply_styles(&mut self)
        requires
            old(self).well_formed(),
        ensures
            final(self).well_formed(),
            final(self).stylesheet == old(self).stylesheet,
            links_eq(final(self).tree@, old(self).tree@),
            forall|j: int|
                0 <= j < old(self).tree@.len() ==> elem_eq_mod_computed(
                    #[trigger] final(self).tree@[j].data,
                    old(self).tree@[j].data,
                ),
            forall|j: int|
                0 <= j < old(self).tree@.len() ==> #[trigger] final(self).tree@[j].data.computed
                    == spec_apply_rules(
                    final(self).tree@,
                    j,
                    final(self).stylesheet.rules@,
                    ComputedStyle::initial(),
                ),
    {
        let ghost old_ns = old(self).tree@;
        let ghost rules = old(self).stylesheet.rules@;
        let n = self.tree.len();
        let mut i: usize = 0;
        while i < n
            invariant
                self.well_formed(),
                n == self.tree@.len(),
                i <= n,
                self.stylesheet == old(self).stylesheet,
                old_ns == old(self).tree@,
                rules == old(self).stylesheet.rules@,
                links_eq(self.tree@, old_ns),
                forall|j: int|
                    0 <= j < n ==> elem_eq_mod_computed(
                        #[trigger] self.tree@[j].data,
                        old_ns[j].data,
                    ),
                forall|j: int|
                    i <= j < n ==> #[trigger] self.tree@[j].data.computed
                        == old_ns[j].data.computed,
                forall|j: int|
                    0 <= j < i ==> #[trigger] self.tree@[j].data.computed == spec_apply_rules(
                        old_ns,
                        j,
                        rules,
                        ComputedStyle::initial(),
                    ),
            decreases n - i,
        {
            let node = Node { index: i };
            let mut c = ComputedStyle::default();
            proof {
                lemma_match_eq_from_mod_computed(self.tree@, old_ns);
            }
            self.stylesheet.apply(&self.tree, node, &mut c);
            proof {
                crate::style::lemma_apply_rules_congruent(
                    self.tree@,
                    old_ns,
                    i as int,
                    rules,
                    ComputedStyle::initial(),
                );
            }
            let mut el = self.tree.swap_data(node, dummy_element());
            el.computed = c;
            let _ = self.tree.swap_data(node, el);
            i = i + 1;
        }
        proof {
            lemma_match_eq_from_mod_computed(self.tree@, old_ns);
            assert forall|j: int| 0 <= j < n implies #[trigger] self.tree@[j].data.computed
                == spec_apply_rules(self.tree@, j, rules, ComputedStyle::initial()) by {
                crate::style::lemma_apply_rules_congruent(
                    self.tree@,
                    old_ns,
                    j,
                    rules,
                    ComputedStyle::initial(),
                );
            }
        }
    }

    /// One whole style pass: refresh literal attributes, install the given
    /// expression results, then cascade every node's computed style. The
    /// external layout engine consumes the computed styles afterwards; it
    /// is outside this library.
    pub fn compute_style(&mut self, results: Vec<ScriptResult>)
        requires
            old(self).well_formed(),
        ensures
            final(self).well_formed(),
            final(self).stylesheet == old(self).stylesheet,
            links_eq(final(self).tree@, old(self).tree@),
            forall|j: int|
                0 <= j < old(self).tree@.len() ==> {
                    &&& (#[trigger] final(self).tree@[j].data).data == old(
                        self,
                    ).tree@[j].data.data
                    &&& final(self).tree@[j].data.raw_attributes == old(
                        self,
                    ).tree@[j].data.raw_attributes
                    &&& final(self).tree@[j].data.style == old(self).tree@[j].data.style
                },
            forall|j: int|
                0 <= j < old(self).tree@.len() && !(old(
                    self,
                ).tree@[j].data.raw_attributes.class matches Some(
                    RawAttributeValue::Script { .. },
                )) ==> #[trigger] final(self).tree@[j].data.classes.deep_view() == post_classes(
                    old(self).tree@[j].data.raw_attributes.class,
                    old(self).tree@[j].data.classes.deep_view(),
                ),
            forall|j: int|
                0 <= j < old(self).tree@.len() && !(old(
                    self,
                ).tree@[j].data.raw_attributes.id matches Some(
                    RawAttributeValue::Script { .. },
                )) ==> id_view(#[trigger] final(self).tree@[j].data.id) == post_id(
                    old(self).tree@[j].data.raw_attributes.id,
                    id_view(old(self).tree@[j].data.id),
                ),
            forall|j: int|
                0 <= j < old(self).tree@.len() ==> #[trigger] final(self).tree@[j].data.computed
                    == spec_apply_rules(
                    final(self).tree@,
                    j,
                    final(self).stylesheet.rules@,
                    ComputedStyle::initial(),
                ),
    {
        self.refresh_attributes();
        let mut results = results;
        loop
            invariant
                self.well_formed(),
                self.stylesheet == old(self).stylesheet,
                links_eq(self.tree@, old(self).tree@),
                forall|j: int|
                    0 <= j < old(self).tree@.len() ==> elem_eq_mod_attrs(
                        #[trigger] self.tree@[j].data,
                        old(self).tree@[j].data,
                    ),
                forall|j: int|
                    0 <= j < old(self).tree@.len() && !(old(
                        self,
                    ).tree@[j].data.raw_attributes.class matches Some(
                        RawAttributeValue::Script { .. },
                    )) ==> #[trigger] self.tree@[j].data.classes.deep_view() == post_classes(
                        old(self).tree@[j].data.raw_attributes.class,
                        old(self).tree@[j].data.classes.deep_view(),
                    ),
                forall|j: int|
                    0 <= j < old(self).tree@.len() && !(old(
                        self,
                    ).tree@[j].data.raw_attributes.id matches Some(
                        RawAttributeValue::Script { .. },
                    )) ==> id_view(#[trigger] self.tree@[j].data.id) == post_id(
                        old(self).tree@[j].data.raw_attributes.id,
                        id_view(old(self).tree@[j].data.id),
                    ),
            decreases results@.len(),
        {
            if results.len() == 0 {
                break ;
            }
            let r = results.remove(0);
            self.apply_script_result(r);
        }
        self.apply_styles();
    }
}

/// Arenas that agree on everything but computed styles are match-equal.
proof fn lemma_match_eq_from_mod_computed(a: Seq<NodeInner<Element>>, b: Seq<NodeInner<Element>>)
    requires
        links_eq(a, b),
        forall|j: int| 0 <= j < b.len() ==> elem_eq_mod_computed(#[trigger] a[j].data, b[j].data),
    ensures
        match_eq(a, b),
{
}

/// The first node of `order` that the selector list matches.
pub open spec fn first_match(
    ns: Seq<NodeInner<Element>>,
    order: Seq<Node>,
    list: Seq<crate::selector::ComplexSelector>,
) -> Option<Node>
    decreases order.len(),
{
    if order.len() == 0 {
        None
    } else if list_matches(ns, order[0].index as int, list) {
        Some(order[0])
    } else {
        first_match(ns, order.drop_first(), list)
    }
}

/// The first node of `order` that the selector-list view matches.
pub open spec fn first_match_v(
    ns: Seq<NodeInner<Element>>,
    order: Seq<Node>,
    list: Seq<crate::selector::ComplexView>,
) -> Option<Node>
    decreases order.len(),
{
    if order.len() == 0 {
        None
    } else if crate::selector::list_matches_v(ns, order[0].index as int, list) {
        Some(order[0])
    } else {
        first_match_v(ns, order.drop_first(), list)
    }
}

/// A first-match scan depends only on the selector list's view.
pub proof fn lemma_first_match_view(
    ns: Seq<NodeInner<Element>>,
    order: Seq<Node>,
    l: Seq<crate::selector::ComplexSelector>,
)
    ensures
        first_match(ns, order, l) == first_match_v(ns, order, crate::selector::sel_list_view(l)),
    decreases order.len(),
{
    if order.len() > 0 {
        crate::selector::lemma_list_matches_view(ns, order[0].index as int, l);
        lemma_first_match_view(ns, order.drop_first(), l);
    }
}

impl CompiledDocument {
    /// The first node, in pre-order from the root, that the parsed selector
    /// list matches.
    pub fn query_first(&self, list: &SelectorList) -> (r: Option<Node>)
        requires
            self.well_formed(),
        ensures
            r == first_match(self.tree@, subtree(self.tree@, Node { index: 0 }), list@),
    {
        let order = self.root().descendants(&self.tree);
        let items = order.items;
        let mut k: usize = 0;
        proof {
            assert(items@.skip(0) =~= items@);
        }
        while k < items.len()
            invariant
                self.well_formed(),
                items@ == subtree(self.tree@, Node { index: 0 }),
                k <= items@.len(),
                forall|x: int| 0 <= x < items@.len() ==> (#[trigger] items@[x]).index
                    < self.tree@.len(),
                first_match(self.tree@, items@.skip(k as int), list@) == first_match(
                    self.tree@,
                    items@,
                    list@,
                ),
            decreases items@.len() - k,
        {
            proof {
                assert(items@.skip(k as int)[0] == items@[k as int]);
                assert(items@.skip(k as int).drop_first() =~= items@.skip(k as int + 1));
            }
            if list.matches(&self.tree, items[k]) {
                return Some(items[k]);
            }
            k = k + 1;
        }
        proof {
            assert(items@.skip(k as int) =~= Seq::<Node>::empty());
        }
        None
    }

    /// Parses `selector` and scans the tree in pre-order for the first
    /// matching node: exactly the first match of the list the selector text
    /// parses to, and `None` when the text does not parse or nothing
    /// matches.
    pub fn query_selector(&self, selector: &str) -> (r: Option<Node>)
        requires
            self.well_formed(),
        ensures
            r == (match crate::css::spec_selector_text(selector@) {
                Some(vl) => first_match_v(self.tree@, subtree(self.tree@, Node { index: 0 }), vl),
                None => None::<Node>,
            }),
    {
        match SelectorParser::parse(selector) {
            Ok(list) => {
                let r = self.query_first(&list);
                proof {
                    lemma_first_match_view(
                        self.tree@,
                        subtree(self.tree@, Node { index: 0 }),
                        list.selectors@,
                    );
                }
                r
            },
            Err(_) => None,
        }
    }
}

/// A fruitless scan really scanned everything: `first_match` over an
/// enumeration answers `None` only when no enumerated node matches.
proof fn lemma_first_match_none(
    ns: Seq<NodeInner<Element>>,
    order: Seq<Node>,
    list: Seq<crate::selector::ComplexSelector>,
)
    requires
        first_match(ns, order, list) is None,
    ensures
        forall|k: int|
            0 <= k < order.len() ==> !list_matches(ns, (#[trigger] order[k]).index as int, list),
    decreases order.len(),
{
    if order.len() > 0 {
        lemma_first_match_none(ns, order.drop_first(), list);
        assert forall|k: int|
            0 <= k < order.len() implies !list_matches(
            ns,
            (#[trigger] order[k]).index as int,
            list,
        ) by {
            if k > 0 {
                assert(order.drop_first()[k - 1] == order[k]);
            }
        }
    }
}

/// Exhaustiveness of selector queries: a query that finds no node in the
/// pre-order enumeration has considered the whole document — no node of a
/// well-formed tree matches the list.
pub proof fn lemma_query_exhaustive(
    ns: Seq<NodeInner<Element>>,
    list: Seq<crate::selector::ComplexSelector>,
)
    requires
        crate::tree::wf(ns),
        ns.len() <= usize::MAX,
        first_match(ns, subtree(ns, Node { index: 0 }), list) is None,
    ensures
        forall|i: int| 0 <= i < ns.len() ==> !list_matches(ns, i, list),
{
    let order = subtree(ns, Node { index: 0 });
    lemma_first_match_none(ns, order, list);
    assert forall|i: int| 0 <= i < ns.len() implies !list_matches(ns, i, list) by {
        crate::tree::lemma_subtree_complete(ns, i);
        let me = Node { index: i as usize };
        assert(order.contains(me));
        let k = choose|k: int| 0 <= k < order.len() && order[k] == me;
        assert(!list_matches(ns, order[k].index as int, list));
        assert(me.index as int == i);
    }
}

/// Idempotence of style computation: two style passes over the same
/// document state, with the same expression-evaluation results, assign
/// every node the same computed style. The viewport plays no part: it is
/// consumed only by the external layout engine. `b` and `c` are the arenas
/// after the first and after the second pass; equal inputs make them agree
/// on everything matching reads, which is the `match_eq` premise.
pub proof fn lemma_compute_style_idempotent(
    b: Seq<NodeInner<Element>>,
    c: Seq<NodeInner<Element>>,
    rules: Seq<crate::style::StyleRule>,
)
    requires
        match_eq(b, c),
        forall|i: int|
            0 <= i < b.len() ==> #[trigger] b[i].data.computed == spec_apply_rules(
                b,
                i,
                rules,
                ComputedStyle::initial(),
            ),
        forall|i: int|
            0 <= i < c.len() ==> #[trigger] c[i].data.computed == spec_apply_rules(
                c,
                i,
                rules,
                ComputedStyle::initial(),
            ),
    ensures
        forall|i: int| 0 <= i < b.len() ==> #[trigger] c[i].data.computed == b[i].data.computed,
{
    assert forall|i: int| 0 <= i < b.len() implies #[trigger] c[i].data.computed
        == b[i].data.computed by {
        crate::style::lemma_apply_rules_congruent(b, c, i, rules, ComputedStyle::initial());
    }
}

} // verus!
