//! CSS selectors: the model (type, class and id parts joined by descendant
//! or child combinators) and the matching predicate over the document tree.
//!
//! Pseudo-classes and pseudo-elements are reserved in the model but are
//! never produced by the parser and never match.

use vstd::prelude::*;

use crate::element::{spec_local_name, Element};
use crate::text::str_eq;
use crate::tree::{wf_at, Node, NodeInner, Tree};

verus! {

/// Reserved pseudo-class kind. The parser never produces one, and a
/// pseudo-class never matches any node.
#[derive(Clone, Copy, PartialEq, Eq, Structural, Debug)]
pub enum PseudoClass {
    Reserved,
}

/// Reserved pseudo-element kind. The parser never produces one, and a
/// pseudo-element never matches any node.
#[derive(Clone, Copy, PartialEq, Eq, Structural, Debug)]
pub enum PseudoElement {
    Reserved,
}

/// Marker for the selector dialect this engine implements: string names,
/// no namespaces, and the reserved pseudo kinds above.
#[derive(Clone, Copy, PartialEq, Eq, Structural, Debug)]
pub struct SelectorImpl;

/// Entry point for parsing selector lists out of standalone text; the
/// parsing itself lives with the stylesheet parser.
#[derive(Clone, Copy, PartialEq, Eq, Structural, Debug)]
pub struct SelectorParser;

/// One compound selector: an optional type name, an optional id, and any
/// number of class names, all of which must hold of the node.
#[derive(Debug)]
pub struct CompoundSelector {
    pub local_name: Option<String>,
    pub id: Option<String>,
    pub classes: Vec<String>,
}

/// How a compound relates to the compound on its right.
#[derive(Clone, Copy, PartialEq, Eq, Structural, Debug)]
pub enum Combinator {
    /// Whitespace: an ancestor at any distance.
    Descendant,
    /// `>`: the parent.
    Child,
}

/// A complex selector: the leftmost compound, then `(combinator, compound)`
/// pairs from left to right; the rightmost compound is the subject.
#[derive(Debug)]
pub struct ComplexSelector {
    pub head: CompoundSelector,
    pub tail: Vec<(Combinator, CompoundSelector)>,
}

/// The compound at position `k` (0 is the leftmost).
pub open spec fn part_at(sel: ComplexSelector, k: int) -> CompoundSelector {
    if k <= 0 {
        sel.head
    } else {
        sel.tail@[k - 1].1
    }
}

/// The combinator joining compound `k - 1` to compound `k`.
pub open spec fn comb_at(sel: ComplexSelector, k: int) -> Combinator {
    sel.tail@[k - 1].0
}

/// Whether the class list `cs` holds `want`.
pub open spec fn has_class(cs: Seq<Seq<char>>, want: Seq<char>) -> bool {
    exists|j: int| 0 <= j < cs.len() && cs[j] == want
}

/// Whether the compound `c` matches the node at index `i`: local name (if
/// named), id (if demanded) and every class, all case-sensitively.
pub open spec fn compound_matches(
    ns: Seq<NodeInner<Element>>,
    i: int,
    c: CompoundSelector,
) -> bool {
    &&& 0 <= i < ns.len()
    &&& match c.local_name {
        Some(n) => n@ == spec_local_name(ns[i].data.data),
        None => true,
    }
    &&& match c.id {
        Some(sid) => match ns[i].data.id {
            Some(eid) => eid@ == sid@,
            None => false,
        },
        None => true,
    }
    &&& forall|k: int|
        0 <= k < c.classes@.len() ==> has_class(
            ns[i].data.classes.deep_view(),
            #[trigger] c.classes@[k]@,
        )
}

/// Whether compounds `0 ..= k` of `sel` match with subject node `i`: the
/// compound `k` matches `i` itself, and the rest match up the ancestor
/// chain as the combinators direct.
pub open spec fn complex_matches_at(
    ns: Seq<NodeInner<Element>>,
    i: int,
    sel: ComplexSelector,
    k: int,
) -> bool
    decreases k, i, 0int,
{
    &&& compound_matches(ns, i, part_at(sel, k))
    &&& if k <= 0 {
        true
    } else {
        match comb_at(sel, k) {
            Combinator::Child => match ns[i].parent {
                Some(p) => 0 <= p.index < i && complex_matches_at(ns, p.index as int, sel, k - 1),
                None => false,
            },
            Combinator::Descendant => ancestor_matches(ns, i, sel, k - 1),
        }
    }
}

/// Whether some strict ancestor of node `i` matches compounds `0 ..= k`.
pub open spec fn ancestor_matches(
    ns: Seq<NodeInner<Element>>,
    i: int,
    sel: ComplexSelector,
    k: int,
) -> bool
    decreases k, i, 1int,
{
    if 0 <= i < ns.len() {
        match ns[i].parent {
            Some(p) => if 0 <= p.index < i {
                complex_matches_at(ns, p.index as int, sel, k) || ancestor_matches(
                    ns,
                    p.index as int,
                    sel,
                    k,
                )
            } else {
                false
            },
            None => false,
        }
    } else {
        false
    }
}

/// Whether the whole complex selector matches node `i` as its subject.
pub open spec fn complex_matches(ns: Seq<NodeInner<Element>>, i: int, sel: ComplexSelector) -> bool {
    complex_matches_at(ns, i, sel, sel.tail@.len() as int)
}

/// Whether any selector of the list matches node `i`.
pub open spec fn list_matches(
    ns: Seq<NodeInner<Element>>,
    i: int,
    list: Seq<ComplexSelector>,
) -> bool {
    exists|j: int| 0 <= j < list.len() && complex_matches(ns, i, #[trigger] list[j])
}

/// An ordered set of complex selectors, any one of which matching counts as
/// a match of the list.
#[derive(Debug)]
pub struct SelectorList {
    pub selectors: Vec<ComplexSelector>,
}

impl View for SelectorList {
    type V = Seq<ComplexSelector>;

    open spec fn view(&self) -> Seq<ComplexSelector> {
        self.selectors@
    }
}

impl SelectorList {
    /// Whether any selector of this list matches node `n`.
    pub fn matches(&self, tree: &Tree<Element>, n: Node) -> (r: bool)
        requires
            tree.well_formed(),
            n.index < tree@.len(),
        ensures
            r == list_matches(tree@, n.index as int, self@),
    {
        let mut j: usize = 0;
        while j < self.selectors.len()
            invariant
                tree.well_formed(),
                n.index < tree@.len(),
                j <= self@.len(),
                forall|x: int| 0 <= x < j ==> !complex_matches(tree@, n.index as int, self@[x]),
            decreases self@.len() - j,
        {
            if complex_matches_exec(tree, n, &self.selectors[j], self.selectors[j].tail.len()) {
                return true;
            }
            j = j + 1;
        }
        false
    }
}

/// The view of an optional string.
pub open spec fn opt_str_view(o: Option<String>) -> Option<Seq<char>> {
    match o {
        Some(s) => Some(s@),
        None => None,
    }
}

/// Whether two arenas agree on everything selector matching reads: length,
/// parent links, element kinds, class lists and ids.
pub open spec fn match_eq(a: Seq<NodeInner<Element>>, b: Seq<NodeInner<Element>>) -> bool {
    &&& a.len() == b.len()
    &&& forall|i: int|
        0 <= i < a.len() ==> {
            &&& (#[trigger] a[i]).parent == b[i].parent
            &&& a[i].data.data == b[i].data.data
            &&& a[i].data.classes.deep_view() == b[i].data.classes.deep_view()
            &&& opt_str_view(a[i].data.id) == opt_str_view(b[i].data.id)
        }
}

/// Matching reads only what [`match_eq`] compares: a compound matches the
/// same nodes in two match-equal arenas.
pub proof fn lemma_compound_matches_congruent(
    a: Seq<NodeInner<Element>>,
    b: Seq<NodeInner<Element>>,
    i: int,
    c: CompoundSelector,
)
    requires
        match_eq(a, b),
    ensures
        compound_matches(a, i, c) == compound_matches(b, i, c),
{
    if 0 <= i < a.len() {
        assert(a[i].parent == b[i].parent);
    }
}

/// Congruence of [`complex_matches_at`] over match-equal arenas.
pub proof fn lemma_complex_matches_at_congruent(
    a: Seq<NodeInner<Element>>,
    b: Seq<NodeInner<Element>>,
    i: int,
    sel: ComplexSelector,
    k: int,
)
    requires
        match_eq(a, b),
    ensures
        complex_matches_at(a, i, sel, k) == complex_matches_at(b, i, sel, k),
    decreases k, i, 0int,
{
    lemma_compound_matches_congruent(a, b, i, part_at(sel, k));
    if k > 0 {
        if 0 <= i < a.len() {
            assert(a[i].parent == b[i].parent);
            match comb_at(sel, k) {
                Combinator::Child => {
                    match a[i].parent {
                        Some(p) => {
                            if 0 <= p.index < i {
                                lemma_complex_matches_at_congruent(a, b, p.index as int, sel, k - 1);
                            }
                        },
                        None => {},
                    }
                },
                Combinator::Descendant => {
                    lemma_ancestor_matches_congruent(a, b, i, sel, k - 1);
                },
            }
        } else {
            // An out-of-range subject matches no compound, so both sides
            // are false outright.
            assert(!compound_matches(a, i, part_at(sel, k)));
            assert(!compound_matches(b, i, part_at(sel, k)));
        }
    }
}

/// Congruence of [`ancestor_matches`] over match-equal arenas.
pub proof fn lemma_ancestor_matches_congruent(
    a: Seq<NodeInner<Element>>,
    b: Seq<NodeInner<Element>>,
    i: int,
    sel: ComplexSelector,
    k: int,
)
    requires
        match_eq(a, b),
    ensures
        ancestor_matches(a, i, sel, k) == ancestor_matches(b, i, sel, k),
    decreases k, i, 1int,
{
    if 0 <= i < a.len() {
        assert(a[i].parent == b[i].parent);
        match a[i].parent {
            Some(p) => {
                if 0 <= p.index < i {
                    lemma_complex_matches_at_congruent(a, b, p.index as int, sel, k);
                    lemma_ancestor_matches_congruent(a, b, p.index as int, sel, k);
                }
            },
            None => {},
        }
    }
}

/// Congruence of [`list_matches`] over match-equal arenas.
pub proof fn lemma_list_matches_congruent(
    a: Seq<NodeInner<Element>>,
    b: Seq<NodeInner<Element>>,
    i: int,
    list: Seq<ComplexSelector>,
)
    requires
        match_eq(a, b),
    ensures
        list_matches(a, i, list) == list_matches(b, i, list),
{
    assert forall|j: int|
        0 <= j < list.len() implies complex_matches(a, i, #[trigger] list[j]) == complex_matches(
        b,
        i,
        list[j],
    ) by {
        lemma_complex_matches_at_congruent(a, b, i, list[j], list[j].tail@.len() as int);
    }
}

/// The mathematical view of a compound selector: its parts as plain
/// character sequences.
pub struct CompoundView {
    pub local_name: Option<Seq<char>>,
    pub id: Option<Seq<char>>,
    pub classes: Seq<Seq<char>>,
}

/// The mathematical view of a complex selector.
pub struct ComplexView {
    pub head: CompoundView,
    pub tail: Seq<(Combinator, CompoundView)>,
}

/// The view of a compound selector.
pub open spec fn compound_view(c: CompoundSelector) -> CompoundView {
    CompoundView {
        local_name: opt_str_view(c.local_name),
        id: opt_str_view(c.id),
        classes: c.classes.deep_view(),
    }
}

/// The view of a complex selector's tail.
pub open spec fn tail_view(t: Seq<(Combinator, CompoundSelector)>) -> Seq<(Combinator, CompoundView)> {
    t.map_values(|p: (Combinator, CompoundSelector)| (p.0, compound_view(p.1)))
}

/// The view of a complex selector.
pub open spec fn complex_view(c: ComplexSelector) -> ComplexView {
    ComplexView { head: compound_view(c.head), tail: tail_view(c.tail@) }
}

/// The view of a selector sequence.
pub open spec fn sel_list_view(l: Seq<ComplexSelector>) -> Seq<ComplexView> {
    l.map_values(|c: ComplexSelector| complex_view(c))
}

/// Appending a pair extends the tail view by its view.
pub proof fn lemma_tail_view_push(t: Seq<(Combinator, CompoundSelector)>, x: (Combinator, CompoundSelector))
    ensures
        tail_view(t.push(x)) == tail_view(t).push((x.0, compound_view(x.1))),
{
    let a = tail_view(t.push(x));
    let b = tail_view(t).push((x.0, compound_view(x.1)));
    assert forall|i: int| 0 <= i < a.len() implies a[i] == b[i] by {}
    assert(a =~= b);
}

/// Appending a selector extends the list view by its view.
pub proof fn lemma_sel_list_view_push(l: Seq<ComplexSelector>, c: ComplexSelector)
    ensures
        sel_list_view(l.push(c)) == sel_list_view(l).push(complex_view(c)),
{
    let a = sel_list_view(l.push(c));
    let b = sel_list_view(l).push(complex_view(c));
    assert forall|i: int| 0 <= i < a.len() implies a[i] == b[i] by {}
    assert(a =~= b);
}

/// The view-level compound at position `k` (0 is the leftmost).
pub open spec fn part_at_v(sel: ComplexView, k: int) -> CompoundView {
    if k <= 0 {
        sel.head
    } else {
        sel.tail[k - 1].1
    }
}

/// The view-level combinator joining compound `k - 1` to compound `k`.
pub open spec fn comb_at_v(sel: ComplexView, k: int) -> Combinator {
    sel.tail[k - 1].0
}

/// [`compound_matches`], stated over the compound's view.
pub open spec fn compound_matches_v(
    ns: Seq<NodeInner<Element>>,
    i: int,
    c: CompoundView,
) -> bool {
    &&& 0 <= i < ns.len()
    &&& match c.local_name {
        Some(n) => n == spec_local_name(ns[i].data.data),
        None => true,
    }
    &&& match c.id {
        Some(sid) => match ns[i].data.id {
            Some(eid) => eid@ == sid,
            None => false,
        },
        None => true,
    }
    &&& forall|k: int|
        0 <= k < c.classes.len() ==> has_class(
            ns[i].data.classes.deep_view(),
            #[trigger] c.classes[k],
        )
}

/// [`complex_matches_at`], stated over the selector's view.
pub open spec fn complex_matches_at_v(
    ns: Seq<NodeInner<Element>>,
    i: int,
    sel: ComplexView,
    k: int,
) -> bool
    decreases k, i, 0int,
{
    &&& compound_matches_v(ns, i, part_at_v(sel, k))
    &&& if k <= 0 {
        true
    } else {
        match comb_at_v(sel, k) {
            Combinator::Child => match ns[i].parent {
                Some(p) => 0 <= p.index < i && complex_matches_at_v(ns, p.index as int, sel, k - 1),
                None => false,
            },
            Combinator::Descendant => ancestor_matches_v(ns, i, sel, k - 1),
        }
    }
}

/// [`ancestor_matches`], stated over the selector's view.
pub open spec fn ancestor_matches_v(
    ns: Seq<NodeInner<Element>>,
    i: int,
    sel: ComplexView,
    k: int,
) -> bool
    decreases k, i, 1int,
{
    if 0 <= i < ns.len() {
        match ns[i].parent {
            Some(p) => if 0 <= p.index < i {
                complex_matches_at_v(ns, p.index as int, sel, k) || ancestor_matches_v(
                    ns,
                    p.index as int,
                    sel,
                    k,
                )
            } else {
                false
            },
            None => false,
        }
    } else {
        false
    }
}

/// [`complex_matches`], stated over the selector's view.
pub open spec fn complex_matches_v(ns: Seq<NodeInner<Element>>, i: int, sel: ComplexView) -> bool {
    complex_matches_at_v(ns, i, sel, sel.tail.len() as int)
}

/// [`list_matches`], stated over the list's view.
pub open spec fn list_matches_v(
    ns: Seq<NodeInner<Element>>,
    i: int,
    list: Seq<ComplexView>,
) -> bool {
    exists|j: int| 0 <= j < list.len() && complex_matches_v(ns, i, #[trigger] list[j])
}

/// Matching a compound depends only on its view.
pub proof fn lemma_compound_matches_view(ns: Seq<NodeInner<Element>>, i: int, c: CompoundSelector)
    ensures
        compound_matches(ns, i, c) == compound_matches_v(ns, i, compound_view(c)),
{
    let cv = compound_view(c);
    assert(cv.classes.len() == c.classes@.len());
    assert forall|k: int| 0 <= k < c.classes@.len() implies #[trigger] cv.classes[k]
        == c.classes@[k]@ by {}
    if compound_matches(ns, i, c) {
        assert forall|k: int| 0 <= k < cv.classes.len() implies has_class(
            ns[i].data.classes.deep_view(),
            #[trigger] cv.classes[k],
        ) by {
            assert(has_class(ns[i].data.classes.deep_view(), c.classes@[k]@));
        }
        assert(compound_matches_v(ns, i, cv));
    }
    if compound_matches_v(ns, i, cv) {
        assert forall|k: int| 0 <= k < c.classes@.len() implies has_class(
            ns[i].data.classes.deep_view(),
            #[trigger] c.classes@[k]@,
        ) by {
            assert(has_class(ns[i].data.classes.deep_view(), cv.classes[k]));
        }
        assert(compound_matches(ns, i, c));
    }
}

/// Matching a complex selector prefix depends only on its view.
pub proof fn lemma_complex_matches_at_view(
    ns: Seq<NodeInner<Element>>,
    i: int,
    sel: ComplexSelector,
    k: int,
)
    requires
        k <= sel.tail@.len(),
    ensures
        complex_matches_at(ns, i, sel, k) == complex_matches_at_v(ns, i, complex_view(sel), k),
    decreases k, i, 0int,
{
    let sv = complex_view(sel);
    if k > 0 {
        assert(sv.tail[k - 1] == (sel.tail@[k - 1].0, compound_view(sel.tail@[k - 1].1)));
    }
    assert(part_at_v(sv, k) == compound_view(part_at(sel, k)));
    lemma_compound_matches_view(ns, i, part_at(sel, k));
    if k > 0 {
        assert(comb_at_v(sv, k) == comb_at(sel, k));
        if 0 <= i < ns.len() {
            match ns[i].parent {
                Some(p) => {
                    if 0 <= p.index < i {
                        lemma_complex_matches_at_view(ns, p.index as int, sel, k - 1);
                    }
                },
                None => {},
            }
            match comb_at(sel, k) {
                Combinator::Child => {},
                Combinator::Descendant => {
                    lemma_ancestor_matches_view(ns, i, sel, k - 1);
                },
            }
        } else {
            assert(!compound_matches(ns, i, part_at(sel, k)));
            assert(!compound_matches_v(ns, i, part_at_v(sv, k)));
        }
    }
}

/// Matching an ancestor chain depends only on the selector's view.
pub proof fn lemma_ancestor_matches_view(
    ns: Seq<NodeInner<Element>>,
    i: int,
    sel: ComplexSelector,
    k: int,
)
    requires
        k <= sel.tail@.len(),
    ensures
        ancestor_matches(ns, i, sel, k) == ancestor_matches_v(ns, i, complex_view(sel), k),
    decreases k, i, 1int,
{
    if 0 <= i < ns.len() {
        match ns[i].parent {
            Some(p) => {
                if 0 <= p.index < i {
                    lemma_complex_matches_at_view(ns, p.index as int, sel, k);
                    lemma_ancestor_matches_view(ns, p.index as int, sel, k);
                }
            },
            None => {},
        }
    }
}

/// Matching a selector list depends only on its view.
pub proof fn lemma_list_matches_view(ns: Seq<NodeInner<Element>>, i: int, l: Seq<ComplexSelector>)
    ensures
        list_matches(ns, i, l) == list_matches_v(ns, i, sel_list_view(l)),
{
    let lv = sel_list_view(l);
    assert forall|j: int| 0 <= j < l.len() implies complex_matches(ns, i, #[trigger] l[j])
        == complex_matches_v(ns, i, lv[j]) by {
        lemma_complex_matches_at_view(ns, i, l[j], l[j].tail@.len() as int);
        assert(lv[j] == complex_view(l[j]));
        assert(complex_view(l[j]).tail.len() == l[j].tail@.len());
    }
    if list_matches(ns, i, l) {
        let j = choose|j: int| 0 <= j < l.len() && complex_matches(ns, i, #[trigger] l[j]);
        assert(complex_matches_v(ns, i, lv[j]));
    }
    if list_matches_v(ns, i, lv) {
        let j = choose|j: int| 0 <= j < lv.len() && complex_matches_v(ns, i, #[trigger] lv[j]);
        assert(complex_matches(ns, i, l[j]));
    }
}

/// Exec mirror of [`compound_matches`].
fn compound_matches_exec(tree: &Tree<Element>, n: Node, c: &CompoundSelector) -> (r: bool)
    requires
        n.index < tree@.len(),
    ensures
        r == compound_matches(tree@, n.index as int, *c),
{
    let el = &n.inner(tree).data;
    let name_ok = match &c.local_name {
        Some(nm) => str_eq(nm.as_str(), el.get_local_name()),
        None => true,
    };
    if !name_ok {
        return false;
    }
    let id_ok = match &c.id {
        Some(sid) => match &el.id {
            Some(eid) => str_eq(eid.as_str(), sid.as_str()),
            None => false,
        },
        None => true,
    };
    if !id_ok {
        return false;
    }
    let mut k: usize = 0;
    while k < c.classes.len()
        invariant
            n.index < tree@.len(),
            *el == tree@[n.index as int].data,
            k <= c.classes@.len(),
            forall|x: int|
                0 <= x < k ==> has_class(
                    tree@[n.index as int].data.classes.deep_view(),
                    #[trigger] c.classes@[x]@,
                ),
        decreases c.classes@.len() - k,
    {
        if !class_list_contains(&el.classes, c.classes[k].as_str()) {
            return false;
        }
        k = k + 1;
    }
    true
}

/// Whether `classes` holds `want`, character for character.
fn class_list_contains(classes: &Vec<String>, want: &str) -> (r: bool)
    ensures
        r == has_class(classes.deep_view(), want@),
{
    let mut j: usize = 0;
    while j < classes.len()
        invariant
            j <= classes@.len(),
            forall|x: int| 0 <= x < j ==> classes.deep_view()[x] != want@,
        decreases classes@.len() - j,
    {
        if str_eq(classes[j].as_str(), want) {
            proof {
                assert(classes.deep_view()[j as int] == want@);
            }
            return true;
        }
        j = j + 1;
    }
    false
}

/// Exec mirror of [`complex_matches_at`], with `k` the compound position.
fn complex_matches_exec(tree: &Tree<Element>, n: Node, sel: &ComplexSelector, k: usize) -> (r:
    bool)
    requires
        tree.well_formed(),
        n.index < tree@.len(),
        k <= sel.tail@.len(),
    ensures
        r == complex_matches_at(tree@, n.index as int, *sel, k as int),
    decreases k, n.index, 0int,
{
    let part = if k == 0 {
        &sel.head
    } else {
        &sel.tail[k - 1].1
    };
    if !compound_matches_exec(tree, n, part) {
        return false;
    }
    if k == 0 {
        return true;
    }
    proof {
        assert(wf_at(tree@, n.index as int));
    }
    match sel.tail[k - 1].0 {
        Combinator::Child => match n.inner(tree).parent {
            Some(p) => complex_matches_exec(tree, p, sel, k - 1),
            None => false,
        },
        Combinator::Descendant => ancestor_matches_exec(tree, n, sel, k - 1),
    }
}

/// Exec mirror of [`ancestor_matches`].
fn ancestor_matches_exec(tree: &Tree<Element>, n: Node, sel: &ComplexSelector, k: usize) -> (r:
    bool)
    requires
        tree.well_formed(),
        n.index < tree@.len(),
        k <= sel.tail@.len(),
    ensures
        r == ancestor_matches(tree@, n.index as int, *sel, k as int),
    decreases k, n.index, 1int,
{
    proof {
        assert(wf_at(tree@, n.index as int));
    }
    match n.inner(tree).parent {
        Some(p) => {
            if complex_matches_exec(tree, p, sel, k) {
                true
            } else {
                ancestor_matches_exec(tree, p, sel, k)
            }
        },
        None => false,
    }
}

} // verus!
