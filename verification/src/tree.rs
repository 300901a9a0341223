//! The owned document tree: an arena of nodes addressed by stable indices.
//!
//! Nodes hold parent / sibling / child links as indices into the arena, so the
//! structure is acyclic by construction (a link always points at an
//! earlier-created node, except forward sibling and child links, which point
//! at later-created ones). Mutation is limited to [`Node::append`]; all
//! navigation is read-only.

use vstd::prelude::*;

verus! {

/// A handle to a node: a stable index into its tree's arena.
#[derive(Clone, Copy, PartialEq, Eq, Structural, Debug)]
pub struct Node {
    pub index: usize,
}

/// The stored record of one node: its links and its payload.
///
/// The link fields are written only by [`Tree::new`] and [`Node::append`];
/// holders of a shared borrow can read them freely.
#[derive(Debug)]
pub struct NodeInner<T> {
    pub parent: Option<Node>,
    pub previous_sibling: Option<Node>,
    pub next_sibling: Option<Node>,
    pub first_child: Option<Node>,
    pub last_child: Option<Node>,
    pub data: T,
}

impl<T> NodeInner<T> {
    pub fn parent(&self) -> (r: Option<Node>)
        ensures
            r == self.parent,
    {
        self.parent
    }

    pub fn previous_sibling(&self) -> (r: Option<Node>)
        ensures
            r == self.previous_sibling,
    {
        self.previous_sibling
    }

    pub fn next_sibling(&self) -> (r: Option<Node>)
        ensures
            r == self.next_sibling,
    {
        self.next_sibling
    }

    pub fn first_child(&self) -> (r: Option<Node>)
        ensures
            r == self.first_child,
    {
        self.first_child
    }

    pub fn last_child(&self) -> (r: Option<Node>)
        ensures
            r == self.last_child,
    {
        self.last_child
    }
}

/// The arena that owns every node of one document tree.
#[derive(Debug)]
pub struct Tree<T> {
    nodes: Vec<NodeInner<T>>,
}

/// Well-formedness of the record at index `i` relative to the whole arena.
pub open spec fn wf_at<T>(ns: Seq<NodeInner<T>>, i: int) -> bool {
    let n = ns[i];
    &&& match n.parent {
        Some(p) => p.index < i && ns[p.index as int].first_child is Some,
        None => i == 0,
    }
    &&& match n.previous_sibling {
        Some(s) => {
            &&& s.index < i
            &&& ns[s.index as int].next_sibling == Some(Node { index: i as usize })
            &&& ns[s.index as int].parent == n.parent
        },
        None => match n.parent {
            Some(p) => ns[p.index as int].first_child == Some(Node { index: i as usize }),
            None => true,
        },
    }
    &&& match n.next_sibling {
        Some(s) => {
            &&& i < s.index < ns.len()
            &&& ns[s.index as int].previous_sibling == Some(Node { index: i as usize })
            &&& ns[s.index as int].parent == n.parent
        },
        None => match n.parent {
            Some(p) => ns[p.index as int].last_child == Some(Node { index: i as usize }),
            None => true,
        },
    }
    &&& match n.first_child {
        Some(c) => {
            &&& i < c.index < ns.len()
            &&& ns[c.index as int].parent == Some(Node { index: i as usize })
            &&& ns[c.index as int].previous_sibling is None
        },
        None => n.last_child is None,
    }
    &&& match n.last_child {
        Some(c) => {
            &&& i < c.index < ns.len()
            &&& ns[c.index as int].parent == Some(Node { index: i as usize })
            &&& ns[c.index as int].next_sibling is None
        },
        None => n.first_child is None,
    }
}

/// Well-formedness of a whole arena: non-empty, rooted at index 0, and every
/// record's links consistent with its neighbours'.
pub open spec fn wf<T>(ns: Seq<NodeInner<T>>) -> bool {
    &&& 1 <= ns.len()
    &&& forall|i: int| 0 <= i < ns.len() ==> wf_at(ns, i)
}

/// Rank used to show that walking forward sibling links terminates.
pub open spec fn chain_rank<T>(ns: Seq<NodeInner<T>>, cur: Option<Node>) -> int {
    match cur {
        Some(c) => if c.index < ns.len() {
            ns.len() - c.index
        } else {
            0
        },
        None => 0,
    }
}

/// The sibling chain starting at `cur`, following `next_sibling` links.
pub open spec fn sibling_chain<T>(ns: Seq<NodeInner<T>>, cur: Option<Node>) -> Seq<Node>
    decreases chain_rank(ns, cur),
{
    match cur {
        None => Seq::empty(),
        Some(c) => if c.index < ns.len() {
            match ns[c.index as int].next_sibling {
                Some(s) => if c.index < s.index && s.index < ns.len() {
                    seq![c] + sibling_chain(ns, Some(s))
                } else {
                    seq![c]
                },
                None => seq![c],
            }
        } else {
            Seq::empty()
        },
    }
}

/// Whether following the forward link out of `c` stays strictly
/// index-increasing (always true in a well-formed arena).
pub open spec fn step_ok<T>(ns: Seq<NodeInner<T>>, c: Node, next: Option<Node>) -> bool {
    match next {
        Some(s) => c.index < s.index && s.index < ns.len(),
        None => true,
    }
}

/// The nodes of the subtree rooted at `c`, in pre-order (a node before its
/// descendants, children in insertion order).
pub open spec fn subtree<T>(ns: Seq<NodeInner<T>>, c: Node) -> Seq<Node>
    decreases ns.len() - c.index, 0int,
{
    if c.index < ns.len() {
        let first = ns[c.index as int].first_child;
        if step_ok(ns, c, first) {
            seq![c] + forest(ns, first)
        } else {
            seq![c]
        }
    } else {
        seq![c]
    }
}

/// The concatenated pre-order subtrees of the sibling chain starting at
/// `cur`.
pub open spec fn forest<T>(ns: Seq<NodeInner<T>>, cur: Option<Node>) -> Seq<Node>
    decreases chain_rank(ns, cur), 1int,
{
    match cur {
        None => Seq::empty(),
        Some(c) => if c.index < ns.len() {
            let next = ns[c.index as int].next_sibling;
            if step_ok(ns, c, next) {
                subtree(ns, c) + forest(ns, next)
            } else {
                subtree(ns, c)
            }
        } else {
            Seq::empty()
        },
    }
}

impl<T> Tree<T> {
    /// The arena contents, for use in specifications.
    pub closed spec fn view(&self) -> Seq<NodeInner<T>> {
        self.nodes@
    }

    /// Whether this tree's links are consistent.
    pub open spec fn well_formed(&self) -> bool {
        wf(self@)
    }

    /// Creates a tree holding a single root node carrying `root_data`.
    pub fn new(root_data: T) -> (r: Tree<T>)
        ensures
            r.well_formed(),
            r@.len() == 1,
            r@[0].data == root_data,
            r@[0].parent is None,
            r@[0].first_child is None,
    {
        let root = NodeInner {
            parent: None,
            previous_sibling: None,
            next_sibling: None,
            first_child: None,
            last_child: None,
            data: root_data,
        };
        let mut nodes = Vec::new();
        nodes.push(root);
        let t = Tree { nodes };
        proof {
            assert forall|i: int| 0 <= i < t@.len() implies wf_at(t@, i) by {}
        }
        t
    }

    /// The root node handle.
    pub fn root(&self) -> (r: Node)
        ensures
            r == (Node { index: 0 }),
    {
        Node { index: 0 }
    }

    /// Number of nodes in the arena.
    pub fn len(&self) -> (r: usize)
        ensures
            r == self@.len(),
    {
        self.nodes.len()
    }

    /// Swaps the payload of `n` for `data`, returning the old payload and
    /// leaving every link and every other node unchanged.
    pub fn swap_data(&mut self, n: Node, data: T) -> (old_data: T)
        requires
            n.index < old(self)@.len(),
        ensures
            final(self)@.len() == old(self)@.len(),
            final(self)@[n.index as int].data == data,
            old_data == old(self)@[n.index as int].data,
            links_eq(final(self)@, old(self)@),
            forall|i: int|
                0 <= i < old(self)@.len() && i != n.index ==> final(self)@[i] == old(self)@[i],
            old(self).well_formed() ==> final(self).well_formed(),
    {
        let i = n.index;
        let mut tmp = data;
        core::mem::swap(&mut self.nodes[i].data, &mut tmp);
        proof {
            if wf(old(self)@) {
                assert forall|j: int| 0 <= j < self@.len() implies wf_at(self@, j) by {
                    assert(wf_at(old(self)@, j));
                }
            }
        }
        tmp
    }

    /// Replaces the payload of `n`, leaving every link and every other node
    /// unchanged.
    pub fn set_data(&mut self, n: Node, data: T)
        requires
            n.index < old(self)@.len(),
        ensures
            final(self)@.len() == old(self)@.len(),
            final(self)@[n.index as int].data == data,
            links_eq(final(self)@, old(self)@),
            forall|i: int|
                0 <= i < old(self)@.len() && i != n.index ==> final(self)@[i] == old(self)@[i],
            old(self).well_formed() ==> final(self).well_formed(),
    {
        let i = n.index;
        self.nodes[i].data = data;
        proof {
            if wf(old(self)@) {
                assert forall|j: int| 0 <= j < self@.len() implies wf_at(self@, j) by {
                    assert(wf_at(old(self)@, j));
                }
            }
        }
    }
}

/// The first element of a subtree is its root.
proof fn lemma_subtree_head<T>(ns: Seq<NodeInner<T>>, c: Node)
    ensures
        subtree(ns, c).len() >= 1,
        subtree(ns, c)[0] == c,
{
}

/// A sibling chain is closed under forward links: when it holds `s`, it
/// also holds `s`'s next sibling.
proof fn lemma_chain_next<T>(ns: Seq<NodeInner<T>>, cur: Option<Node>, s: Node, t: Node)
    requires
        sibling_chain(ns, cur).contains(s),
        s.index < ns.len(),
        ns[s.index as int].next_sibling == Some(t),
        s.index < t.index < ns.len(),
    ensures
        sibling_chain(ns, cur).contains(t),
    decreases chain_rank(ns, cur),
{
    match cur {
        None => {
            assert(false);
        },
        Some(c) => {
            if c.index >= ns.len() {
                assert(false);
            } else if c == s {
                let chain = sibling_chain(ns, cur);
                assert(chain == seq![c] + sibling_chain(ns, Some(t)));
                assert(sibling_chain(ns, Some(t))[0] == t);
                assert(chain[1] == t);
            } else {
                let chain = sibling_chain(ns, cur);
                match ns[c.index as int].next_sibling {
                    Some(nx) => {
                        if c.index < nx.index && nx.index < ns.len() {
                            let k = choose|k: int| 0 <= k < chain.len() && chain[k] == s;
                            assert(chain[k] == (seq![c] + sibling_chain(ns, Some(nx)))[k]);
                            assert(k > 0);
                            assert(sibling_chain(ns, Some(nx))[k - 1] == s);
                            lemma_chain_next(ns, Some(nx), s, t);
                            let j = choose|j: int|
                                0 <= j < sibling_chain(ns, Some(nx)).len() && sibling_chain(
                                    ns,
                                    Some(nx),
                                )[j] == t;
                            assert(chain[j + 1] == t);
                        } else {
                            assert(chain == seq![c]);
                            assert(false);
                        }
                    },
                    None => {
                        assert(chain == seq![c]);
                        assert(false);
                    },
                }
            }
        },
    }
}

/// Every non-root node of a well-formed arena sits in its parent's child
/// chain.
proof fn lemma_in_parent_chain<T>(ns: Seq<NodeInner<T>>, i: int)
    requires
        wf(ns),
        0 < i < ns.len(),
    ensures
        match ns[i].parent {
            Some(p) => sibling_chain(ns, ns[p.index as int].first_child).contains(
                Node { index: i as usize },
            ),
            None => false,
        },
    decreases i,
{
    assert(wf_at(ns, i));
    let me = Node { index: i as usize };
    match ns[i].parent {
        Some(p) => {
            match ns[i].previous_sibling {
                None => {
                    assert(ns[p.index as int].first_child == Some(me));
                    assert(sibling_chain(ns, Some(me))[0] == me);
                },
                Some(s) => {
                    assert(wf_at(ns, s.index as int));
                    assert(s.index > 0) by {
                        if s.index == 0 {
                            assert(wf_at(ns, 0));
                        }
                    }
                    lemma_in_parent_chain(ns, s.index as int);
                    lemma_chain_next(ns, ns[p.index as int].first_child, s, me);
                },
            }
        },
        None => {
            assert(false);
        },
    }
}

/// A chain member sits in the chain's forest.
proof fn lemma_chain_to_forest<T>(ns: Seq<NodeInner<T>>, cur: Option<Node>, x: Node)
    requires
        sibling_chain(ns, cur).contains(x),
    ensures
        forest(ns, cur).contains(x),
    decreases chain_rank(ns, cur),
{
    match cur {
        None => {
            assert(false);
        },
        Some(c) => {
            if c.index >= ns.len() {
                assert(false);
            } else if x == c {
                lemma_subtree_head(ns, c);
                assert(forest(ns, cur)[0] == c);
            } else {
                let chain = sibling_chain(ns, cur);
                let next = ns[c.index as int].next_sibling;
                match next {
                    Some(nx) => {
                        if c.index < nx.index && nx.index < ns.len() {
                            let k = choose|k: int| 0 <= k < chain.len() && chain[k] == x;
                            assert(k > 0);
                            assert(sibling_chain(ns, Some(nx))[k - 1] == x);
                            lemma_chain_to_forest(ns, Some(nx), x);
                            let j = choose|j: int|
                                0 <= j < forest(ns, Some(nx)).len() && forest(ns, Some(nx))[j]
                                    == x;
                            assert(forest(ns, cur)[subtree(ns, c).len() + j] == x);
                        } else {
                            assert(chain == seq![c]);
                            assert(false);
                        }
                    },
                    None => {
                        assert(chain == seq![c]);
                        assert(false);
                    },
                }
            }
        },
    }
}

/// Subtree membership is transitive: what a contained node's subtree
/// holds, the outer subtree holds too.
proof fn lemma_subtree_trans<T>(ns: Seq<NodeInner<T>>, r: Node, x: Node, y: Node)
    requires
        subtree(ns, r).contains(x),
        subtree(ns, x).contains(y),
    ensures
        subtree(ns, r).contains(y),
    decreases ns.len() - r.index, 0int,
{
    if r.index >= ns.len() {
        assert(subtree(ns, r) == seq![r]);
        assert(x == r);
    } else {
        let first = ns[r.index as int].first_child;
        if step_ok(ns, r, first) {
            let st = subtree(ns, r);
            assert(st == seq![r] + forest(ns, first));
            if x == r {
            } else {
                let k = choose|k: int| 0 <= k < st.len() && st[k] == x;
                assert(k > 0);
                assert(forest(ns, first)[k - 1] == x);
                lemma_forest_trans(ns, first, x, y);
                let j = choose|j: int|
                    0 <= j < forest(ns, first).len() && forest(ns, first)[j] == y;
                assert(st[j + 1] == y);
            }
        } else {
            assert(subtree(ns, r) == seq![r]);
            assert(x == r);
        }
    }
}

/// Forest membership is transitive in the same way.
proof fn lemma_forest_trans<T>(ns: Seq<NodeInner<T>>, cur: Option<Node>, x: Node, y: Node)
    requires
        forest(ns, cur).contains(x),
        subtree(ns, x).contains(y),
    ensures
        forest(ns, cur).contains(y),
    decreases chain_rank(ns, cur), 1int,
{
    match cur {
        None => {
            assert(false);
        },
        Some(c) => {
            if c.index >= ns.len() {
                assert(false);
            } else {
                let next = ns[c.index as int].next_sibling;
                let fr = forest(ns, cur);
                if step_ok(ns, c, next) {
                    assert(fr == subtree(ns, c) + forest(ns, next));
                    let k = choose|k: int| 0 <= k < fr.len() && fr[k] == x;
                    if k < subtree(ns, c).len() {
                        assert(subtree(ns, c)[k] == x);
                        lemma_subtree_trans(ns, c, x, y);
                        let j = choose|j: int|
                            0 <= j < subtree(ns, c).len() && subtree(ns, c)[j] == y;
                        assert(fr[j] == y);
                    } else {
                        assert(forest(ns, next)[k - subtree(ns, c).len()] == x);
                        lemma_forest_trans(ns, next, x, y);
                        let j = choose|j: int|
                            0 <= j < forest(ns, next).len() && forest(ns, next)[j] == y;
                        assert(fr[subtree(ns, c).len() + j] == y);
                    }
                } else {
                    assert(fr == subtree(ns, c));
                    lemma_subtree_trans(ns, c, x, y);
                }
            }
        },
    }
}

/// Completeness of the pre-order enumeration: in a well-formed arena,
/// the subtree of the root holds every node, so a scan of it (as
/// selector queries perform) considers the whole document.
pub proof fn lemma_subtree_complete<T>(ns: Seq<NodeInner<T>>, i: int)
    requires
        wf(ns),
        0 <= i < ns.len(),
    ensures
        subtree(ns, Node { index: 0 }).contains(Node { index: i as usize }),
    decreases i,
{
    let root = Node { index: 0 };
    let me = Node { index: i as usize };
    if i == 0 {
        lemma_subtree_head(ns, root);
    } else {
        assert(wf_at(ns, i));
        match ns[i].parent {
            Some(p) => {
                lemma_subtree_complete(ns, p.index as int);
                lemma_in_parent_chain(ns, i);
                let first = ns[p.index as int].first_child;
                lemma_chain_to_forest(ns, first, me);
                assert(wf_at(ns, p.index as int));
                let pn = Node { index: p.index };
                assert(step_ok(ns, pn, first)) by {
                    match first {
                        Some(c) => {},
                        None => {
                            // An empty chain holds nothing, yet it holds
                            // this node.
                            assert(sibling_chain(ns, first).len() == 0);
                        },
                    }
                }
                assert(subtree(ns, pn) == seq![pn] + forest(ns, first));
                let j = choose|j: int|
                    0 <= j < forest(ns, first).len() && forest(ns, first)[j] == me;
                assert(subtree(ns, pn)[j + 1] == me);
                lemma_subtree_trans(ns, root, pn, me);
            },
            None => {
                assert(false);
            },
        }
    }
}

impl<T> Tree<T> {
    /// Adopts a record vector as a tree after checking every link
    /// condition; refuses inconsistent links.
    pub fn from_nodes(nodes: Vec<NodeInner<T>>) -> (r: Option<Tree<T>>)
        ensures
            match r {
                Some(t) => t@ == nodes@ && t.well_formed(),
                None => !wf(nodes@),
            },
    {
        if nodes.len() == 0 {
            return None;
        }
        let n = nodes.len();
        let mut i: usize = 0;
        while i < n
            invariant
                n == nodes@.len(),
                i <= n,
                forall|j: int| 0 <= j < i ==> wf_at(nodes@, j),
            decreases n - i,
        {
            if !wf_check_at(&nodes, i) {
                return None;
            }
            i = i + 1;
        }
        Some(Tree { nodes })
    }
}

/// Whether the optional link `l` points at index `i`.
fn link_is(l: &Option<Node>, i: usize) -> (r: bool)
    ensures
        r == (*l == Some(Node { index: i })),
{
    match l {
        Some(n) => n.index == i,
        None => false,
    }
}

/// Whether two optional links are equal.
fn link_eq(a: &Option<Node>, b: &Option<Node>) -> (r: bool)
    ensures
        r == (*a == *b),
{
    match (a, b) {
        (Some(x), Some(y)) => x.index == y.index,
        (None, None) => true,
        _ => false,
    }
}

/// Exec mirror of [`wf_at`].
fn wf_check_at<T>(nodes: &Vec<NodeInner<T>>, i: usize) -> (r: bool)
    requires
        i < nodes@.len(),
    ensures
        r == wf_at(nodes@, i as int),
{
    let n = nodes.len();
    let parent_ok = match &nodes[i].parent {
        Some(p) => p.index < i && matches!(nodes[p.index].first_child, Some(_)),
        None => i == 0,
    };
    if !parent_ok {
        return false;
    }
    let prev_ok = match &nodes[i].previous_sibling {
        Some(s) => s.index < i && link_is(&nodes[s.index].next_sibling, i) && link_eq(
            &nodes[s.index].parent,
            &nodes[i].parent,
        ),
        None => match &nodes[i].parent {
            Some(p) => link_is(&nodes[p.index].first_child, i),
            None => true,
        },
    };
    if !prev_ok {
        return false;
    }
    let next_ok = match &nodes[i].next_sibling {
        Some(s) => i < s.index && s.index < n && link_is(&nodes[s.index].previous_sibling, i)
            && link_eq(&nodes[s.index].parent, &nodes[i].parent),
        None => match &nodes[i].parent {
            Some(p) => link_is(&nodes[p.index].last_child, i),
            None => true,
        },
    };
    if !next_ok {
        return false;
    }
    let first_ok = match &nodes[i].first_child {
        Some(c) => i < c.index && c.index < n && link_is(&nodes[c.index].parent, i) && matches!(
            nodes[c.index].previous_sibling,
            None,
        ),
        None => matches!(nodes[i].last_child, None),
    };
    if !first_ok {
        return false;
    }
    match &nodes[i].last_child {
        Some(c) => i < c.index && c.index < n && link_is(&nodes[c.index].parent, i) && matches!(
            nodes[c.index].next_sibling,
            None,
        ),
        None => matches!(nodes[i].first_child, None),
    }
}

/// Whether two arenas have identical length and identical links everywhere
/// (payloads may differ).
pub open spec fn links_eq<T>(a: Seq<NodeInner<T>>, b: Seq<NodeInner<T>>) -> bool {
    &&& a.len() == b.len()
    &&& forall|i: int|
        0 <= i < a.len() ==> {
            &&& a[i].parent == b[i].parent
            &&& a[i].previous_sibling == b[i].previous_sibling
            &&& a[i].next_sibling == b[i].next_sibling
            &&& a[i].first_child == b[i].first_child
            &&& a[i].last_child == b[i].last_child
        }
}

impl Node {
    /// Shared access to this node's record.
    pub fn inner<'a, T>(&self, tree: &'a Tree<T>) -> (r: &'a NodeInner<T>)
        requires
            self.index < tree@.len(),
        ensures
            *r == tree@[self.index as int],
    {
        proof {
            assert(tree@.len() == tree.view().len());
        }
        tree_index(tree, self.index)
    }

    /// Appends `data` as the last child of `self`, in document order, and
    /// returns the handle of the new node.
    pub fn append<T>(&self, tree: &mut Tree<T>, data: T) -> (r: Node)
        requires
            old(tree).well_formed(),
            self.index < old(tree)@.len(),
        ensures
            final(tree).well_formed(),
            r.index == old(tree)@.len(),
            final(tree)@.len() == old(tree)@.len() + 1,
            final(tree)@[r.index as int].data == data,
            final(tree)@[r.index as int].parent == Some(*self),
            final(tree)@[r.index as int].first_child is None,
            final(tree)@[r.index as int].last_child is None,
            final(tree)@[r.index as int].next_sibling is None,
            final(tree)@[r.index as int].previous_sibling == old(tree)@[self.index as int].last_child,
            final(tree)@[self.index as int].last_child == Some(r),
            final(tree)@[self.index as int].first_child == (match old(tree)@[self.index as int].first_child {
                Some(c) => Some(c),
                None => Some(r),
            }),
            final(tree)@[self.index as int].data == old(tree)@[self.index as int].data,
            final(tree)@[self.index as int].parent == old(tree)@[self.index as int].parent,
            final(tree)@[self.index as int].previous_sibling == old(tree)@[self.index as int].previous_sibling,
            final(tree)@[self.index as int].next_sibling == old(tree)@[self.index as int].next_sibling,
            // Untouched records keep their value; the old last child (if any)
            // gains the new node as its next sibling.
            forall|i: int|
                0 <= i < old(tree)@.len() && i != self.index
                    && Some(Node { index: i as usize }) != old(tree)@[self.index as int].last_child
                    ==> final(tree)@[i] == old(tree)@[i],
            match old(tree)@[self.index as int].last_child {
                Some(l) => {
                    &&& final(tree)@[l.index as int].next_sibling == Some(r)
                    &&& final(tree)@[l.index as int].data == old(tree)@[l.index as int].data
                    &&& final(tree)@[l.index as int].parent == old(tree)@[l.index as int].parent
                    &&& final(tree)@[l.index as int].first_child == old(tree)@[l.index as int].first_child
                    &&& final(tree)@[l.index as int].last_child == old(tree)@[l.index as int].last_child
                    &&& final(tree)@[l.index as int].previous_sibling == old(tree)@[l.index as int].previous_sibling
                },
                None => true,
            },
    {
        let parent_idx = self.index;
        let new_index = tree.nodes.len();
        let old_last = tree.nodes[parent_idx].last_child;
        let rec = NodeInner {
            parent: Some(*self),
            previous_sibling: old_last,
            next_sibling: None,
            first_child: None,
            last_child: None,
            data,
        };
        tree.nodes.push(rec);
        match old_last {
            Some(l) => {
                proof {
                    assert(wf_at(old(tree)@, parent_idx as int));
                }
                set_next_sibling(tree, l.index, Some(Node { index: new_index }));
                set_last_child(tree, parent_idx, Some(Node { index: new_index }));
            },
            None => {
                set_first_child(tree, parent_idx, Some(Node { index: new_index }));
                set_last_child(tree, parent_idx, Some(Node { index: new_index }));
            },
        }
        let r = Node { index: new_index };
        proof {
            let oldns = old(tree)@;
            let ns = tree@;
            assert(wf_at(oldns, parent_idx as int));
            assert forall|i: int| 0 <= i < ns.len() implies wf_at(ns, i) by {
                if i < oldns.len() {
                    assert(wf_at(oldns, i));
                } else {
                    assert(i == new_index);
                }
            }
        }
        r
    }
}

impl Node {
    /// The ordered children of this node.
    pub fn children<T>(&self, tree: &Tree<T>) -> (r: Children)
        requires
            tree.well_formed(),
            self.index < tree@.len(),
        ensures
            r.items@ == sibling_chain(tree@, tree@[self.index as int].first_child),
            r.pos == 0,
            forall|k: int| 0 <= k < r.items@.len() ==> #[trigger] r.items@[k].index < tree@.len(),
    {
        let mut items: Vec<Node> = Vec::new();
        proof {
            assert(wf_at(tree@, self.index as int));
        }
        let first = tree_index(tree, self.index).first_child;
        collect_chain(tree, first, &mut items);
        Children { items, pos: 0 }
    }

    /// The nodes of the subtree rooted at this node, in pre-order.
    pub fn descendants<T>(&self, tree: &Tree<T>) -> (r: Descendants)
        requires
            tree.well_formed(),
            self.index < tree@.len(),
        ensures
            r.items@ == subtree(tree@, *self),
            r.pos == 0,
            forall|k: int| 0 <= k < r.items@.len() ==> #[trigger] r.items@[k].index < tree@.len(),
    {
        let mut items: Vec<Node> = Vec::new();
        collect_subtree(tree, *self, &mut items);
        Descendants { items, pos: 0 }
    }

    /// The start/end edges of a depth-first walk of the subtree rooted at
    /// this node: each node's `Start` edge comes before its descendants'
    /// edges, its `End` edge after them.
    pub fn traverse<T>(&self, tree: &Tree<T>) -> (r: Traverse)
        requires
            tree.well_formed(),
            self.index < tree@.len(),
        ensures
            r.items@ == subtree_edges(tree@, *self),
            r.pos == 0,
    {
        let mut items: Vec<NodeEdge> = Vec::new();
        collect_subtree_edges(tree, *self, &mut items);
        Traverse { items, pos: 0 }
    }
}

/// Appends the sibling chain starting at `cur` to `out`.
fn collect_chain<T>(tree: &Tree<T>, cur: Option<Node>, out: &mut Vec<Node>)
    requires
        tree.well_formed(),
        match cur {
            Some(c) => c.index < tree@.len(),
            None => true,
        },
    ensures
        final(out)@ == old(out)@ + sibling_chain(tree@, cur),
        forall|k: int|
            old(out)@.len() <= k < final(out)@.len() ==> #[trigger] final(out)@[k].index
                < tree@.len(),
    decreases chain_rank(tree@, cur),
{
    match cur {
        None => {
            proof {
                assert(out@ =~= out@ + sibling_chain(tree@, cur));
            }
        },
        Some(c) => {
            proof {
                assert(wf_at(tree@, c.index as int));
            }
            out.push(c);
            let next = tree_index(tree, c.index).next_sibling;
            collect_chain(tree, next, out);
            proof {
                assert(out@ =~= old(out)@ + sibling_chain(tree@, cur));
            }
        },
    }
}

/// Appends the pre-order subtree of `c` to `out`.
fn collect_subtree<T>(tree: &Tree<T>, c: Node, out: &mut Vec<Node>)
    requires
        tree.well_formed(),
        c.index < tree@.len(),
    ensures
        final(out)@ == old(out)@ + subtree(tree@, c),
        forall|k: int|
            old(out)@.len() <= k < final(out)@.len() ==> #[trigger] final(out)@[k].index
                < tree@.len(),
    decreases tree@.len() - c.index, 0int,
{
    proof {
        assert(wf_at(tree@, c.index as int));
    }
    out.push(c);
    let first = tree_index(tree, c.index).first_child;
    collect_forest(tree, first, out);
    proof {
        assert(out@ =~= old(out)@ + subtree(tree@, c));
    }
}

/// Appends the concatenated pre-order subtrees of the chain at `cur` to
/// `out`.
fn collect_forest<T>(tree: &Tree<T>, cur: Option<Node>, out: &mut Vec<Node>)
    requires
        tree.well_formed(),
        match cur {
            Some(c) => c.index < tree@.len(),
            None => true,
        },
    ensures
        final(out)@ == old(out)@ + forest(tree@, cur),
        forall|k: int|
            old(out)@.len() <= k < final(out)@.len() ==> #[trigger] final(out)@[k].index
                < tree@.len(),
    decreases chain_rank(tree@, cur), 1int,
{
    match cur {
        None => {
            proof {
                assert(out@ =~= out@ + forest(tree@, cur));
            }
        },
        Some(c) => {
            proof {
                assert(wf_at(tree@, c.index as int));
            }
            collect_subtree(tree, c, out);
            let next = tree_index(tree, c.index).next_sibling;
            collect_forest(tree, next, out);
            proof {
                assert(out@ =~= old(out)@ + forest(tree@, cur));
            }
        },
    }
}

/// Appends the depth-first edge walk of the subtree of `c` to `out`.
fn collect_subtree_edges<T>(tree: &Tree<T>, c: Node, out: &mut Vec<NodeEdge>)
    requires
        tree.well_formed(),
        c.index < tree@.len(),
    ensures
        final(out)@ == old(out)@ + subtree_edges(tree@, c),
    decreases tree@.len() - c.index, 0int,
{
    proof {
        assert(wf_at(tree@, c.index as int));
    }
    out.push(NodeEdge::Start(c));
    let first = tree_index(tree, c.index).first_child;
    collect_forest_edges(tree, first, out);
    out.push(NodeEdge::End(c));
    proof {
        assert(out@ =~= old(out)@ + subtree_edges(tree@, c));
    }
}

/// Appends the concatenated edge walks of the chain at `cur` to `out`.
fn collect_forest_edges<T>(tree: &Tree<T>, cur: Option<Node>, out: &mut Vec<NodeEdge>)
    requires
        tree.well_formed(),
        match cur {
            Some(c) => c.index < tree@.len(),
            None => true,
        },
    ensures
        final(out)@ == old(out)@ + forest_edges(tree@, cur),
    decreases chain_rank(tree@, cur), 1int,
{
    match cur {
        None => {
            proof {
                assert(out@ =~= out@ + forest_edges(tree@, cur));
            }
        },
        Some(c) => {
            proof {
                assert(wf_at(tree@, c.index as int));
            }
            collect_subtree_edges(tree, c, out);
            let next = tree_index(tree, c.index).next_sibling;
            collect_forest_edges(tree, next, out);
            proof {
                assert(out@ =~= old(out)@ + forest_edges(tree@, cur));
            }
        },
    }
}

/// One edge of a depth-first walk: the opening or the closing side of a node.
#[derive(Clone, Copy, PartialEq, Eq, Structural, Debug)]
pub enum NodeEdge {
    /// Yielded before the node's descendants.
    Start(Node),
    /// Yielded after the node's descendants.
    End(Node),
}

/// The start/end edges of the subtree rooted at `c`, depth-first.
pub open spec fn subtree_edges<T>(ns: Seq<NodeInner<T>>, c: Node) -> Seq<NodeEdge>
    decreases ns.len() - c.index, 0int,
{
    if c.index < ns.len() {
        let first = ns[c.index as int].first_child;
        if step_ok(ns, c, first) {
            seq![NodeEdge::Start(c)] + forest_edges(ns, first) + seq![NodeEdge::End(c)]
        } else {
            seq![NodeEdge::Start(c), NodeEdge::End(c)]
        }
    } else {
        seq![NodeEdge::Start(c), NodeEdge::End(c)]
    }
}

/// The concatenated edge walks of the sibling chain starting at `cur`.
pub open spec fn forest_edges<T>(ns: Seq<NodeInner<T>>, cur: Option<Node>) -> Seq<NodeEdge>
    decreases chain_rank(ns, cur), 1int,
{
    match cur {
        None => Seq::empty(),
        Some(c) => if c.index < ns.len() {
            let next = ns[c.index as int].next_sibling;
            if step_ok(ns, c, next) {
                subtree_edges(ns, c) + forest_edges(ns, next)
            } else {
                subtree_edges(ns, c)
            }
        } else {
            Seq::empty()
        },
    }
}

/// The ordered children of one node, produced up front; `next` hands them
/// out one at a time.
pub struct Children {
    pub items: Vec<Node>,
    pub pos: usize,
}

impl Children {
    /// The next child in document order, if any.
    pub fn next(&mut self) -> (r: Option<Node>)
        ensures
            final(self).items == old(self).items,
            r == (if old(self).pos < old(self).items@.len() {
                Some(old(self).items@[old(self).pos as int])
            } else {
                None::<Node>
            }),
            final(self).pos == (if old(self).pos < old(self).items@.len() {
                old(self).pos + 1
            } else {
                old(self).pos as int
            }),
    {
        if self.pos < self.items.len() {
            let r = self.items[self.pos];
            self.pos = self.pos + 1;
            Some(r)
        } else {
            None
        }
    }
}

/// The pre-order subtree of one node, produced up front; `next` hands the
/// nodes out one at a time.
pub struct Descendants {
    pub items: Vec<Node>,
    pub pos: usize,
}

impl Descendants {
    /// The next node in pre-order, if any.
    pub fn next(&mut self) -> (r: Option<Node>)
        ensures
            final(self).items == old(self).items,
            r == (if old(self).pos < old(self).items@.len() {
                Some(old(self).items@[old(self).pos as int])
            } else {
                None::<Node>
            }),
            final(self).pos == (if old(self).pos < old(self).items@.len() {
                old(self).pos + 1
            } else {
                old(self).pos as int
            }),
    {
        if self.pos < self.items.len() {
            let r = self.items[self.pos];
            self.pos = self.pos + 1;
            Some(r)
        } else {
            None
        }
    }
}

/// The depth-first edge walk of one node's subtree, produced up front;
/// `next` hands the edges out one at a time.
pub struct Traverse {
    pub items: Vec<NodeEdge>,
    pub pos: usize,
}

impl Traverse {
    /// The next edge of the walk, if any.
    pub fn next(&mut self) -> (r: Option<NodeEdge>)
        ensures
            final(self).items == old(self).items,
            r == (if old(self).pos < old(self).items@.len() {
                Some(old(self).items@[old(self).pos as int])
            } else {
                None::<NodeEdge>
            }),
            final(self).pos == (if old(self).pos < old(self).items@.len() {
                old(self).pos + 1
            } else {
                old(self).pos as int
            }),
    {
        if self.pos < self.items.len() {
            let r = self.items[self.pos];
            self.pos = self.pos + 1;
            Some(r)
        } else {
            None
        }
    }

    /// The edge a running walk would yield directly after `cur`, or `None`
    /// when `cur` closes the node the walk started from (`root`).
    ///
    /// `Start` of a node is followed by `Start` of its first child, or by its
    /// own `End` when it has none; `End` of a node is followed by `Start` of
    /// its next sibling, or by its parent's `End`.
    pub fn next_of_next<T>(tree: &Tree<T>, root: Node, cur: NodeEdge) -> (r: Option<NodeEdge>)
        requires
            tree.well_formed(),
            match cur {
                NodeEdge::Start(n) => n.index < tree@.len(),
                NodeEdge::End(n) => n.index < tree@.len(),
            },
        ensures
            r == (match cur {
                NodeEdge::Start(n) => match tree@[n.index as int].first_child {
                    Some(c) => Some(NodeEdge::Start(c)),
                    None => Some(NodeEdge::End(n)),
                },
                NodeEdge::End(n) => if n == root {
                    None::<NodeEdge>
                } else {
                    match tree@[n.index as int].next_sibling {
                        Some(s) => Some(NodeEdge::Start(s)),
                        None => match tree@[n.index as int].parent {
                            Some(p) => Some(NodeEdge::End(p)),
                            None => None::<NodeEdge>,
                        },
                    }
                },
            }),
    {
        match cur {
            NodeEdge::Start(n) => match tree_index(tree, n.index).first_child {
                Some(c) => Some(NodeEdge::Start(c)),
                None => Some(NodeEdge::End(n)),
            },
            NodeEdge::End(n) => {
                if n == root {
                    return None;
                }
                match tree_index(tree, n.index).next_sibling {
                    Some(s) => Some(NodeEdge::Start(s)),
                    None => match tree_index(tree, n.index).parent {
                        Some(p) => Some(NodeEdge::End(p)),
                        None => None,
                    },
                }
            },
        }
    }
}

/// Shared indexing into the arena.
fn tree_index<'a, T>(tree: &'a Tree<T>, i: usize) -> (r: &'a NodeInner<T>)
    requires
        i < tree@.len(),
    ensures
        *r == tree@[i as int],
{
    &tree.nodes[i]
}

/// Overwrites the `next_sibling` link of record `i`.
fn set_next_sibling<T>(tree: &mut Tree<T>, i: usize, v: Option<Node>)
    requires
        i < old(tree)@.len(),
    ensures
        final(tree)@.len() == old(tree)@.len(),
        final(tree)@[i as int].next_sibling == v,
        final(tree)@[i as int].parent == old(tree)@[i as int].parent,
        final(tree)@[i as int].previous_sibling == old(tree)@[i as int].previous_sibling,
        final(tree)@[i as int].first_child == old(tree)@[i as int].first_child,
        final(tree)@[i as int].last_child == old(tree)@[i as int].last_child,
        final(tree)@[i as int].data == old(tree)@[i as int].data,
        forall|j: int| 0 <= j < old(tree)@.len() && j != i ==> final(tree)@[j] == old(tree)@[j],
{
    tree.nodes[i].next_sibling = v;
}

/// Overwrites the `first_child` link of record `i`.
fn set_first_child<T>(tree: &mut Tree<T>, i: usize, v: Option<Node>)
    requires
        i < old(tree)@.len(),
    ensures
        final(tree)@.len() == old(tree)@.len(),
        final(tree)@[i as int].first_child == v,
        final(tree)@[i as int].parent == old(tree)@[i as int].parent,
        final(tree)@[i as int].previous_sibling == old(tree)@[i as int].previous_sibling,
        final(tree)@[i as int].next_sibling == old(tree)@[i as int].next_sibling,
        final(tree)@[i as int].last_child == old(tree)@[i as int].last_child,
        final(tree)@[i as int].data == old(tree)@[i as int].data,
        forall|j: int| 0 <= j < old(tree)@.len() && j != i ==> final(tree)@[j] == old(tree)@[j],
{
    tree.nodes[i].first_child = v;
}

/// Overwrites the `last_child` link of record `i`.
fn set_last_child<T>(tree: &mut Tree<T>, i: usize, v: Option<Node>)
    requires
        i < old(tree)@.len(),
    ensures
        final(tree)@.len() == old(tree)@.len(),
        final(tree)@[i as int].last_child == v,
        final(tree)@[i as int].parent == old(tree)@[i as int].parent,
        final(tree)@[i as int].previous_sibling == old(tree)@[i as int].previous_sibling,
        final(tree)@[i as int].next_sibling == old(tree)@[i as int].next_sibling,
        final(tree)@[i as int].first_child == old(tree)@[i as int].first_child,
        final(tree)@[i as int].data == old(tree)@[i as int].data,
        forall|j: int| 0 <= j < old(tree)@.len() && j != i ==> final(tree)@[j] == old(tree)@[j],
{
    tree.nodes[i].last_child = v;
}

} // verus!
