use vstd::prelude::*;
use vstd::slice::slice_subrange;
use vstd::std_specs::iter::IteratorSpec;

use crate::key::NodeId;
use core::marker::PhantomData;

verus! {

/// One entry of a tree: the value, the index of the parent and the size of
/// the subtree below it.
#[derive(Debug, Clone, Copy, PartialEq, Eq)]
pub struct Node<V> {
    /// The stored value.
    pub value: V,
    /// Index of the parent node; a root holds its own index.
    parent: usize,
    /// How many nodes right after this one belong to its subtree.
    num_descendants: usize,
}

impl<V> Node<V> {
    /// The index of the parent node (its own index for a root).
    pub closed spec fn parent_index(&self) -> int {
        self.parent as int
    }

    /// The stored value.
    pub closed spec fn payload(&self) -> V {
        self.value
    }

    /// The number of nodes in the subtree below this node.
    pub closed spec fn descendant_count(&self) -> int {
        self.num_descendants as int
    }

    /// The id of the parent node. A root's parent is the root itself, so a
    /// walk upwards must stop where the parent equals the node.
    pub fn parent<K: NodeId>(&self) -> (r: K)
        ensures
            r.index_of() == self.parent_index(),
    {
        K::from_index(self.parent)
    }

    /// The number of descendants, not counting this node.
    pub fn num_descendants(&self) -> (r: usize)
        ensures
            r == self.descendant_count(),
    {
        self.num_descendants
    }
}

/// The values of a node sequence, in order.
pub open spec fn values_of<V>(ns: Seq<Node<V>>) -> Seq<V> {
    ns.map_values(|n: Node<V>| n.payload())
}

/// The parent index of each node.
pub open spec fn parents_of<V>(ns: Seq<Node<V>>) -> Seq<int> {
    ns.map_values(|n: Node<V>| n.parent_index())
}

/// The descendant count of each node.
pub open spec fn counts_of<V>(ns: Seq<Node<V>>) -> Seq<int> {
    ns.map_values(|n: Node<V>| n.descendant_count())
}

/// Node `a` lies on the chain of parents above node `j`.
pub open spec fn is_ancestor(ps: Seq<int>, a: int, j: int) -> bool
    decreases j,
{
    if 0 <= j < ps.len() && 0 <= ps[j] < j {
        ps[j] == a || is_ancestor(ps, a, ps[j])
    } else {
        false
    }
}

/// Node `j` is an immediate child of node `id`.
pub open spec fn is_child(ps: Seq<int>, id: int, j: int) -> bool {
    0 <= j < ps.len() && j != id && ps[j] == id
}

/// Node `j` is a root.
pub open spec fn is_root(ps: Seq<int>, j: int) -> bool {
    0 <= j < ps.len() && ps[j] == j
}

/// The children of `id` among the positions `lo .. hi`, in order.
pub open spec fn children_between(ps: Seq<int>, id: int, lo: int, hi: int) -> Seq<int>
    decreases hi - lo,
{
    if lo >= hi {
        Seq::empty()
    } else {
        let rest = children_between(ps, id, lo + 1, hi);
        if is_child(ps, id, lo) {
            seq![lo].add(rest)
        } else {
            rest
        }
    }
}

/// The immediate children of `id`, in order, found in its subtree; empty
/// when there is no node `id`.
pub open spec fn children_of(ps: Seq<int>, cs: Seq<int>, id: int) -> Seq<int> {
    if 0 <= id < ps.len() {
        children_between(ps, id, id + 1, id + 1 + cs[id])
    } else {
        Seq::empty()
    }
}

/// The ancestors of `j`, nearest first, up to and including a root.
pub open spec fn ancestor_chain(ps: Seq<int>, j: int) -> Seq<int>
    decreases j,
{
    if 0 <= j < ps.len() && 0 <= ps[j] < j {
        seq![ps[j]].add(ancestor_chain(ps, ps[j]))
    } else {
        Seq::empty()
    }
}

/// An ancestor comes before its descendants.
pub proof fn lemma_ancestor_before(ps: Seq<int>, a: int, j: int)
    requires
        is_ancestor(ps, a, j),
    ensures
        a < j,
    decreases j,
{
    let p = ps[j];
    if p != a {
        lemma_ancestor_before(ps, a, p);
    }
}

/// The ancestor relation is transitive.
pub proof fn lemma_ancestor_trans(ps: Seq<int>, a: int, b: int, c: int)
    requires
        is_ancestor(ps, a, b),
        is_ancestor(ps, b, c),
    ensures
        is_ancestor(ps, a, c),
    decreases c,
{
    let p = ps[c];
    if p != b {
        lemma_ancestor_trans(ps, a, b, p);
    }
}

/// Whether `a` is an ancestor of `j` depends only on the parents of the nodes
/// up to `j`.
pub(crate) proof fn lemma_ancestor_prefix(ns: Seq<int>, ms: Seq<int>, a: int, j: int)
    requires
        ns.len() <= ms.len(),
        0 <= j < ns.len(),
        forall|i: int| 0 <= i < ns.len() ==> #[trigger] ms[i] == ns[i],
    ensures
        is_ancestor(ms, a, j) == is_ancestor(ns, a, j),
    decreases j,
{
    let p = ns[j];
    if 0 <= p < j {
        lemma_ancestor_prefix(ns, ms, a, p);
    }
}

/// The shape invariant over the parent indices `ps`, the descendant counts
/// `cs` and the open nodes `st`: parents precede their children, every
/// subtree is the block of nodes right after its head, and the open nodes are
/// exactly the ancestors-or-self of the innermost one, whose blocks reach the
/// end.
pub open spec fn shape_wf(ps: Seq<int>, cs: Seq<int>, st: Seq<usize>) -> bool {
    &&& ps.len() == cs.len()
    &&& ps.len() <= usize::MAX
    &&& forall|j: int| 0 <= j < ps.len() ==> 0 <= #[trigger] ps[j] <= j
    &&& forall|i: int| 0 <= i < cs.len() ==> 0 <= #[trigger] cs[i] && i + cs[i] < cs.len()
    &&& forall|i: int, j: int|
        0 <= i < ps.len() && 0 <= j < ps.len() ==> (#[trigger] is_ancestor(ps, i, j) <==> (i < j
            <= i + cs[i]))
    &&& forall|k: int| 0 <= k < st.len() ==> #[trigger] st[k] < ps.len()
    &&& forall|k: int| 0 <= k < st.len() ==> #[trigger] st[k] + cs[st[k] as int] == cs.len() - 1
    &&& forall|m: int, k: int| 0 <= m < k < st.len() ==> #[trigger] st[m] < #[trigger] st[k]
    &&& forall|k: int, i: int|
        0 <= k < st.len() && 0 <= i < ps.len() ==> (#[trigger] is_ancestor(ps, i, st[k] as int)
            <==> st.subrange(0, k).contains(i as usize))
}

/// A tree stored in pre-order, with the stack of open nodes used while it is
/// built.
#[derive(Debug)]
pub struct Tree<K, V> {
    nodes: Vec<Node<V>>,
    parent_stack: Vec<usize>,
    key_type: PhantomData<K>,
}

impl<K, V: Clone> Clone for Tree<K, V> {
    fn clone(&self) -> (r: Self) {
        Tree { nodes: self.nodes.clone(), parent_stack: self.parent_stack.clone(), key_type: PhantomData }
    }
}

impl<K, V> Tree<K, V> {
    /// The nodes, in the order in which they were pushed.
    pub closed spec fn nodes(&self) -> Seq<Node<V>> {
        self.nodes@
    }

    /// The open nodes, outermost first.
    pub closed spec fn open_nodes(&self) -> Seq<usize> {
        self.parent_stack@
    }

    /// The values, in the order in which they were pushed.
    pub open spec fn values(&self) -> Seq<V> {
        values_of(self.nodes())
    }

    /// The parent index of each node.
    pub open spec fn parent_indices(&self) -> Seq<int> {
        parents_of(self.nodes())
    }

    /// The descendant count of each node.
    pub open spec fn counts(&self) -> Seq<int> {
        counts_of(self.nodes())
    }

    /// The descendant count of node `i`.
    pub open spec fn count(&self, i: int) -> int {
        self.counts()[i]
    }

    /// The parent index of node `i`.
    pub open spec fn parent_of(&self, i: int) -> int {
        self.parent_indices()[i]
    }

    /// The shape invariant: parents precede their children, every subtree is
    /// the block of nodes right after its head, and the open nodes are
    /// exactly the ancestors-or-self of the innermost one, whose blocks reach
    /// the end.
    pub open spec fn wf(&self) -> bool {
        shape_wf(self.parent_indices(), self.counts(), self.open_nodes())
    }
}

/// The descendant counts after a push: one more for each open node, and none
/// for the new node.
pub open spec fn bumped_counts(cs0: Seq<int>, st0: Seq<usize>) -> Seq<int> {
    Seq::new(
        cs0.len() + 1,
        |i: int|
            if i == cs0.len() {
                0
            } else if st0.contains(i as usize) {
                cs0[i] + 1
            } else {
                cs0[i]
            },
    )
}

/// Appending a node below the innermost open node (or as a root when none is
/// open), counting it in every open node, and opening it keeps the shape
/// well formed.
pub(crate) proof fn lemma_push_shape(ps0: Seq<int>, cs0: Seq<int>, st0: Seq<usize>, p: int)
    requires
        shape_wf(ps0, cs0, st0),
        ps0.len() < usize::MAX,
        p == if st0.len() == 0 {
            ps0.len() as int
        } else {
            st0.last() as int
        },
    ensures
        shape_wf(
            ps0.push(p),
            bumped_counts(cs0, st0),
            st0.push(ps0.len() as usize),
        ),
{
    let n = ps0.len() as int;
    let ps = ps0.push(p);
    let cs = bumped_counts(cs0, st0);
    let st = st0.push(n as usize);
    assert forall|i: int, j: int| 0 <= i < ps.len() && 0 <= j < n implies is_ancestor(ps, i, j)
        == is_ancestor(ps0, i, j) by {
        lemma_ancestor_prefix(ps0, ps, i, j);
    }
    assert forall|i: int| 0 <= i < ps.len() implies is_ancestor(ps, i, n) == st0.contains(
        i as usize,
    ) by {
        if is_ancestor(ps, i, n) {
            lemma_ancestor_before(ps, i, n);
        }
        if st0.len() > 0 {
            let last = st0.len() - 1;
            assert(st0[last] < n);
            if i < n {
                assert(is_ancestor(ps, i, p) == is_ancestor(ps0, i, p));
                assert(is_ancestor(ps0, i, st0[last] as int) == st0.subrange(0, last).contains(
                    i as usize,
                ));
                if st0.contains(i as usize) {
                    let m = choose|m: int| 0 <= m < st0.len() && st0[m] == i as usize;
                    if m < last {
                        assert(st0.subrange(0, last)[m] == i as usize);
                    }
                }
                if st0.subrange(0, last).contains(i as usize) {
                    let m = choose|m: int| 0 <= m < last && st0.subrange(0, last)[m] == i as usize;
                    assert(st0[m] == i as usize);
                }
                if p == i {
                    assert(st0[last] == i as usize);
                }
            } else {
                if st0.contains(i as usize) {
                    let m = choose|m: int| 0 <= m < st0.len() && st0[m] == i as usize;
                    assert(st0[m] < n);
                }
            }
        }
    }
    assert forall|i: int| 0 <= i < n && #[trigger] st0.contains(i as usize) implies cs0[i] == n - 1
        - i by {
        let m = choose|m: int| 0 <= m < st0.len() && st0[m] == i as usize;
        assert(st0[m] + cs0[st0[m] as int] == n - 1);
    }
    assert forall|i: int, j: int| 0 <= i < ps.len() && 0 <= j < ps.len() implies (
    #[trigger] is_ancestor(ps, i, j) <==> (i < j <= i + cs[i])) by {
        if is_ancestor(ps, i, j) {
            lemma_ancestor_before(ps, i, j);
        }
        if j < n && i < n {
            assert(is_ancestor(ps0, i, j) <==> (i < j <= i + cs0[i]));
        }
    }
    assert forall|k: int, i: int| 0 <= k < st.len() && 0 <= i < ps.len() implies (
    #[trigger] is_ancestor(ps, i, st[k] as int) <==> st.subrange(0, k).contains(i as usize)) by {
        if k < st0.len() {
            assert(st.subrange(0, k) =~= st0.subrange(0, k));
            assert(st[k] == st0[k]);
            assert(st0[k] < n);
            if i < n {
                assert(is_ancestor(ps0, i, st0[k] as int) <==> st0.subrange(0, k).contains(
                    i as usize,
                ));
            } else {
                if is_ancestor(ps, i, st[k] as int) {
                    lemma_ancestor_before(ps, i, st[k] as int);
                }
                if st0.subrange(0, k).contains(i as usize) {
                    let m = choose|m: int| 0 <= m < k && st0.subrange(0, k)[m] == i as usize;
                    assert(st0[m] < n);
                }
            }
        } else {
            assert(st.subrange(0, k) =~= st0);
        }
    }
    assert forall|k: int| 0 <= k < st.len() implies #[trigger] st[k] + cs[st[k] as int] == cs.len()
        - 1 by {
        if k < st0.len() {
            assert(st0.contains(st0[k]));
            assert(st[k] == st0[k]);
            assert(st0[k] < n);
        }
    }
    assert forall|i: int| 0 <= i < cs.len() implies 0 <= #[trigger] cs[i] && i + cs[i] < cs.len() by {
        if i < n {
            assert(0 <= cs0[i] && i + cs0[i] < n);
        }
    }
    assert forall|m: int, k: int| 0 <= m < k < st.len() implies #[trigger] st[m] < #[trigger] st[k] by {
        if k < st0.len() {
            assert(st0[m] < st0[k]);
        } else {
            assert(st0[m] < n);
        }
    }
}

/// Closing the innermost open node keeps the shape well formed.
pub(crate) proof fn lemma_pop_shape(ps: Seq<int>, cs: Seq<int>, st0: Seq<usize>)
    requires
        shape_wf(ps, cs, st0),
        st0.len() > 0,
    ensures
        shape_wf(ps, cs, st0.drop_last()),
{
    let st = st0.drop_last();
    assert forall|k: int, i: int| 0 <= k < st.len() && 0 <= i < ps.len() implies (
    #[trigger] is_ancestor(ps, i, st[k] as int) <==> st.subrange(0, k).contains(i as usize)) by {
        assert(st.subrange(0, k) =~= st0.subrange(0, k));
        assert(st[k] == st0[k]);
    }
    assert forall|m: int, k: int| 0 <= m < k < st.len() implies #[trigger] st[m] < #[trigger] st[k] by {
        assert(st0[m] < st0[k]);
    }
    assert forall|k: int| 0 <= k < st.len() implies #[trigger] st[k] < ps.len() && st[k] + cs[st[k] as int] == cs.len() - 1 by {
        assert(st[k] == st0[k]);
        assert(st0[k] < ps.len());
    }
}

impl<K: NodeId, V> Tree<K, V> {
    /// An empty tree.
    pub fn new() -> (r: Self)
        ensures
            r.wf(),
            r.nodes().len() == 0,
            r.open_nodes().len() == 0,
    {
        Tree { nodes: Vec::new(), parent_stack: Vec::new(), key_type: PhantomData }
    }

    /// An empty tree with room reserved for `capacity` nodes.
    pub fn with_capacity(capacity: usize) -> (r: Self)
        ensures
            r.wf(),
            r.nodes().len() == 0,
            r.open_nodes().len() == 0,
    {
        Tree { nodes: Vec::with_capacity(capacity), parent_stack: Vec::new(), key_type: PhantomData }
    }

    /// The number of nodes.
    pub fn len(&self) -> (r: usize)
        ensures
            r == self.nodes().len(),
    {
        self.nodes.len()
    }

    /// Whether the tree has no nodes.
    pub fn is_empty(&self) -> (r: bool)
        ensures
            r == (self.nodes().len() == 0),
    {
        self.nodes.len() == 0
    }

    /// Adds a node as the last child of the current node, or as a new root
    /// when no node is open, and makes it the current node.
    pub fn push(&mut self, value: V) -> (r: K)
        requires
            old(self).wf(),
            old(self).nodes().len() < usize::MAX,
        ensures
            final(self).wf(),
            r.index_of() == old(self).nodes().len(),
            final(self).nodes().len() == old(self).nodes().len() + 1,
            final(self).values() == old(self).values().push(value),
            final(self).open_nodes() == old(self).open_nodes().push(old(self).nodes().len() as usize),
            final(self).parent_of(old(self).nodes().len() as int) == if old(self).open_nodes().len()
                == 0 {
                old(self).nodes().len() as int
            } else {
                old(self).open_nodes().last() as int
            },
            final(self).count(old(self).nodes().len() as int) == 0,
            forall|i: int|
                0 <= i < old(self).nodes().len() ==> #[trigger] final(self).parent_of(i)
                    == old(self).parent_of(i),
            forall|i: int|
                0 <= i < old(self).nodes().len() ==> #[trigger] final(self).count(i) == old(
                    self,
                ).count(i) + if old(self).open_nodes().contains(i as usize) {
                    1int
                } else {
                    0int
                },
    {
        let ghost t0 = *self;
        let ghost ns0 = self.nodes@;
        let ghost st0 = self.parent_stack@;
        let id = self.nodes.len();
        let parent = if self.parent_stack.len() > 0 {
            self.parent_stack[self.parent_stack.len() - 1]
        } else {
            id
        };
        let ghost v = value;
        self.nodes.push(Node { value, parent, num_descendants: 0 });
        let ghost ns1 = self.nodes@;
        proof {
            assert forall|q: int| 0 <= q < st0.len() implies #[trigger] st0[q] < id && st0[q]
                + ns0[st0[q] as int].num_descendants == id - 1 by {
                assert(t0.open_nodes()[q] < t0.nodes().len());
                assert(t0.open_nodes()[q] + t0.nodes()[t0.open_nodes()[q] as int].descendant_count()
                    == t0.nodes().len() - 1);
            }
        }
        let mut k: usize = 0;
        while k < self.parent_stack.len()
            invariant
                self.parent_stack@ == st0,
                self.nodes@.len() == id + 1,
                ns0.len() == id,
                0 <= k <= st0.len(),
                forall|q: int| 0 <= q < st0.len() ==> #[trigger] st0[q] < id,
                forall|q: int| 0 <= q < st0.len() ==> #[trigger] st0[q] + ns0[st0[q] as int].num_descendants == id - 1,
                forall|m: int, q: int| 0 <= m < q < st0.len() ==> #[trigger] st0[m] < #[trigger] st0[q],
                ns1.len() == id + 1,
                forall|i: int| 0 <= i < id ==> #[trigger] ns1[i] == ns0[i],
                ns1[id as int].parent == parent,
                ns1[id as int].num_descendants == 0,
                ns1[id as int].value == v,
                forall|i: int| 0 <= i <= id ==> #[trigger] self.nodes@[i].parent == ns1[i].parent,
                forall|i: int| 0 <= i <= id ==> #[trigger] self.nodes@[i].value == ns1[i].value,
                forall|i: int|
                    0 <= i <= id ==> #[trigger] self.nodes@[i].num_descendants == ns1[i].num_descendants
                        + if st0.subrange(0, k as int).contains(i as usize) {
                        1int
                    } else {
                        0int
                    },
            decreases st0.len() - k,
        {
            let p = self.parent_stack[k];
            proof {
                assert(!st0.subrange(0, k as int).contains(p)) by {
                    if st0.subrange(0, k as int).contains(p) {
                        let m = choose|m: int| 0 <= m < k && st0.subrange(0, k as int)[m] == p;
                        assert(st0[m] < st0[k as int]);
                    }
                }
                assert(ns1[p as int] == ns0[p as int]);
            }
            let c = self.nodes[p].num_descendants;
            self.nodes[p].num_descendants = c + 1;
            proof {
                assert forall|i: int| 0 <= i <= id implies #[trigger] self.nodes@[i].num_descendants
                    == ns1[i].num_descendants + if st0.subrange(0, k + 1).contains(i as usize) {
                    1int
                } else {
                    0int
                } by {
                    let s0 = st0.subrange(0, k as int);
                    let s1 = st0.subrange(0, k + 1);
                    if s1.contains(i as usize) {
                        let m = choose|m: int| 0 <= m < s1.len() && s1[m] == i as usize;
                        if m < k {
                            assert(s0[m] == i as usize);
                        }
                    }
                    if s0.contains(i as usize) {
                        let m = choose|m: int| 0 <= m < s0.len() && s0[m] == i as usize;
                        assert(s1[m] == i as usize);
                    }
                    if i == p {
                        assert(s1[k as int] == i as usize);
                    }
                }
            }
            k = k + 1;
        }
        proof {
            assert(st0.subrange(0, st0.len() as int) =~= st0);
        }
        self.parent_stack.push(id);
        proof {
            lemma_push_shape(t0.parent_indices(), t0.counts(), st0, parent as int);
            assert(self.parent_indices() =~= t0.parent_indices().push(parent as int));
            assert(self.counts() =~= bumped_counts(t0.counts(), st0));
            assert(values_of(self.nodes@) =~= values_of(ns0).push(v));
        }
        K::from_index(id)
    }
}

impl<K: NodeId, V> Tree<K, V> {
    /// Closes the current node: its parent becomes the current node. Returns
    /// the new current node, or `None` when no node is open any more. With no
    /// open node this changes nothing; the next push then starts a new root.
    pub fn up(&mut self) -> (r: Option<K>)
        requires
            old(self).wf(),
        ensures
            final(self).wf(),
            final(self).nodes() == old(self).nodes(),
            final(self).open_nodes() == if old(self).open_nodes().len() == 0 {
                old(self).open_nodes()
            } else {
                old(self).open_nodes().drop_last()
            },
            final(self).open_nodes().len() == 0 ==> r is None,
            final(self).open_nodes().len() > 0 ==> (r matches Some(k) && k.index_of()
                == final(self).open_nodes().last()),
    {
        let ghost st0 = self.parent_stack@;
        let _ = self.parent_stack.pop();
        proof {
            if st0.len() > 0 {
                lemma_pop_shape(self.parent_indices(), self.counts(), st0);
            }
        }
        let n = self.parent_stack.len();
        if n > 0 {
            Some(K::from_index(self.parent_stack[n - 1]))
        } else {
            None
        }
    }

    /// The node with the given id, or `None` when there is none.
    pub fn get(&self, id: K) -> (r: Option<&Node<V>>)
        ensures
            id.index_of() < self.nodes().len() ==> r == Some(&self.nodes()[id.index_of() as int]),
            id.index_of() >= self.nodes().len() ==> r is None,
    {
        let i = id.into_index();
        if i < self.nodes.len() {
            Some(&self.nodes[i])
        } else {
            None
        }
    }

    /// The value of the node with the given id, for changing it in place; `None`
    /// when there is no such node. Only the value can change, so the shape of
    /// the tree stays as it was.
    pub fn get_mut(&mut self, id: K) -> (r: Option<&mut V>)
        requires
            old(self).wf(),
        ensures
            final(self).parent_indices() =~= old(self).parent_indices(),
            final(self).counts() =~= old(self).counts(),
            final(self).open_nodes() == old(self).open_nodes(),
            final(self).wf(),
            id.index_of() >= old(self).nodes().len() ==> r is None && final(self).values() == old(
                self,
            ).values(),
            id.index_of() < old(self).nodes().len() ==> r is Some && *r.unwrap() == old(
                self,
            ).values()[id.index_of() as int] && final(self).values() == old(
                self,
            ).values().update(id.index_of() as int, *final(r.unwrap())),
    {
        let i = id.into_index();
        if i < self.nodes.len() {
            Some(&mut self.nodes[i].value)
        } else {
            None
        }
    }
}

impl<K: NodeId, V> Tree<K, V> {
    /// The first node, normally the first root; `None` for an empty tree.
    pub fn first(&self) -> (r: Option<&Node<V>>)
        ensures
            self.nodes().len() == 0 ==> r is None,
            self.nodes().len() > 0 ==> r == Some(&self.nodes()[0]),
    {
        if self.nodes.len() > 0 {
            Some(&self.nodes[0])
        } else {
            None
        }
    }

    /// The value of the first node, for changing it in place.
    pub fn first_mut(&mut self) -> (r: Option<&mut V>)
        requires
            old(self).wf(),
        ensures
            final(self).parent_indices() =~= old(self).parent_indices(),
            final(self).counts() =~= old(self).counts(),
            final(self).open_nodes() == old(self).open_nodes(),
            final(self).wf(),
            old(self).nodes().len() == 0 ==> r is None && final(self).values() == old(
                self,
            ).values(),
            old(self).nodes().len() > 0 ==> r is Some && *r.unwrap() == old(self).values()[0]
                && final(self).values() == old(self).values().update(0, *final(r.unwrap())),
    {
        if self.nodes.len() > 0 {
            Some(&mut self.nodes[0].value)
        } else {
            None
        }
    }

    /// The most recently pushed node; `None` for an empty tree.
    pub fn last(&self) -> (r: Option<&Node<V>>)
        ensures
            self.nodes().len() == 0 ==> r is None,
            self.nodes().len() > 0 ==> r == Some(&self.nodes().last()),
    {
        let n = self.nodes.len();
        if n > 0 {
            Some(&self.nodes[n - 1])
        } else {
            None
        }
    }

    /// The value of the most recently pushed node, for changing it in place.
    pub fn last_mut(&mut self) -> (r: Option<&mut V>)
        requires
            old(self).wf(),
        ensures
            final(self).parent_indices() =~= old(self).parent_indices(),
            final(self).counts() =~= old(self).counts(),
            final(self).open_nodes() == old(self).open_nodes(),
            final(self).wf(),
            old(self).nodes().len() == 0 ==> r is None && final(self).values() == old(
                self,
            ).values(),
            old(self).nodes().len() > 0 ==> r is Some && *r.unwrap() == old(self).values().last()
                && final(self).values() == old(self).values().update(
                old(self).nodes().len() - 1,
                *final(r.unwrap()),
            ),
    {
        let n = self.nodes.len();
        if n > 0 {
            self.get_mut(K::from_index(n - 1))
        } else {
            None
        }
    }

    /// All nodes, in the order in which they were pushed (pre-order).
    pub fn all(&self) -> (r: &[Node<V>])
        ensures
            r@ == self.nodes(),
    {
        self.nodes.as_slice()
    }

    /// The nodes of the subtree below `id`, in pre-order; empty when there
    /// is no node `id`.
    pub fn descendents(&self, id: K) -> (r: &[Node<V>])
        requires
            self.wf(),
        ensures
            id.index_of() < self.nodes().len() ==> r@ == self.nodes().subrange(
                id.index_of() + 1int,
                id.index_of() + 1int + self.count(id.index_of() as int),
            ),
            id.index_of() >= self.nodes().len() ==> r@.len() == 0,
    {
        let i = id.into_index();
        let all = self.nodes.as_slice();
        if i < self.nodes.len() {
            proof {
                assert(self.counts()[i as int] == self.nodes@[i as int].num_descendants);
            }
            let n = self.nodes[i].num_descendants;
            slice_subrange(all, i + 1, i + 1 + n)
        } else {
            slice_subrange(all, 0, 0)
        }
    }
}

/// The node right after a node with descendants is its first child.
pub(crate) proof fn lemma_first_child(ps: Seq<int>, cs: Seq<int>, st: Seq<usize>, id: int)
    requires
        shape_wf(ps, cs, st),
        0 <= id < ps.len(),
        cs[id] > 0,
    ensures
        is_child(ps, id, id + 1),
{
    assert(is_ancestor(ps, id, id + 1));
    if ps[id + 1] != id {
        lemma_ancestor_before(ps, id, ps[id + 1]);
    }
}

/// No node inside the subtree of a child of `id` is itself a child of `id`.
pub(crate) proof fn lemma_inside_child(ps: Seq<int>, cs: Seq<int>, st: Seq<usize>, id: int, c: int, j: int)
    requires
        shape_wf(ps, cs, st),
        is_child(ps, id, c),
        c < j <= c + cs[c],
    ensures
        !is_child(ps, id, j),
{
    assert(is_ancestor(ps, c, j));
    if ps[j] == id {
        if ps[j] != c {
            lemma_ancestor_before(ps, c, id);
        }
    }
}

/// The subtree of a child of `id` lies inside the subtree of `id`, and the
/// node right after it, if still inside, is the next child of `id`.
pub(crate) proof fn lemma_next_child(ps: Seq<int>, cs: Seq<int>, st: Seq<usize>, id: int, c: int)
    requires
        shape_wf(ps, cs, st),
        0 <= id < ps.len(),
        is_child(ps, id, c),
    ensures
        id < c,
        c + cs[c] <= id + cs[id],
        c + cs[c] + 1 <= id + cs[id] ==> is_child(ps, id, c + cs[c] + 1),
{
    assert(is_ancestor(ps, id, c));
    if cs[c] > 0 {
        assert(is_ancestor(ps, c, c + cs[c]));
        lemma_ancestor_trans(ps, id, c, c + cs[c]);
    }
    let x = c + cs[c] + 1;
    if x <= id + cs[id] {
        assert(is_ancestor(ps, id, x));
        let p = ps[x];
        if p != id {
            lemma_ancestor_before(ps, id, p);
            assert(is_ancestor(ps, p, x));
            if p < c {
                assert(is_ancestor(ps, p, c));
                if ps[c] != p {
                    lemma_ancestor_before(ps, p, id);
                }
            } else if p > c {
                assert(is_ancestor(ps, c, p));
                lemma_ancestor_trans(ps, c, p, x);
            }
        }
    }
}

/// Dropping a stretch without children of `id` from the front of a range
/// does not change its children.
pub(crate) proof fn lemma_children_skip(ps: Seq<int>, id: int, lo: int, mid: int, hi: int)
    requires
        lo <= mid <= hi,
        forall|j: int| lo <= j < mid ==> !#[trigger] is_child(ps, id, j),
    ensures
        children_between(ps, id, lo, hi) == children_between(ps, id, mid, hi),
    decreases mid - lo,
{
    if lo < mid {
        lemma_children_skip(ps, id, lo + 1, mid, hi);
    }
}

/// The children of `id` in a range are those of its two halves, in order.
pub(crate) proof fn lemma_children_split(ps: Seq<int>, id: int, lo: int, mid: int, hi: int)
    requires
        lo <= mid <= hi,
    ensures
        children_between(ps, id, lo, hi) == children_between(ps, id, lo, mid).add(
            children_between(ps, id, mid, hi),
        ),
    decreases mid - lo,
{
    if lo < mid {
        lemma_children_split(ps, id, lo + 1, mid, hi);
        if is_child(ps, id, lo) {
            assert(seq![lo].add(children_between(ps, id, lo + 1, mid)).add(
                children_between(ps, id, mid, hi),
            ) =~= seq![lo].add(
                children_between(ps, id, lo + 1, mid).add(children_between(ps, id, mid, hi)),
            ));
        }
    } else {
        assert(children_between(ps, id, lo, mid).add(children_between(ps, id, mid, hi))
            =~= children_between(ps, id, mid, hi));
    }
}

/// A walk over the ancestors of a node, nearest first.
pub struct ParentIter<'a, K, V> {
    id: usize,
    tree: &'a Tree<K, V>,
}

impl<'a, K: NodeId, V> ParentIter<'a, K, V> {
    /// The tree being walked.
    pub closed spec fn tree(&self) -> Tree<K, V> {
        *self.tree
    }

    /// The indices still to come.
    pub closed spec fn remaining(&self) -> Seq<int> {
        ancestor_chain(self.tree.parent_indices(), self.id as int)
    }

    /// The next ancestor, with its id; `None` once a root has been reached.
    pub fn next(&mut self) -> (r: Option<(K, &'a Node<V>)>)
        requires
            old(self).tree().wf(),
        ensures
            final(self).tree() == old(self).tree(),
            old(self).remaining().len() == 0 ==> r is None && final(self).remaining() == old(
                self,
            ).remaining(),
            old(self).remaining().len() > 0 ==> r is Some && r.unwrap().0.index_of() == old(
                self,
            ).remaining()[0] && *r.unwrap().1 == old(self).tree().nodes()[old(
                self,
            ).remaining()[0]] && final(self).remaining() == old(self).remaining().drop_first(),
    {
        let tree = self.tree;
        if self.id < tree.nodes.len() {
            let p = tree.nodes[self.id].parent;
            proof {
                assert(tree.parent_indices()[self.id as int] == p as int);
            }
            if p != self.id {
                let ghost before = self.remaining();
                self.id = p;
                proof {
                    assert(before == seq![p as int].add(self.remaining()));
                    assert(before.drop_first() =~= self.remaining());
                }
                Some((K::from_index(p), &tree.nodes[p]))
            } else {
                None
            }
        } else {
            None
        }
    }
}

/// A walk over the immediate children of a node, in order, jumping over the
/// subtree of each child.
pub struct ChildrenIter<'a, K, V> {
    current_id: usize,
    max_id: usize,
    tree: &'a Tree<K, V>,
    parent: Ghost<int>,
}

impl<'a, K: NodeId, V> ChildrenIter<'a, K, V> {
    /// The tree being walked.
    pub closed spec fn tree(&self) -> Tree<K, V> {
        *self.tree
    }

    /// The indices still to come.
    pub closed spec fn remaining(&self) -> Seq<int> {
        if self.current_id <= self.max_id {
            children_between(
                self.tree.parent_indices(),
                self.parent@,
                self.current_id as int,
                self.max_id + 1,
            )
        } else {
            Seq::empty()
        }
    }

    /// The walk is at a child of its node, or done.
    pub closed spec fn inv(&self) -> bool {
        &&& self.tree.wf()
        &&& self.current_id <= self.max_id ==> {
            &&& 0 <= self.parent@ < self.tree.nodes().len()
            &&& self.max_id == self.parent@ + self.tree.count(self.parent@)
            &&& is_child(self.tree.parent_indices(), self.parent@, self.current_id as int)
        }
    }

    /// The next child, with its id; `None` after the last one.
    pub fn next(&mut self) -> (r: Option<(K, &'a Node<V>)>)
        requires
            old(self).inv(),
        ensures
            final(self).inv(),
            final(self).tree() == old(self).tree(),
            old(self).remaining().len() == 0 ==> r is None && final(self).remaining() == old(
                self,
            ).remaining(),
            old(self).remaining().len() > 0 ==> r is Some && r.unwrap().0.index_of() == old(
                self,
            ).remaining()[0] && *r.unwrap().1 == old(self).tree().nodes()[old(
                self,
            ).remaining()[0]] && final(self).remaining() == old(self).remaining().drop_first(),
    {
        if self.current_id <= self.max_id {
            let tree = self.tree;
            let cur = self.current_id;
            let ghost ps = tree.parent_indices();
            let ghost cs = tree.counts();
            let ghost id = self.parent@;
            let ghost before = self.remaining();
            proof {
                lemma_next_child(ps, cs, tree.open_nodes(), id, cur as int);
                assert(cs[cur as int] == tree.nodes@[cur as int].num_descendants);
            }
            let node = &tree.nodes[cur];
            let next = cur + node.num_descendants + 1;
            self.current_id = next;
            proof {
                assert forall|j: int| cur + 1 <= j < next implies !#[trigger] is_child(
                    ps,
                    id,
                    j,
                ) by {
                    lemma_inside_child(ps, cs, tree.open_nodes(), id, cur as int, j);
                }
                lemma_children_skip(ps, id, cur + 1, next as int, self.max_id + 1);
                assert(before == seq![cur as int].add(children_between(ps, id, cur + 1, self.max_id + 1)));
                assert(before.drop_first() =~= self.remaining());
            }
            Some((K::from_index(cur), node))
        } else {
            None
        }
    }
}

impl<K: NodeId, V> Tree<K, V> {
    /// A walk over the ancestors of `id`, nearest first, not including `id`
    /// itself; empty when there is no node `id`.
    pub fn parents(&self, id: K) -> (r: ParentIter<'_, K, V>)
        requires
            self.wf(),
        ensures
            r.tree() == *self,
            r.remaining() == ancestor_chain(self.parent_indices(), id.index_of() as int),
    {
        ParentIter { id: id.into_index(), tree: self }
    }

    /// A walk over the immediate children of `id`, in order; empty when there
    /// is no node `id`.
    pub fn children(&self, id: K) -> (r: ChildrenIter<'_, K, V>)
        requires
            self.wf(),
        ensures
            r.inv(),
            r.tree() == *self,
            r.remaining() == children_of(self.parent_indices(), self.counts(), id.index_of() as int),
    {
        let i = id.into_index();
        if i < self.nodes.len() {
            let n = self.nodes[i].num_descendants;
            proof {
                assert(self.counts()[i as int] == n);
                if n > 0 {
                    lemma_first_child(self.parent_indices(), self.counts(), self.open_nodes(), i as int);
                }
            }
            ChildrenIter { current_id: i + 1, max_id: i + n, tree: self, parent: Ghost(i as int) }
        } else {
            ChildrenIter { current_id: 1, max_id: 0, tree: self, parent: Ghost(i as int) }
        }
    }
}

impl<K: NodeId, V> Tree<K, V> {
    /// All nodes by reference, in the order in which they were pushed.
    pub fn iter(&self) -> (r: core::slice::Iter<'_, Node<V>>)
        ensures
            r.remaining() == self.nodes().map_values(|n: Node<V>| &n),
    {
        broadcast use vstd::std_specs::slice::axiom_spec_slice_iter;

        let r = self.nodes.as_slice().iter();
        proof {
            assert(self.nodes@.as_ref() =~= self.nodes().map_values(|n: Node<V>| &n));
        }
        r
    }

    /// All nodes by value, in the order in which they were pushed.
    pub fn into_iter(self) -> (r: std::vec::IntoIter<Node<V>>)
        ensures
            r.remaining() == self.nodes(),
    {
        broadcast use vstd::std_specs::vec::axiom_spec_into_iter;

        self.nodes.into_iter()
    }
}

impl<K, V> Default for Tree<K, V> {
    fn default() -> (r: Self)
        ensures
            r.nodes().len() == 0,
            r.open_nodes().len() == 0,
    {
        Tree { nodes: Vec::new(), parent_stack: Vec::new(), key_type: PhantomData }
    }
}

} // verus!
