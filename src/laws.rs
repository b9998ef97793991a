use vstd::prelude::*;
use vstd::set_lib::{lemma_int_range, set_int_range};

use crate::tree::{
    ancestor_chain, children_between, children_of, is_ancestor, is_child, is_root,
    lemma_children_skip, lemma_children_split, Tree,
};

verus! {

/// Every node is counted by exactly the nodes above it: the descendants of
/// node `i` are the nodes whose chain of parents passes through `i`, and
/// there are `count(i)` of them, right after `i`.
pub proof fn lemma_descendant_count<K, V>(t: Tree<K, V>, i: int)
    requires
        t.wf(),
        0 <= i < t.nodes().len(),
    ensures
        Set::new(|j: int| 0 <= j < t.nodes().len() && is_ancestor(t.parent_indices(), i, j))
            == set_int_range(i + 1, i + 1 + t.count(i)),
        Set::new(|j: int| 0 <= j < t.nodes().len() && is_ancestor(t.parent_indices(), i, j)).len()
            == t.count(i),
{
    let ps = t.parent_indices();
    let cs = t.counts();
    assert(0 <= cs[i] && i + cs[i] < cs.len());
    assert(Set::new(|j: int| 0 <= j < t.nodes().len() && is_ancestor(ps, i, j)) =~= set_int_range(
        i + 1,
        i + 1 + t.count(i),
    ));
    lemma_int_range(i + 1, i + 1 + t.count(i));
}

/// The children of `id` among `lo .. hi` are exactly the nodes there whose
/// parent is `id`, in increasing order.
pub proof fn lemma_children_between_members(ps: Seq<int>, id: int, lo: int, hi: int)
    ensures
        forall|j: int|
            #[trigger] children_between(ps, id, lo, hi).contains(j) <==> (lo <= j < hi && is_child(
                ps,
                id,
                j,
            )),
        forall|a: int, b: int|
            0 <= a < b < children_between(ps, id, lo, hi).len() ==> #[trigger] children_between(
                ps,
                id,
                lo,
                hi,
            )[a] < #[trigger] children_between(ps, id, lo, hi)[b],
    decreases hi - lo,
{
    if lo < hi {
        lemma_children_between_members(ps, id, lo + 1, hi);
        let rest = children_between(ps, id, lo + 1, hi);
        let s = children_between(ps, id, lo, hi);
        if is_child(ps, id, lo) {
            assert(s == seq![lo].add(rest));
            assert forall|j: int| #[trigger] s.contains(j) <==> (lo <= j < hi && is_child(ps, id, j)) by {
                assert(rest.contains(j) <==> (lo + 1 <= j < hi && is_child(ps, id, j)));
                if j == lo {
                    assert(s[0] == lo);
                } else if s.contains(j) {
                    let k = choose|k: int| 0 <= k < s.len() && s[k] == j;
                    assert(rest[k - 1] == j);
                } else if rest.contains(j) {
                    let k = choose|k: int| 0 <= k < rest.len() && rest[k] == j;
                    assert(s[k + 1] == j);
                }
            }
            assert forall|a: int, b: int| 0 <= a < b < s.len() implies #[trigger] s[a] < #[trigger] s[b] by {
                assert(rest.contains(s[b]));
                if a > 0 {
                    assert(s[a] == rest[a - 1] && s[b] == rest[b - 1]);
                }
            }
        }
    }
}

/// Walking the children of `id` by jumping over each child's subtree finds
/// the same nodes, in the same order, as keeping those nodes of the whole
/// tree whose parent is `id`; that is, exactly the immediate children in the
/// order in which they were pushed.
pub proof fn lemma_children_walk<K, V>(t: Tree<K, V>, id: int)
    requires
        t.wf(),
        0 <= id < t.nodes().len(),
    ensures
        children_of(t.parent_indices(), t.counts(), id) == children_between(
            t.parent_indices(),
            id,
            0,
            t.nodes().len() as int,
        ),
        forall|j: int|
            #[trigger] children_of(t.parent_indices(), t.counts(), id).contains(j) <==> is_child(
                t.parent_indices(),
                id,
                j,
            ),
        forall|a: int, b: int|
            0 <= a < b < children_of(t.parent_indices(), t.counts(), id).len() ==> #[trigger] children_of(
                t.parent_indices(),
                t.counts(),
                id,
            )[a] < #[trigger] children_of(t.parent_indices(), t.counts(), id)[b],
{
    let ps = t.parent_indices();
    let cs = t.counts();
    let n = ps.len() as int;
    let end = id + 1 + cs[id];
    assert(0 <= cs[id] && id + cs[id] < n);
    assert forall|j: int| 0 <= j < id + 1 implies !#[trigger] is_child(ps, id, j) by {
        if is_child(ps, id, j) {
            assert(ps[j] <= j);
        }
    }
    assert forall|j: int| end <= j < n implies !#[trigger] is_child(ps, id, j) by {
        if is_child(ps, id, j) {
            assert(ps[j] <= j);
            assert(is_ancestor(ps, id, j));
        }
    }
    lemma_children_split(ps, id, 0, id + 1, n);
    lemma_children_split(ps, id, id + 1, end, n);
    lemma_children_skip(ps, id, 0, id + 1, id + 1);
    lemma_children_skip(ps, id, end, n, n);
    assert(children_between(ps, id, 0, n) =~= children_between(ps, id, id + 1, end));
    lemma_children_between_members(ps, id, 0, n);
}

/// Walking upwards from `j` visits exactly the ancestors of `j`, nearest
/// first, each the parent of the one before, and stops at a root.
pub proof fn lemma_ancestor_walk<K, V>(t: Tree<K, V>, j: int)
    requires
        t.wf(),
        0 <= j < t.nodes().len(),
    ensures
        forall|i: int|
            #[trigger] ancestor_chain(t.parent_indices(), j).contains(i) <==> is_ancestor(
                t.parent_indices(),
                i,
                j,
            ),
        ancestor_chain(t.parent_indices(), j).len() == 0 <==> is_root(t.parent_indices(), j),
        ancestor_chain(t.parent_indices(), j).len() > 0 ==> ancestor_chain(t.parent_indices(), j)[0]
            == t.parent_of(j),
        forall|k: int|
            0 <= k < ancestor_chain(t.parent_indices(), j).len() - 1 ==> #[trigger] ancestor_chain(
                t.parent_indices(),
                j,
            )[k + 1] == t.parent_of(ancestor_chain(t.parent_indices(), j)[k]),
        ancestor_chain(t.parent_indices(), j).len() > 0 ==> is_root(
            t.parent_indices(),
            ancestor_chain(t.parent_indices(), j).last(),
        ),
    decreases j,
{
    let ps = t.parent_indices();
    assert(0 <= ps[j] <= j);
    let c = ancestor_chain(ps, j);
    if ps[j] < j {
        let p = ps[j];
        lemma_ancestor_walk(t, p);
        let rest = ancestor_chain(ps, p);
        assert(c == seq![p].add(rest));
        assert forall|i: int| #[trigger] c.contains(i) <==> is_ancestor(ps, i, j) by {
            assert(rest.contains(i) <==> is_ancestor(ps, i, p));
            assert(is_ancestor(ps, i, j) == (p == i || is_ancestor(ps, i, p)));
            if i == p {
                assert(c[0] == p);
            } else if c.contains(i) {
                let k = choose|k: int| 0 <= k < c.len() && c[k] == i;
                assert(rest[k - 1] == i);
            } else if rest.contains(i) {
                let k = choose|k: int| 0 <= k < rest.len() && rest[k] == i;
                assert(c[k + 1] == i);
            }
        }
        assert forall|k: int| 0 <= k < c.len() - 1 implies #[trigger] c[k + 1] == t.parent_of(c[k]) by {
            if k > 0 {
                assert(c[k] == rest[k - 1]);
                assert(c[k + 1] == rest[k]);
                assert(rest[(k - 1) + 1] == t.parent_of(rest[k - 1]));
            } else {
                assert(c[1] == rest[0]);
                assert(rest[0] == t.parent_of(p));
            }
        }
        if rest.len() > 0 {
            assert(c.last() == rest.last());
        }
    } else {
        assert forall|i: int| #[trigger] c.contains(i) <==> is_ancestor(ps, i, j) by {}
    }
}

/// The trees of a forest are independent: nothing before a root `r` has a
/// descendant from `r` on, so the subtree of every earlier node ends before
/// `r`.
pub proof fn lemma_roots_separate<K, V>(t: Tree<K, V>, r: int, a: int)
    requires
        t.wf(),
        is_root(t.parent_indices(), r),
        0 <= a < r,
    ensures
        a + t.count(a) < r,
        forall|j: int| r <= j < t.nodes().len() ==> !#[trigger] is_ancestor(t.parent_indices(), a, j),
{
    let ps = t.parent_indices();
    let cs = t.counts();
    if a + cs[a] >= r {
        assert(is_ancestor(ps, a, r));
    }
    assert forall|j: int| r <= j < t.nodes().len() implies !#[trigger] is_ancestor(ps, a, j) by {
        assert(is_ancestor(ps, a, j) <==> (a < j <= a + cs[a]));
    }
}

} // verus!
