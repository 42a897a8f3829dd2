//! The shape of the beachline tree as mathematics: its in-order sequence, its
//! well-formedness, and the facts about both that the tree operations use.

use crate::beachline::{BeachlineEntry, BreakPoint};
use vstd::prelude::*;

verus! {

/// Node `i` holds an arc.
pub open spec fn is_arc(nodes: Seq<BeachlineEntry>, i: usize) -> bool {
    nodes[i as int].data is Arc
}

/// The left child of node `i`.
pub open spec fn left_of(nodes: Seq<BeachlineEntry>, i: usize) -> usize {
    nodes[i as int].left_child->0
}

/// The right child of node `i`.
pub open spec fn right_of(nodes: Seq<BeachlineEntry>, i: usize) -> usize {
    nodes[i as int].right_child->0
}

/// The subtree rooted at `i` is a full binary tree: arcs are leaves,
/// breakpoints have two children, and a child's index exceeds its parent's.
pub open spec fn wf_sub(nodes: Seq<BeachlineEntry>, i: usize) -> bool
    decreases nodes.len() - i,
{
    if i >= nodes.len() {
        false
    } else if is_arc(nodes, i) {
        nodes[i as int].left_child is None && nodes[i as int].right_child is None
    } else {
        &&& nodes[i as int].left_child is Some
        &&& nodes[i as int].right_child is Some
        &&& i < left_of(nodes, i) < nodes.len()
        &&& i < right_of(nodes, i) < nodes.len()
        &&& wf_sub(nodes, left_of(nodes, i))
        &&& wf_sub(nodes, right_of(nodes, i))
    }
}

/// The in-order sequence of node indices of the subtree rooted at `i`.
pub open spec fn inorder(nodes: Seq<BeachlineEntry>, i: usize) -> Seq<usize>
    decreases nodes.len() - i,
{
    if i >= nodes.len() {
        Seq::empty()
    } else if is_arc(nodes, i) {
        seq![i]
    } else if nodes[i as int].left_child is Some && nodes[i as int].right_child is Some && i
        < left_of(nodes, i) < nodes.len() && i < right_of(nodes, i) < nodes.len() {
        inorder(nodes, left_of(nodes, i)) + seq![i] + inorder(nodes, right_of(nodes, i))
    } else {
        Seq::empty()
    }
}

/// Every breakpoint listed in `o` is the parent its children point back to.
pub open spec fn parents_ok(nodes: Seq<BeachlineEntry>, o: Seq<usize>) -> bool {
    forall|k: int|
        0 <= k < o.len() && !is_arc(nodes, #[trigger] o[k]) ==> {
            &&& nodes[left_of(nodes, o[k]) as int].parent == Some(o[k])
            &&& nodes[right_of(nodes, o[k]) as int].parent == Some(o[k])
        }
}

/// The beachline as a sequence: arcs and breakpoints alternate, starting and
/// ending with an arc.
pub open spec fn alternates(nodes: Seq<BeachlineEntry>, o: Seq<usize>) -> bool {
    &&& o.len() % 2 == 1
    &&& forall|k: int| 0 <= k < o.len() ==> (is_arc(nodes, #[trigger] o[k]) <==> k % 2 == 0)
}

/// A well-formed subtree lists its root once, after its left subtree, and
/// alternates arcs and breakpoints; all its indices are at least its root.
pub(crate) proof fn lemma_inorder_shape(nodes: Seq<BeachlineEntry>, i: usize)
    requires
        wf_sub(nodes, i),
    ensures
        alternates(nodes, inorder(nodes, i)),
        inorder(nodes, i).len() >= 1,
        is_arc(nodes, inorder(nodes, i)[0]),
        is_arc(nodes, inorder(nodes, i).last()),
        forall|k: int| 0 <= k < inorder(nodes, i).len() ==> i <= #[trigger] inorder(nodes, i)[k] < nodes.len(),
        forall|k: int| 0 <= k < inorder(nodes, i).len() ==> wf_sub(nodes, #[trigger] inorder(nodes, i)[k]),
        !is_arc(nodes, i) ==> inorder(nodes, i)[inorder(nodes, left_of(nodes, i)).len() as int] == i,
    decreases nodes.len() - i,
{
    if !is_arc(nodes, i) {
        let l = left_of(nodes, i);
        let r = right_of(nodes, i);
        lemma_inorder_shape(nodes, l);
        lemma_inorder_shape(nodes, r);
        let a = inorder(nodes, l);
        let b = inorder(nodes, r);
        let o = inorder(nodes, i);
        assert(o == a + seq![i] + b);
        assert forall|k: int| 0 <= k < o.len() implies (is_arc(nodes, #[trigger] o[k]) <==> k % 2 == 0) by {
            if k < a.len() {
                assert(o[k] == a[k]);
            } else if k > a.len() {
                assert(o[k] == b[k - a.len() - 1]);
            }
        }
        assert forall|k: int| 0 <= k < o.len() implies i <= #[trigger] o[k] < nodes.len() && wf_sub(nodes, o[k]) by {
            if k < a.len() {
                assert(o[k] == a[k]);
            } else if k > a.len() {
                assert(o[k] == b[k - a.len() - 1]);
            }
        }
        assert(o.last() == b.last());
    }
}

/// Where the walk up from `i` stops while it climbs out of left subtrees: the
/// breakpoint just before a leaf, in order.
pub open spec fn climb_left(nodes: Seq<BeachlineEntry>, i: usize) -> Option<usize>
    decreases i,
{
    match nodes[i as int].parent {
        Some(q) => if q < i && nodes[q as int].left_child == Some(i) {
            climb_left(nodes, q)
        } else {
            Some(q)
        },
        None => None,
    }
}

/// Where the walk up from `i` stops while it climbs out of right subtrees.
pub open spec fn climb_right(nodes: Seq<BeachlineEntry>, i: usize) -> Option<usize>
    decreases i,
{
    match nodes[i as int].parent {
        Some(q) => if q < i && nodes[q as int].right_child == Some(i) {
            climb_right(nodes, q)
        } else {
            Some(q)
        },
        None => None,
    }
}

proof fn lemma_parents_split(nodes: Seq<BeachlineEntry>, i: usize)
    requires
        wf_sub(nodes, i),
        !is_arc(nodes, i),
        parents_ok(nodes, inorder(nodes, i)),
        inorder(nodes, i).no_duplicates(),
    ensures
        parents_ok(nodes, inorder(nodes, left_of(nodes, i))),
        parents_ok(nodes, inorder(nodes, right_of(nodes, i))),
        inorder(nodes, left_of(nodes, i)).no_duplicates(),
        inorder(nodes, right_of(nodes, i)).no_duplicates(),
        nodes[left_of(nodes, i) as int].parent == Some(i),
        nodes[right_of(nodes, i) as int].parent == Some(i),
        left_of(nodes, i) != right_of(nodes, i),
{
    let a = inorder(nodes, left_of(nodes, i));
    let b = inorder(nodes, right_of(nodes, i));
    let o = inorder(nodes, i);
    lemma_inorder_shape(nodes, i);
    lemma_inorder_shape(nodes, left_of(nodes, i));
    lemma_inorder_shape(nodes, right_of(nodes, i));
    assert(o == a + seq![i] + b);
    assert(o[a.len() as int] == i);
    assert forall|k: int| 0 <= k < a.len() implies #[trigger] a[k] == o[k] by {}
    assert forall|k: int| 0 <= k < b.len() implies #[trigger] b[k] == o[k + a.len() + 1] by {}
    assert forall|x: int, y: int| 0 <= x < a.len() && 0 <= y < a.len() && x != y implies a[x] != a[y] by {
        assert(a[x] == o[x] && a[y] == o[y]);
    }
    assert forall|x: int, y: int| 0 <= x < b.len() && 0 <= y < b.len() && x != y implies b[x] != b[y] by {
        assert(b[x] == o[x + a.len() + 1] && b[y] == o[y + a.len() + 1]);
    }
    if left_of(nodes, i) == right_of(nodes, i) {
        assert(o[0] == o[a.len() as int + 1]);
    }
}

/// Leaves of a subtree find their in-order neighbours by climbing.
pub(crate) proof fn lemma_climb(nodes: Seq<BeachlineEntry>, i: usize)
    requires
        wf_sub(nodes, i),
        parents_ok(nodes, inorder(nodes, i)),
        inorder(nodes, i).no_duplicates(),
    ensures
        climb_left(nodes, inorder(nodes, i)[0]) == climb_left(nodes, i),
        climb_right(nodes, inorder(nodes, i).last()) == climb_right(nodes, i),
        forall|k: int|
            0 < k < inorder(nodes, i).len() && is_arc(nodes, #[trigger] inorder(nodes, i)[k])
                ==> climb_left(nodes, inorder(nodes, i)[k]) == Some(inorder(nodes, i)[k - 1]),
        forall|k: int|
            0 <= k < inorder(nodes, i).len() - 1 && is_arc(nodes, #[trigger] inorder(nodes, i)[k])
                ==> climb_right(nodes, inorder(nodes, i)[k]) == Some(inorder(nodes, i)[k + 1]),
    decreases nodes.len() - i,
{
    lemma_inorder_shape(nodes, i);
    if !is_arc(nodes, i) {
        let l = left_of(nodes, i);
        let r = right_of(nodes, i);
        lemma_parents_split(nodes, i);
        lemma_climb(nodes, l);
        lemma_climb(nodes, r);
        lemma_inorder_shape(nodes, l);
        lemma_inorder_shape(nodes, r);
        let a = inorder(nodes, l);
        let b = inorder(nodes, r);
        let o = inorder(nodes, i);
        assert(o == a + seq![i] + b);
        assert(o[0] == a[0]);
        assert(o.last() == b.last());
        assert forall|k: int|
            0 < k < o.len() && is_arc(nodes, #[trigger] o[k]) implies climb_left(nodes, o[k]) == Some(o[k - 1]) by {
            if k < a.len() {
                assert(o[k] == a[k] && o[k - 1] == a[k - 1]);
            } else if k > a.len() + 1 {
                assert(o[k] == b[k - a.len() - 1] && o[k - 1] == b[k - a.len() - 2]);
            } else if k == a.len() + 1 {
                assert(o[k] == b[0]);
            }
        }
        assert forall|k: int|
            0 <= k < o.len() - 1 && is_arc(nodes, #[trigger] o[k]) implies climb_right(nodes, o[k]) == Some(o[k + 1]) by {
            if k < a.len() - 1 {
                assert(o[k] == a[k] && o[k + 1] == a[k + 1]);
            } else if k == a.len() - 1 {
                assert(o[k] == a.last());
            } else if k > a.len() {
                assert(o[k] == b[k - a.len() - 1] && o[k + 1] == b[k - a.len()]);
            }
        }
    }
}

/// Around each breakpoint of a subtree stand the last leaf of its left subtree
/// and the first leaf of its right subtree.
pub(crate) proof fn lemma_neighbours(nodes: Seq<BeachlineEntry>, i: usize)
    requires
        wf_sub(nodes, i),
    ensures
        forall|m: int|
            0 <= m < inorder(nodes, i).len() && !is_arc(nodes, #[trigger] inorder(nodes, i)[m]) ==> {
                &&& 1 <= m < inorder(nodes, i).len() - 1
                &&& inorder(nodes, i)[m - 1] == inorder(nodes, left_of(nodes, inorder(nodes, i)[m])).last()
                &&& inorder(nodes, i)[m + 1] == inorder(nodes, right_of(nodes, inorder(nodes, i)[m]))[0]
            },
    decreases nodes.len() - i,
{
    lemma_inorder_shape(nodes, i);
    if !is_arc(nodes, i) {
        let l = left_of(nodes, i);
        let r = right_of(nodes, i);
        lemma_neighbours(nodes, l);
        lemma_neighbours(nodes, r);
        lemma_inorder_shape(nodes, l);
        lemma_inorder_shape(nodes, r);
        let a = inorder(nodes, l);
        let b = inorder(nodes, r);
        let o = inorder(nodes, i);
        assert(o == a + seq![i] + b);
        assert forall|m: int| 0 <= m < o.len() && !is_arc(nodes, #[trigger] o[m]) implies {
            &&& 1 <= m < o.len() - 1
            &&& o[m - 1] == inorder(nodes, left_of(nodes, o[m])).last()
            &&& o[m + 1] == inorder(nodes, right_of(nodes, o[m]))[0]
        } by {
            if m < a.len() {
                assert(o[m] == a[m] && o[m - 1] == a[m - 1] && o[m + 1] == a[m + 1]);
            } else if m > a.len() {
                let j = m - a.len() - 1;
                assert(o[m] == b[j] && o[m - 1] == b[j - 1] && o[m + 1] == b[j + 1]);
            } else {
                assert(o[m - 1] == a.last());
                assert(o[m + 1] == b[0]);
            }
        }
    }
}

/// Node `x` has a parent listed in `o`, before `x`, whose child it is.
pub open spec fn has_parent_in(nodes: Seq<BeachlineEntry>, o: Seq<usize>, x: usize) -> bool {
    let q = nodes[x as int].parent->0;
    &&& nodes[x as int].parent is Some
    &&& q < x
    &&& o.contains(q)
    &&& !is_arc(nodes, q)
    &&& (left_of(nodes, q) == x || right_of(nodes, q) == x)
}

proof fn lemma_has_parent_widen(nodes: Seq<BeachlineEntry>, a: Seq<usize>, o: Seq<usize>, x: usize, off: int)
    requires
        has_parent_in(nodes, a, x),
        0 <= off,
        off + a.len() <= o.len(),
        forall|k: int| 0 <= k < a.len() ==> #[trigger] a[k] == o[k + off],
    ensures
        has_parent_in(nodes, o, x),
{
    let q = nodes[x as int].parent->0;
    let j = choose|j: int| 0 <= j < a.len() && a[j] == q;
    assert(o[j + off] == q);
}

/// Every node of a subtree but its root has a parent, listed before it and in
/// the subtree, whose child it is.
#[verifier::rlimit(50)]
pub(crate) proof fn lemma_parent_in(nodes: Seq<BeachlineEntry>, i: usize)
    requires
        wf_sub(nodes, i),
        parents_ok(nodes, inorder(nodes, i)),
        inorder(nodes, i).no_duplicates(),
    ensures
        forall|k: int|
            0 <= k < inorder(nodes, i).len() && #[trigger] inorder(nodes, i)[k] != i
                ==> has_parent_in(nodes, inorder(nodes, i), inorder(nodes, i)[k]),
    decreases nodes.len() - i,
{
    lemma_inorder_shape(nodes, i);
    if !is_arc(nodes, i) {
        let l = left_of(nodes, i);
        let r = right_of(nodes, i);
        lemma_parents_split(nodes, i);
        lemma_parent_in(nodes, l);
        lemma_parent_in(nodes, r);
        let a = inorder(nodes, l);
        let b = inorder(nodes, r);
        let o = inorder(nodes, i);
        assert(o == a + seq![i] + b);
        assert(o[a.len() as int] == i);
        assert(o.contains(i));
        assert forall|k: int| 0 <= k < a.len() implies #[trigger] a[k] == o[k + 0] by {}
        assert forall|k: int| 0 <= k < b.len() implies #[trigger] b[k] == o[k + (a.len() + 1)] by {}
        assert forall|k: int| 0 <= k < o.len() && #[trigger] o[k] != i implies has_parent_in(nodes, o, o[k]) by {
            if k < a.len() {
                assert(o[k] == a[k]);
                if a[k] != l {
                    lemma_has_parent_widen(nodes, a, o, a[k], 0);
                }
            } else {
                let x = b[k - a.len() - 1];
                assert(o[k] == x);
                if x != r {
                    lemma_has_parent_widen(nodes, b, o, x, a.len() as int + 1);
                }
            }
        }
    }
}

/// Two arena entries have the same links to children and the same kind.
pub open spec fn same_shape(e: BeachlineEntry, f: BeachlineEntry) -> bool {
    &&& e.left_child == f.left_child
    &&& e.right_child == f.right_child
    &&& (e.data is Arc <==> f.data is Arc)
}

/// A subtree that does not hold `g` keeps its shape and its order when only
/// `g` changes and nodes are appended.
proof fn lemma_frame(old: Seq<BeachlineEntry>, new: Seq<BeachlineEntry>, g: usize, t: usize)
    requires
        wf_sub(old, t),
        old.len() <= new.len(),
        forall|j: int| 0 <= j < old.len() && j != g ==> same_shape(#[trigger] old[j], new[j]),
        !inorder(old, t).contains(g),
    ensures
        wf_sub(new, t),
        inorder(new, t) == inorder(old, t),
    decreases old.len() - t,
{
    lemma_inorder_shape(old, t);
    assert(inorder(old, t)[0] != g);
    if !is_arc(old, t) {
        let l = left_of(old, t);
        let r = right_of(old, t);
        let a = inorder(old, l);
        let b = inorder(old, r);
        assert(inorder(old, t) == a + seq![t] + b);
        assert(inorder(old, t)[a.len() as int] == t);
        assert(same_shape(old[t as int], new[t as int]));
        if a.contains(g) {
            let j = choose|j: int| 0 <= j < a.len() && a[j] == g;
            assert(inorder(old, t)[j] == g);
        }
        if b.contains(g) {
            let j = choose|j: int| 0 <= j < b.len() && b[j] == g;
            assert(inorder(old, t)[j + a.len() + 1] == g);
        }
        lemma_frame(old, new, g, l);
        lemma_frame(old, new, g, r);
    } else {
        assert(same_shape(old[t as int], new[t as int]));
    }
}

/// Changing the subtree at `g` changes the order of an enclosing subtree in
/// the place of `g`'s subtree only.
#[verifier::spinoff_prover]
#[verifier::rlimit(100)]
pub(crate) proof fn lemma_splice(old: Seq<BeachlineEntry>, new: Seq<BeachlineEntry>, g: usize, t: usize)
    requires
        wf_sub(old, t),
        inorder(old, t).no_duplicates(),
        old.len() <= new.len(),
        forall|j: int| 0 <= j < old.len() && j != g ==> same_shape(#[trigger] old[j], new[j]),
        inorder(old, t).contains(g),
        wf_sub(new, g),
    ensures
        wf_sub(new, t),
        exists|x: Seq<usize>, y: Seq<usize>|
            inorder(old, t) == x + inorder(old, g) + y && inorder(new, t) == x + inorder(new, g) + y,
    decreases old.len() - t,
{
    lemma_inorder_shape(old, t);
    if t == g {
        assert(inorder(old, t) == Seq::<usize>::empty() + inorder(old, g) + Seq::<usize>::empty());
        assert(inorder(new, t) == Seq::<usize>::empty() + inorder(new, g) + Seq::<usize>::empty());
    } else {
        let o = inorder(old, t);
        assert(!is_arc(old, t)) by {
            if is_arc(old, t) {
                assert(o == seq![t]);
            }
        }
        let l = left_of(old, t);
        let r = right_of(old, t);
        let a = inorder(old, l);
        let b = inorder(old, r);
        assert(o == a + seq![t] + b);
        assert(same_shape(old[t as int], new[t as int]));
        assert forall|k: int| 0 <= k < a.len() implies #[trigger] a[k] == o[k] by {}
        assert forall|k: int| 0 <= k < b.len() implies #[trigger] b[k] == o[k + a.len() + 1] by {}
        assert(a.no_duplicates()) by {
            assert forall|x: int, y: int| 0 <= x < a.len() && 0 <= y < a.len() && x != y implies a[x] != a[y] by {
                assert(a[x] == o[x] && a[y] == o[y]);
            }
        }
        assert(b.no_duplicates()) by {
            assert forall|x: int, y: int| 0 <= x < b.len() && 0 <= y < b.len() && x != y implies b[x] != b[y] by {
                assert(b[x] == o[x + a.len() + 1] && b[y] == o[y + a.len() + 1]);
            }
        }
        let jg = choose|j: int| 0 <= j < o.len() && o[j] == g;
        assert(jg != a.len());
        if jg < a.len() {
            assert(a[jg] == g);
            assert(a.contains(g));
            assert(!b.contains(g)) by {
                if b.contains(g) {
                    let j2 = choose|j: int| 0 <= j < b.len() && b[j] == g;
                    assert(o[j2 + a.len() + 1] == g);
                }
            }
            lemma_splice(old, new, g, l);
            lemma_frame(old, new, g, r);
            let (x, y) = choose|x: Seq<usize>, y: Seq<usize>|
                a == x + inorder(old, g) + y && inorder(new, l) == x + inorder(new, g) + y;
            assert(o == x + inorder(old, g) + (y + seq![t] + b));
            assert(inorder(new, t) == inorder(new, l) + seq![t] + inorder(new, r));
            assert(inorder(new, t) == x + inorder(new, g) + (y + seq![t] + b));
        } else {
            assert(b[jg - a.len() - 1] == g);
            assert(b.contains(g));
            assert(!a.contains(g)) by {
                if a.contains(g) {
                    let j2 = choose|j: int| 0 <= j < a.len() && a[j] == g;
                    assert(o[j2] == g);
                }
            }
            lemma_splice(old, new, g, r);
            lemma_frame(old, new, g, l);
            let (x, y) = choose|x: Seq<usize>, y: Seq<usize>|
                b == x + inorder(old, g) + y && inorder(new, r) == x + inorder(new, g) + y;
            assert(o == (a + seq![t] + x) + inorder(old, g) + y);
            assert(inorder(new, t) == inorder(new, l) + seq![t] + inorder(new, r));
            assert(inorder(new, t) == (a + seq![t] + x) + inorder(new, g) + y);
        }
    }
}

/// An element found once in a sequence splits it at its position.
pub(crate) proof fn lemma_local_replace(o: Seq<usize>, u: Seq<usize>, v: Seq<usize>, x: usize, k: int, mid: Seq<usize>)
    requires
        o == u + seq![x] + v,
        o.no_duplicates(),
        0 <= k < o.len(),
        o[k] == x,
    ensures
        u == o.subrange(0, k),
        v == o.subrange(k + 1, o.len() as int),
        u + mid + v == o.subrange(0, k) + mid + o.subrange(k + 1, o.len() as int),
{
    assert(o[u.len() as int] == x);
    assert(k == u.len());
    assert(u =~= o.subrange(0, k));
    assert(v =~= o.subrange(k + 1, o.len() as int));
}

/// The nodes that replace a split arc, left to right.
pub open spec fn split_nodes(n: usize) -> Seq<usize> {
    seq![(n + 1) as usize, n, (n + 3) as usize, (n + 2) as usize, (n + 4) as usize]
}

pub(crate) proof fn lemma_split_nodes(nw: Seq<BeachlineEntry>, n: usize)
    requires
        nw.len() >= n + 5,
        n + 5 <= usize::MAX,
        nw[n as int].left_child == Some((n + 1) as usize),
        nw[n as int].right_child == Some((n + 2) as usize),
        nw[n as int].data is BreakPoint,
        nw[n + 1].left_child is None && nw[n + 1].right_child is None && nw[n + 1].data is Arc,
        nw[n + 2].left_child == Some((n + 3) as usize),
        nw[n + 2].right_child == Some((n + 4) as usize),
        nw[n + 2].data is BreakPoint,
        nw[n + 3].left_child is None && nw[n + 3].right_child is None && nw[n + 3].data is Arc,
        nw[n + 4].left_child is None && nw[n + 4].right_child is None && nw[n + 4].data is Arc,
    ensures
        wf_sub(nw, n),
        inorder(nw, n) == split_nodes(n),
{
    let a = (n + 1) as usize;
    let xr = (n + 2) as usize;
    let b = (n + 3) as usize;
    let c = (n + 4) as usize;
    assert(wf_sub(nw, a));
    assert(wf_sub(nw, b));
    assert(wf_sub(nw, c));
    assert(wf_sub(nw, xr));
    assert(inorder(nw, a) == seq![a]);
    assert(inorder(nw, b) == seq![b]);
    assert(inorder(nw, c) == seq![c]);
    assert(inorder(nw, xr) == seq![b] + seq![xr] + seq![c]);
    assert(inorder(nw, n) =~= split_nodes(n));
}

/// Hanging the split nodes where arc `idx` hung under `g` puts them in the
/// place of `idx` in the order of `g`'s subtree.
#[verifier::rlimit(40)]
pub(crate) proof fn lemma_hang_local(old: Seq<BeachlineEntry>, nw: Seq<BeachlineEntry>, g: usize, idx: usize, n: usize)
    requires
        wf_sub(old, g),
        !is_arc(old, g),
        is_arc(old, idx),
        left_of(old, g) == idx || right_of(old, g) == idx,
        old.len() == n,
        nw.len() >= n,
        g < n,
        forall|j: int| 0 <= j < old.len() && j != g ==> same_shape(#[trigger] old[j], nw[j]),
        nw[g as int].data is BreakPoint,
        left_of(old, g) == idx ==> nw[g as int].left_child == Some(n) && nw[g as int].right_child == old[g as int].right_child,
        left_of(old, g) != idx ==> nw[g as int].right_child == Some(n) && nw[g as int].left_child == old[g as int].left_child,
        wf_sub(nw, n),
        inorder(nw, n) == split_nodes(n),
    ensures
        wf_sub(nw, g),
        exists|u: Seq<usize>, v: Seq<usize>|
            inorder(old, g) == u + seq![idx] + v && #[trigger] inorder(nw, g) == u + split_nodes(n) + v,
{
    if left_of(old, g) == idx {
        let r = right_of(old, g);
        lemma_inorder_shape(old, r);
        if inorder(old, r).contains(g) {
            let j = choose|j: int| 0 <= j < inorder(old, r).len() && inorder(old, r)[j] == g;
        }
        lemma_frame(old, nw, g, r);
        assert(left_of(nw, g) == n);
        assert(right_of(nw, g) == r);
        assert(wf_sub(nw, g));
        assert(inorder(old, g) == inorder(old, idx) + seq![g] + inorder(old, r));
        assert(inorder(old, idx) == seq![idx]);
        assert(inorder(nw, g) == inorder(nw, n) + seq![g] + inorder(nw, r));
        let u = Seq::<usize>::empty();
        let v = seq![g] + inorder(old, r);
        assert(inorder(old, g) =~= u + seq![idx] + v);
        assert(inorder(nw, g) =~= u + split_nodes(n) + v);
    } else {
        let l = left_of(old, g);
        lemma_inorder_shape(old, l);
        if inorder(old, l).contains(g) {
            let j = choose|j: int| 0 <= j < inorder(old, l).len() && inorder(old, l)[j] == g;
        }
        lemma_frame(old, nw, g, l);
        assert(right_of(old, g) == idx);
        assert(right_of(nw, g) == n);
        assert(left_of(nw, g) == l);
        assert(wf_sub(nw, g));
        assert(inorder(old, g) == inorder(old, l) + seq![g] + inorder(old, idx));
        assert(inorder(old, idx) == seq![idx]);
        assert(inorder(nw, g) == inorder(nw, l) + seq![g] + inorder(nw, n));
        let u = inorder(old, l) + seq![g];
        let v = Seq::<usize>::empty();
        assert(inorder(old, g) =~= u + seq![idx] + v);
        assert(inorder(nw, g) =~= u + split_nodes(n) + v);
    }
}

/// A local change of the order of `g`'s subtree is the same change of the
/// order of an enclosing subtree.
pub(crate) proof fn lemma_lift(old: Seq<BeachlineEntry>, nw: Seq<BeachlineEntry>, g: usize, root: usize, mid_old: Seq<usize>, mid_new: Seq<usize>)
    requires
        wf_sub(old, root),
        inorder(old, root).no_duplicates(),
        inorder(old, root).contains(g),
        old.len() <= nw.len(),
        forall|j: int| 0 <= j < old.len() && j != g ==> same_shape(#[trigger] old[j], nw[j]),
        wf_sub(nw, g),
        exists|u: Seq<usize>, v: Seq<usize>|
            inorder(old, g) == u + mid_old + v && #[trigger] inorder(nw, g) == u + mid_new + v,
    ensures
        wf_sub(nw, root),
        exists|u: Seq<usize>, v: Seq<usize>|
            inorder(old, root) == u + mid_old + v && #[trigger] inorder(nw, root) == u + mid_new + v,
{
    lemma_splice(old, nw, g, root);
    let (x, y) = choose|x: Seq<usize>, y: Seq<usize>|
        inorder(old, root) == x + inorder(old, g) + y && inorder(nw, root) == x + inorder(nw, g) + y;
    let (u, v) = choose|u: Seq<usize>, v: Seq<usize>|
        inorder(old, g) == u + mid_old + v && #[trigger] inorder(nw, g) == u + mid_new + v;
    assert(inorder(old, root) =~= (x + u) + mid_old + (v + y));
    assert(inorder(nw, root) =~= (x + u) + mid_new + (v + y));
}

/// After a split, the order holds no index twice and every breakpoint in it
/// is its children's parent.
#[verifier::rlimit(40)]
pub(crate) proof fn lemma_split_order(old: Seq<BeachlineEntry>, nw: Seq<BeachlineEntry>, o: Seq<usize>, o2: Seq<usize>, k: int, n: usize)
    requires
        o.no_duplicates(),
        parents_ok(old, o),
        0 <= k < o.len(),
        is_arc(old, o[k]),
        old.len() == n,
        nw.len() == n + 5,
        n + 5 <= usize::MAX,
        forall|j: int| 0 <= j < o.len() ==> #[trigger] o[j] < n,
        forall|j: int| 0 <= j < o.len() ==> wf_sub(old, #[trigger] o[j]),
        o2 == o.subrange(0, k) + split_nodes(n) + o.subrange(k + 1, o.len() as int),
        forall|j: int| 0 <= j < n ==> #[trigger] nw[j].parent == old[j].parent && nw[j].data == old[j].data,
        forall|j: int| 0 <= j < n && (nw[j].left_child != old[j].left_child || nw[j].right_child != old[j].right_child) ==> {
            &&& nw[left_of(nw, j as usize) as int].parent == Some(j as usize)
            &&& nw[right_of(nw, j as usize) as int].parent == Some(j as usize)
        },
        nw[n as int].left_child == Some((n + 1) as usize),
        nw[n as int].right_child == Some((n + 2) as usize),
        nw[n + 1].parent == Some(n),
        nw[n + 2].parent == Some(n),
        nw[n + 2].left_child == Some((n + 3) as usize),
        nw[n + 2].right_child == Some((n + 4) as usize),
        nw[n + 3].parent == Some((n + 2) as usize),
        nw[n + 4].parent == Some((n + 2) as usize),
        nw[n + 1].data is Arc && nw[n + 3].data is Arc && nw[n + 4].data is Arc,
    ensures
        o2.no_duplicates(),
        parents_ok(nw, o2),
{
    let five = split_nodes(n);
    let pre = o.subrange(0, k);
    let post = o.subrange(k + 1, o.len() as int);
    assert(o2.len() == o.len() + 4);
    assert forall|m: int| 0 <= m < o2.len() implies #[trigger] o2[m] == (if m < k { o[m] } else if m >= k + 5 { o[m - 4] } else { five[m - k] }) by {
        if m < k {
            assert(o2[m] == pre[m]);
        } else if m >= k + 5 {
            assert(o2[m] == post[m - k - 5]);
        } else {
            assert(o2[m] == five[m - k]);
        }
    }
    assert forall|m: int| 0 <= m < o2.len() implies (#[trigger] o2[m] >= n ==> five.contains(o2[m]))
        && (o2[m] < n ==> o.contains(o2[m])) by {
        if m < k {
            assert(o2[m] == o[m]);
        } else if m >= k + 5 {
            assert(o2[m] == o[m - 4]);
        } else {
            assert(o2[m] == five[m - k]);
        }
    }
    assert forall|p: int, q: int| 0 <= p < o2.len() && 0 <= q < o2.len() && p != q implies o2[p] != o2[q] by {
        let pp = if p < k { p } else if p >= k + 5 { p - 4 } else { -1 };
        let qq = if q < k { q } else if q >= k + 5 { q - 4 } else { -1 };
        if pp >= 0 && qq >= 0 {
            assert(o2[p] == o[pp] && o2[q] == o[qq]);
        } else if pp >= 0 {
            assert(o2[p] == o[pp] && o2[q] == five[q - k]);
        } else if qq >= 0 {
            assert(o2[q] == o[qq] && o2[p] == five[p - k]);
        } else {
            assert(o2[p] == five[p - k] && o2[q] == five[q - k]);
        }
    }
    assert forall|m: int| 0 <= m < o2.len() && !is_arc(nw, #[trigger] o2[m]) implies {
        &&& nw[left_of(nw, o2[m]) as int].parent == Some(o2[m])
        &&& nw[right_of(nw, o2[m]) as int].parent == Some(o2[m])
    } by {
        let x = o2[m];
        if x < n {
            assert(nw[x as int].parent == old[x as int].parent);
            let j = choose|j: int| 0 <= j < o.len() && o[j] == x;
            assert(!is_arc(old, o[j]));
            assert(wf_sub(old, o[j]));
            assert(left_of(old, x) < n && right_of(old, x) < n);
        }
    }
}

/// Rewriting a breakpoint's payload or a node's parent link keeps the shape.
proof fn lemma_same_shape_except(old: Seq<BeachlineEntry>, nw: Seq<BeachlineEntry>, g: usize, sibling: usize, survivor: usize)
    requires
        nw.len() == old.len(),
        forall|j: int| 0 <= j < old.len() && j != g && j != sibling && j != survivor ==> #[trigger] nw[j] == old[j],
        nw[survivor as int].left_child == old[survivor as int].left_child || survivor == g,
        nw[survivor as int].right_child == old[survivor as int].right_child || survivor == g,
        nw[survivor as int].data is BreakPoint,
        !is_arc(old, survivor),
        nw[sibling as int].left_child == old[sibling as int].left_child,
        nw[sibling as int].right_child == old[sibling as int].right_child,
        nw[sibling as int].data == old[sibling as int].data || sibling == survivor,
    ensures
        forall|j: int| 0 <= j < old.len() && j != g ==> same_shape(#[trigger] old[j], nw[j]),
{
    assert forall|j: int| 0 <= j < old.len() && j != g implies same_shape(#[trigger] old[j], nw[j]) by {
        if j != sibling && j != survivor {
            assert(nw[j] == old[j]);
        }
    }
}

/// Hanging the arc's sibling under `g` in place of the breakpoint above the
/// arc removes the arc and that breakpoint from the order of `g`'s subtree.
#[verifier::rlimit(60)]
proof fn lemma_unhang_local(old: Seq<BeachlineEntry>, nw: Seq<BeachlineEntry>, g: usize, gc: usize, idx: usize, sibling: usize, survivor: usize)
    requires
        wf_sub(old, g),
        !is_arc(old, g),
        left_of(old, g) == gc || right_of(old, g) == gc,
        g < gc,
        gc < sibling,
        wf_sub(old, gc),
        wf_sub(old, sibling),
        !is_arc(old, gc),
        is_arc(old, idx),
        left_of(old, gc) == idx ==> inorder(old, gc) == seq![idx, gc] + inorder(old, sibling),
        left_of(old, gc) != idx ==> inorder(old, gc) == inorder(old, sibling) + seq![gc, idx],
        nw.len() == old.len(),
        forall|j: int| 0 <= j < old.len() && j != g ==> same_shape(#[trigger] old[j], nw[j]),
        nw[g as int].data is BreakPoint,
        left_of(old, g) == gc ==> nw[g as int].left_child == Some(sibling) && nw[g as int].right_child == old[g as int].right_child,
        left_of(old, g) != gc ==> nw[g as int].right_child == Some(sibling) && nw[g as int].left_child == old[g as int].left_child,
    ensures
        wf_sub(nw, g),
        exists|u: Seq<usize>, v: Seq<usize>|
            inorder(old, g) == u + (if left_of(old, gc) == idx { seq![idx, gc] } else { seq![gc, idx] }) + v
                && #[trigger] inorder(nw, g) == u + Seq::<usize>::empty() + v,
{
    let from_left = left_of(old, gc) == idx;
    let pair = if from_left { seq![idx, gc] } else { seq![gc, idx] };
    let sb = inorder(old, sibling);
    lemma_inorder_shape(old, sibling);
    assert(!sb.contains(g)) by {
        if sb.contains(g) {
            let j = choose|j: int| 0 <= j < sb.len() && sb[j] == g;
        }
    }
    lemma_frame(old, nw, g, sibling);
    let (uu, vv) = if left_of(old, g) == gc {
        let r = right_of(old, g);
        lemma_inorder_shape(old, r);
        if inorder(old, r).contains(g) {
            let j = choose|j: int| 0 <= j < inorder(old, r).len() && inorder(old, r)[j] == g;
        }
        lemma_frame(old, nw, g, r);
        assert(inorder(old, g) == inorder(old, gc) + seq![g] + inorder(old, r));
        assert(inorder(nw, g) == inorder(nw, sibling) + seq![g] + inorder(nw, r));
        (Seq::<usize>::empty(), seq![g] + inorder(old, r))
    } else {
        let l = left_of(old, g);
        lemma_inorder_shape(old, l);
        if inorder(old, l).contains(g) {
            let j = choose|j: int| 0 <= j < inorder(old, l).len() && inorder(old, l)[j] == g;
        }
        lemma_frame(old, nw, g, l);
        assert(inorder(old, g) == inorder(old, l) + seq![g] + inorder(old, gc));
        assert(inorder(nw, g) == inorder(nw, l) + seq![g] + inorder(nw, sibling));
        (inorder(old, l) + seq![g], Seq::<usize>::empty())
    };
    assert(wf_sub(nw, g));
    if from_left {
        assert(inorder(old, g) =~= uu + pair + (sb + vv));
        assert(inorder(nw, g) =~= uu + Seq::<usize>::empty() + (sb + vv));
    } else {
        assert(inorder(old, g) =~= (uu + sb) + pair + vv);
        assert(inorder(nw, g) =~= (uu + sb) + Seq::<usize>::empty() + vv);
    }
}

/// Taking out an arc together with the breakpoint right above it, by hanging
/// the arc's sibling in the breakpoint's place, removes just those two nodes
/// from the order and keeps the tree well formed.
#[verifier::spinoff_prover]
#[verifier::rlimit(100)]
pub(crate) proof fn lemma_remove_pair(old: Seq<BeachlineEntry>, nw: Seq<BeachlineEntry>, root: usize, g: usize, gc: usize, idx: usize, sibling: usize, survivor: usize)
    requires
        wf_sub(old, root),
        inorder(old, root).no_duplicates(),
        parents_ok(old, inorder(old, root)),
        old[root as int].parent is None,
        inorder(old, root).contains(g),
        inorder(old, root).contains(gc),
        wf_sub(old, g),
        !is_arc(old, g),
        left_of(old, g) == gc || right_of(old, g) == gc,
        old[gc as int].parent == Some(g),
        g < gc,
        wf_sub(old, gc),
        !is_arc(old, gc),
        is_arc(old, idx),
        old[idx as int].parent == Some(gc),
        left_of(old, gc) == idx ==> sibling == right_of(old, gc),
        left_of(old, gc) != idx ==> right_of(old, gc) == idx && sibling == left_of(old, gc),
        survivor != gc,
        survivor < old.len(),
        !is_arc(old, survivor),
        nw.len() == old.len(),
        forall|j: int| 0 <= j < old.len() && j != g && j != sibling && j != survivor ==> #[trigger] nw[j] == old[j],
        nw[survivor as int].left_child == old[survivor as int].left_child || survivor == g,
        nw[survivor as int].right_child == old[survivor as int].right_child || survivor == g,
        nw[survivor as int].parent == old[survivor as int].parent || survivor == sibling,
        nw[survivor as int].data is BreakPoint,
        !inorder(old, gc).contains(survivor),
        nw[g as int].data is BreakPoint,
        nw[g as int].parent == old[g as int].parent,
        left_of(old, g) == gc ==> nw[g as int].left_child == Some(sibling) && nw[g as int].right_child == old[g as int].right_child,
        left_of(old, g) != gc ==> nw[g as int].right_child == Some(sibling) && nw[g as int].left_child == old[g as int].left_child,
        nw[sibling as int].left_child == old[sibling as int].left_child,
        nw[sibling as int].right_child == old[sibling as int].right_child,
        nw[sibling as int].data == old[sibling as int].data || sibling == survivor,
        nw[sibling as int].parent == Some(g),
    ensures
        wf_sub(nw, root),
        nw[root as int].parent is None,
        inorder(nw, root).no_duplicates(),
        parents_ok(nw, inorder(nw, root)),
        exists|u: Seq<usize>, v: Seq<usize>|
            #![trigger u + v]
            inorder(old, root) == u + (if left_of(old, gc) == idx { seq![idx, gc] } else { seq![gc, idx] }) + v
                && inorder(nw, root) == u + v,
{
    let o = inorder(old, root);
    let from_left = left_of(old, gc) == idx;
    let pair = if from_left { seq![idx, gc] } else { seq![gc, idx] };
    lemma_inorder_shape(old, root);
    lemma_gc_shape(old, gc, idx, sibling, survivor);
    lemma_same_shape_except(old, nw, g, sibling, survivor);
    lemma_unhang_local(old, nw, g, gc, idx, sibling, survivor);
    lemma_lift(old, nw, g, root, pair, Seq::<usize>::empty());
    let (u, v) = choose|u: Seq<usize>, v: Seq<usize>|
        inorder(old, root) == u + pair + v && #[trigger] inorder(nw, root) == u + Seq::<usize>::empty() + v;
    assert(inorder(nw, root) =~= u + v);
    assert(root <= g);
    assert(pair.contains(gc) && pair.contains(idx)) by {
        assert(pair[0] == gc || pair[1] == gc);
        assert(pair[0] == idx || pair[1] == idx);
    }
    assert(sibling != survivor);
    assert(g != gc);
    lemma_remove_pair_links(old, nw, o, u, v, pair, g, gc, idx, sibling, survivor);
    assert(nw[root as int].parent is None) by {
        if root == sibling {
            assert(sibling > gc);
        }
    }
}

/// The links of the tree after an arc and the breakpoint above it are taken
/// out: no index twice, and every breakpoint is its children's parent.
#[verifier::rlimit(60)]
proof fn lemma_remove_pair_links(old: Seq<BeachlineEntry>, nw: Seq<BeachlineEntry>, o: Seq<usize>, u: Seq<usize>, v: Seq<usize>, pair: Seq<usize>, g: usize, gc: usize, idx: usize, sibling: usize, survivor: usize)
    requires
        o == u + pair + v,
        pair.contains(gc),
        pair.contains(idx),
        o.no_duplicates(),
        parents_ok(old, o),
        forall|j: int| 0 <= j < o.len() ==> #[trigger] o[j] < old.len(),
        forall|j: int| 0 <= j < o.len() ==> wf_sub(old, #[trigger] o[j]),
        nw.len() == old.len(),
        g != gc,
        sibling != survivor,
        old[sibling as int].parent == Some(gc),
        forall|j: int| 0 <= j < old.len() && j != g && j != sibling && j != survivor ==> #[trigger] nw[j] == old[j],
        nw[survivor as int].left_child == old[survivor as int].left_child || survivor == g,
        nw[survivor as int].right_child == old[survivor as int].right_child || survivor == g,
        nw[survivor as int].parent == old[survivor as int].parent,
        nw[survivor as int].data is BreakPoint,
        !is_arc(old, survivor),
        nw[g as int].data is BreakPoint,
        nw[g as int].parent == old[g as int].parent,
        left_of(old, g) == gc ==> nw[g as int].left_child == Some(sibling) && nw[g as int].right_child == old[g as int].right_child,
        left_of(old, g) != gc ==> nw[g as int].right_child == Some(sibling) && nw[g as int].left_child == old[g as int].left_child,
        left_of(old, g) == gc || right_of(old, g) == gc,
        !is_arc(old, g),
        nw[sibling as int].left_child == old[sibling as int].left_child,
        nw[sibling as int].right_child == old[sibling as int].right_child,
        nw[sibling as int].data == old[sibling as int].data,
        nw[sibling as int].parent == Some(g),
    ensures
        (u + v).no_duplicates(),
        parents_ok(nw, u + v),
{
    let o2 = u + v;
    assert forall|m: int| 0 <= m < o2.len() implies #[trigger] o2[m] == o[if m < u.len() { m } else { m + pair.len() }] by {
        if m >= u.len() {
            assert(o2[m] == v[m - u.len()]);
        }
    }
    assert(o2.no_duplicates()) by {
        assert forall|p: int, q: int| 0 <= p < o2.len() && 0 <= q < o2.len() && p != q implies o2[p] != o2[q] by {
            let pp = if p < u.len() { p } else { p + pair.len() };
            let qq = if q < u.len() { q } else { q + pair.len() };
            assert(o2[p] == o[pp] && o2[q] == o[qq]);
        }
    }
    assert forall|m: int| 0 <= m < o2.len() && !is_arc(nw, #[trigger] o2[m]) implies {
        &&& nw[left_of(nw, o2[m]) as int].parent == Some(o2[m])
        &&& nw[right_of(nw, o2[m]) as int].parent == Some(o2[m])
    } by {
        let q = o2[m];
        let mm = if m < u.len() { m } else { m + pair.len() };
        assert(q == o[mm]);
        assert(q != gc) by {
            let jg = choose|j: int| 0 <= j < pair.len() && pair[j] == gc;
            assert(o[u.len() + jg] == gc);
        }
        assert(!is_arc(old, q));
        assert(wf_sub(old, q));
        let lc = left_of(old, q);
        let rc = right_of(old, q);
        assert(old[lc as int].parent == Some(q));
        assert(old[rc as int].parent == Some(q));
        if q == g {
            if left_of(old, g) == gc {
                assert(rc != sibling);
            } else {
                assert(lc != sibling);
            }
        } else {
            assert(lc != sibling && rc != sibling);
            assert(left_of(nw, q) == lc && right_of(nw, q) == rc);
        }
    }
}

/// The subtree of the breakpoint right above an arc: the arc, the breakpoint,
/// and the arc's sibling subtree, which does not hold `other`.
proof fn lemma_gc_shape(old: Seq<BeachlineEntry>, gc: usize, idx: usize, sibling: usize, other: usize)
    requires
        wf_sub(old, gc),
        !is_arc(old, gc),
        is_arc(old, idx),
        left_of(old, gc) == idx ==> sibling == right_of(old, gc),
        left_of(old, gc) != idx ==> right_of(old, gc) == idx && sibling == left_of(old, gc),
        !inorder(old, gc).contains(other),
    ensures
        left_of(old, gc) == idx ==> inorder(old, gc) == seq![idx, gc] + inorder(old, sibling),
        left_of(old, gc) != idx ==> inorder(old, gc) == inorder(old, sibling) + seq![gc, idx],
        sibling != other,
        gc < sibling,
        wf_sub(old, sibling),
{
    let sb = inorder(old, sibling);
    lemma_inorder_shape(old, sibling);
    assert(inorder(old, idx) == seq![idx]);
    let l = left_of(old, gc);
    let r = right_of(old, gc);
    assert(inorder(old, gc) == inorder(old, l) + seq![gc] + inorder(old, r));
    if l == idx {
        assert(inorder(old, gc) =~= seq![idx, gc] + sb);
    } else {
        assert(inorder(old, gc) =~= sb + seq![gc, idx]);
    }
    if is_arc(old, sibling) {
        assert(sb == seq![sibling]);
        assert(sb[0] == sibling);
    } else {
        assert(sb[inorder(old, left_of(old, sibling)).len() as int] == sibling);
    }
    assert(sb.contains(sibling));
    if sibling == other {
        let j = choose|j: int| 0 <= j < sb.len() && sb[j] == sibling;
        if l == idx {
            assert(inorder(old, gc)[j + 2] == other);
        } else {
            assert(inorder(old, gc)[j] == other);
        }
    }
}

/// The breakpoints at the odd positions of an alternating sequence.
pub open spec fn bps_of(nodes: Seq<BeachlineEntry>, o: Seq<usize>) -> Seq<BreakPoint> {
    Seq::new((o.len() / 2) as nat, |i: int| nodes[o[2 * i + 1] as int].data->BreakPoint_0)
}

pub(crate) proof fn lemma_bps_concat(nodes: Seq<BeachlineEntry>, a: Seq<usize>, t: usize, b: Seq<usize>)
    requires
        a.len() % 2 == 1,
        b.len() % 2 == 1,
    ensures
        bps_of(nodes, a + seq![t] + b) == bps_of(nodes, a) + seq![nodes[t as int].data->BreakPoint_0] + bps_of(nodes, b),
{
    let o = a + seq![t] + b;
    let lhs = bps_of(nodes, o);
    let rhs = bps_of(nodes, a) + seq![nodes[t as int].data->BreakPoint_0] + bps_of(nodes, b);
    let h = a.len() / 2;
    assert(a.len() == 2 * h + 1);
    assert(lhs.len() == rhs.len());
    assert forall|i: int| 0 <= i < lhs.len() implies lhs[i] == rhs[i] by {
        if i < h {
            assert(o[2 * i + 1] == a[2 * i + 1]);
        } else if i == h {
            assert(o[2 * i + 1] == t);
        } else {
            let j = i - h - 1;
            assert(2 * i + 1 == a.len() + 1 + 2 * j + 1);
            assert(o[2 * i + 1] == b[2 * j + 1]);
        }
    }
    assert(lhs =~= rhs);
}

} // verus!
