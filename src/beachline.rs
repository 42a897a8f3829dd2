//! The beachline: an arena-allocated binary tree whose leaves are parabolic arcs
//! and whose inner nodes are the breakpoints between neighbouring arcs.

use crate::events::{key_of, priority_of, Event, EventQueue, Priority};
use crate::tree::{
    alternates,
    bps_of,
    climb_left,
    climb_right,
    has_parent_in,
    inorder,
    is_arc,
    left_of,
    lemma_bps_concat,
    lemma_climb,
    lemma_hang_local,
    lemma_inorder_shape,
    lemma_lift,
    lemma_local_replace,
    lemma_neighbours,
    lemma_parent_in,
    lemma_remove_pair,
    lemma_splice,
    lemma_split_nodes,
    lemma_split_order,
    parents_ok,
    right_of,
    same_shape,
    split_nodes,
    wf_sub,
};
use vstd::prelude::*;

verus! {

/// A Voronoi vertex, named by the sites that determine it.
#[derive(Clone, Copy, PartialEq, Eq, Structural, Debug)]
pub enum Vertex {
    /// The point of the parabola with focus `focus` that lies straight above
    /// `site`, with the sweep line through `site`: where a new arc splits an
    /// old one.
    OnArc { focus: usize, site: usize },
    /// The center of the circle through three sites: where an arc vanishes.
    Circumcenter { left: usize, mid: usize, right: usize },
}

/// A leaf of the beachline: the parabolic arc of one site.
#[derive(Clone, Copy, PartialEq, Eq, Structural, Debug)]
pub struct Arc {
    pub site: usize,
}

impl Arc {
    pub fn new(site: usize) -> (r: Arc)
        ensures
            r.site == site,
    {
        Arc { site }
    }
}

/// An inner node of the beachline: the moving point where the arc of site `l`
/// meets the arc of site `r` on its right. It traces a Voronoi edge from
/// `origin`, along the perpendicular of the vector from `r` to `l`.
#[derive(Clone, Copy, PartialEq, Eq, Structural, Debug)]
pub struct BreakPoint {
    pub origin: Vertex,
    pub l: usize,
    pub r: usize,
}

impl BreakPoint {
    pub fn new(origin: Vertex, l: usize, r: usize) -> (b: BreakPoint)
        ensures
            b.origin == origin,
            b.l == l,
            b.r == r,
    {
        BreakPoint { origin, l, r }
    }
}

/// What a beachline node holds.
#[derive(Clone, Copy, PartialEq, Eq, Structural, Debug)]
pub enum BeachlineData {
    BreakPoint(BreakPoint),
    Arc(Arc),
}

/// A node of the arena: its links and its payload.
#[derive(Clone, Copy)]
pub struct BeachlineEntry {
    pub left_child: Option<usize>,
    pub right_child: Option<usize>,
    pub parent: Option<usize>,
    pub data: BeachlineData,
}

/// The beachline tree. Nodes are never freed: a node that leaves the tree
/// stays in the arena, unreachable, so that its index is never reused.
pub struct Beachline {
    pub(crate) root: Option<usize>,
    pub(crate) nodes: Vec<BeachlineEntry>,
}

/// The pending events after a circle check of arc `idx` got the answer `ans`:
/// a circle whose lowest point the sweep has not passed is scheduled there.
pub open spec fn scheduled(
    q: Map<(bool, usize), Priority>,
    idx: usize,
    ans: Option<(u64, u64)>,
    sweep: u64,
) -> Map<(bool, usize), Priority> {
    match ans {
        Some((y, x)) => if y <= sweep {
            q.insert(key_of(Event::Circle(idx)), priority_of(y, x, Event::Circle(idx)))
        } else {
            q
        },
        None => q,
    }
}

impl Beachline {
    /// The shape a split leaves: the left breakpoint `n` hangs where arc `idx`
    /// hung, with the left arc `n + 1` and the right breakpoint `n + 2` below
    /// it, and the middle arc `n + 3` and the right arc `n + 4` below that.
    pub open(crate) spec fn split_shape(before: Beachline, after: Beachline, idx: usize) -> bool {
        let n = before.nodes@.len() as usize;
        let e = after.nodes@;
        &&& e[n as int].left_child == Some((n + 1) as usize)
        &&& e[n as int].right_child == Some((n + 2) as usize)
        &&& e[n as int].parent == before.nodes@[idx as int].parent
        &&& e[n + 1].parent == Some(n)
        &&& e[n + 2].left_child == Some((n + 3) as usize)
        &&& e[n + 2].right_child == Some((n + 4) as usize)
        &&& e[n + 2].parent == Some(n)
        &&& e[n + 3].parent == Some((n + 2) as usize)
        &&& e[n + 4].parent == Some((n + 2) as usize)
        &&& match before.nodes@[idx as int].parent {
            None => after.root == Some(n),
            Some(g) => {
                &&& after.root == before.root
                &&& before.nodes@[g as int].left_child == Some(idx) ==> e[g as int].left_child == Some(n)
                    && e[g as int].right_child == before.nodes@[g as int].right_child
                &&& before.nodes@[g as int].left_child != Some(idx) ==> e[g as int].right_child == Some(n)
                    && e[g as int].left_child == before.nodes@[g as int].left_child
            },
        }
    }

    /// The shape a merge leaves: the breakpoint `gc` right above arc `idx` is
    /// taken out, and the arc's sibling hangs in its place below `gc`'s parent.
    pub open(crate) spec fn merge_shape(before: Beachline, after: Beachline, idx: usize) -> bool {
        let b = before.nodes@;
        let e = after.nodes@;
        let gc = b[idx as int].parent->0;
        let g = b[gc as int].parent->0;
        let sibling = if b[gc as int].left_child == Some(idx) { b[gc as int].right_child->0 } else { b[gc as int].left_child->0 };
        &&& after.root == before.root
        &&& e[sibling as int].parent == Some(g)
        &&& b[g as int].left_child == Some(gc) ==> e[g as int].left_child == Some(sibling)
            && e[g as int].right_child == b[g as int].right_child
        &&& b[g as int].left_child != Some(gc) ==> e[g as int].right_child == Some(sibling)
            && e[g as int].left_child == b[g as int].left_child
    }

    /// The node indices of the tree, left to right.
    pub open(crate) spec fn order(&self) -> Seq<usize> {
        match self.root {
            Some(r) => inorder(self.nodes@, r),
            None => Seq::empty(),
        }
    }

    /// The payloads of the tree, left to right.
    pub open(crate) spec fn view_data(&self) -> Seq<BeachlineData> {
        self.order().map_values(|i: usize| self.nodes@[i as int].data)
    }

    /// The tree is well formed: a full binary tree below the root, every node
    /// listed once, and every breakpoint its children's parent.
    pub open(crate) spec fn wf(&self) -> bool {
        &&& match self.root {
            Some(r) => wf_sub(self.nodes@, r) && self.nodes@[r as int].parent is None,
            None => true,
        }
        &&& self.order().no_duplicates()
        &&& parents_ok(self.nodes@, self.order())
    }

    pub open(crate) spec fn node_count(&self) -> nat {
        self.nodes@.len()
    }

    /// Every node ever allocated, reachable or not.
    pub open(crate) spec fn arena(&self) -> Seq<BeachlineEntry> {
        self.nodes@
    }

    pub fn new() -> (b: Beachline)
        ensures
            b.wf(),
            b.order() == Seq::<usize>::empty(),
            b.node_count() == 0,
    {
        Beachline { root: None, nodes: Vec::new() }
    }

    pub fn is_empty(&self) -> (r: bool)
        requires
            self.wf(),
        ensures
            r == (self.order().len() == 0),
    {
        proof {
            if self.root is Some {
                lemma_inorder_shape(self.nodes@, self.root->0);
            }
        }
        self.root.is_none()
    }

    /// Installs the first arc of an empty beachline.
    pub fn add_first_parabola(&mut self, site: usize)
        requires
            old(self).wf(),
            old(self).order().len() == 0,
        ensures
            final(self).wf(),
            final(self).order() == seq![old(self).node_count() as usize],
            final(self).view_data() == seq![BeachlineData::Arc(Arc { site })],
            final(self).node_count() == old(self).node_count() + 1,
            forall|i: int| 0 <= i < old(self).node_count() ==> final(self).arena()[i] == old(self).arena()[i],
    {
        proof { self.lemma_empty(); }
        let entry = BeachlineEntry {
            left_child: None,
            right_child: None,
            parent: None,
            data: BeachlineData::Arc(Arc::new(site)),
        };
        let idx = self.nodes.len();
        self.nodes.push(entry);
        self.root = Some(idx);
        assert(self.order() =~= seq![idx]);
        assert(self.view_data() =~= seq![BeachlineData::Arc(Arc { site })]);
    }


    /// `idx` names an arc that is part of the beachline.
    pub open(crate) spec fn has_arc(&self, idx: usize) -> bool {
        self.order().contains(idx) && is_arc(self.nodes@, idx)
    }

    /// The position of node `idx` in the beachline, left to right.
    pub open(crate) spec fn pos(&self, idx: usize) -> int {
        self.order().index_of(idx)
    }

    /// The payload of node `idx`.
    pub open(crate) spec fn data_at(&self, idx: usize) -> BeachlineData {
        self.nodes@[idx as int].data
    }

    /// The site of arc node `idx`.
    pub open(crate) spec fn site_at(&self, idx: usize) -> usize {
        self.nodes@[idx as int].data->Arc_0.site
    }

    /// The breakpoint at node `idx`.
    pub open(crate) spec fn bp_at(&self, idx: usize) -> BreakPoint {
        self.nodes@[idx as int].data->BreakPoint_0
    }

    pub(crate) proof fn lemma_order_facts(&self)
        requires
            self.wf(),
        ensures
            self.root is Some <==> self.order().len() > 0,
            self.root is Some ==> alternates(self.nodes@, self.order()),
            forall|k: int| 0 <= k < self.order().len() ==> #[trigger] self.order()[k] < self.nodes@.len(),
            forall|k: int| 0 <= k < self.order().len() ==> wf_sub(self.nodes@, #[trigger] self.order()[k]),
            forall|k: int| 0 <= k < self.order().len() ==> self.pos(#[trigger] self.order()[k]) == k,
    {
        if let Some(r) = self.root {
            lemma_inorder_shape(self.nodes@, r);
        }
        let o = self.order();
        assert forall|k: int| 0 <= k < o.len() implies self.pos(#[trigger] o[k]) == k by {
            assert(o.contains(o[k]));
            let j = o.index_of(o[k]);
            assert(0 <= j < o.len() && o[j] == o[k]);
        }
    }

    /// The arc at node `idx`.
    pub fn arc(&self, idx: usize) -> (a: Arc)
        requires
            self.wf(),
            self.has_arc(idx),
        ensures
            BeachlineData::Arc(a) == self.data_at(idx),
    {
        proof { self.lemma_order_facts(); }
        match self.nodes[idx].data {
            BeachlineData::Arc(a) => a,
            BeachlineData::BreakPoint(_) => Arc { site: 0 },
        }
    }

    /// The leftmost arc below node `idx`.
    fn minimum(&self, idx: usize) -> (r: usize)
        requires
            wf_sub(self.nodes@, idx),
        ensures
            r == inorder(self.nodes@, idx)[0],
    {
        let mut cur = idx;
        loop
            invariant
                wf_sub(self.nodes@, cur),
                inorder(self.nodes@, cur)[0] == inorder(self.nodes@, idx)[0],
            decreases self.nodes@.len() - cur,
        {
            proof { lemma_inorder_shape(self.nodes@, cur); }
            match self.nodes[cur].data {
                BeachlineData::Arc(_) => {
                    return cur;
                },
                BeachlineData::BreakPoint(_) => {
                    let next = self.nodes[cur].left_child.unwrap();
                    proof {
                        lemma_inorder_shape(self.nodes@, next);
                        let a = inorder(self.nodes@, next);
                        assert(inorder(self.nodes@, cur) == a + seq![cur] + inorder(self.nodes@, right_of(self.nodes@, cur)));
                        assert(inorder(self.nodes@, cur)[0] == a[0]);
                    }
                    cur = next;
                },
            }
        }
    }

    /// The rightmost arc below node `idx`.
    fn maximum(&self, idx: usize) -> (r: usize)
        requires
            wf_sub(self.nodes@, idx),
        ensures
            r == inorder(self.nodes@, idx).last(),
    {
        let mut cur = idx;
        loop
            invariant
                wf_sub(self.nodes@, cur),
                inorder(self.nodes@, cur).last() == inorder(self.nodes@, idx).last(),
            decreases self.nodes@.len() - cur,
        {
            proof { lemma_inorder_shape(self.nodes@, cur); }
            match self.nodes[cur].data {
                BeachlineData::Arc(_) => {
                    return cur;
                },
                BeachlineData::BreakPoint(_) => {
                    let next = self.nodes[cur].right_child.unwrap();
                    proof {
                        lemma_inorder_shape(self.nodes@, next);
                        let b = inorder(self.nodes@, next);
                        assert(inorder(self.nodes@, cur) == inorder(self.nodes@, left_of(self.nodes@, cur)) + seq![cur] + b);
                        assert(inorder(self.nodes@, cur).last() == b.last());
                    }
                    cur = next;
                },
            }
        }
    }

    proof fn lemma_tree_facts(&self)
        requires
            self.wf(),
            self.root is Some,
        ensures
            ({
                let nodes = self.nodes@;
                let o = self.order();
                &&& forall|k: int|
                    0 < k < o.len() && is_arc(nodes, #[trigger] o[k]) ==> climb_left(nodes, o[k]) == Some(o[k - 1])
                &&& forall|k: int|
                    0 <= k < o.len() - 1 && is_arc(nodes, #[trigger] o[k]) ==> climb_right(nodes, o[k]) == Some(o[k + 1])
                &&& climb_left(nodes, o[0]) == None::<usize>
                &&& climb_right(nodes, o.last()) == None::<usize>
                &&& forall|m: int|
                    0 <= m < o.len() && !is_arc(nodes, #[trigger] o[m]) ==> {
                        &&& 1 <= m < o.len() - 1
                        &&& o[m - 1] == inorder(nodes, left_of(nodes, o[m])).last()
                        &&& o[m + 1] == inorder(nodes, right_of(nodes, o[m]))[0]
                    }
                &&& forall|k: int|
                    0 <= k < o.len() && #[trigger] o[k] != self.root->0 ==> has_parent_in(nodes, o, o[k])
            }),
    {
        let r = self.root->0;
        lemma_climb(self.nodes@, r);
        lemma_neighbours(self.nodes@, r);
        lemma_parent_in(self.nodes@, r);
    }

    /// The breakpoint just left of arc `idx`, found by climbing from it.
    fn predecessor(&self, idx: usize) -> (r: Option<usize>)
        requires
            self.wf(),
            self.has_arc(idx),
        ensures
            r == climb_left(self.nodes@, idx),
    {
        proof { self.lemma_order_facts(); self.lemma_tree_facts(); }
        let mut cur = idx;
        loop
            invariant
                self.wf(),
                self.root is Some,
                self.order().contains(cur),
                climb_left(self.nodes@, cur) == climb_left(self.nodes@, idx),
            decreases cur,
        {
            proof {
                self.lemma_order_facts();
                self.lemma_tree_facts();
                let k = choose|k: int| 0 <= k < self.order().len() && self.order()[k] == cur;
                assert(self.order()[k] < self.nodes@.len());
            }
            match self.nodes[cur].parent {
                None => {
                    return None;
                },
                Some(q) => {
                    proof {
                        let k = choose|k: int| 0 <= k < self.order().len() && self.order()[k] == cur;
                        assert(self.order()[k] != self.root->0);
                        let j = choose|j: int| 0 <= j < self.order().len() && self.order()[j] == q;
                        assert(self.order()[j] < self.nodes@.len());
                    }
                    let from_left = match self.nodes[q].left_child {
                        Some(c) => c == cur,
                        None => false,
                    };
                    if from_left {
                        cur = q;
                    } else {
                        return Some(q);
                    }
                },
            }
        }
    }

    /// The breakpoint just right of arc `idx`, found by climbing from it.
    fn successor(&self, idx: usize) -> (r: Option<usize>)
        requires
            self.wf(),
            self.has_arc(idx),
        ensures
            r == climb_right(self.nodes@, idx),
    {
        proof { self.lemma_order_facts(); self.lemma_tree_facts(); }
        let mut cur = idx;
        loop
            invariant
                self.wf(),
                self.root is Some,
                self.order().contains(cur),
                climb_right(self.nodes@, cur) == climb_right(self.nodes@, idx),
            decreases cur,
        {
            proof {
                self.lemma_order_facts();
                self.lemma_tree_facts();
                let k = choose|k: int| 0 <= k < self.order().len() && self.order()[k] == cur;
                assert(self.order()[k] < self.nodes@.len());
            }
            match self.nodes[cur].parent {
                None => {
                    return None;
                },
                Some(q) => {
                    proof {
                        let k = choose|k: int| 0 <= k < self.order().len() && self.order()[k] == cur;
                        assert(self.order()[k] != self.root->0);
                        let j = choose|j: int| 0 <= j < self.order().len() && self.order()[j] == q;
                        assert(self.order()[j] < self.nodes@.len());
                    }
                    let from_right = match self.nodes[q].right_child {
                        Some(c) => c == cur,
                        None => false,
                    };
                    if from_right {
                        cur = q;
                    } else {
                        return Some(q);
                    }
                },
            }
        }
    }



    /// What a circle check of arc `idx` asks: the origins of its two bounding
    /// breakpoints and the sites of its left neighbour, itself and its right
    /// neighbour. No question is asked of an arc at either end, nor of one whose
    /// two neighbours belong to the same site.
    pub open(crate) spec fn circle_query(&self, idx: usize) -> Option<(Vertex, Vertex, usize, usize, usize)> {
        let o = self.order();
        let k = self.pos(idx);
        if 0 < k < o.len() - 1 && self.site_at(o[k - 2]) != self.site_at(o[k + 2]) {
            Some((self.bp_at(o[k - 1]).origin, self.bp_at(o[k + 1]).origin, self.site_at(o[k - 2]), self.site_at(idx), self.site_at(o[k + 2])))
        } else {
            None
        }
    }

    /// `after` is what a circle check of arc `idx` leaves of the pending events
    /// `before`, for some answer that `circle` may give.
    pub open(crate) spec fn circle_checked<C: Fn(Vertex, Vertex, usize, usize, usize) -> Option<(u64, u64)>>(
        &self,
        idx: usize,
        circle: C,
        sweep: u64,
        before: Map<(bool, usize), Priority>,
        after: Map<(bool, usize), Priority>,
    ) -> bool {
        &&& self.circle_query(idx) is None ==> after == before
        &&& self.circle_query(idx) is Some ==> exists|ans: Option<(u64, u64)>|
            #[trigger] circle.ensures(self.circle_query(idx)->0, ans) && after == scheduled(before, idx, ans, sweep)
    }

    /// Schedules the circle event of arc `idx` if its two bounding edges meet
    /// at a circle whose lowest point is at or below the sweep height key
    /// `sweep`. `circle` answers, for the two edge origins and the three sites,
    /// the height and abscissa keys of the lowest point of that circle, or
    /// `None` when the edges never meet.
    pub fn check_circle_event<C: Fn(Vertex, Vertex, usize, usize, usize) -> Option<(u64, u64)>>(
        &self,
        idx: usize,
        eq: &mut EventQueue,
        sweep: u64,
        circle: &C,
    )
        requires
            self.wf(),
            self.has_arc(idx),
            forall|a: Vertex, b: Vertex, l: usize, m: usize, r: usize| #[trigger] circle.requires((a, b, l, m, r)),
        ensures
            self.circle_checked(idx, *circle, sweep, old(eq)@, final(eq)@),
    {
        let l_opt = self.left_arc(idx);
        let r_opt = self.right_arc(idx);
        match (l_opt, r_opt) {
            (Some((l, _)), Some((r, _))) => {
                if l.site == r.site {
                    proof {
                        assert(self.circle_query(idx) is None);
                        assert(self.circle_checked(idx, *circle, sweep, old(eq)@, eq@));
                    }
                    return;
                }
                let (xl, _) = self.left_edge(idx).unwrap();
                let (xr, _) = self.right_edge(idx).unwrap();
                let p = self.arc(idx);
                let ans = circle(xl.origin, xr.origin, l.site, p.site, r.site);
                match ans {
                    Some((y, x)) => {
                        if y <= sweep {
                            eq.push(Event::Circle(idx), y, x);
                        }
                    },
                    None => {},
                }
                proof {
                    let args = (xl.origin, xr.origin, l.site, p.site, r.site);
                    assert(self.circle_query(idx) == Some(args));
                    assert((*circle).ensures(args, ans));
                    assert(eq@ == scheduled(old(eq)@, idx, ans, sweep));
                    assert(self.circle_query(idx)->0 == args);
                    assert(self.circle_checked(idx, *circle, sweep, old(eq)@, eq@));
                }
            },
            _ => {
                proof {
                    assert(self.circle_query(idx) is None);
                    assert(self.circle_checked(idx, *circle, sweep, old(eq)@, eq@));
                }
            },
        }
    }

    /// A site event lands on arc `idx`: the arc is split into `a`, `xl`, `b`,
    /// `xr`, `c`, left to right, and the circle events of the two outer pieces,
    /// whose neighbours changed, are checked.
    pub fn replace_arc<C: Fn(Vertex, Vertex, usize, usize, usize) -> Option<(u64, u64)>>(
        &mut self,
        idx: usize,
        a: Arc,
        xl: BreakPoint,
        b: Arc,
        xr: BreakPoint,
        c: Arc,
        eq: &mut EventQueue,
        sweep: u64,
        circle: &C,
    )
        requires
            old(self).wf(),
            old(self).has_arc(idx),
            old(self).node_count() + 5 <= usize::MAX,
            forall|p: Vertex, q: Vertex, l: usize, m: usize, r: usize| #[trigger] circle.requires((p, q, l, m, r)),
        ensures
            final(self).wf(),
            final(self).node_count() == old(self).node_count() + 5,
            ({
                let n = old(self).node_count() as usize;
                let o = old(self).order();
                let k = old(self).pos(idx);
                let d = old(self).view_data();
                &&& final(self).order() == o.subrange(0, k) + split_nodes(n) + o.subrange(k + 1, o.len() as int)
                &&& final(self).view_data() == d.subrange(0, k) + seq![
                    BeachlineData::Arc(a),
                    BeachlineData::BreakPoint(xl),
                    BeachlineData::Arc(b),
                    BeachlineData::BreakPoint(xr),
                    BeachlineData::Arc(c),
                ] + d.subrange(k + 1, d.len() as int)
                &&& exists|mid: Map<(bool, usize), Priority>|
                    #[trigger] final(self).circle_checked((n + 1) as usize, *circle, sweep, old(eq)@, mid)
                        && final(self).circle_checked((n + 4) as usize, *circle, sweep, mid, final(eq)@)
            }),
            forall|j: int| 0 <= j < old(self).node_count() ==> #[trigger] final(self).arena()[j].data == old(self).arena()[j].data,
            final(self).arena()[old(self).node_count() as int + 1].data == BeachlineData::Arc(a),
            final(self).arena()[old(self).node_count() as int + 4].data == BeachlineData::Arc(c),
            Beachline::split_shape(*old(self), *final(self), idx),
    {
        let ghost before = *self;
        let n = self.nodes.len();
        self.splice_arc(idx, a, xl, b, xr, c);
        proof {
            self.lemma_order_facts();
            assert(self.order()[before.pos(idx) + 0] == n + 1);
            assert(self.order()[before.pos(idx) + 4] == n + 4);
            assert(self.order().contains((n + 1) as usize));
            assert(self.order().contains((n + 4) as usize));
            lemma_split_view(before, *self, idx, n, a, xl, b, xr, c);
        }
        let ghost first = eq@;
        self.check_circle_event(n + 1, eq, sweep, circle);
        let ghost mid = eq@;
        self.check_circle_event(n + 4, eq, sweep, circle);
        proof {
            assert(self.circle_checked((n + 1) as usize, *circle, sweep, first, mid));
        }
    }

    /// A circle event consumes arc `idx`, which lies between the breakpoints
    /// `xl_idx` and `xr_idx`: the arc leaves the beachline with one of the two
    /// breakpoints, the other one, returned, takes the payload `x`, and the
    /// circle events of the two arcs that become neighbours are checked.
    pub fn replace_breakpoint<C: Fn(Vertex, Vertex, usize, usize, usize) -> Option<(u64, u64)>>(
        &mut self,
        xl_idx: usize,
        idx: usize,
        xr_idx: usize,
        x: BreakPoint,
        eq: &mut EventQueue,
        sweep: u64,
        circle: &C,
    ) -> (survivor: usize)
        requires
            old(self).wf(),
            old(self).has_arc(idx),
            0 < old(self).pos(idx) < old(self).order().len() - 1,
            xl_idx == old(self).order()[old(self).pos(idx) - 1],
            xr_idx == old(self).order()[old(self).pos(idx) + 1],
            forall|p: Vertex, q: Vertex, l: usize, m: usize, r: usize| #[trigger] circle.requires((p, q, l, m, r)),
        ensures
            final(self).wf(),
            final(self).node_count() == old(self).node_count(),
            survivor == xl_idx || survivor == xr_idx,
            ({
                let o = old(self).order();
                let k = old(self).pos(idx);
                let d = old(self).view_data();
                &&& final(self).order() == o.subrange(0, k - 1) + seq![survivor] + o.subrange(k + 2, o.len() as int)
                &&& final(self).view_data() == d.subrange(0, k - 1) + seq![BeachlineData::BreakPoint(x)] + d.subrange(k + 2, d.len() as int)
                &&& exists|mid: Map<(bool, usize), Priority>|
                    #[trigger] final(self).circle_checked(o[k - 2], *circle, sweep, old(eq)@, mid)
                        && final(self).circle_checked(o[k + 2], *circle, sweep, mid, final(eq)@)
            }),
            forall|j: int| 0 <= j < old(self).node_count() && j != survivor ==> #[trigger] final(self).arena()[j].data == old(self).arena()[j].data,
            final(self).arena()[survivor as int].data == BeachlineData::BreakPoint(x),
            Beachline::merge_shape(*old(self), *final(self), idx),
            survivor == (if old(self).arena()[idx as int].parent == Some(xr_idx) { xl_idx } else { xr_idx }),
    {
        let ghost before = *self;
        let ghost o = self.order();
        let ghost k = self.pos(idx);
        let (_, l_idx) = self.left_arc(idx).unwrap();
        let (_, r_idx) = self.right_arc(idx).unwrap();
        proof {
            self.lemma_arc_neighbours(idx);
        }
        let survivor = self.splice_breakpoint(xl_idx, idx, xr_idx, x);
        proof {
            let o2 = self.order();
            assert(o2[k - 2] == l_idx);
            assert(o2[k] == r_idx);
            assert(o2.contains(l_idx));
            assert(o2.contains(r_idx));
            assert(l_idx != survivor && r_idx != survivor);
            before.lemma_order_facts();
            assert(o[k - 2] < before.node_count() && o[k + 2] < before.node_count());
            assert(self.arena()[l_idx as int].data == before.arena()[l_idx as int].data);
            assert(self.arena()[r_idx as int].data == before.arena()[r_idx as int].data);
            lemma_merge_view(before, *self, idx, survivor, x);
        }
        let ghost first = eq@;
        self.check_circle_event(l_idx, eq, sweep, circle);
        let ghost mid = eq@;
        self.check_circle_event(r_idx, eq, sweep, circle);
        proof {
            assert(self.circle_checked(l_idx, *circle, sweep, first, mid));
        }
        survivor
    }

    /// Finds the arc straight above site `query` at the sweep position of
    /// that site. `goes_left(query, l, r)` tells whether the site lies left of
    /// the breakpoint where the arc of site `l` meets the arc of site `r`; the
    /// descent goes left exactly when it does. The arc found is bounded on
    /// the left by a breakpoint that the site is not left of, and on the right
    /// by one that it is left of.
    pub fn arc_under_point<L: Fn(usize, usize, usize) -> bool>(&self, query: usize, goes_left: &L) -> (r: Option<(Arc, usize)>)
        requires
            self.wf(),
            forall|q: usize, l: usize, rr: usize| #[trigger] goes_left.requires((q, l, rr)),
        ensures
            r is None <==> self.order().len() == 0,
            r matches Some((a, i)) ==> {
                let o = self.order();
                let k = self.pos(i);
                &&& self.has_arc(i)
                &&& BeachlineData::Arc(a) == self.data_at(i)
                &&& k > 0 ==> goes_left.ensures((query, self.bp_at(o[k - 1]).l, self.bp_at(o[k - 1]).r), false)
                &&& k < o.len() - 1 ==> goes_left.ensures((query, self.bp_at(o[k + 1]).l, self.bp_at(o[k + 1]).r), true)
            },
    {
        proof {
            self.lemma_order_facts();
        }
        let root = match self.root {
            None => {
                return None;
            },
            Some(rt) => rt,
        };
        let ghost o = self.order();
        let mut cur = root;
        let ghost mut lo: int = 0;
        let ghost mut hi: int = o.len() as int;
        proof {
            assert(o.subrange(lo, hi) =~= o);
        }
        loop
            invariant
                self.wf(),
                o == self.order(),
                o.no_duplicates(),
                wf_sub(self.nodes@, cur),
                0 <= lo < hi <= o.len(),
                inorder(self.nodes@, cur) == o.subrange(lo, hi),
                lo > 0 ==> !is_arc(self.nodes@, o[lo - 1]) && goes_left.ensures((query, self.bp_at(o[lo - 1]).l, self.bp_at(o[lo - 1]).r), false),
                hi < o.len() ==> !is_arc(self.nodes@, o[hi]) && goes_left.ensures((query, self.bp_at(o[hi]).l, self.bp_at(o[hi]).r), true),
                forall|q: usize, l: usize, rr: usize| #[trigger] goes_left.requires((q, l, rr)),
            decreases self.nodes@.len() - cur,
        {
            proof {
                lemma_inorder_shape(self.nodes@, cur);
            }
            match self.nodes[cur].data {
                BeachlineData::Arc(a) => {
                    proof {
                        assert(inorder(self.nodes@, cur) == seq![cur]);
                        assert(hi == lo + 1);
                        assert(o[lo] == o.subrange(lo, hi)[0]);
                        assert(o.contains(cur));
                        let k = self.pos(cur);
                        assert(o[k] == cur);
                        assert(k == lo);
                    }
                    return Some((a, cur));
                },
                BeachlineData::BreakPoint(bp) => {
                    let l = self.nodes[cur].left_child.unwrap();
                    let r = self.nodes[cur].right_child.unwrap();
                    let go_left = goes_left(query, bp.l, bp.r);
                    proof {
                        let a = inorder(self.nodes@, l);
                        let b = inorder(self.nodes@, r);
                        lemma_inorder_shape(self.nodes@, l);
                        lemma_inorder_shape(self.nodes@, r);
                        assert(inorder(self.nodes@, cur) == a + seq![cur] + b);
                        let mid = lo + a.len();
                        assert(o[mid] == o.subrange(lo, hi)[a.len() as int]);
                        assert(o[mid] == cur);
                        assert(a =~= o.subrange(lo, mid));
                        let sub = o.subrange(lo, hi);
                        assert(sub.len() == a.len() + 1 + b.len());
                        assert forall|j: int| 0 <= j < b.len() implies b[j] == o.subrange(mid + 1, hi)[j] by {
                            assert(sub[a.len() + 1 + j] == b[j]);
                            assert(sub[a.len() + 1 + j] == o[lo + a.len() + 1 + j]);
                        }
                        assert(b =~= o.subrange(mid + 1, hi));
                        assert(self.bp_at(o[mid]) == bp);
                    }
                    if go_left {
                        proof {
                            hi = lo + inorder(self.nodes@, l).len();
                        }
                        cur = l;
                    } else {
                        proof {
                            lo = lo + inorder(self.nodes@, l).len() + 1;
                        }
                        cur = r;
                    }
                },
            }
        }
    }

    /// The breakpoints of the beachline, left to right: the edges still open.
    pub open(crate) spec fn open_edges(&self) -> Seq<BreakPoint> {
        bps_of(self.nodes@, self.order())
    }

    /// Hands out every breakpoint still on the beachline after the sweep, left
    /// to right: each is an unfinished edge, a ray from its origin, for the
    /// caller to clip to its bounding box.
    pub fn extend_edges_to_bounding_box(&self, edges: &mut Vec<BreakPoint>)
        requires
            self.wf(),
        ensures
            final(edges)@ == old(edges)@ + self.open_edges(),
    {
        match self.root {
            None => {
                proof {
                    assert(self.open_edges() =~= Seq::<BreakPoint>::empty());
                }
                assert(edges@ =~= old(edges)@ + self.open_edges());
            },
            Some(rt) => {
                self.extend_edges_to_bounding_box_aux(rt, edges);
            },
        }
    }

    fn extend_edges_to_bounding_box_aux(&self, node: usize, edges: &mut Vec<BreakPoint>)
        requires
            wf_sub(self.nodes@, node),
        ensures
            final(edges)@ == old(edges)@ + bps_of(self.nodes@, inorder(self.nodes@, node)),
        decreases self.nodes@.len() - node,
    {
        proof {
            lemma_inorder_shape(self.nodes@, node);
        }
        match self.nodes[node].data {
            BeachlineData::Arc(_) => {
                proof {
                    assert(bps_of(self.nodes@, inorder(self.nodes@, node)) =~= Seq::<BreakPoint>::empty());
                }
                assert(edges@ =~= old(edges)@ + bps_of(self.nodes@, inorder(self.nodes@, node)));
            },
            BeachlineData::BreakPoint(bp) => {
                let l = self.nodes[node].left_child.unwrap();
                let r = self.nodes[node].right_child.unwrap();
                self.extend_edges_to_bounding_box_aux(l, edges);
                edges.push(bp);
                self.extend_edges_to_bounding_box_aux(r, edges);
                proof {
                    lemma_inorder_shape(self.nodes@, l);
                    lemma_inorder_shape(self.nodes@, r);
                    lemma_bps_concat(self.nodes@, inorder(self.nodes@, l), node, inorder(self.nodes@, r));
                    assert(inorder(self.nodes@, node) == inorder(self.nodes@, l) + seq![node] + inorder(self.nodes@, r));
                    assert(edges@ =~= old(edges)@ + bps_of(self.nodes@, inorder(self.nodes@, node)));
                }
            },
        }
    }

    /// What the tree shape says about the surroundings of arc `idx`.
    pub(crate) proof fn lemma_arc_neighbours(&self, idx: usize)
        requires
            self.wf(),
            self.has_arc(idx),
        ensures
            ({
                let nodes = self.nodes@;
                let o = self.order();
                let k = self.pos(idx);
                &&& 0 <= k < o.len()
                &&& o[k] == idx
                &&& k % 2 == 0
                &&& o.len() % 2 == 1
                &&& k == 0 ==> climb_left(nodes, idx) == None::<usize>
                &&& k > 0 ==> {
                    &&& k >= 2
                    &&& climb_left(nodes, idx) == Some(o[k - 1])
                    &&& !is_arc(nodes, o[k - 1])
                    &&& wf_sub(nodes, o[k - 1])
                    &&& wf_sub(nodes, left_of(nodes, o[k - 1]))
                    &&& o[k - 2] == inorder(nodes, left_of(nodes, o[k - 1])).last()
                    &&& self.has_arc(o[k - 2])
                    &&& o[k - 1] < nodes.len()
                }
                &&& k == o.len() - 1 ==> climb_right(nodes, idx) == None::<usize>
                &&& k < o.len() - 1 ==> {
                    &&& k + 2 < o.len()
                    &&& climb_right(nodes, idx) == Some(o[k + 1])
                    &&& !is_arc(nodes, o[k + 1])
                    &&& wf_sub(nodes, o[k + 1])
                    &&& wf_sub(nodes, right_of(nodes, o[k + 1]))
                    &&& o[k + 2] == inorder(nodes, right_of(nodes, o[k + 1]))[0]
                    &&& self.has_arc(o[k + 2])
                    &&& o[k + 1] < nodes.len()
                }
            }),
    {
        let nodes = self.nodes@;
        let o = self.order();
        let k = self.pos(idx);
        let r = self.root->0;
        assert(o.contains(idx));
        assert(o[k] == idx);
        lemma_inorder_shape(nodes, r);
        assert(is_arc(nodes, o[k]));
        assert(k % 2 == 0);
        lemma_climb(nodes, r);
        if k > 0 {
            self.lemma_left_side(k);
        } else {
            assert(climb_left(nodes, o[0]) == None::<usize>);
        }
        if k < o.len() - 1 {
            self.lemma_right_side(k);
        } else {
            assert(climb_right(nodes, o.last()) == None::<usize>);
        }
    }

    proof fn lemma_left_side(&self, k: int)
        requires
            self.wf(),
            self.root is Some,
            2 <= k < self.order().len(),
            (k - 1) % 2 == 1,
            (k - 2) % 2 == 0,
            alternates(self.nodes@, self.order()),
            forall|j: int| 0 <= j < self.order().len() ==> wf_sub(self.nodes@, #[trigger] self.order()[j]),
            forall|j: int| 0 <= j < self.order().len() ==> #[trigger] self.order()[j] < self.nodes@.len(),
        ensures
            ({
                let nodes = self.nodes@;
                let o = self.order();
                &&& !is_arc(nodes, o[k - 1])
                &&& wf_sub(nodes, o[k - 1])
                &&& wf_sub(nodes, left_of(nodes, o[k - 1]))
                &&& o[k - 2] == inorder(nodes, left_of(nodes, o[k - 1])).last()
                &&& self.has_arc(o[k - 2])
                &&& o[k - 1] < nodes.len()
            }),
    {
        let nodes = self.nodes@;
        let o = self.order();
        lemma_neighbours(nodes, self.root->0);
        assert(!is_arc(nodes, o[k - 1]));
        assert(is_arc(nodes, o[k - 2]));
        assert(o.contains(o[k - 2]));
        assert(wf_sub(nodes, o[k - 1]));
    }

    proof fn lemma_right_side(&self, k: int)
        requires
            self.wf(),
            self.root is Some,
            0 <= k < self.order().len() - 1,
            k % 2 == 0,
            (k + 1) % 2 == 1,
            (k + 2) % 2 == 0,
            alternates(self.nodes@, self.order()),
            forall|j: int| 0 <= j < self.order().len() ==> wf_sub(self.nodes@, #[trigger] self.order()[j]),
            forall|j: int| 0 <= j < self.order().len() ==> #[trigger] self.order()[j] < self.nodes@.len(),
        ensures
            ({
                let nodes = self.nodes@;
                let o = self.order();
                &&& k + 2 < o.len()
                &&& !is_arc(nodes, o[k + 1])
                &&& wf_sub(nodes, o[k + 1])
                &&& wf_sub(nodes, right_of(nodes, o[k + 1]))
                &&& o[k + 2] == inorder(nodes, right_of(nodes, o[k + 1]))[0]
                &&& self.has_arc(o[k + 2])
                &&& o[k + 1] < nodes.len()
            }),
    {
        let nodes = self.nodes@;
        let o = self.order();
        lemma_neighbours(nodes, self.root->0);
        assert(!is_arc(nodes, o[k + 1]));
        assert(is_arc(nodes, o[k + 2]));
        assert(o.contains(o[k + 2]));
        assert(wf_sub(nodes, o[k + 1]));
    }

    /// The nearest arc to the left of arc `idx`, and its node.
    pub fn left_arc(&self, idx: usize) -> (r: Option<(Arc, usize)>)
        requires
            self.wf(),
            self.has_arc(idx),
        ensures
            ({
                let o = self.order();
                let k = self.pos(idx);
                &&& k == 0 ==> r is None
                &&& k > 0 ==> k >= 2 && r == Some((Arc { site: self.site_at(o[k - 2]) }, o[k - 2]))
                &&& k > 0 ==> self.has_arc(o[k - 2])
            }),
    {
        proof { self.lemma_arc_neighbours(idx); }
        let ghost o = self.order();
        let ghost k = self.pos(idx);
        match self.predecessor(idx) {
            None => None,
            Some(p) => {
                let l = self.nodes[p].left_child.unwrap();
                let a_idx = self.maximum(l);
                Some((self.arc(a_idx), a_idx))
            },
        }
    }

    /// The nearest arc to the right of arc `idx`, and its node.
    pub fn right_arc(&self, idx: usize) -> (r: Option<(Arc, usize)>)
        requires
            self.wf(),
            self.has_arc(idx),
        ensures
            ({
                let o = self.order();
                let k = self.pos(idx);
                &&& k == o.len() - 1 ==> r is None
                &&& k < o.len() - 1 ==> k + 2 < o.len() && r == Some((Arc { site: self.site_at(o[k + 2]) }, o[k + 2]))
                &&& k < o.len() - 1 ==> self.has_arc(o[k + 2])
            }),
    {
        proof { self.lemma_arc_neighbours(idx); }
        let ghost o = self.order();
        let ghost k = self.pos(idx);
        match self.successor(idx) {
            None => None,
            Some(p) => {
                let r = self.nodes[p].right_child.unwrap();
                let a_idx = self.minimum(r);
                Some((self.arc(a_idx), a_idx))
            },
        }
    }

    /// The breakpoint that bounds arc `idx` on the left, and its node.
    pub fn left_edge(&self, idx: usize) -> (r: Option<(BreakPoint, usize)>)
        requires
            self.wf(),
            self.has_arc(idx),
        ensures
            ({
                let o = self.order();
                let k = self.pos(idx);
                &&& k == 0 ==> r is None
                &&& k > 0 ==> r == Some((self.bp_at(o[k - 1]), o[k - 1])) && !is_arc(self.arena(), o[k - 1])
            }),
    {
        proof { self.lemma_arc_neighbours(idx); }
        let ghost o = self.order();
        let ghost k = self.pos(idx);
        match self.predecessor(idx) {
            None => None,
            Some(p) => {
                match self.nodes[p].data {
                    BeachlineData::BreakPoint(bp) => Some((bp, p)),
                    BeachlineData::Arc(_) => None,
                }
            },
        }
    }

    /// The breakpoint that bounds arc `idx` on the right, and its node.
    pub fn right_edge(&self, idx: usize) -> (r: Option<(BreakPoint, usize)>)
        requires
            self.wf(),
            self.has_arc(idx),
        ensures
            ({
                let o = self.order();
                let k = self.pos(idx);
                &&& k == o.len() - 1 ==> r is None
                &&& k < o.len() - 1 ==> r == Some((self.bp_at(o[k + 1]), o[k + 1])) && !is_arc(self.arena(), o[k + 1])
            }),
    {
        proof { self.lemma_arc_neighbours(idx); }
        let ghost o = self.order();
        let ghost k = self.pos(idx);
        match self.successor(idx) {
            None => None,
            Some(p) => {
                match self.nodes[p].data {
                    BeachlineData::BreakPoint(bp) => Some((bp, p)),
                    BeachlineData::Arc(_) => None,
                }
            },
        }
    }


    /// Where node `idx` hangs: under a breakpoint of the tree, or at its root.
    proof fn lemma_parent_of(&self, idx: usize)
        requires
            self.wf(),
            self.order().contains(idx),
        ensures
            ({
                let nodes = self.nodes@;
                let o = self.order();
                match nodes[idx as int].parent {
                    None => self.root == Some(idx) && o == inorder(nodes, idx),
                    Some(g) => {
                        &&& o.contains(g)
                        &&& g < idx
                        &&& g < nodes.len()
                        &&& wf_sub(nodes, g)
                        &&& !is_arc(nodes, g)
                        &&& (left_of(nodes, g) == idx || right_of(nodes, g) == idx)
                        &&& self.root is Some
                        &&& self.root != Some(idx)
                    },
                }
            }),
    {
        let nodes = self.nodes@;
        let o = self.order();
        let r = self.root->0;
        lemma_inorder_shape(nodes, r);
        lemma_parent_in(nodes, r);
        let k = choose|k: int| 0 <= k < o.len() && o[k] == idx;
        if idx != r {
            assert(has_parent_in(nodes, o, o[k]));
            let g = nodes[idx as int].parent->0;
            let j = choose|j: int| 0 <= j < o.len() && o[j] == g;
            assert(wf_sub(nodes, o[j]));
        }
    }

    /// Allocates the five nodes that replace a split arc and hangs them where
    /// arc `idx` was. The new nodes are, in order of allocation, the left
    /// breakpoint, the left arc, the right breakpoint, the middle arc and the
    /// right arc.
    fn splice_arc(&mut self, idx: usize, a: Arc, xl: BreakPoint, b: Arc, xr: BreakPoint, c: Arc)
        requires
            old(self).wf(),
            old(self).has_arc(idx),
            old(self).node_count() + 5 <= usize::MAX,
        ensures
            final(self).wf(),
            final(self).node_count() == old(self).node_count() + 5,
            ({
                let n = old(self).node_count() as usize;
                let o = old(self).order();
                let k = old(self).pos(idx);
                final(self).order() == o.subrange(0, k) + split_nodes(n) + o.subrange(k + 1, o.len() as int)
            }),
            forall|j: int| 0 <= j < old(self).node_count() ==> #[trigger] final(self).arena()[j].data == old(self).arena()[j].data,
            final(self).arena()[old(self).node_count() as int].data == BeachlineData::BreakPoint(xl),
            final(self).arena()[old(self).node_count() as int + 1].data == BeachlineData::Arc(a),
            final(self).arena()[old(self).node_count() as int + 2].data == BeachlineData::BreakPoint(xr),
            final(self).arena()[old(self).node_count() as int + 3].data == BeachlineData::Arc(b),
            final(self).arena()[old(self).node_count() as int + 4].data == BeachlineData::Arc(c),
            Beachline::split_shape(*old(self), *final(self), idx),
    {
        let ghost old_nodes = self.nodes@;
        let ghost o = self.order();
        let ghost k = self.pos(idx);
        proof {
            self.lemma_arc_neighbours(idx);
            self.lemma_order_facts();
            self.lemma_parent_of(idx);
        }
        let parent = self.nodes[idx].parent;
        let n = self.nodes.len();
        let xl_idx = n;
        let a_idx = n + 1;
        let xr_idx = n + 2;
        let b_idx = n + 3;
        let c_idx = n + 4;
        self.nodes.push(BeachlineEntry { left_child: Some(a_idx), right_child: Some(xr_idx), parent, data: BeachlineData::BreakPoint(xl) });
        self.nodes.push(BeachlineEntry { left_child: None, right_child: None, parent: Some(xl_idx), data: BeachlineData::Arc(a) });
        self.nodes.push(BeachlineEntry { left_child: Some(b_idx), right_child: Some(c_idx), parent: Some(xl_idx), data: BeachlineData::BreakPoint(xr) });
        self.nodes.push(BeachlineEntry { left_child: None, right_child: None, parent: Some(xr_idx), data: BeachlineData::Arc(b) });
        self.nodes.push(BeachlineEntry { left_child: None, right_child: None, parent: Some(xr_idx), data: BeachlineData::Arc(c) });
        proof {
            lemma_split_nodes(self.nodes@, n);
        }
        match parent {
            Some(g) => {
                let mut e = self.nodes[g];
                let from_left = match e.left_child {
                    Some(ch) => ch == idx,
                    None => false,
                };
                if from_left {
                    e.left_child = Some(xl_idx);
                } else {
                    e.right_child = Some(xl_idx);
                }
                self.nodes.set(g, e);
                proof {
                    let nw = self.nodes@;
                    lemma_split_nodes(nw, n);
                    assert forall|j: int| 0 <= j < old_nodes.len() && j != g implies same_shape(#[trigger] old_nodes[j], nw[j]) by {}
                    lemma_hang_local(old_nodes, nw, g, idx, n);
                    lemma_lift(old_nodes, nw, g, self.root->0, seq![idx], split_nodes(n));
                    let (u, v) = choose|u: Seq<usize>, v: Seq<usize>|
                        o == u + seq![idx] + v && #[trigger] inorder(nw, self.root->0) == u + split_nodes(n) + v;
                    lemma_local_replace(o, u, v, idx, k, split_nodes(n));
                }
            },
            None => {
                proof {
                    assert(o =~= seq![idx]);
                    lemma_local_replace(o, Seq::empty(), Seq::empty(), idx, k, split_nodes(n));
                    assert(split_nodes(n) =~= Seq::<usize>::empty() + split_nodes(n) + Seq::<usize>::empty());
                }
                self.root = Some(xl_idx);
            },
        }
        proof {
            let nw = self.nodes@;
            assert forall|j: int| 0 <= j < old_nodes.len() implies #[trigger] nw[j].parent == old_nodes[j].parent && nw[j].data == old_nodes[j].data by {}
            lemma_split_order(old_nodes, nw, o, self.order(), k, n);
        }
    }

    /// The breakpoint right above arc `idx` is one of its two bounding
    /// breakpoints, and hangs below another breakpoint.
    #[verifier::rlimit(80)]
    proof fn lemma_above_arc(&self, idx: usize)
        requires
            self.wf(),
            self.has_arc(idx),
            0 < self.pos(idx) < self.order().len() - 1,
        ensures
            ({
                let nodes = self.nodes@;
                let o = self.order();
                let k = self.pos(idx);
                let gc = nodes[idx as int].parent->0;
                &&& nodes[idx as int].parent is Some
                &&& o[k] == idx
                &&& left_of(nodes, gc) == idx ==> gc == o[k + 1] && right_of(nodes, gc) != idx
                &&& left_of(nodes, gc) != idx ==> gc == o[k - 1] && right_of(nodes, gc) == idx
                &&& gc < nodes.len()
                &&& wf_sub(nodes, gc)
                &&& !is_arc(nodes, gc)
                &&& nodes[gc as int].parent is Some
                &&& o.contains(gc)
                &&& left_of(nodes, gc) == idx ==> !inorder(nodes, gc).contains(o[k - 1])
                &&& left_of(nodes, gc) != idx ==> !inorder(nodes, gc).contains(o[k + 1])
            }),
    {
        let nodes = self.nodes@;
        let o = self.order();
        let k = self.pos(idx);
        let root = self.root->0;
        self.lemma_arc_neighbours(idx);
        self.lemma_parent_of(idx);
        lemma_inorder_shape(nodes, root);
        let gc = nodes[idx as int].parent->0;
        lemma_splice(nodes, nodes, gc, root);
        let (x, y) = choose|x: Seq<usize>, y: Seq<usize>|
            o == x + inorder(nodes, gc) + y && inorder(nodes, root) == x + inorder(nodes, gc) + y;
        let l = left_of(nodes, gc);
        let r = right_of(nodes, gc);
        lemma_inorder_shape(nodes, l);
        lemma_inorder_shape(nodes, r);
        assert(inorder(nodes, gc) == inorder(nodes, l) + seq![gc] + inorder(nodes, r));
        assert(inorder(nodes, idx) == seq![idx]);
        if l == idx {
            let rest = inorder(nodes, r);
            assert(o =~= x + seq![idx] + (seq![gc] + rest + y));
            assert(o[x.len() as int] == idx);
            assert(x.len() == k);
            assert(o[k + 1] == gc);
            if r == idx {
                assert(o[k + 2] == idx);
            }
            if inorder(nodes, gc).contains(o[k - 1]) {
                let j = choose|j: int| 0 <= j < inorder(nodes, gc).len() && inorder(nodes, gc)[j] == o[k - 1];
                assert(o[k + j] == o[k - 1]);
            }
        } else {
            let lt = inorder(nodes, l);
            assert(o =~= (x + lt + seq![gc]) + seq![idx] + y);
            assert(o[(x.len() + lt.len() + 1) as int] == idx);
            assert(k == x.len() + lt.len() + 1);
            assert(o[k - 1] == gc);
            if inorder(nodes, gc).contains(o[k + 1]) {
                let j = choose|j: int| 0 <= j < inorder(nodes, gc).len() && inorder(nodes, gc)[j] == o[k + 1];
                assert(o[x.len() + j] == o[k + 1]);
            }
        }
        self.lemma_parent_of(gc);
        if nodes[gc as int].parent is None {
            assert(o == inorder(nodes, gc));
            assert(x.len() == 0 && y.len() == 0) by {
                assert(o.len() == x.len() + inorder(nodes, gc).len() + y.len());
            }
            if l == idx {
                assert(k == 0);
            } else {
                assert(k == o.len() - 1);
            }
        }
    }

    /// Removes arc `idx`, which a circle event consumes, with the one of its two
    /// bounding breakpoints that sits right above it; the other one, returned,
    /// takes the payload `x` and from then on traces the merged edge.
    #[verifier::spinoff_prover]
    #[verifier::rlimit(100)]
    fn splice_breakpoint(&mut self, xl_idx: usize, idx: usize, xr_idx: usize, x: BreakPoint) -> (survivor: usize)
        requires
            old(self).wf(),
            old(self).has_arc(idx),
            0 < old(self).pos(idx) < old(self).order().len() - 1,
            xl_idx == old(self).order()[old(self).pos(idx) - 1],
            xr_idx == old(self).order()[old(self).pos(idx) + 1],
        ensures
            final(self).wf(),
            final(self).node_count() == old(self).node_count(),
            survivor == xl_idx || survivor == xr_idx,
            ({
                let o = old(self).order();
                let k = old(self).pos(idx);
                final(self).order() == o.subrange(0, k - 1) + seq![survivor] + o.subrange(k + 2, o.len() as int)
            }),
            forall|j: int| 0 <= j < old(self).node_count() && j != survivor ==> #[trigger] final(self).arena()[j].data == old(self).arena()[j].data,
            final(self).arena()[survivor as int].data == BeachlineData::BreakPoint(x),
            Beachline::merge_shape(*old(self), *final(self), idx),
            survivor == (if old(self).arena()[idx as int].parent == Some(xr_idx) { xl_idx } else { xr_idx }),
    {
        let ghost old_nodes = self.nodes@;
        let ghost o = self.order();
        let ghost k = self.pos(idx);
        let ghost root = self.root->0;
        proof {
            self.lemma_above_arc(idx);
            self.lemma_order_facts();
        }
        let gc = self.nodes[idx].parent.unwrap();
        proof {
            self.lemma_parent_of(gc);
        }
        let survivor = if gc == xr_idx { xl_idx } else { xr_idx };
        let mut se = self.nodes[survivor];
        se.data = BeachlineData::BreakPoint(x);
        self.nodes.set(survivor, se);
        let gce = self.nodes[gc];
        let from_left = match gce.left_child {
            Some(ch) => ch == idx,
            None => false,
        };
        let sibling = if from_left { gce.right_child.unwrap() } else { gce.left_child.unwrap() };
        let g = gce.parent.unwrap();
        let mut ge = self.nodes[g];
        let gc_left = match ge.left_child {
            Some(ch) => ch == gc,
            None => false,
        };
        if gc_left {
            ge.left_child = Some(sibling);
        } else {
            ge.right_child = Some(sibling);
        }
        self.nodes.set(g, ge);
        proof {
            lemma_inorder_shape(old_nodes, sibling);
        }
        let mut sbe = self.nodes[sibling];
        sbe.parent = Some(g);
        self.nodes.set(sibling, sbe);
        proof {
            let nw = self.nodes@;
            lemma_remove_pair(old_nodes, nw, root, g, gc, idx, sibling, survivor);
            let (u, v) = choose|u: Seq<usize>, v: Seq<usize>|
                #![trigger u + v]
                inorder(old_nodes, root) == u + (if from_left { seq![idx, gc] } else { seq![gc, idx] }) + v
                    && inorder(nw, root) == u + v;
            if from_left {
                assert(o =~= u + seq![idx] + (seq![gc] + v));
                lemma_local_replace(o, u, seq![gc] + v, idx, k, seq![]);
                assert(u =~= o.subrange(0, k - 1) + seq![survivor]);
                assert(v =~= o.subrange(k + 2, o.len() as int));
            } else {
                assert(o =~= (u + seq![gc]) + seq![idx] + v);
                lemma_local_replace(o, u + seq![gc], v, idx, k, seq![]);
                assert(u =~= o.subrange(0, k - 1));
                assert(v =~= seq![survivor] + o.subrange(k + 2, o.len() as int));
            }
            assert(self.order() =~= o.subrange(0, k - 1) + seq![survivor] + o.subrange(k + 2, o.len() as int));
        }
        survivor
    }

    proof fn lemma_empty(&self)
        requires
            self.wf(),
            self.order().len() == 0,
        ensures
            self.root is None,
    {
        if let Some(r) = self.root {
            lemma_inorder_shape(self.nodes@, r);
        }
    }
}

/// The payloads after a split, left to right.
proof fn lemma_split_view(before: Beachline, after: Beachline, idx: usize, n: usize, a: Arc, xl: BreakPoint, b: Arc, xr: BreakPoint, c: Arc)
    requires
        before.wf(),
        before.has_arc(idx),
        n == before.node_count(),
        n + 5 <= usize::MAX,
        after.order() == before.order().subrange(0, before.pos(idx)) + split_nodes(n) + before.order().subrange(before.pos(idx) + 1, before.order().len() as int),
        forall|j: int| 0 <= j < n ==> #[trigger] after.arena()[j].data == before.arena()[j].data,
        after.arena()[n as int].data == BeachlineData::BreakPoint(xl),
        after.arena()[n as int + 1].data == BeachlineData::Arc(a),
        after.arena()[n as int + 2].data == BeachlineData::BreakPoint(xr),
        after.arena()[n as int + 3].data == BeachlineData::Arc(b),
        after.arena()[n as int + 4].data == BeachlineData::Arc(c),
    ensures
        ({
            let k = before.pos(idx);
            let d = before.view_data();
            after.view_data() == d.subrange(0, k) + seq![
                BeachlineData::Arc(a),
                BeachlineData::BreakPoint(xl),
                BeachlineData::Arc(b),
                BeachlineData::BreakPoint(xr),
                BeachlineData::Arc(c),
            ] + d.subrange(k + 1, d.len() as int)
        }),
{
    before.lemma_order_facts();
    let o = before.order();
    let o2 = after.order();
    let k = before.pos(idx);
    assert(o.contains(idx));
    assert(0 <= k < o.len() && o[k] == idx);
    let d = before.view_data();
    let five = seq![
        BeachlineData::Arc(a),
        BeachlineData::BreakPoint(xl),
        BeachlineData::Arc(b),
        BeachlineData::BreakPoint(xr),
        BeachlineData::Arc(c),
    ];
    let want = d.subrange(0, k) + five + d.subrange(k + 1, d.len() as int);
    let got = after.view_data();
    assert(got.len() == want.len());
    assert forall|m: int| 0 <= m < got.len() implies got[m] == want[m] by {
        if m < k {
            assert(o2[m] == o[m]);
        } else if m >= k + 5 {
            assert(o2[m] == o[m - 4]);
        } else {
            assert(o2[m] == split_nodes(n)[m - k]);
        }
    }
    assert(got =~= want);
}

/// The payloads after a merge, left to right.
proof fn lemma_merge_view(before: Beachline, after: Beachline, idx: usize, survivor: usize, x: BreakPoint)
    requires
        before.wf(),
        before.has_arc(idx),
        0 < before.pos(idx) < before.order().len() - 1,
        after.order() == before.order().subrange(0, before.pos(idx) - 1) + seq![survivor] + before.order().subrange(before.pos(idx) + 2, before.order().len() as int),
        after.node_count() == before.node_count(),
        after.order().no_duplicates(),
        forall|j: int| 0 <= j < before.node_count() && j != survivor ==> #[trigger] after.arena()[j].data == before.arena()[j].data,
        after.arena()[survivor as int].data == BeachlineData::BreakPoint(x),
    ensures
        ({
            let k = before.pos(idx);
            let d = before.view_data();
            after.view_data() == d.subrange(0, k - 1) + seq![BeachlineData::BreakPoint(x)] + d.subrange(k + 2, d.len() as int)
        }),
{
    before.lemma_order_facts();
    let o = before.order();
    let o2 = after.order();
    let k = before.pos(idx);
    assert(o.contains(idx));
    assert(0 <= k < o.len() && o[k] == idx);
    let d = before.view_data();
    let want = d.subrange(0, k - 1) + seq![BeachlineData::BreakPoint(x)] + d.subrange(k + 2, d.len() as int);
    let got = after.view_data();
    assert(got.len() == want.len());
    assert forall|m: int| 0 <= m < got.len() implies got[m] == want[m] by {
        assert(o2[k - 1] == survivor);
        if m < k - 1 {
            assert(o2[m] == o[m]);
            assert(o[m] < before.node_count());
        } else if m > k - 1 {
            assert(o2[m] == o[m + 2]);
            assert(o[m + 2] < before.node_count());
        }
    }
    assert(got =~= want);
}

/// Arcs and breakpoints alternate along a well-formed beachline, starting and
/// ending with an arc, whatever operations built it.
pub proof fn lemma_beachline_alternates(bl: &Beachline)
    requires
        bl.wf(),
    ensures
        bl.view_data().len() == 0 || {
            &&& bl.view_data().len() % 2 == 1
            &&& forall|k: int| 0 <= k < bl.view_data().len() ==> ((#[trigger] bl.view_data()[k] is Arc) <==> k % 2 == 0)
        },
{
    bl.lemma_order_facts();
    let o = bl.order();
    let d = bl.view_data();
    if o.len() > 0 {
        assert forall|k: int| 0 <= k < d.len() implies ((#[trigger] d[k] is Arc) <==> k % 2 == 0) by {
            assert(d[k] == bl.nodes@[o[k] as int].data);
            assert(is_arc(bl.nodes@, o[k]) <==> k % 2 == 0);
        }
    }
}

/// A circle check is deterministic: on the same beachline, arc, sweep height
/// and pending events, an oracle that answers each question one way leaves
/// the same pending events every time.
pub proof fn lemma_circle_check_deterministic<C: Fn(Vertex, Vertex, usize, usize, usize) -> Option<(u64, u64)>>(
    bl: &Beachline,
    idx: usize,
    circle: C,
    sweep: u64,
    before: Map<(bool, usize), Priority>,
    after1: Map<(bool, usize), Priority>,
    after2: Map<(bool, usize), Priority>,
)
    requires
        forall|args: (Vertex, Vertex, usize, usize, usize), a1: Option<(u64, u64)>, a2: Option<(u64, u64)>|
            #[trigger] circle.ensures(args, a1) && #[trigger] circle.ensures(args, a2) ==> a1 == a2,
        bl.circle_checked(idx, circle, sweep, before, after1),
        bl.circle_checked(idx, circle, sweep, before, after2),
    ensures
        after1 == after2,
{
    if bl.circle_query(idx) is Some {
        let args = bl.circle_query(idx)->0;
        let a1 = choose|a: Option<(u64, u64)>| #[trigger] circle.ensures(args, a) && after1 == scheduled(before, idx, a, sweep);
        let a2 = choose|a: Option<(u64, u64)>| #[trigger] circle.ensures(args, a) && after2 == scheduled(before, idx, a, sweep);
        assert(a1 == a2);
    }
}

} // verus!
