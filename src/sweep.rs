//! The event loop of Fortune's algorithm.

use crate::beachline::{lemma_beachline_alternates, scheduled, Arc, Beachline, BeachlineData, BreakPoint, Vertex};
use crate::tree::{is_arc, split_nodes};
use crate::edges::{bp_ok, edge_ok, join_edges, joined, lemma_joined_ok, vertex_ok, Edge};
use crate::events::{key_of, Event, EventQueue, Priority};
use vstd::prelude::*;

verus! {

/// What a sweep leaves: the edges it finished, the edges still open on the
/// final beachline, the Voronoi edges made of them, and that beachline.
pub struct Diagram {
    /// The Voronoi edges: the finished pieces and the open rays, with the two
    /// halves of an edge that a site event started joined where one of them
    /// ends at a circle center.
    pub edges: Vec<Edge>,
    /// Finished edges, each from the origin of a breakpoint to the circle
    /// center where it stopped.
    pub finished: Vec<(Vertex, Vertex)>,
    /// Edges still growing when the sweep ended: rays to clip.
    pub open: Vec<BreakPoint>,
    /// How many circle events were processed.
    pub circle_events: usize,
    /// The height key of each event, in the order the events were handled.
    pub heights: Vec<u64>,
    /// The beachline when the last event was handled.
    pub beachline: Beachline,
}

/// Arc `a` lies strictly inside the beachline, with a neighbour on each side,
/// and its two neighbouring arcs differ.
pub open spec fn interior(bl: Beachline, a: usize) -> bool {
    &&& bl.has_arc(a)
    &&& 0 < bl.pos(a) < bl.order().len() - 1
    &&& bl.view_data()[bl.pos(a) - 2] != bl.view_data()[bl.pos(a) + 2]
}

/// Every pending circle event belongs to an inner arc of the beachline, and
/// the pending site events are those of `pending`.
pub open spec fn queue_ok(bl: Beachline, q: Map<(bool, usize), Priority>, pending: Set<usize>) -> bool {
    &&& forall|key: (bool, usize)| #[trigger] q.contains_key(key) ==> (key.0 ==> interior(bl, key.1)) && (!key.0 ==> pending.contains(key.1))
    &&& forall|i: usize| #[trigger] pending.contains(i) ==> q.contains_key((false, i))
}

/// The shape of the beachline after `processed` site events and `circles`
/// circle events: each site after the first adds two arcs, each circle event
/// takes one away.
pub open spec fn shape_ok(bl: Beachline, processed: nat, circles: nat) -> bool {
    &&& processed == 0 <==> bl.order().len() == 0
    &&& processed > 0 ==> bl.order().len() + 2 * circles + 3 == 4 * processed
    &&& bl.node_count() <= 5 * processed
    &&& processed >= 2 ==> bl.order().len() >= 3
}

/// No pending event lies above the sweep height key `h`.
pub open spec fn below(q: Map<(bool, usize), Priority>, h: u64) -> bool {
    forall|key: (bool, usize)| #[trigger] q.contains_key(key) ==> q[key].0 <= h
}

/// A sequence of event heights that never goes up.
pub open spec fn non_increasing(s: Seq<u64>) -> bool {
    forall|i: int, j: int| 0 <= i <= j < s.len() ==> s[j] <= s[i]
}

/// An alternating sequence of payloads: arc, breakpoint, arc, ..., arc.
pub open spec fn alternating(d: Seq<BeachlineData>) -> bool {
    &&& d.len() % 2 == 1
    &&& forall|k: int| 0 <= k < d.len() ==> ((#[trigger] d[k] is Arc) <==> k % 2 == 0)
}

fn remove_circle_event(arc_idx: usize, eq: &mut EventQueue)
    ensures
        final(eq)@ == old(eq)@.remove(key_of(Event::Circle(arc_idx))),
{
    eq.remove(Event::Circle(arc_idx));
}

/// An inner arc other than the one split stays an inner arc.
proof fn lemma_split_interior(before: Beachline, after: Beachline, idx: usize, n: usize, q: usize)
    requires
        before.wf(),
        after.wf(),
        before.has_arc(idx),
        n == before.node_count(),
        n + 5 <= usize::MAX,
        after.order() == before.order().subrange(0, before.pos(idx)) + split_nodes(n) + before.order().subrange(before.pos(idx) + 1, before.order().len() as int),
        forall|j: int| 0 <= j < n ==> #[trigger] after.arena()[j].data == before.arena()[j].data,
        after.arena()[n as int + 1].data == before.arena()[idx as int].data,
        after.arena()[n as int + 4].data == before.arena()[idx as int].data,
        interior(before, q),
        q != idx,
    ensures
        interior(after, q),
{
    before.lemma_order_facts();
    after.lemma_order_facts();
    before.lemma_arc_neighbours(idx);
    before.lemma_arc_neighbours(q);
    let o = before.order();
    let o2 = after.order();
    let k = before.pos(idx);
    assert(o.contains(idx));
    assert(o.contains(q));
    let j = before.pos(q);
    assert(o[k] == idx && o[j] == q);
    assert(j != k);
    let j2 = if j < k { j } else { j + 4 };
    assert(o2[j2] == q);
    assert(o2.contains(q));
    assert(after.pos(q) == j2);
    assert(q < n);
    let d = before.view_data();
    let d2 = after.view_data();
    assert(d[j - 2] == before.arena()[o[j - 2] as int].data);
    assert(d[j + 2] == before.arena()[o[j + 2] as int].data);
    assert(d2[j2 - 2] == after.arena()[o2[j2 - 2] as int].data);
    assert(d2[j2 + 2] == after.arena()[o2[j2 + 2] as int].data);
    if j < k {
        assert(o2[j - 2] == o[j - 2]);
        if j + 2 == k {
            assert(o2[k] == n + 1);
        } else {
            assert(o2[j + 2] == o[j + 2]);
        }
    } else {
        assert(o2[j2 + 2] == o[j + 2]);
        if j - 2 == k {
            assert(o2[k + 4] == n + 4);
        } else {
            assert(o2[j2 - 2] == o[j - 2]);
        }
    }
}

/// An inner arc other than the one consumed and its two neighbours stays an
/// inner arc.
proof fn lemma_merge_interior(before: Beachline, after: Beachline, idx: usize, survivor: usize, q: usize)
    requires
        before.wf(),
        after.wf(),
        before.has_arc(idx),
        0 < before.pos(idx) < before.order().len() - 1,
        after.order() == before.order().subrange(0, before.pos(idx) - 1) + seq![survivor] + before.order().subrange(before.pos(idx) + 2, before.order().len() as int),
        after.node_count() == before.node_count(),
        forall|j: int| 0 <= j < before.node_count() && j != survivor ==> #[trigger] after.arena()[j].data == before.arena()[j].data,
        !is_arc(after.arena(), survivor),
        interior(before, q),
        q != idx,
        q != before.order()[before.pos(idx) - 2],
        q != before.order()[before.pos(idx) + 2],
    ensures
        interior(after, q),
{
    before.lemma_order_facts();
    after.lemma_order_facts();
    before.lemma_arc_neighbours(idx);
    let o = before.order();
    let o2 = after.order();
    let k = before.pos(idx);
    assert(o.contains(q));
    let j = before.pos(q);
    assert(o[j] == q);
    assert(j % 2 == 0);
    assert(j != k && j != k - 2 && j != k + 2);
    assert(j != k - 1 && j != k + 1);
    let j2 = if j < k - 1 { j } else { j - 2 };
    assert(o2[j2] == q);
    assert(o2.contains(q));
    assert(after.pos(q) == j2);
    assert(q != survivor);
    assert(q < before.node_count());
    before.lemma_arc_neighbours(q);
    let d = before.view_data();
    let d2 = after.view_data();
    assert(d[j - 2] == before.arena()[o[j - 2] as int].data);
    assert(d[j + 2] == before.arena()[o[j + 2] as int].data);
    assert(d2[j2 - 2] == after.arena()[o2[j2 - 2] as int].data);
    assert(d2[j2 + 2] == after.arena()[o2[j2 + 2] as int].data);
    assert(o[j - 2] != survivor && o[j + 2] != survivor) by {
        assert(o2[k - 1] == survivor);
    }
    if j < k - 1 {
        assert(o2[j - 2] == o[j - 2]);
        assert(o2[j + 2] == o[j + 2]);
    } else {
        assert(o2[j2 - 2] == o[j - 2]);
        assert(o2[j2 + 2] == o[j + 2]);
    }
}

/// A circle check leaves every pending circle event on an inner arc.
proof fn lemma_checked_ok<C: Fn(Vertex, Vertex, usize, usize, usize) -> Option<(u64, u64)>>(
    bl: Beachline,
    x: usize,
    circle: C,
    sweep: u64,
    before: Map<(bool, usize), Priority>,
    after: Map<(bool, usize), Priority>,
    pending: Set<usize>,
)
    requires
        bl.wf(),
        queue_ok(bl, before, pending),
        bl.has_arc(x),
        bl.circle_checked(x, circle, sweep, before, after),
    ensures
        queue_ok(bl, after, pending),
{
    if bl.circle_query(x) is Some {
        let ans = choose|ans: Option<(u64, u64)>| #[trigger] circle.ensures(bl.circle_query(x)->0, ans) && after == scheduled(before, x, ans, sweep);
        bl.lemma_arc_neighbours(x);
        bl.lemma_order_facts();
        let o = bl.order();
        let k = bl.pos(x);
        if 0 < k < o.len() - 1 {
            let d = bl.view_data();
            assert(d[k - 2] == bl.data_at(o[k - 2]));
            assert(d[k + 2] == bl.data_at(o[k + 2]));
        }
        assert forall|key: (bool, usize)| #[trigger] after.contains_key(key) implies (key.0 ==> interior(bl, key.1)) && (!key.0 ==> pending.contains(key.1)) by {
            if !before.contains_key(key) {
                assert(key == (true, x));
            }
        }
    }
}

/// The five payloads that replace an arc of site `s` split by site `site`.
pub open spec fn split_payloads(s: usize, site: usize) -> Seq<BeachlineData> {
    let o = Vertex::OnArc { focus: s, site };
    seq![
        BeachlineData::Arc(Arc { site: s }),
        BeachlineData::BreakPoint(BreakPoint { origin: o, l: s, r: site }),
        BeachlineData::Arc(Arc { site }),
        BeachlineData::BreakPoint(BreakPoint { origin: o, l: site, r: s }),
        BeachlineData::Arc(Arc { site: s }),
    ]
}

/// Entry `k` of the beachline payloads `d` names only sites below `n`, and a
/// breakpoint there names the sites of the two arcs beside it, left then right.
pub open spec fn fits(d: Seq<BeachlineData>, k: int, n: nat) -> bool {
    match d[k] {
        BeachlineData::Arc(a) => a.site < n,
        BeachlineData::BreakPoint(bp) => {
            &&& 0 < k < d.len() - 1
            &&& d[k - 1] == BeachlineData::Arc(Arc { site: bp.l })
            &&& d[k + 1] == BeachlineData::Arc(Arc { site: bp.r })
            &&& bp.l != bp.r
            &&& vertex_ok(bp.origin, n)
        },
    }
}

/// No arc of the payloads `d` belongs to a site in `pending`.
pub open spec fn arcs_done(d: Seq<BeachlineData>, pending: Set<usize>) -> bool {
    forall|k: int| 0 <= k < d.len() && (#[trigger] d[k]) is Arc ==> !pending.contains(d[k]->Arc_0.site)
}

/// Every entry of the beachline payloads fits.
pub open spec fn sites_ok(d: Seq<BeachlineData>, n: nat) -> bool {
    forall|k: int| 0 <= k < d.len() ==> #[trigger] fits(d, k, n)
}

/// A split keeps the payloads fitting.
proof fn lemma_split_sites(d: Seq<BeachlineData>, k: int, s: usize, site: usize, n: nat, pending: Set<usize>)
    requires
        sites_ok(d, n),
        arcs_done(d, pending.insert(site)),
        0 <= k < d.len(),
        d[k] == BeachlineData::Arc(Arc { site: s }),
        site < n,
    ensures
        sites_ok(d.subrange(0, k) + split_payloads(s, site) + d.subrange(k + 1, d.len() as int), n),
        arcs_done(d.subrange(0, k) + split_payloads(s, site) + d.subrange(k + 1, d.len() as int), pending.remove(site)),
{
    assert(s != site) by {
        assert(!pending.insert(site).contains(d[k]->Arc_0.site));
    }
    let d2 = d.subrange(0, k) + split_payloads(s, site) + d.subrange(k + 1, d.len() as int);
    let five = split_payloads(s, site);
    assert(fits(d, k, n));
    assert(d2.len() == d.len() + 4);
    assert forall|m: int| 0 <= m < d2.len() implies #[trigger] d2[m] == (if m < k { d[m] } else if m >= k + 5 { d[m - 4] } else { five[m - k] }) by {}
    assert forall|m: int| 0 <= m < d2.len() implies #[trigger] fits(d2, m, n) by {
        if m < k {
            assert(fits(d, m, n));
            if m + 1 == k {
                assert(d2[m + 1] == five[0]);
            }
        } else if m >= k + 5 {
            assert(fits(d, m - 4, n));
            if m - 1 == k + 4 {
                assert(d2[m - 1] == five[4]);
            }
        } else {
            assert(d2[k] == five[0] && d2[k + 1] == five[1] && d2[k + 2] == five[2] && d2[k + 3] == five[3] && d2[k + 4] == five[4]);
        }
    }
    let p2 = pending.remove(site);
    assert forall|m: int| 0 <= m < d2.len() && (#[trigger] d2[m]) is Arc implies !p2.contains(d2[m]->Arc_0.site) by {
        if m < k {
            assert(d2[m] == d[m]);
        } else if m >= k + 5 {
            assert(d2[m] == d[m - 4]);
        } else {
            assert(d2[m] == five[m - k]);
            assert(!pending.insert(site).contains(d[k]->Arc_0.site));
        }
    }
}

/// A merge keeps the payloads fitting.
proof fn lemma_merge_sites(d: Seq<BeachlineData>, k: int, l: usize, p: usize, r: usize, n: nat, pending: Set<usize>)
    requires
        sites_ok(d, n),
        arcs_done(d, pending),
        l != r,
        2 <= k <= d.len() - 3,
        d[k - 2] == BeachlineData::Arc(Arc { site: l }),
        d[k] == BeachlineData::Arc(Arc { site: p }),
        d[k + 2] == BeachlineData::Arc(Arc { site: r }),
    ensures
        sites_ok(d.subrange(0, k - 1) + seq![BeachlineData::BreakPoint(BreakPoint { origin: Vertex::Circumcenter { left: l, mid: p, right: r }, l, r })] + d.subrange(k + 2, d.len() as int), n),
        arcs_done(d.subrange(0, k - 1) + seq![BeachlineData::BreakPoint(BreakPoint { origin: Vertex::Circumcenter { left: l, mid: p, right: r }, l, r })] + d.subrange(k + 2, d.len() as int), pending),
{
    let m0 = BeachlineData::BreakPoint(BreakPoint { origin: Vertex::Circumcenter { left: l, mid: p, right: r }, l, r });
    let d2 = d.subrange(0, k - 1) + seq![m0] + d.subrange(k + 2, d.len() as int);
    assert(fits(d, k - 2, n) && fits(d, k, n) && fits(d, k + 2, n));
    assert(d2.len() == d.len() - 2);
    assert forall|m: int| 0 <= m < d2.len() implies #[trigger] d2[m] == (if m < k - 1 { d[m] } else if m > k - 1 { d[m + 2] } else { m0 }) by {}
    assert forall|m: int| 0 <= m < d2.len() implies #[trigger] fits(d2, m, n) by {
        if m < k - 1 {
            assert(fits(d, m, n));
        } else if m > k - 1 {
            assert(fits(d, m + 2, n));
        } else {
            assert(d2[k - 2] == d[k - 2] && d2[k] == d[k + 2]);
        }
    }
    assert forall|m: int| 0 <= m < d2.len() && (#[trigger] d2[m]) is Arc implies !pending.contains(d2[m]->Arc_0.site) by {
        if m < k - 1 {
            assert(d2[m] == d[m]);
        } else if m > k - 1 {
            assert(d2[m] == d[m + 2]);
        }
    }
}

/// A circle check schedules nothing above the sweep.
proof fn lemma_checked_below<C: Fn(Vertex, Vertex, usize, usize, usize) -> Option<(u64, u64)>>(
    bl: Beachline,
    x: usize,
    circle: C,
    sweep: u64,
    before: Map<(bool, usize), Priority>,
    after: Map<(bool, usize), Priority>,
)
    requires
        below(before, sweep),
        bl.circle_checked(x, circle, sweep, before, after),
    ensures
        below(after, sweep),
{
    if bl.circle_query(x) is Some {
        let ans = choose|ans: Option<(u64, u64)>| #[trigger] circle.ensures(bl.circle_query(x)->0, ans) && after == scheduled(before, x, ans, sweep);
        assert forall|key: (bool, usize)| #[trigger] after.contains_key(key) implies after[key].0 <= sweep by {
            if key != (true, x) {
                assert(before.contains_key(key));
            }
        }
    }
}

/// A site event: the arc above the new site is split around the site's arc;
/// on an empty beachline the site's arc becomes the first one.
fn add_parabola<L: Fn(usize, usize, usize) -> bool, C: Fn(Vertex, Vertex, usize, usize, usize) -> Option<(u64, u64)>>(
    site: usize,
    sweep: u64,
    eq: &mut EventQueue,
    beachline: &mut Beachline,
    goes_left: &L,
    circle: &C,
    Ghost(pending): Ghost<Set<usize>>,
    Ghost(n_sites): Ghost<nat>,
) -> (split: Option<usize>)
    requires
        old(beachline).wf(),
        sites_ok(old(beachline).view_data(), n_sites),
        arcs_done(old(beachline).view_data(), pending.insert(site)),
        !pending.contains(site),
        site < n_sites,
        queue_ok(*old(beachline), old(eq)@, pending),
        below(old(eq)@, sweep),
        old(beachline).node_count() + 5 <= usize::MAX,
        forall|q: usize, l: usize, r: usize| #[trigger] goes_left.requires((q, l, r)),
        forall|a: Vertex, b: Vertex, l: usize, m: usize, r: usize| #[trigger] circle.requires((a, b, l, m, r)),
    ensures
        final(beachline).wf(),
        queue_ok(*final(beachline), final(eq)@, pending),
        below(final(eq)@, sweep),
        old(beachline).order().len() == 0 ==> final(beachline).order().len() == 1,
        old(beachline).order().len() > 0 ==> final(beachline).order().len() == old(beachline).order().len() + 4,
        final(beachline).node_count() <= old(beachline).node_count() + 5,
        old(beachline).order().len() == 0 ==> split is None && final(eq)@ == old(eq)@
            && final(beachline).view_data() == seq![BeachlineData::Arc(Arc { site })],
        old(beachline).order().len() > 0 ==> split is Some,
        sites_ok(final(beachline).view_data(), n_sites),
        arcs_done(final(beachline).view_data(), pending),
        split matches Some(i) ==> ({
            let bl = *old(beachline);
            let o = bl.order();
            let k = bl.pos(i);
            let d = bl.view_data();
            let n = bl.node_count() as usize;
            &&& bl.has_arc(i)
            &&& k > 0 ==> goes_left.ensures((site, bl.bp_at(o[k - 1]).l, bl.bp_at(o[k - 1]).r), false)
            &&& k < o.len() - 1 ==> goes_left.ensures((site, bl.bp_at(o[k + 1]).l, bl.bp_at(o[k + 1]).r), true)
            &&& final(beachline).view_data() == d.subrange(0, k) + split_payloads(bl.site_at(i), site) + d.subrange(k + 1, d.len() as int)
            &&& exists|mid: Map<(bool, usize), Priority>|
                #[trigger] final(beachline).circle_checked((n + 1) as usize, *circle, sweep, old(eq)@.remove(key_of(Event::Circle(i))), mid)
                    && final(beachline).circle_checked((n + 4) as usize, *circle, sweep, mid, final(eq)@)
        }),
{
    match beachline.arc_under_point(site, goes_left) {
        Some((arc, arc_idx)) => {
            remove_circle_event(arc_idx, eq);
            let a = Arc::new(arc.site);
            let b = Arc::new(site);
            let c = Arc::new(arc.site);
            let edge_origin = Vertex::OnArc { focus: arc.site, site };
            let xl = BreakPoint::new(edge_origin, a.site, b.site);
            let xr = BreakPoint::new(edge_origin, b.site, c.site);
            let ghost before = *beachline;
            proof {
                before.lemma_order_facts();
                let k = before.pos(arc_idx);
                assert(before.order().contains(arc_idx));
                assert(before.view_data()[k] == before.data_at(arc_idx));
                lemma_split_sites(before.view_data(), k, arc.site, site, n_sites, pending);
                assert(pending.insert(site).remove(site) =~= pending);
            }
            let ghost q1 = eq@;
            let ghost n = beachline.node_count() as usize;
            beachline.replace_arc(arc_idx, a, xl, b, xr, c, eq, sweep, circle);
            proof {
                lemma_split_queue(before, *beachline, arc_idx, n, *circle, sweep, q1, eq@, pending);
                let after = *beachline;
                let mid = choose|mid: Map<(bool, usize), Priority>|
                    #[trigger] after.circle_checked((n + 1) as usize, *circle, sweep, q1, mid)
                        && after.circle_checked((n + 4) as usize, *circle, sweep, mid, eq@);
                assert(below(q1, sweep)) by {
                    assert forall|key: (bool, usize)| #[trigger] q1.contains_key(key) implies q1[key].0 <= sweep by {
                        assert(old(eq)@.contains_key(key));
                    }
                }
                lemma_checked_below(after, (n + 1) as usize, *circle, sweep, q1, mid);
                lemma_checked_below(after, (n + 4) as usize, *circle, sweep, mid, eq@);
            }
            Some(arc_idx)
        },
        None => {
            proof {
                assert forall|key: (bool, usize)| #[trigger] eq@.contains_key(key) implies !key.0 by {
                    if key.0 {
                        assert(interior(*beachline, key.1));
                        assert(beachline.order().contains(key.1));
                    }
                }
            }
            beachline.add_first_parabola(site);
            proof {
                assert(fits(beachline.view_data(), 0, n_sites));
                assert(beachline.view_data()[0] == BeachlineData::Arc(Arc { site }));
            }
            None
        },
    }
}

/// A circle event: arc `arc_idx` vanishes, the two edges that bounded it end
/// at the center of the circle through its site and its neighbours' sites,
/// and a new edge starts there between the two neighbours.
fn remove_parabola<C: Fn(Vertex, Vertex, usize, usize, usize) -> Option<(u64, u64)>>(
    arc_idx: usize,
    eq: &mut EventQueue,
    beachline: &mut Beachline,
    segments: &mut Vec<(Vertex, Vertex)>,
    sweep: u64,
    circle: &C,
    Ghost(pending): Ghost<Set<usize>>,
    Ghost(n_sites): Ghost<nat>,
)
    requires
        old(beachline).wf(),
        sites_ok(old(beachline).view_data(), n_sites),
        arcs_done(old(beachline).view_data(), pending),
        interior(*old(beachline), arc_idx),
        queue_ok(*old(beachline), old(eq)@, pending),
        !old(eq)@.contains_key(key_of(Event::Circle(arc_idx))),
        below(old(eq)@, sweep),
        forall|a: Vertex, b: Vertex, l: usize, m: usize, r: usize| #[trigger] circle.requires((a, b, l, m, r)),
    ensures
        final(beachline).wf(),
        queue_ok(*final(beachline), final(eq)@, pending),
        below(final(eq)@, sweep),
        final(beachline).order().len() + 2 == old(beachline).order().len(),
        old(beachline).order().len() >= 5,
        final(beachline).node_count() == old(beachline).node_count(),
        sites_ok(final(beachline).view_data(), n_sites),
        arcs_done(final(beachline).view_data(), pending),
        forall|i: int| old(segments)@.len() <= i < final(segments)@.len() ==>
            vertex_ok((#[trigger] final(segments)@[i]).0, n_sites) && vertex_ok(final(segments)@[i].1, n_sites),
        ({
            let bl = *old(beachline);
            let o = bl.order();
            let k = bl.pos(arc_idx);
            let s = Vertex::Circumcenter { left: bl.site_at(o[k - 2]), mid: bl.site_at(arc_idx), right: bl.site_at(o[k + 2]) };
            let d = bl.view_data();
            let merged = BreakPoint { origin: s, l: bl.site_at(o[k - 2]), r: bl.site_at(o[k + 2]) };
            &&& final(segments)@ == old(segments)@ + seq![(bl.bp_at(o[k - 1]).origin, s), (bl.bp_at(o[k + 1]).origin, s)]
            &&& final(beachline).view_data() == d.subrange(0, k - 1) + seq![BeachlineData::BreakPoint(merged)] + d.subrange(k + 2, d.len() as int)
            &&& exists|mid: Map<(bool, usize), Priority>|
                #[trigger] final(beachline).circle_checked(o[k - 2], *circle, sweep,
                    old(eq)@.remove(key_of(Event::Circle(o[k - 2]))).remove(key_of(Event::Circle(o[k + 2]))), mid)
                    && final(beachline).circle_checked(o[k + 2], *circle, sweep, mid, final(eq)@)
        }),
{
    let ghost before = *beachline;
    proof {
        before.lemma_arc_neighbours(arc_idx);
        before.lemma_order_facts();
        let o = before.order();
        let k = before.pos(arc_idx);
        let d = before.view_data();
        assert(d[k - 2] == before.data_at(o[k - 2]));
        assert(d[k] == before.data_at(o[k]));
        assert(d[k + 2] == before.data_at(o[k + 2]));
        assert(d[k - 1] == before.data_at(o[k - 1]));
        assert(d[k + 1] == before.data_at(o[k + 1]));
        assert(fits(d, k - 1, n_sites) && fits(d, k + 1, n_sites) && fits(d, k - 2, n_sites) && fits(d, k, n_sites) && fits(d, k + 2, n_sites));
        lemma_merge_sites(d, k, before.site_at(o[k - 2]), before.site_at(arc_idx), before.site_at(o[k + 2]), n_sites, pending);
    }
    let p = beachline.arc(arc_idx);
    let (l, l_idx) = beachline.left_arc(arc_idx).unwrap();
    let (r, r_idx) = beachline.right_arc(arc_idx).unwrap();
    let ghost q0 = eq@;
    remove_circle_event(l_idx, eq);
    remove_circle_event(r_idx, eq);
    let s = Vertex::Circumcenter { left: l.site, mid: p.site, right: r.site };
    let (xl, xl_idx) = beachline.left_edge(arc_idx).unwrap();
    let (xr, xr_idx) = beachline.right_edge(arc_idx).unwrap();
    segments.push((xl.origin, s));
    segments.push((xr.origin, s));
    let x = BreakPoint::new(s, l.site, r.site);
    let ghost q1 = eq@;
    let survivor = beachline.replace_breakpoint(xl_idx, arc_idx, xr_idx, x, eq, sweep, circle);
    proof {
        let after = *beachline;
        let o = before.order();
        let k = before.pos(arc_idx);
        assert(!is_arc(after.arena(), survivor));
        assert forall|key: (bool, usize)| #[trigger] q1.contains_key(key) implies (key.0 ==> interior(after, key.1)) && (!key.0 ==> pending.contains(key.1)) by {
            if key.0 {
                assert(q0.contains_key(key));
                assert(key.1 != arc_idx);
                assert(key.1 != l_idx && key.1 != r_idx);
                lemma_merge_interior(before, after, arc_idx, survivor, key.1);
            }
        }
        assert(queue_ok(after, q1, pending));
        after.lemma_order_facts();
        assert(after.order()[k - 2] == l_idx);
        assert(after.order()[k] == r_idx);
        assert(after.order().contains(l_idx));
        assert(after.order().contains(r_idx));
        before.lemma_order_facts();
        assert(l_idx < before.node_count() && r_idx < before.node_count());
        assert(after.arena()[l_idx as int].data == before.arena()[l_idx as int].data);
        assert(after.arena()[r_idx as int].data == before.arena()[r_idx as int].data);
        let mid = choose|mid: Map<(bool, usize), Priority>|
            #[trigger] after.circle_checked(o[k - 2], *circle, sweep, q1, mid)
                && after.circle_checked(o[k + 2], *circle, sweep, mid, eq@);
        lemma_checked_ok(after, l_idx, *circle, sweep, q1, mid, pending);
        lemma_checked_ok(after, r_idx, *circle, sweep, mid, eq@, pending);
        assert(below(q1, sweep)) by {
            assert forall|key: (bool, usize)| #[trigger] q1.contains_key(key) implies q1[key].0 <= sweep by {
                assert(q0.contains_key(key));
            }
        }
        lemma_checked_below(after, l_idx, *circle, sweep, q1, mid);
        lemma_checked_below(after, r_idx, *circle, sweep, mid, eq@);
        assert(after.order().len() + 2 == o.len());
    }
}

/// After a split, the pending events still sit on inner arcs.
#[verifier::rlimit(60)]
proof fn lemma_split_queue<C: Fn(Vertex, Vertex, usize, usize, usize) -> Option<(u64, u64)>>(
    before: Beachline,
    after: Beachline,
    arc_idx: usize,
    n: usize,
    circle: C,
    sweep: u64,
    q1: Map<(bool, usize), Priority>,
    q2: Map<(bool, usize), Priority>,
    pending: Set<usize>,
)
    requires
        before.wf(),
        after.wf(),
        before.has_arc(arc_idx),
        n == before.node_count(),
        n + 5 <= usize::MAX,
        queue_ok(before, q1, pending),
        !q1.contains_key((true, arc_idx)),
        after.order() == before.order().subrange(0, before.pos(arc_idx)) + split_nodes(n) + before.order().subrange(before.pos(arc_idx) + 1, before.order().len() as int),
        forall|j: int| 0 <= j < n ==> #[trigger] after.arena()[j].data == before.arena()[j].data,
        after.arena()[n as int + 1].data == before.arena()[arc_idx as int].data,
        after.arena()[n as int + 4].data == before.arena()[arc_idx as int].data,
        exists|mid: Map<(bool, usize), Priority>|
            #[trigger] after.circle_checked((n + 1) as usize, circle, sweep, q1, mid)
                && after.circle_checked((n + 4) as usize, circle, sweep, mid, q2),
    ensures
        queue_ok(after, q2, pending),
{
    assert forall|key: (bool, usize)| #[trigger] q1.contains_key(key) implies (key.0 ==> interior(after, key.1)) && (!key.0 ==> pending.contains(key.1)) by {
        if key.0 {
            lemma_split_interior(before, after, arc_idx, n, key.1);
        }
    }
    assert(queue_ok(after, q1, pending));
    before.lemma_order_facts();
    let k = before.pos(arc_idx);
    assert(before.order().contains(arc_idx));
    assert(after.order()[k + 0] == n + 1);
    assert(after.order()[k + 4] == n + 4);
    assert(after.order().contains((n + 1) as usize));
    assert(after.order().contains((n + 4) as usize));
    let mid = choose|mid: Map<(bool, usize), Priority>|
        #[trigger] after.circle_checked((n + 1) as usize, circle, sweep, q1, mid)
            && after.circle_checked((n + 4) as usize, circle, sweep, mid, q2);
    lemma_checked_ok(after, (n + 1) as usize, circle, sweep, q1, mid, pending);
    lemma_checked_ok(after, (n + 4) as usize, circle, sweep, mid, q2, pending);
}

/// Runs the sweep over the sites `sites`, given by the keys of their
/// coordinates, `(y, x)`: integers that order as the coordinates do. Events are
/// handled from the highest to the lowest, at equal height from left to right,
/// and at one point circle events first, then by index. `goes_left` and
/// `circle` answer the geometric questions of the sweep (see
/// `Beachline::arc_under_point` and `Beachline::check_circle_event`).
///
/// Each circle event finishes two edges that end at one circle center; each
/// site after the first adds two arcs to the beachline and each circle event
/// takes one away, never one at either end. Every site that the result names
/// is below `sites.len()`, and every breakpoint left names the sites of the
/// arcs beside it. The edges of the result join the two halves of each edge
/// that a site event started where one of them ends at a circle center.
pub fn fortunes_sweep<L: Fn(usize, usize, usize) -> bool, C: Fn(Vertex, Vertex, usize, usize, usize) -> Option<(u64, u64)>>(
    sites: &Vec<(u64, u64)>,
    goes_left: &L,
    circle: &C,
) -> (r: Diagram)
    requires
        5 * sites.len() + 5 <= usize::MAX,
        forall|q: usize, l: usize, rr: usize| #[trigger] goes_left.requires((q, l, rr)),
        forall|a: Vertex, b: Vertex, l: usize, m: usize, rr: usize| #[trigger] circle.requires((a, b, l, m, rr)),
    ensures
        r.beachline.wf(),
        r.finished@.len() == 2 * r.circle_events,
        forall|i: int| 0 <= i < r.finished@.len() && i % 2 == 0 ==> (#[trigger] r.finished@[i]).1 == r.finished@[i + 1].1,
        r.edges@ == joined(r.finished@, r.open@),
        forall|m: int| 0 <= m < r.edges@.len() ==> edge_ok(#[trigger] r.edges@[m], sites.len() as nat),
        sites_ok(r.beachline.view_data(), sites.len() as nat),
        sites.len() <= 2 ==> r.circle_events == 0,
        sites.len() >= 2 ==> r.beachline.view_data().len() >= 3,
        non_increasing(r.heights@),
        r.heights@.len() == sites.len() + r.circle_events,
        forall|i: int| 0 <= i < r.finished@.len() ==> (#[trigger] r.finished@[i]).1 is Circumcenter,
        r.open@ == r.beachline.open_edges(),
        sites.len() == 0 <==> r.beachline.view_data().len() == 0,
        sites.len() > 0 ==> alternating(r.beachline.view_data()),
        sites.len() > 0 ==> r.beachline.view_data().len() + 2 * r.circle_events + 3 == 4 * sites.len(),
{
    let n = sites.len();
    let mut eq = EventQueue::new();
    let ghost mut pending: Set<usize> = Set::empty();
    let mut i: usize = 0;
    while i < n
        invariant
            n == sites.len(),
            i <= n,
            pending.finite(),
            pending.len() == i,
            forall|j: usize| #[trigger] pending.contains(j) <==> j < i,
            forall|key: (bool, usize)| #[trigger] eq@.contains_key(key) ==> !key.0 && pending.contains(key.1),
            forall|j: usize| #[trigger] pending.contains(j) ==> eq@.contains_key((false, j)),
        decreases n - i,
    {
        eq.push(Event::Site(i), sites[i].0, sites[i].1);
        proof {
            assert(!pending.contains(i));
            pending = pending.insert(i);
        }
        i = i + 1;
    }
    let mut beachline = Beachline::new();
    let mut finished: Vec<(Vertex, Vertex)> = Vec::new();
    let mut circle_events: usize = 0;
    let mut heights: Vec<u64> = Vec::new();
    let ghost mut processed: nat = 0;
    loop
        invariant
            n == sites.len(),
            5 * n + 5 <= usize::MAX,
            beachline.wf(),
            queue_ok(beachline, eq@, pending),
            pending.finite(),
            pending.len() + processed == n,
            shape_ok(beachline, processed, circle_events as nat),
            processed == 0 ==> circle_events == 0,
            n <= 2 ==> circle_events == 0,
            finished@.len() == 2 * circle_events,
            forall|j: int| 0 <= j < finished@.len() ==> (#[trigger] finished@[j]).1 is Circumcenter,
            forall|j: int| 0 <= j < finished@.len() && j % 2 == 0 ==> (#[trigger] finished@[j]).1 == finished@[j + 1].1,
            non_increasing(heights@),
            sites_ok(beachline.view_data(), n as nat),
            arcs_done(beachline.view_data(), pending),
            forall|i: usize| #[trigger] pending.contains(i) ==> i < n,
            forall|j: int| 0 <= j < finished@.len() ==> vertex_ok((#[trigger] finished@[j]).0, n as nat) && vertex_ok(finished@[j].1, n as nat),
            heights@.len() == processed + circle_events,
            heights@.len() > 0 ==> below(eq@, heights@.last()),
            forall|q: usize, l: usize, rr: usize| #[trigger] goes_left.requires((q, l, rr)),
            forall|a: Vertex, b: Vertex, l: usize, m: usize, rr: usize| #[trigger] circle.requires((a, b, l, m, rr)),
        ensures
            pending.len() == 0,
        decreases pending.len(), beachline.order().len(),
    {
        let ghost q0 = eq@;
        match eq.pop() {
            None => {
                proof {
                    assert(pending.len() == 0) by {
                        if pending.len() > 0 {
                            vstd::set_lib::lemma_set_empty_equivalency_len(pending);
                            let j = choose|j: usize| pending.contains(j);
                            assert(q0.contains_key((false, j)));
                            assert(q0.dom().contains((false, j)));
                        }
                    }
                }
                break;
            },
            Some((e, y)) => {
                proof {
                    assert forall|key: (bool, usize)| #[trigger] eq@.contains_key(key) implies eq@[key].0 <= y by {
                        assert(q0.contains_key(key));
                        assert(crate::events::prio_le(q0[key], q0[key_of(e)]));
                    }
                    if heights@.len() > 0 {
                        assert(q0.contains_key(key_of(e)));
                        assert(y <= heights@.last());
                    }
                }
                heights.push(y);
                proof {
                    assert forall|i: int, j: int| 0 <= i <= j < heights@.len() implies heights@[j] <= heights@[i] by {
                        if j == heights@.len() - 1 && i < j {
                            assert(heights@[j] == y);
                            assert(heights@[i] >= heights@[heights@.len() - 2]);
                        }
                    }
                }
                match e {
                    Event::Site(site) => {
                        proof {
                            assert(q0.contains_key((false, site)));
                            assert(pending.contains(site));
                            assert(processed + 1 <= n);
                            let p2 = pending.remove(site);
                            assert forall|key: (bool, usize)| #[trigger] eq@.contains_key(key) implies (key.0 ==> interior(beachline, key.1)) && (!key.0 ==> p2.contains(key.1)) by {
                                assert(q0.contains_key(key));
                            }
                            assert forall|j: usize| #[trigger] p2.contains(j) implies eq@.contains_key((false, j)) by {
                                assert(q0.contains_key((false, j)));
                            }
                            pending = p2;
                            processed = processed + 1;
                        }
                        add_parabola(site, y, &mut eq, &mut beachline, goes_left, circle, Ghost(pending), Ghost(n as nat));
                    },
                    Event::Circle(arc_idx) => {
                        proof {
                            assert(q0.contains_key((true, arc_idx)));
                            assert(interior(beachline, arc_idx));
                            if n <= 2 {
                                lemma_two_sites_no_circle(beachline, arc_idx, n as nat);
                            }
                            assert(queue_ok(beachline, eq@, pending)) by {
                                assert forall|key: (bool, usize)| #[trigger] eq@.contains_key(key) implies (key.0 ==> interior(beachline, key.1)) && (!key.0 ==> pending.contains(key.1)) by {
                                    assert(q0.contains_key(key));
                                }
                                assert forall|j: usize| #[trigger] pending.contains(j) implies eq@.contains_key((false, j)) by {
                                    assert(q0.contains_key((false, j)));
                                }
                            }
                            assert(beachline.order().len() >= 3);
                        }
                        remove_parabola(arc_idx, &mut eq, &mut beachline, &mut finished, y, circle, Ghost(pending), Ghost(n as nat));
                        circle_events = circle_events + 1;
                    },
                }
            },
        }
    }
    let mut open: Vec<BreakPoint> = Vec::new();
    beachline.extend_edges_to_bounding_box(&mut open);
    proof {
        assert(processed == n);
        lemma_beachline_alternates(&beachline);
    }
    proof {
        lemma_open_ok(&beachline, n as nat);
        lemma_joined_ok(finished@, open@, n as nat);
    }
    let edges = join_edges(&finished, &open);
    Diagram { edges, finished, open, circle_events, heights, beachline }
}

/// The open edges of a beachline whose payloads fit name only sites below `n`.
proof fn lemma_open_ok(bl: &Beachline, n: nat)
    requires
        bl.wf(),
        sites_ok(bl.view_data(), n),
    ensures
        forall|k: int| 0 <= k < bl.open_edges().len() ==> bp_ok(#[trigger] bl.open_edges()[k], n),
{
    lemma_beachline_alternates(bl);
    bl.lemma_order_facts();
    let d = bl.view_data();
    assert forall|k: int| 0 <= k < bl.open_edges().len() implies bp_ok(#[trigger] bl.open_edges()[k], n) by {
        let m = 2 * k + 1;
        assert(d[m] == bl.data_at(bl.order()[m]));
        assert(fits(d, m, n));
        assert(fits(d, m - 1, n) && fits(d, m + 1, n));
    }
}

/// With at most two sites no arc lies between two arcs of different sites:
/// its neighbours both belong to the one other site.
proof fn lemma_two_sites_no_circle(bl: Beachline, a: usize, n: nat)
    requires
        bl.wf(),
        sites_ok(bl.view_data(), n),
        n <= 2,
    ensures
        !interior(bl, a),
{
    if interior(bl, a) {
        lemma_beachline_alternates(&bl);
        bl.lemma_arc_neighbours(a);
        let d = bl.view_data();
        let k = bl.pos(a);
        assert(d[k - 1] is BreakPoint && d[k + 1] is BreakPoint);
        assert(fits(d, k - 1, n) && fits(d, k + 1, n));
        assert(fits(d, k - 2, n) && fits(d, k, n) && fits(d, k + 2, n));
        assert(d[k - 2]->Arc_0.site != d[k]->Arc_0.site);
        assert(d[k + 2]->Arc_0.site != d[k]->Arc_0.site);
        assert(d[k - 2]->Arc_0.site == d[k + 2]->Arc_0.site);
    }
}

} // verus!
