//! The Voronoi edges of a sweep. A site event starts one edge at a point
//! `Vertex::OnArc`, traced by two breakpoints that move apart from it; each of
//! the two halves ends either at a circle center or, still open when the sweep
//! is over, at the bounding box. Joining the two halves where at least one of
//! them ends at a circle center gives the edge as one piece.

use crate::beachline::{BreakPoint, Vertex};
use vstd::prelude::*;

verus! {

/// One Voronoi edge as the caller is to draw it.
#[derive(Clone, Copy, PartialEq, Eq, Structural, Debug)]
pub enum Edge {
    /// From one vertex to another.
    Segment(Vertex, Vertex),
    /// From the origin of the breakpoint along its direction, up to the
    /// bounding box.
    Ray(BreakPoint),
}

/// Every site that vertex `v` names is below `n`.
pub open spec fn vertex_ok(v: Vertex, n: nat) -> bool {
    match v {
        Vertex::OnArc { focus, site } => focus < n && site < n,
        Vertex::Circumcenter { left, mid, right } => left < n && mid < n && right < n,
    }
}

/// Every site that breakpoint `bp` names is below `n`.
pub open spec fn bp_ok(bp: BreakPoint, n: nat) -> bool {
    bp.l < n && bp.r < n && vertex_ok(bp.origin, n)
}

/// Every site that edge `e` names is below `n`.
pub open spec fn edge_ok(e: Edge, n: nat) -> bool {
    match e {
        Edge::Segment(a, b) => vertex_ok(a, n) && vertex_ok(b, n),
        Edge::Ray(bp) => bp_ok(bp, n),
    }
}

/// The first finished piece from index `lo` on that starts at `v`.
pub open spec fn find_piece(fin: Seq<(Vertex, Vertex)>, v: Vertex, lo: int) -> Option<int>
    decreases fin.len() - lo,
{
    if lo < 0 || lo >= fin.len() {
        None
    } else if fin[lo].0 == v {
        Some(lo)
    } else {
        find_piece(fin, v, lo + 1)
    }
}

/// The first open breakpoint from index `lo` on that starts at `v`.
pub open spec fn find_open(open: Seq<BreakPoint>, v: Vertex, lo: int) -> Option<int>
    decreases open.len() - lo,
{
    if lo < 0 || lo >= open.len() {
        None
    } else if open[lo].origin == v {
        Some(lo)
    } else {
        find_open(open, v, lo + 1)
    }
}

/// What finished piece `i` contributes: nothing when an earlier piece is its
/// other half; the segment between the two centers when a later piece is; the
/// ray from its center through its start when the other half is still open;
/// the piece itself otherwise.
pub open spec fn piece_edge(fin: Seq<(Vertex, Vertex)>, open: Seq<BreakPoint>, i: int) -> Seq<Edge> {
    let (f, t) = fin[i];
    if f is OnArc && find_piece(fin, f, 0) is Some && find_piece(fin, f, 0)->0 < i {
        Seq::empty()
    } else if f is OnArc && find_piece(fin, f, i + 1) is Some {
        seq![Edge::Segment(t, fin[find_piece(fin, f, i + 1)->0].1)]
    } else if f is OnArc && find_open(open, f, 0) is Some {
        let bp = open[find_open(open, f, 0)->0];
        seq![Edge::Ray(BreakPoint { origin: t, l: bp.l, r: bp.r })]
    } else {
        seq![Edge::Segment(f, t)]
    }
}

/// What open breakpoint `k` contributes: nothing when a finished piece is its
/// other half, the ray itself otherwise.
pub open spec fn open_edge(fin: Seq<(Vertex, Vertex)>, open: Seq<BreakPoint>, k: int) -> Seq<Edge> {
    if open[k].origin is OnArc && find_piece(fin, open[k].origin, 0) is Some {
        Seq::empty()
    } else {
        seq![Edge::Ray(open[k])]
    }
}

pub open spec fn pieces_joined(fin: Seq<(Vertex, Vertex)>, open: Seq<BreakPoint>, n: int) -> Seq<Edge>
    decreases n,
{
    if n <= 0 {
        Seq::empty()
    } else {
        pieces_joined(fin, open, n - 1) + piece_edge(fin, open, n - 1)
    }
}

pub open spec fn rays_joined(fin: Seq<(Vertex, Vertex)>, open: Seq<BreakPoint>, n: int) -> Seq<Edge>
    decreases n,
{
    if n <= 0 {
        Seq::empty()
    } else {
        rays_joined(fin, open, n - 1) + open_edge(fin, open, n - 1)
    }
}

/// The edges made of the finished pieces `fin` and the open breakpoints
/// `open`, the two halves of an edge joined.
pub open spec fn joined(fin: Seq<(Vertex, Vertex)>, open: Seq<BreakPoint>) -> Seq<Edge> {
    pieces_joined(fin, open, fin.len() as int) + rays_joined(fin, open, open.len() as int)
}

proof fn lemma_find_piece_range(fin: Seq<(Vertex, Vertex)>, v: Vertex, lo: int)
    ensures
        find_piece(fin, v, lo) matches Some(j) ==> lo <= j < fin.len(),
    decreases fin.len() - lo,
{
    if 0 <= lo < fin.len() && fin[lo].0 != v {
        lemma_find_piece_range(fin, v, lo + 1);
    }
}

proof fn lemma_find_open_range(open: Seq<BreakPoint>, v: Vertex, lo: int)
    ensures
        find_open(open, v, lo) matches Some(j) ==> lo <= j < open.len(),
    decreases open.len() - lo,
{
    if 0 <= lo < open.len() && open[lo].origin != v {
        lemma_find_open_range(open, v, lo + 1);
    }
}

/// Joining names no site that the pieces do not name.
pub proof fn lemma_joined_ok(fin: Seq<(Vertex, Vertex)>, open: Seq<BreakPoint>, n: nat)
    requires
        forall|i: int| 0 <= i < fin.len() ==> vertex_ok((#[trigger] fin[i]).0, n) && vertex_ok(fin[i].1, n),
        forall|k: int| 0 <= k < open.len() ==> bp_ok(#[trigger] open[k], n),
    ensures
        forall|m: int| 0 <= m < joined(fin, open).len() ==> edge_ok(#[trigger] joined(fin, open)[m], n),
{
    lemma_pieces_ok(fin, open, n, fin.len() as int);
    lemma_rays_ok(fin, open, n, open.len() as int);
    let a = pieces_joined(fin, open, fin.len() as int);
    let b = rays_joined(fin, open, open.len() as int);
    assert forall|m: int| 0 <= m < joined(fin, open).len() implies edge_ok(#[trigger] joined(fin, open)[m], n) by {
        if m < a.len() {
            assert(joined(fin, open)[m] == a[m]);
        } else {
            assert(joined(fin, open)[m] == b[m - a.len()]);
        }
    }
}

proof fn lemma_pieces_ok(fin: Seq<(Vertex, Vertex)>, open: Seq<BreakPoint>, n: nat, c: int)
    requires
        c <= fin.len(),
        forall|i: int| 0 <= i < fin.len() ==> vertex_ok((#[trigger] fin[i]).0, n) && vertex_ok(fin[i].1, n),
        forall|k: int| 0 <= k < open.len() ==> bp_ok(#[trigger] open[k], n),
    ensures
        forall|m: int| 0 <= m < pieces_joined(fin, open, c).len() ==> edge_ok(#[trigger] pieces_joined(fin, open, c)[m], n),
    decreases c,
{
    if c > 0 {
        lemma_pieces_ok(fin, open, n, c - 1);
        let i = c - 1;
        let f = fin[i].0;
        lemma_find_piece_range(fin, f, i + 1);
        lemma_find_open_range(open, f, 0);
        let prev = pieces_joined(fin, open, c - 1);
        let e = piece_edge(fin, open, i);
        assert forall|m: int| 0 <= m < e.len() implies edge_ok(#[trigger] e[m], n) by {
            if f is OnArc && find_piece(fin, f, i + 1) is Some {
                let j = find_piece(fin, f, i + 1)->0;
                assert(vertex_ok(fin[j].1, n));
            } else if f is OnArc && find_open(open, f, 0) is Some {
                let k = find_open(open, f, 0)->0;
                assert(bp_ok(open[k], n));
            }
        }
        assert forall|m: int| 0 <= m < pieces_joined(fin, open, c).len() implies edge_ok(#[trigger] pieces_joined(fin, open, c)[m], n) by {
            assert(pieces_joined(fin, open, c) == prev + e);
            if m < prev.len() {
                assert(pieces_joined(fin, open, c)[m] == prev[m]);
            } else {
                assert(pieces_joined(fin, open, c)[m] == e[m - prev.len()]);
            }
        }
    }
}

proof fn lemma_rays_ok(fin: Seq<(Vertex, Vertex)>, open: Seq<BreakPoint>, n: nat, c: int)
    requires
        c <= open.len(),
        forall|k: int| 0 <= k < open.len() ==> bp_ok(#[trigger] open[k], n),
    ensures
        forall|m: int| 0 <= m < rays_joined(fin, open, c).len() ==> edge_ok(#[trigger] rays_joined(fin, open, c)[m], n),
    decreases c,
{
    if c > 0 {
        lemma_rays_ok(fin, open, n, c - 1);
        let prev = rays_joined(fin, open, c - 1);
        let e = open_edge(fin, open, c - 1);
        assert(bp_ok(open[c - 1], n));
        assert forall|m: int| 0 <= m < rays_joined(fin, open, c).len() implies edge_ok(#[trigger] rays_joined(fin, open, c)[m], n) by {
            assert(rays_joined(fin, open, c) == prev + e);
            if m < prev.len() {
                assert(rays_joined(fin, open, c)[m] == prev[m]);
            } else {
                assert(rays_joined(fin, open, c)[m] == e[m - prev.len()]);
            }
        }
    }
}

fn first_piece(fin: &Vec<(Vertex, Vertex)>, v: Vertex, lo: usize) -> (r: Option<usize>)
    ensures
        match r {
            Some(j) => find_piece(fin@, v, lo as int) == Some(j as int),
            None => find_piece(fin@, v, lo as int) is None,
        },
        r matches Some(j) ==> j < fin@.len(),
{
    let mut j = lo;
    while j < fin.len()
        invariant
            lo <= j,
            find_piece(fin@, v, lo as int) == find_piece(fin@, v, j as int),
        decreases fin.len() - j,
    {
        if fin[j].0 == v {
            return Some(j);
        }
        j = j + 1;
    }
    None
}

fn first_open(open: &Vec<BreakPoint>, v: Vertex) -> (r: Option<usize>)
    ensures
        match r {
            Some(j) => find_open(open@, v, 0) == Some(j as int),
            None => find_open(open@, v, 0) is None,
        },
        r matches Some(j) ==> j < open@.len(),
{
    let mut j: usize = 0;
    while j < open.len()
        invariant
            find_open(open@, v, 0) == find_open(open@, v, j as int),
        decreases open.len() - j,
    {
        if open[j].origin == v {
            return Some(j);
        }
        j = j + 1;
    }
    None
}

/// Joins the two halves of each edge that a site event started, where at
/// least one of them ends at a circle center; every other piece is an edge of
/// its own.
pub fn join_edges(fin: &Vec<(Vertex, Vertex)>, open: &Vec<BreakPoint>) -> (edges: Vec<Edge>)
    ensures
        edges@ == joined(fin@, open@),
        edges@.len() <= fin@.len() + open@.len(),
{
    let mut edges: Vec<Edge> = Vec::new();
    let mut i: usize = 0;
    while i < fin.len()
        invariant
            i <= fin.len(),
            edges@ == pieces_joined(fin@, open@, i as int),
            edges@.len() <= i,
        decreases fin.len() - i,
    {
        let (f, t) = fin[i];
        let on_arc = match f {
            Vertex::OnArc { .. } => true,
            _ => false,
        };
        if on_arc {
            match first_piece(fin, f, 0) {
                Some(j) if j < i => {},
                _ => {
                    match first_piece(fin, f, i + 1) {
                        Some(j) => {
                            edges.push(Edge::Segment(t, fin[j].1));
                        },
                        None => match first_open(open, f) {
                            Some(k) => {
                                edges.push(Edge::Ray(BreakPoint { origin: t, l: open[k].l, r: open[k].r }));
                            },
                            None => {
                                edges.push(Edge::Segment(f, t));
                            },
                        },
                    }
                },
            }
        } else {
            edges.push(Edge::Segment(f, t));
        }
        proof {
            assert(fin@[i as int] == (f, t));
            assert(pieces_joined(fin@, open@, i + 1) == pieces_joined(fin@, open@, i as int) + piece_edge(fin@, open@, i as int));
            assert(edges@ =~= pieces_joined(fin@, open@, i + 1));
        }
        i = i + 1;
    }
    let ghost nfin = edges@.len();
    let mut k: usize = 0;
    while k < open.len()
        invariant
            k <= open.len(),
            nfin <= fin@.len(),
            edges@ == pieces_joined(fin@, open@, fin@.len() as int) + rays_joined(fin@, open@, k as int),
            edges@.len() <= nfin + k,
            nfin == pieces_joined(fin@, open@, fin@.len() as int).len(),
        decreases open.len() - k,
    {
        let bp = open[k];
        let joined_here = match bp.origin {
            Vertex::OnArc { .. } => first_piece(fin, bp.origin, 0).is_some(),
            _ => false,
        };
        if !joined_here {
            edges.push(Edge::Ray(bp));
        }
        proof {
            assert(rays_joined(fin@, open@, k + 1) == rays_joined(fin@, open@, k as int) + open_edge(fin@, open@, k as int));
            assert(edges@ =~= pieces_joined(fin@, open@, fin@.len() as int) + rays_joined(fin@, open@, k + 1));
        }
        k = k + 1;
    }
    edges
}

} // verus!
