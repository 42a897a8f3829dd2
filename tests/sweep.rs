use fortunes::{fortunes_sweep, Diagram, Edge, Vertex};

type Pt = (f64, f64);

const LO: f64 = 0.0;
const HI: f64 = 1000.0;

fn key(v: f64) -> u64 {
    let bits = (v + 0.0).to_bits();
    if bits >> 63 == 1 {
        !bits
    } else {
        bits | (1 << 63)
    }
}

fn on_arc(f: Pt, yl: f64, x: f64) -> Pt {
    let dy = f.1 - yl;
    if dy == 0.0 {
        ((f.0 + x) / 2.0, yl)
    } else {
        let dx = x - f.0;
        (x, dx * dx / (dy * 2.0) + (f.1 + yl) / 2.0)
    }
}

fn circumcenter(a: Pt, b: Pt, c: Pt) -> Pt {
    let c1 = c.0 * c.0 + c.1 * c.1 - a.0 * a.0 - a.1 * a.1;
    let c2 = c.0 * c.0 + c.1 * c.1 - b.0 * b.0 - b.1 * b.1;
    let a1 = (a.0 - c.0) * -2.0;
    let a2 = (b.0 - c.0) * -2.0;
    let b1 = (a.1 - c.1) * -2.0;
    let b2 = (b.1 - c.1) * -2.0;
    let y = (c1 * a2 - c2 * a1) / (b1 * a2 - b2 * a1);
    let x = if a2 != 0.0 { (c2 - b2 * y) / a2 } else { (c1 - b1 * y) / a1 };
    (x, y)
}

fn vertex(s: &[Pt], v: Vertex) -> Pt {
    match v {
        Vertex::OnArc { focus, site } => on_arc(s[focus], s[site].1, s[site].0),
        Vertex::Circumcenter { left, mid, right } => circumcenter(s[left], s[mid], s[right]),
    }
}

fn normal(a: Pt, b: Pt) -> Pt {
    (-(a.1 - b.1), a.0 - b.0)
}

fn breakpoint_x(l: Pt, r: Pt, yl: f64) -> f64 {
    let bx = r.0 - l.0;
    let ay = l.1 - yl;
    let by = r.1 - yl;
    let discrim = ay * by * ((ay - by) * (ay - by) + bx * bx);
    let numer = ay * bx - discrim.sqrt();
    let denom = ay - by;
    (if denom != 0.0 { numer / denom } else { bx / 2.0 }) + l.0
}

fn meet(ao: Pt, ad: Pt, bo: Pt, bd: Pt) -> Option<Pt> {
    let dx = bo.0 - ao.0;
    let dy = bo.1 - ao.1;
    let det = bd.0 * ad.1 - bd.1 * ad.0;
    if det == 0.0 {
        return None;
    }
    let u = (dy * bd.0 - dx * bd.1) / det;
    let v = (dy * ad.0 - dx * ad.1) / det;
    if u.partial_cmp(&0.0) != v.partial_cmp(&0.0) {
        return None;
    }
    Some((ao.0 + ad.0 * u, ao.1 + ad.1 * u))
}

fn clip(o: Pt, d: Pt) -> Pt {
    let cx = if d.0 == 0.0 { 0.0 } else if d.0 < 0.0 { (LO - o.0) / d.0 } else { (HI - o.0) / d.0 };
    let cy = if d.1 == 0.0 { 0.0 } else if d.1 < 0.0 { (LO - o.1) / d.1 } else { (HI - o.1) / d.1 };
    let c = if d.0 == 0.0 { cy } else if d.1 == 0.0 { cx } else { cx.min(cy) };
    (o.0 + c * d.0, o.1 + c * d.1)
}

fn sweep(s: &[Pt]) -> Diagram {
    let keys: Vec<(u64, u64)> = s.iter().map(|p| (key(p.1), key(p.0))).collect();
    let goes_left = |q: usize, l: usize, r: usize| s[q].0 < breakpoint_x(s[l], s[r], s[q].1);
    let circle = |a: Vertex, b: Vertex, l: usize, m: usize, r: usize| {
        let c = meet(vertex(s, a), normal(s[l], s[m]), vertex(s, b), normal(s[m], s[r]))?;
        let rad = ((s[m].0 - c.0).powi(2) + (s[m].1 - c.1).powi(2)).sqrt();
        Some((key(c.1 - rad), key(c.0)))
    };
    fortunes_sweep(&keys, &goes_left, &circle)
}

fn segments(s: &[Pt], d: &Diagram) -> Vec<[Pt; 2]> {
    d.edges
        .iter()
        .map(|e| match *e {
            Edge::Segment(a, b) => [vertex(s, a), vertex(s, b)],
            Edge::Ray(bp) => {
                let o = vertex(s, bp.origin);
                [o, clip(o, normal(s[bp.l], s[bp.r]))]
            }
        })
        .collect()
}

fn close(a: Pt, b: Pt) -> bool {
    (a.0 - b.0).abs() < 1e-6 && (a.1 - b.1).abs() < 1e-6
}

fn same_segment(a: &[Pt; 2], b: &[Pt; 2]) -> bool {
    (close(a[0], b[0]) && close(a[1], b[1])) || (close(a[0], b[1]) && close(a[1], b[0]))
}

fn same_edges(gold: &[[Pt; 2]], got: &[[Pt; 2]]) -> bool {
    let mut used = vec![false; got.len()];
    gold.len() == got.len()
        && gold.iter().all(|g| match (0..got.len()).find(|&i| !used[i] && same_segment(g, &got[i])) {
            Some(i) => {
                used[i] = true;
                true
            }
            None => false,
        })
}

fn on_segment(p: Pt, seg: &[Pt; 2]) -> bool {
    let (a, b) = (seg[0], seg[1]);
    let cross = (b.0 - a.0) * (p.1 - a.1) - (b.1 - a.1) * (p.0 - a.0);
    let dot = (p.0 - a.0) * (b.0 - a.0) + (p.1 - a.1) * (b.1 - a.1);
    let len2 = (b.0 - a.0).powi(2) + (b.1 - a.1).powi(2);
    cross.abs() < 1e-6 * len2.max(1.0) && dot >= -1e-6 && dot <= len2 + 1e-6
}

#[test]
fn vertical_line() {
    let sites = [(250.0, 500.0), (750.0, 500.0)];
    let voronoi = segments(&sites, &sweep(&sites));
    assert_eq!(voronoi.len(), 2);
    let gold = [[(500.0, 500.0), (500.0, 1000.0)], [(500.0, 500.0), (500.0, 0.0)]];
    assert!(same_edges(&gold, &voronoi));
}

#[test]
fn horizontal_line() {
    let sites = [(500.0, 250.0), (500.0, 750.0)];
    let voronoi = segments(&sites, &sweep(&sites));
    assert_eq!(voronoi.len(), 2);
    let gold = [[(500.0, 500.0), (1000.0, 500.0)], [(500.0, 500.0), (0.0, 500.0)]];
    assert!(same_edges(&gold, &voronoi));
}

#[test]
fn three_points() {
    let sites = [(250.0, 250.0), (500.0, 750.0), (750.0, 250.0)];
    let voronoi = segments(&sites, &sweep(&sites));
    assert_eq!(voronoi.len(), 3);
    let gold = [
        [(500.0, 437.5), (500.0, 0.0)],
        [(500.0, 437.5), (1000.0, 687.5)],
        [(500.0, 437.5), (0.0, 687.5)],
    ];
    assert!(same_edges(&gold, &voronoi));
}

#[test]
fn collinear_sites_never_collapse() {
    let sites = [(100.0, 100.0), (500.0, 500.0), (900.0, 900.0)];
    let d = sweep(&sites);
    assert_eq!(d.circle_events, 0);
    assert!(d.finished.is_empty());
    assert_eq!(d.open.len(), 4);
    assert_eq!(d.edges.len(), 4);
    let voronoi = segments(&sites, &d);
    assert_eq!(voronoi.len(), 4);
    for s in voronoi.iter() {
        assert!((s[0].0 + s[0].1 - 600.0).abs() < 1e-6 || (s[0].0 + s[0].1 - 1400.0).abs() < 1e-6);
    }
}

#[test]
fn same_input_same_output() {
    let sites = [(130.0, 870.0), (420.0, 610.0), (770.0, 820.0), (300.0, 200.0), (650.0, 380.0), (900.0, 150.0)];
    let a = segments(&sites, &sweep(&sites));
    let b = segments(&sites, &sweep(&sites));
    assert!(same_edges(&a, &b));
}

#[test]
fn finished_pieces_are_twice_the_circle_events() {
    let sites = [(130.0, 870.0), (420.0, 610.0), (770.0, 820.0), (300.0, 200.0), (650.0, 380.0), (900.0, 150.0)];
    let d = sweep(&sites);
    assert!(d.circle_events > 0);
    assert_eq!(d.finished.len(), 2 * d.circle_events);
    assert_eq!(d.open.len() + 1 + d.circle_events, 2 * sites.len() - 1);
}

#[test]
fn events_fire_from_top_to_bottom() {
    let sites = [(130.0, 870.0), (420.0, 610.0), (770.0, 820.0), (300.0, 200.0), (650.0, 380.0), (900.0, 150.0)];
    let d = sweep(&sites);
    assert_eq!(d.heights.len(), sites.len() + d.circle_events);
    assert!(d.heights.windows(2).all(|w| w[1] <= w[0]));
    assert_eq!(d.heights[0], key(870.0));
    assert_eq!(*d.heights.last().unwrap() <= key(150.0), true);
}

#[test]
fn open_edges_end_in_the_box() {
    let sites = [(130.0, 870.0), (420.0, 610.0), (770.0, 820.0), (300.0, 200.0), (650.0, 380.0), (900.0, 150.0)];
    let d = sweep(&sites);
    let voronoi = segments(&sites, &d);
    assert!(voronoi.len() <= d.finished.len() + d.open.len());
    for (e, s) in d.edges.iter().zip(voronoi.iter()) {
        if !matches!(e, Edge::Ray(_)) {
            continue;
        }
        let p = s[1];
        assert!(p.0 >= LO - 1e-6 && p.0 <= HI + 1e-6 && p.1 >= LO - 1e-6 && p.1 <= HI + 1e-6);
        let on_wall = [p.0 - LO, HI - p.0, p.1 - LO, HI - p.1].iter().any(|w| w.abs() < 1e-6);
        assert!(on_wall);
    }
}

#[test]
fn no_sites_no_edges() {
    let sites: [Pt; 0] = [];
    let d = sweep(&sites);
    assert_eq!(d.circle_events, 0);
    assert!(d.finished.is_empty() && d.open.is_empty() && d.edges.is_empty());
}

#[test]
fn one_site_no_edges() {
    let sites = [(400.0, 400.0)];
    let d = sweep(&sites);
    assert!(d.finished.is_empty() && d.open.is_empty());
    assert!(d.beachline.arc_under_point(0, &|_q: usize, _l: usize, _r: usize| true).is_some());
}

#[test]
fn joined_edges_pair_halves() {
    let a = Vertex::OnArc { focus: 1, site: 0 };
    let b = Vertex::OnArc { focus: 1, site: 2 };
    let c = Vertex::Circumcenter { left: 0, mid: 1, right: 2 };
    let d = Vertex::Circumcenter { left: 2, mid: 1, right: 3 };
    let fin = vec![(a, c), (b, c), (b, d)];
    let open = vec![
        fortunes::BreakPoint::new(a, 1, 0),
        fortunes::BreakPoint::new(c, 0, 2),
        fortunes::BreakPoint::new(Vertex::OnArc { focus: 2, site: 3 }, 2, 3),
    ];
    let edges = fortunes::join_edges(&fin, &open);
    assert_eq!(
        edges,
        vec![
            Edge::Ray(fortunes::BreakPoint::new(c, 1, 0)),
            Edge::Segment(c, d),
            Edge::Ray(fortunes::BreakPoint::new(c, 0, 2)),
            Edge::Ray(fortunes::BreakPoint::new(Vertex::OnArc { focus: 2, site: 3 }, 2, 3)),
        ]
    );
}
