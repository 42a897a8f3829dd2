use fortunes::{Arc, Beachline, BreakPoint, Event, EventQueue, Vertex};

fn never(_a: Vertex, _b: Vertex, _l: usize, _m: usize, _r: usize) -> Option<(u64, u64)> {
    None
}

fn at_ten(_a: Vertex, _b: Vertex, _l: usize, _m: usize, _r: usize) -> Option<(u64, u64)> {
    Some((10, 20))
}

fn split(bl: &mut Beachline, eq: &mut EventQueue, idx: usize, old_site: usize, site: usize, circle: &dyn Fn(Vertex, Vertex, usize, usize, usize) -> Option<(u64, u64)>) {
    let o = Vertex::OnArc { focus: old_site, site };
    bl.replace_arc(
        idx,
        Arc::new(old_site),
        BreakPoint::new(o, old_site, site),
        Arc::new(site),
        BreakPoint::new(o, site, old_site),
        Arc::new(old_site),
        eq,
        50,
        &|a: Vertex, b: Vertex, l: usize, m: usize, r: usize| circle(a, b, l, m, r),
    );
}

#[test]
fn first_arc_has_no_neighbours() {
    let mut bl = Beachline::new();
    assert!(bl.is_empty());
    assert!(bl.arc_under_point(0, &|_q: usize, _l: usize, _r: usize| true).is_none());
    bl.add_first_parabola(7);
    assert!(!bl.is_empty());
    assert_eq!(bl.arc(0), Arc { site: 7 });
    assert!(bl.left_arc(0).is_none());
    assert!(bl.right_arc(0).is_none());
    assert!(bl.left_edge(0).is_none());
    assert!(bl.right_edge(0).is_none());
    assert_eq!(bl.arc_under_point(3, &|_q: usize, _l: usize, _r: usize| false), Some((Arc { site: 7 }, 0)));
}

#[test]
fn split_arc_lays_out_five_nodes() {
    let mut bl = Beachline::new();
    let mut eq = EventQueue::new();
    bl.add_first_parabola(7);
    split(&mut bl, &mut eq, 0, 7, 3, &never);
    let o = Vertex::OnArc { focus: 7, site: 3 };
    assert_eq!(bl.left_arc(4), Some((Arc { site: 7 }, 2)));
    assert_eq!(bl.right_arc(4), Some((Arc { site: 7 }, 5)));
    assert_eq!(bl.left_edge(4), Some((BreakPoint::new(o, 7, 3), 1)));
    assert_eq!(bl.right_edge(4), Some((BreakPoint::new(o, 3, 7), 3)));
    assert!(bl.left_arc(2).is_none());
    assert!(bl.right_arc(5).is_none());
    assert_eq!(bl.right_arc(2), Some((Arc { site: 3 }, 4)));
    // Both neighbours of the middle arc belong to one site: no circle.
    assert!(eq.pop().is_none());
}

#[test]
fn descent_follows_the_answers() {
    let mut bl = Beachline::new();
    let mut eq = EventQueue::new();
    bl.add_first_parabola(7);
    split(&mut bl, &mut eq, 0, 7, 3, &never);
    // Left of every breakpoint: the leftmost arc.
    assert_eq!(bl.arc_under_point(9, &|_q: usize, _l: usize, _r: usize| true), Some((Arc { site: 7 }, 2)));
    // Right of every breakpoint: the rightmost arc.
    assert_eq!(bl.arc_under_point(9, &|_q: usize, _l: usize, _r: usize| false), Some((Arc { site: 7 }, 5)));
    // Right of the breakpoint 7|3, left of 3|7: the middle arc.
    assert_eq!(bl.arc_under_point(9, &|_q: usize, l: usize, _r: usize| l == 3), Some((Arc { site: 3 }, 4)));
}

#[test]
fn circle_event_is_scheduled_and_consumed() {
    let mut bl = Beachline::new();
    let mut eq = EventQueue::new();
    bl.add_first_parabola(7);
    split(&mut bl, &mut eq, 0, 7, 3, &never);
    split(&mut bl, &mut eq, 5, 7, 9, &at_ten);
    // Order: 2, 1, 4, 3, 7, 6, 9, 8, 10; arc 7 lies between sites 3 and 9.
    assert_eq!(bl.left_arc(7), Some((Arc { site: 3 }, 4)));
    assert_eq!(bl.right_arc(7), Some((Arc { site: 9 }, 9)));
    assert_eq!(eq.pop(), Some((Event::Circle(7), 10)));
    assert!(eq.pop().is_none());

    let merged = BreakPoint::new(Vertex::Circumcenter { left: 3, mid: 7, right: 9 }, 3, 9);
    let survivor = bl.replace_breakpoint(3, 7, 6, merged, &mut eq, 50, &|a: Vertex, b: Vertex, l: usize, m: usize, r: usize| never(a, b, l, m, r));
    assert!(survivor == 3 || survivor == 6);
    assert_eq!(bl.right_arc(4), Some((Arc { site: 9 }, 9)));
    assert_eq!(bl.left_arc(9), Some((Arc { site: 3 }, 4)));
    assert_eq!(bl.right_edge(4), Some((merged, survivor)));
    assert_eq!(bl.left_edge(9), Some((merged, survivor)));

    let mut open = Vec::new();
    bl.extend_edges_to_bounding_box(&mut open);
    assert_eq!(open.len(), 3);
    assert_eq!(open[1], merged);
}

#[test]
fn circle_above_the_sweep_is_not_scheduled() {
    let mut bl = Beachline::new();
    let mut eq = EventQueue::new();
    bl.add_first_parabola(7);
    split(&mut bl, &mut eq, 0, 7, 3, &never);
    split(&mut bl, &mut eq, 5, 7, 9, &never);
    bl.check_circle_event(7, &mut eq, 50, &|_a: Vertex, _b: Vertex, _l: usize, _m: usize, _r: usize| Some((51, 0)));
    assert!(eq.pop().is_none());
    bl.check_circle_event(7, &mut eq, 50, &|_a: Vertex, _b: Vertex, _l: usize, _m: usize, _r: usize| Some((50, 0)));
    assert_eq!(eq.pop(), Some((Event::Circle(7), 50)));
}

#[test]
fn queue_pops_highest_first_then_leftmost() {
    let mut eq = EventQueue::new();
    eq.push(Event::Site(1), 5, 1);
    eq.push(Event::Site(2), 9, 3);
    eq.push(Event::Circle(4), 9, 2);
    assert_eq!(eq.pop(), Some((Event::Circle(4), 9)));
    assert_eq!(eq.pop(), Some((Event::Site(2), 9)));
    assert_eq!(eq.pop(), Some((Event::Site(1), 5)));
    assert_eq!(eq.pop(), None);
}

#[test]
fn queue_remove_is_a_no_op_when_absent() {
    let mut eq = EventQueue::new();
    eq.push(Event::Site(1), 5, 1);
    assert!(!eq.remove(Event::Circle(1)));
    assert!(eq.remove(Event::Site(1)));
    assert!(!eq.remove(Event::Site(1)));
    assert_eq!(eq.pop(), None);
}

#[test]
fn queue_push_again_replaces_the_priority() {
    let mut eq = EventQueue::new();
    eq.push(Event::Circle(3), 5, 0);
    eq.push(Event::Circle(3), 7, 0);
    assert_eq!(eq.pop(), Some((Event::Circle(3), 7)));
    assert_eq!(eq.pop(), None);
}

#[test]
fn queue_breaks_every_tie_by_the_event() {
    let mut eq = EventQueue::new();
    eq.push(Event::Site(1), 5, 7);
    eq.push(Event::Site(2), 5, 7);
    eq.push(Event::Circle(0), 5, 7);
    assert_eq!(eq.pop(), Some((Event::Circle(0), 5)));
    assert_eq!(eq.pop(), Some((Event::Site(2), 5)));
    assert_eq!(eq.pop(), Some((Event::Site(1), 5)));
    assert_eq!(eq.pop(), None);
}
