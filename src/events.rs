//! The event queue: pending site and circle events, highest sweep position
//! first. It is kept in `priority_queue::PriorityQueue`, keyed by the event and
//! ordered by a pair of integers that the caller derives from coordinates.

use priority_queue::PriorityQueue;
use vstd::prelude::*;

verus! {

#[verifier::external_type_specification]
#[verifier::external_body]
#[verifier::reject_recursive_types(K)]
#[verifier::reject_recursive_types(V)]
#[verifier::reject_recursive_types(S)]
pub struct ExPriorityQueue<K, V, S>(PriorityQueue<K, V, S>);

/// The priority queue of events: keyed by whether the event is a circle event
/// and by its site or arc, ordered by a pair of integers.
pub type Heap = PriorityQueue<(bool, usize), Priority>;

/// The priority of an event: its height key, the reversed abscissa key, and
/// the event's own key, which breaks every remaining tie.
pub type Priority = (u64, u64, bool, usize);

/// What a priority queue of events holds: each item, once, with its priority.
pub uninterp spec fn queued(q: Heap) -> Map<(bool, usize), Priority>;

/// Lexicographic order on priorities, the order of `Ord` on tuples.
pub open spec fn prio_le(a: Priority, b: Priority) -> bool {
    ||| a.0 < b.0
    ||| a.0 == b.0 && a.1 < b.1
    ||| a.0 == b.0 && a.1 == b.1 && !a.2 && b.2
    ||| a.0 == b.0 && a.1 == b.1 && a.2 == b.2 && a.3 <= b.3
}

/// Relies on `PriorityQueue::new`: the queue starts empty.
#[verifier::external_body]
fn pq_new() -> (r: Heap)
    ensures
        queued(r).is_empty(),
{
    PriorityQueue::new()
}

/// Relies on `PriorityQueue::push`: the item is stored with the priority,
/// which replaces the priority of an equal item already there.
#[verifier::external_body]
fn pq_push(q: &mut Heap, item: (bool, usize), priority: Priority)
    ensures
        queued(*final(q)) == queued(*old(q)).insert(item, priority),
{
    q.push(item, priority);
}

/// Relies on `PriorityQueue::pop`: it takes out an item of greatest priority,
/// or returns `None` on an empty queue.
#[verifier::external_body]
fn pq_pop(q: &mut Heap) -> (r: Option<((bool, usize), Priority)>)
    ensures
        r is None ==> queued(*old(q)).dom().is_empty() && queued(*final(q)) == queued(*old(q)),
        r matches Some((item, priority)) ==> {
            &&& queued(*old(q)).contains_key(item)
            &&& queued(*old(q))[item] == priority
            &&& forall|i: (bool, usize)| #[trigger] queued(*old(q)).contains_key(i) ==> prio_le(queued(*old(q))[i], priority)
            &&& queued(*final(q)) == queued(*old(q)).remove(item)
        },
{
    q.pop()
}

/// Relies on `PriorityQueue::remove`: the item leaves the queue if it was
/// there; the result tells whether it was.
#[verifier::external_body]
fn pq_remove(q: &mut Heap, item: &(bool, usize)) -> (r: bool)
    ensures
        r == queued(*old(q)).contains_key(*item),
        queued(*final(q)) == queued(*old(q)).remove(*item),
{
    q.remove(item).is_some()
}

/// An event of the sweep: a site to insert, or the arc whose circle closes.
#[derive(Clone, Copy, PartialEq, Eq, Structural, Debug)]
pub enum Event {
    Site(usize),
    Circle(usize),
}

/// The queue key of an event.
pub open spec fn key_of(e: Event) -> (bool, usize) {
    match e {
        Event::Site(i) => (false, i),
        Event::Circle(a) => (true, a),
    }
}

fn event_key(e: Event) -> (k: (bool, usize))
    ensures
        k == key_of(e),
{
    match e {
        Event::Site(i) => (false, i),
        Event::Circle(a) => (true, a),
    }
}

/// The priority of event `e` at sweep height key `y` and abscissa key `x`:
/// higher first, at equal height the smaller abscissa first, and at the same
/// point circle events before site events, the greater index first.
pub open spec fn priority_of(y: u64, x: u64, e: Event) -> Priority {
    (y, (u64::MAX - x) as u64, key_of(e).0, key_of(e).1)
}

/// Every pending event's priority ends with the event's own key, so that no
/// two pending events tie.
pub open spec fn well_keyed(q: Map<(bool, usize), Priority>) -> bool {
    forall|k: (bool, usize)| #[trigger] q.contains_key(k) ==> q[k].2 == k.0 && q[k].3 == k.1
}

/// The pending events of one sweep.
pub struct EventQueue {
    queue: Heap,
}

impl View for EventQueue {
    type V = Map<(bool, usize), Priority>;

    closed spec fn view(&self) -> Map<(bool, usize), Priority> {
        queued(self.queue)
    }
}

impl EventQueue {
    pub fn new() -> (q: EventQueue)
        ensures
            q@ == Map::<(bool, usize), Priority>::empty(),
            well_keyed(q@),
    {
        EventQueue { queue: pq_new() }
    }

    /// Schedules `e` at height key `y` and abscissa key `x`, replacing any
    /// pending time of `e`.
    pub fn push(&mut self, e: Event, y: u64, x: u64)
        ensures
            final(self)@ == old(self)@.insert(key_of(e), priority_of(y, x, e)),
            well_keyed(old(self)@) ==> well_keyed(final(self)@),
    {
        let k = event_key(e);
        pq_push(&mut self.queue, k, (y, u64::MAX - x, k.0, k.1));
    }

    /// Takes out a pending event of greatest priority with its height key.
    pub fn pop(&mut self) -> (r: Option<(Event, u64)>)
        ensures
            r is None ==> old(self)@.dom() == Set::<(bool, usize)>::empty() && final(self)@ == old(self)@,
            r matches Some((e, y)) ==> {
                &&& old(self)@.contains_key(key_of(e))
                &&& old(self)@[key_of(e)].0 == y
                &&& forall|i: (bool, usize)| #[trigger] old(self)@.contains_key(i) ==> prio_le(old(self)@[i], old(self)@[key_of(e)])
                &&& final(self)@ == old(self)@.remove(key_of(e))
                &&& well_keyed(old(self)@) ==> forall|i: (bool, usize)|
                    #[trigger] old(self)@.contains_key(i) && i != key_of(e) ==> !prio_le(old(self)@[key_of(e)], old(self)@[i])
            },
            well_keyed(old(self)@) ==> well_keyed(final(self)@),
    {
        match pq_pop(&mut self.queue) {
            None => None,
            Some((k, p)) => {
                let e = if k.0 { Event::Circle(k.1) } else { Event::Site(k.1) };
                Some((e, p.0))
            },
        }
    }

    /// Drops `e` if it is pending; nothing happens otherwise.
    pub fn remove(&mut self, e: Event) -> (was_pending: bool)
        ensures
            was_pending == old(self)@.contains_key(key_of(e)),
            final(self)@ == old(self)@.remove(key_of(e)),
            well_keyed(old(self)@) ==> well_keyed(final(self)@),
    {
        let k = event_key(e);
        pq_remove(&mut self.queue, &k)
    }
}

} // verus!
