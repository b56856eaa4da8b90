//! The simulator: runs a [`Framework`] over a [`Trace`] and records the defended trace, playing
//! the integrator's part (sending decoys, blocking and releasing outgoing packets).
//!
//! Simulated time is in microseconds from the start of the trace.

use std::cmp::Ordering;

use vstd::prelude::*;

use crate::accounting::{events_going, lemma_trace_events_going};
use crate::action::{Distr, IntegratorAction};
use crate::event::{Event, spec_is_deferred};
use crate::framework::{
    Framework, Sampler, count_of, lemma_idle_nothing_scheduled, processed, queues_idle, queues_not_before, soonest,
};
use crate::trace::{Direction, Trace, TraceBuilder, TraceView, event_direction};

verus! {

/// A simulated event: an [`Event`], its time, and the size of its packet.
#[derive(Clone, Copy, Debug, Eq, PartialEq, Structural)]
pub struct SimulatorEvent {
    /// The event.
    pub event: Event,
    /// The time of the event.
    pub time: u64,
    /// Size of the packet, if there is one.
    pub size: u32,
}

/// Simulated events order by time, later events first.
pub open spec fn sim_event_order(a: SimulatorEvent, b: SimulatorEvent) -> Ordering {
    if a.time < b.time {
        Ordering::Greater
    } else if a.time == b.time {
        Ordering::Equal
    } else {
        Ordering::Less
    }
}

impl SimulatorEvent {
    /// Compares by time, reversed: an earlier event is greater.
    pub fn cmp(&self, other: &Self) -> (r: Ordering)
        ensures
            r == sim_event_order(*self, *other),
    {
        if self.time < other.time {
            Ordering::Greater
        } else if self.time == other.time {
            Ordering::Equal
        } else {
            Ordering::Less
        }
    }
}

impl PartialOrd for SimulatorEvent {
    fn partial_cmp(&self, other: &Self) -> (r: Option<Ordering>) {
        Some(self.cmp(other))
    }
}

impl vstd::std_specs::cmp::PartialOrdSpecImpl for SimulatorEvent {
    open spec fn obeys_partial_cmp_spec() -> bool {
        true
    }

    open spec fn partial_cmp_spec(&self, other: &SimulatorEvent) -> Option<Ordering> {
        Some(sim_event_order(*self, *other))
    }
}

/// Events in order of time (equal times in the order they were pushed).
pub open spec fn events_by_time(s: Seq<SimulatorEvent>) -> bool {
    forall|i: int, j: int| 0 <= i < j < s.len() ==> #[trigger] s[i].time <= #[trigger] s[j].time
}

/// `s` with `item` placed after the last event that is not later than it: scanning from the back,
/// `item` goes before every event later than it.
pub open spec fn inserted_event(s: Seq<SimulatorEvent>, item: SimulatorEvent) -> Seq<SimulatorEvent>
    decreases s.len(),
{
    if s.len() == 0 {
        seq![item]
    } else if s.last().time > item.time {
        inserted_event(s.drop_last(), item).push(s.last())
    } else {
        s.push(item)
    }
}

/// `s` with each of `items` inserted in turn.
pub open spec fn extended_events(s: Seq<SimulatorEvent>, items: Seq<SimulatorEvent>) -> Seq<
    SimulatorEvent,
>
    decreases items.len(),
{
    if items.len() == 0 {
        s
    } else {
        inserted_event(extended_events(s, items.drop_last()), items.last())
    }
}

/// The events of `s` that happen at time `t`, in order.
pub open spec fn events_at(s: Seq<SimulatorEvent>, t: u64) -> Seq<SimulatorEvent>
    decreases s.len(),
{
    if s.len() == 0 {
        Seq::empty()
    } else {
        events_at(s.drop_last(), t) + if s.last().time == t {
            seq![s.last()]
        } else {
            Seq::<SimulatorEvent>::empty()
        }
    }
}

proof fn lemma_inserted_len(s: Seq<SimulatorEvent>, item: SimulatorEvent)
    ensures
        inserted_event(s, item).len() == s.len() + 1,
    decreases s.len(),
{
    if s.len() > 0 && s.last().time > item.time {
        lemma_inserted_len(s.drop_last(), item);
    }
}

proof fn lemma_inserted_at(s: Seq<SimulatorEvent>, item: SimulatorEvent, t: u64)
    ensures
        events_at(inserted_event(s, item), t) == events_at(s, t) + if item.time == t {
            seq![item]
        } else {
            Seq::<SimulatorEvent>::empty()
        },
    decreases s.len(),
{
    let ins = inserted_event(s, item);
    if s.len() == 0 {
        assert(seq![item].drop_last() =~= Seq::<SimulatorEvent>::empty());
        assert(events_at(Seq::<SimulatorEvent>::empty(), t) == Seq::<SimulatorEvent>::empty());
        assert(events_at(ins, t) =~= events_at(s, t) + if item.time == t {
            seq![item]
        } else {
            Seq::<SimulatorEvent>::empty()
        });
    } else if s.last().time > item.time {
        let p = s.drop_last();
        lemma_inserted_at(p, item, t);
        let ip = inserted_event(p, item);
        assert(ins == ip.push(s.last()));
        assert(ip.push(s.last()).drop_last() =~= ip);
        assert(events_at(ins, t) =~= events_at(s, t) + if item.time == t {
            seq![item]
        } else {
            Seq::<SimulatorEvent>::empty()
        });
    } else {
        assert(ins == s.push(item));
        assert(s.push(item).drop_last() =~= s);
        assert(events_at(ins, t) =~= events_at(s, t) + if item.time == t {
            seq![item]
        } else {
            Seq::<SimulatorEvent>::empty()
        });
    }
}

proof fn lemma_inserted_bounded(s: Seq<SimulatorEvent>, item: SimulatorEvent, b: u64)
    requires
        forall|i: int| 0 <= i < s.len() ==> #[trigger] s[i].time <= b,
        item.time <= b,
    ensures
        forall|i: int|
            0 <= i < inserted_event(s, item).len() ==> #[trigger] inserted_event(s, item)[i].time
                <= b,
    decreases s.len(),
{
    lemma_inserted_len(s, item);
    if s.len() > 0 && s.last().time > item.time {
        let p = s.drop_last();
        assert forall|i: int| 0 <= i < p.len() implies #[trigger] p[i].time <= b by {
            assert(p[i] == s[i]);
        }
        lemma_inserted_bounded(p, item, b);
        lemma_inserted_len(p, item);
        let ip = inserted_event(p, item);
        assert forall|i: int| 0 <= i < inserted_event(s, item).len() implies #[trigger] inserted_event(
            s,
            item,
        )[i].time <= b by {
            if i < ip.len() {
                assert(inserted_event(s, item)[i] == ip[i]);
            }
        }
    }
}

proof fn lemma_inserted_sorted(s: Seq<SimulatorEvent>, item: SimulatorEvent)
    requires
        events_by_time(s),
    ensures
        events_by_time(inserted_event(s, item)),
    decreases s.len(),
{
    lemma_inserted_len(s, item);
    let ins = inserted_event(s, item);
    if s.len() > 0 && s.last().time > item.time {
        let p = s.drop_last();
        let l = s.last();
        assert forall|i: int, j: int| 0 <= i < j < p.len() implies #[trigger] p[i].time <= #[trigger] p[j].time by {
            assert(p[i] == s[i] && p[j] == s[j]);
        }
        lemma_inserted_sorted(p, item);
        assert forall|i: int| 0 <= i < p.len() implies #[trigger] p[i].time <= l.time by {
            assert(p[i] == s[i]);
        }
        lemma_inserted_bounded(p, item, l.time);
        lemma_inserted_len(p, item);
        let ip = inserted_event(p, item);
        assert(ins == ip.push(l));
        assert forall|i: int, j: int| 0 <= i < j < ins.len() implies #[trigger] ins[i].time <= #[trigger] ins[j].time by {
            assert(ins[i] == ip[i]);
            if j < ip.len() {
                assert(ins[j] == ip[j]);
            }
        }
    } else if s.len() > 0 {
        assert(ins == s.push(item));
        assert forall|i: int, j: int| 0 <= i < j < ins.len() implies #[trigger] ins[i].time <= #[trigger] ins[j].time by {
            assert(ins[i] == s[i]);
            if j < s.len() {
                assert(ins[j] == s[j]);
            } else {
                assert(s[i].time <= s[s.len() - 1].time);
            }
        }
    }
}

/// Pushing events one after another onto an empty simulator queue (see
/// [`SimulatorQueue::push`]) orders them by time, events at the same time in the order they were
/// pushed: the queue holds every event, in order of time, and its events at each time are the
/// events pushed at that time in push order. Popping hands them out from the front.
pub proof fn lemma_pushes_sort_stably(es: Seq<SimulatorEvent>)
    ensures
        extended_events(Seq::empty(), es).len() == es.len(),
        events_by_time(extended_events(Seq::empty(), es)),
        forall|t: u64| #[trigger] events_at(extended_events(Seq::empty(), es), t) == events_at(es, t),
    decreases es.len(),
{
    if es.len() > 0 {
        let p = es.drop_last();
        lemma_pushes_sort_stably(p);
        let q = extended_events(Seq::empty(), p);
        lemma_inserted_len(q, es.last());
        lemma_inserted_sorted(q, es.last());
        assert forall|t: u64| #[trigger] events_at(extended_events(Seq::empty(), es), t) == events_at(es, t) by {
            lemma_inserted_at(q, es.last(), t);
            assert(events_at(q, t) == events_at(p, t));
        }
    }
}

/// The number of events at the front of `q` that happen at `now`.
pub open spec fn leading_at(q: Seq<SimulatorEvent>, now: u64) -> nat
    decreases q.len(),
{
    if q.len() == 0 || q[0].time != now {
        0
    } else {
        1 + leading_at(q.drop_first(), now)
    }
}

proof fn lemma_leading_at(r: Seq<SimulatorEvent>, rest: Seq<SimulatorEvent>, now: u64)
    requires
        forall|i: int| 0 <= i < r.len() ==> #[trigger] r[i].time == now,
        rest.len() == 0 || rest[0].time != now,
    ensures
        leading_at(r + rest, now) == r.len(),
    decreases r.len(),
{
    if r.len() > 0 {
        assert forall|i: int| 0 <= i < r.drop_first().len() implies #[trigger] r.drop_first()[i].time == now by {
            assert(r.drop_first()[i] == r[i + 1]);
        }
        lemma_leading_at(r.drop_first(), rest, now);
        assert((r + rest).drop_first() =~= r.drop_first() + rest);
        assert((r + rest)[0] == r[0]);
    } else {
        assert(r + rest =~= rest);
    }
}

/// The simulated events waiting to happen, in order of time; events at the same time happen in
/// the order in which they were pushed.
#[derive(Debug, Clone)]
pub struct SimulatorQueue {
    events: std::collections::VecDeque<SimulatorEvent>,
}

impl SimulatorQueue {
    /// The events, in the order in which they will be popped.
    pub closed spec fn events(&self) -> Seq<SimulatorEvent> {
        self.events@
    }

    /// The events are in order of time.
    pub closed spec fn wf(&self) -> bool {
        events_by_time(self.events@)
    }

    /// An empty queue.
    pub fn new() -> (r: Self)
        ensures
            r.wf(),
            r.events() == Seq::<SimulatorEvent>::empty(),
    {
        SimulatorQueue { events: std::collections::VecDeque::new() }
    }

    /// The earliest time in the queue, if there is one.
    pub fn peek_time(&self) -> (r: Option<u64>)
        requires
            self.wf(),
        ensures
            self.events().len() == 0 ==> r.is_none(),
            self.events().len() > 0 ==> r == Some(self.events()[0].time),
            forall|i: int| 0 <= i < self.events().len() ==> #[trigger] self.events()[i].time >= self.events()[0].time,
    {
        if self.events.len() == 0 {
            None
        } else {
            Some(self.events[0].time)
        }
    }

    /// Pops the earliest event, if there is one.
    pub fn pop(&mut self) -> (r: Option<SimulatorEvent>)
        requires
            old(self).wf(),
        ensures
            final(self).wf(),
            old(self).events().len() == 0 ==> r.is_none() && final(self).events() == old(self).events(),
            old(self).events().len() > 0 ==> r == Some(old(self).events()[0]) && final(self).events()
                == old(self).events().drop_first(),
    {
        let r = self.events.pop_front();
        proof {
            if old(self).events().len() > 0 {
                assert(self.events@ =~= old(self).events().drop_first());
            }
        }
        r
    }

    /// Pops every event at time `now`, in order; none is earlier.
    fn pop_at(&mut self, now: u64) -> (r: Vec<SimulatorEvent>)
        requires
            old(self).wf(),
            forall|i: int| 0 <= i < old(self).events().len() ==> #[trigger] old(self).events()[i].time >= now,
        ensures
            final(self).wf(),
            forall|i: int| 0 <= i < final(self).events().len() ==> #[trigger] final(self).events()[i].time > now,
            r@ + final(self).events() == old(self).events(),
            forall|i: int| 0 <= i < r@.len() ==> #[trigger] r@[i].time == now,
            r@.len() == leading_at(old(self).events(), now),
    {
        let ghost pq0 = self.events();
        let mut out: Vec<SimulatorEvent> = Vec::new();
        let mut more = true;
        while more
            invariant
                self.wf(),
                forall|i: int| 0 <= i < self.events().len() ==> #[trigger] self.events()[i].time >= now,
                out@ + self.events() == pq0,
                forall|i: int| 0 <= i < out@.len() ==> #[trigger] out@[i].time == now,
                !more ==> self.events().len() == 0 || self.events()[0].time != now,
            decreases self.events().len(), if more { 1int } else { 0int },
        {
            match self.peek_time() {
                Some(t) => {
                    if t == now {
                        let ghost before = self.events();
                        match self.pop() {
                            Some(e) => {
                                out.push(e);
                                assert(out@ + self.events() =~= pq0) by {
                                    assert(out@ =~= out@.drop_last().push(e));
                                    assert(before =~= seq![e] + self.events());
                                }
                            },
                            None => {
                                more = false;
                            },
                        }
                    } else {
                        more = false;
                    }
                },
                None => {
                    more = false;
                },
            }
        }
        assert forall|i: int| 0 <= i < self.events().len() implies #[trigger] self.events()[i].time > now by {
            assert(self.events()[i].time >= self.events()[0].time);
        }
        proof {
            lemma_leading_at(out@, self.events(), now);
        }
        out
    }

    /// Pushes an event after every event at the same time or earlier and before every later one.
    pub fn push(&mut self, item: SimulatorEvent)
        requires
            old(self).wf(),
        ensures
            final(self).wf(),
            final(self).events() == inserted_event(old(self).events(), item),
            exists|p: int|
                0 <= p <= old(self).events().len() && final(self).events() == old(self).events().insert(
                    p,
                    item,
                ) && (forall|i: int| 0 <= i < p ==> #[trigger] old(self).events()[i].time <= item.time)
                    && (forall|i: int|
                    p <= i < old(self).events().len() ==> #[trigger] old(self).events()[i].time
                        > item.time),
    {
        let ghost olds = self.events@;
        let mut p: usize = self.events.len();
        assert(olds.take(olds.len() as int) =~= olds);
        assert(olds.skip(olds.len() as int) =~= Seq::<SimulatorEvent>::empty());
        while p > 0 && self.events[p - 1].time > item.time
            invariant
                p <= self.events@.len(),
                self.events@ == olds,
                events_by_time(olds),
                forall|i: int| p <= i < olds.len() ==> #[trigger] olds[i].time > item.time,
                inserted_event(olds, item) == inserted_event(olds.take(p as int), item) + olds.skip(
                    p as int,
                ),
            decreases p,
        {
            proof {
                let t = olds.take(p as int);
                assert(t.drop_last() =~= olds.take(p - 1));
                assert(t.last() == olds[p - 1]);
                assert(inserted_event(t, item) == inserted_event(olds.take(p - 1), item).push(olds[p - 1]));
                assert(olds.skip(p - 1) =~= seq![olds[p - 1]] + olds.skip(p as int));
                assert(inserted_event(olds.take(p - 1), item).push(olds[p - 1]) + olds.skip(p as int)
                    =~= inserted_event(olds.take(p - 1), item) + olds.skip(p - 1));
            }
            p = p - 1;
        }
        proof {
            if p == 0 {
                assert(olds.take(0) =~= Seq::<SimulatorEvent>::empty());
            } else {
                assert(olds.take(p as int).last() == olds[p - 1]);
            }
            assert(inserted_event(olds, item) =~= olds.insert(p as int, item));
        }
        assert forall|i: int| 0 <= i < p implies #[trigger] olds[i].time <= item.time by {
            assert(olds[p - 1].time <= item.time);
            if i < p - 1 {
                assert(olds[i].time <= olds[p - 1].time);
            }
        }
        self.events.insert(p, item);
        assert(self.events@ == olds.insert(p as int, item));
        assert(events_by_time(self.events@)) by {
            let n = self.events@;
            assert(n == olds.insert(p as int, item));
            assert forall|i: int, j: int| 0 <= i < j < n.len() implies #[trigger] n[i].time
                <= #[trigger] n[j].time by {
                if j < p {
                } else if j == p {
                } else if i < p {
                    assert(olds[j - 1].time > item.time);
                } else if i == p {
                } else {
                    assert(olds[i - 1].time <= olds[j - 1].time);
                }
            }
        }
        let ghost pi: int = p as int;
        assert(0 <= pi <= old(self).events().len() && self.events() == old(self).events().insert(
            pi,
            item,
        ) && (forall|i: int| 0 <= i < pi ==> #[trigger] old(self).events()[i].time <= item.time)
            && (forall|i: int|
            pi <= i < old(self).events().len() ==> #[trigger] old(self).events()[i].time > item.time));
    }

    /// Pushes each of the events in turn.
    pub fn extend(&mut self, items: Vec<SimulatorEvent>)
        requires
            old(self).wf(),
        ensures
            final(self).wf(),
            final(self).events().len() == old(self).events().len() + items@.len(),
            forall|i: int|
                0 <= i < final(self).events().len() ==> old(self).events().contains(
                    #[trigger] final(self).events()[i],
                ) || items@.contains(final(self).events()[i]),
            final(self).events() == extended_events(old(self).events(), items@),
    {
        let ghost olds = self.events@;
        let mut k: usize = 0;
        assert(items@.take(0) =~= Seq::<SimulatorEvent>::empty());
        while k < items.len()
            invariant
                k <= items@.len(),
                self.wf(),
                self.events().len() == olds.len() + k,
                forall|i: int|
                    0 <= i < self.events().len() ==> olds.contains(#[trigger] self.events()[i])
                        || items@.contains(self.events()[i]),
                self.events() == extended_events(olds, items@.take(k as int)),
            decreases items@.len() - k,
        {
            let ghost before = self.events();
            self.push(items[k]);
            proof {
                assert(items@.take(k + 1).drop_last() =~= items@.take(k as int));
                assert(items@.take(k + 1).last() == items@[k as int]);
                let item = items@[k as int];
                let p = choose|p: int|
                    0 <= p <= before.len() && self.events() == before.insert(p, item) && (forall|i: int|
                        0 <= i < p ==> #[trigger] before[i].time <= item.time) && (forall|i: int|
                        p <= i < before.len() ==> #[trigger] before[i].time > item.time);
                assert forall|i: int| 0 <= i < self.events().len() implies olds.contains(
                    #[trigger] self.events()[i],
                ) || items@.contains(self.events()[i]) by {
                    if i < p {
                        assert(self.events()[i] == before[i]);
                    } else if i > p {
                        assert(self.events()[i] == before[i - 1]);
                    } else {
                        assert(items@[k as int] == self.events()[i]);
                    }
                }
            }
            k = k + 1;
        }
        assert(items@.take(k as int) =~= items@);
    }

    /// The events of a trace: each packet becomes a [`Event::SendNormal`] or
    /// [`Event::ReceiveNormal`] at the sum of the deltas up to it.
    pub fn from_trace(trace: &Trace) -> (r: Self)
        requires
            trace@.wf(),
            total_time(trace@.timing_deltas) <= u64::MAX,
        ensures
            r.wf(),
            r.events() == trace_events(trace@),
    {
        let mut q = SimulatorQueue::new();
        let mut time_acc: u64 = 0;
        let n = trace.directions.len();
        let mut i: usize = 0;
        while i < n
            invariant
                i <= n,
                n == trace@.len(),
                trace@.wf(),
                total_time(trace@.timing_deltas) <= u64::MAX,
                time_acc == total_time(trace@.timing_deltas.take(i as int)),
                q.wf(),
                q.events() == trace_events_upto(trace@, i as int),
            decreases n - i,
        {
            proof {
                lemma_total_time_prefix(trace@.timing_deltas, i + 1);
                assert(trace@.timing_deltas.take(i + 1).drop_last() =~= trace@.timing_deltas.take(
                    i as int,
                ));
            }
            time_acc = time_acc + trace.timing_deltas[i] as u64;
            let event = match trace.directions[i] {
                Direction::Send => Event::SendNormal,
                Direction::Receive => Event::ReceiveNormal,
            };
            let ghost before = q.events();
            let item = SimulatorEvent { event, time: time_acc, size: trace.sizes[i] };
            proof {
                lemma_trace_events_times(trace@, i as int);
            }
            q.push(item);
            proof {
                let p = choose|p: int|
                    0 <= p <= before.len() && q.events() == before.insert(p, item) && (forall|j: int|
                        0 <= j < p ==> #[trigger] before[j].time <= item.time) && (forall|j: int|
                        p <= j < before.len() ==> #[trigger] before[j].time > item.time);
                assert(p == before.len()) by {
                    if p < before.len() {
                        assert(before[p].time > item.time);
                    }
                }
                assert(q.events() =~= before.push(item));
            }
            i = i + 1;
        }
        proof {
            assert(trace@.timing_deltas.take(n as int) =~= trace@.timing_deltas);
        }
        q
    }
}

proof fn lemma_extend_not_before(
    old: Seq<SimulatorEvent>,
    items: Seq<SimulatorEvent>,
    new: Seq<SimulatorEvent>,
    x: u64,
)
    requires
        forall|i: int| 0 <= i < old.len() ==> #[trigger] old[i].time >= x,
        forall|i: int| 0 <= i < items.len() ==> #[trigger] items[i].time >= x,
        forall|i: int| 0 <= i < new.len() ==> old.contains(#[trigger] new[i]) || items.contains(new[i]),
    ensures
        forall|i: int| 0 <= i < new.len() ==> #[trigger] new[i].time >= x,
{
    assert forall|i: int| 0 <= i < new.len() implies #[trigger] new[i].time >= x by {
        if old.contains(new[i]) {
            let j = choose|j: int| 0 <= j < old.len() && old[j] == new[i];
            assert(old[j].time >= x);
        } else {
            let j = choose|j: int| 0 <= j < items.len() && items[j] == new[i];
            assert(items[j].time >= x);
        }
    }
}

proof fn lemma_insert_not_before(old: Seq<SimulatorEvent>, new: Seq<SimulatorEvent>, item: SimulatorEvent, x: u64)
    requires
        forall|i: int| 0 <= i < old.len() ==> #[trigger] old[i].time >= x,
        item.time >= x,
        exists|p: int| 0 <= p <= old.len() && new == old.insert(p, item),
    ensures
        forall|i: int| 0 <= i < new.len() ==> #[trigger] new[i].time >= x,
{
    let p = choose|p: int| 0 <= p <= old.len() && new == old.insert(p, item);
    assert forall|i: int| 0 <= i < new.len() implies #[trigger] new[i].time >= x by {
        if i < p {
            assert(new[i] == old[i]);
        } else if i > p {
            assert(new[i] == old[i - 1]);
        }
    }
}

/// The sum of the timing deltas.
pub open spec fn total_time(deltas: Seq<u32>) -> int
    decreases deltas.len(),
{
    if deltas.len() == 0 {
        0
    } else {
        total_time(deltas.drop_last()) + deltas.last()
    }
}

proof fn lemma_total_time_prefix(deltas: Seq<u32>, k: int)
    requires
        0 <= k <= deltas.len(),
    ensures
        total_time(deltas.take(k)) <= total_time(deltas),
        forall|j: int| 0 <= j <= k ==> #[trigger] total_time(deltas.take(j)) <= total_time(deltas.take(k)),
    decreases deltas.len() - k,
{
    if k < deltas.len() {
        lemma_total_time_prefix(deltas, k + 1);
        assert(deltas.take(k + 1).drop_last() =~= deltas.take(k));
    } else {
        assert(deltas.take(k) =~= deltas);
    }
    assert forall|j: int| 0 <= j <= k implies #[trigger] total_time(deltas.take(j)) <= total_time(
        deltas.take(k),
    ) by {
        lemma_total_time_mono(deltas, j, k);
    }
}

proof fn lemma_total_time_mono(deltas: Seq<u32>, j: int, k: int)
    requires
        0 <= j <= k <= deltas.len(),
    ensures
        total_time(deltas.take(j)) <= total_time(deltas.take(k)),
    decreases k - j,
{
    if j < k {
        lemma_total_time_mono(deltas, j, k - 1);
        assert(deltas.take(k).drop_last() =~= deltas.take(k - 1));
    }
}

/// The simulated event of packet `i` of a trace, at the sum of the deltas up to and including it.
pub open spec fn trace_event(t: TraceView, i: int) -> SimulatorEvent {
    SimulatorEvent {
        event: if t.directions[i] == Direction::Send {
            Event::SendNormal
        } else {
            Event::ReceiveNormal
        },
        time: total_time(t.timing_deltas.take(i + 1)) as u64,
        size: t.sizes[i],
    }
}

/// The simulated events of the first `k` packets of a trace.
pub open spec fn trace_events_upto(t: TraceView, k: int) -> Seq<SimulatorEvent> {
    Seq::new(k as nat, |i: int| trace_event(t, i))
}

/// The simulated events of a trace, one for each packet, in order.
pub open spec fn trace_events(t: TraceView) -> Seq<SimulatorEvent> {
    trace_events_upto(t, t.len() as int)
}

proof fn lemma_trace_events_times(t: TraceView, k: int)
    requires
        t.wf(),
        0 <= k < t.len(),
        total_time(t.timing_deltas) <= u64::MAX,
    ensures
        forall|i: int| 0 <= i < k ==> #[trigger] trace_event(t, i).time <= trace_event(t, k).time,
        trace_event(t, k).time == total_time(t.timing_deltas.take(k + 1)),
{
    lemma_total_time_prefix(t.timing_deltas, k + 1);
    lemma_total_time_mono(t.timing_deltas, 0, k + 1);
    assert(t.timing_deltas.take(0) =~= Seq::<u32>::empty());
    assert forall|i: int| 0 <= i < k implies #[trigger] trace_event(t, i).time <= trace_event(t, k).time by {
        lemma_total_time_mono(t.timing_deltas, i + 1, k + 1);
        lemma_total_time_mono(t.timing_deltas, 0, i + 1);
    }
}

/// The first `k` packets of a trace.
pub open spec fn trace_prefix(t: TraceView, k: int) -> TraceView {
    TraceView {
        directions: t.directions.take(k),
        timing_deltas: t.timing_deltas.take(k),
        sizes: t.sizes.take(k),
    }
}

proof fn lemma_total_time_step(deltas: Seq<u32>, i: int)
    requires
        0 <= i < deltas.len(),
    ensures
        total_time(deltas.take(i + 1)) == total_time(deltas.take(i)) + deltas[i],
{
    assert(deltas.take(i + 1).drop_last() =~= deltas.take(i));
}

proof fn lemma_prefix_push(t: TraceView, k: int)
    requires
        t.wf(),
        0 <= k < t.len(),
    ensures
        trace_prefix(t, k + 1) == (TraceView {
            directions: trace_prefix(t, k).directions.push(t.directions[k]),
            timing_deltas: trace_prefix(t, k).timing_deltas.push(t.timing_deltas[k]),
            sizes: trace_prefix(t, k).sizes.push(t.sizes[k]),
        }),
{
    assert(t.directions.take(k + 1) =~= t.directions.take(k).push(t.directions[k]));
    assert(t.timing_deltas.take(k + 1) =~= t.timing_deltas.take(k).push(t.timing_deltas[k]));
    assert(t.sizes.take(k + 1) =~= t.sizes.take(k).push(t.sizes[k]));
}

proof fn lemma_prefix_whole(t: TraceView)
    requires
        t.wf(),
    ensures
        trace_prefix(t, t.len() as int) == t,
{
    assert(t.directions.take(t.len() as int) =~= t.directions);
    assert(t.timing_deltas.take(t.len() as int) =~= t.timing_deltas);
    assert(t.sizes.take(t.len() as int) =~= t.sizes);
}

/// The earlier of two optional times; none only if both are none.
pub open spec fn earlier(a: Option<u64>, b: Option<u64>) -> Option<u64> {
    match a {
        None => b,
        Some(x) => match b {
            None => Some(x),
            Some(y) => Some(
                if x < y {
                    x
                } else {
                    y
                },
            ),
        },
    }
}

/// How the events due at one time are let through while the block ending at `until` is in
/// force: a normal packet sent while the block is active (up to and including its end) is held
/// back; every other event is handed to the framework, and each that is a packet is recorded.
/// Gives the events held back, the events handed on, and the packets recorded (direction and
/// size), each in order.
pub open spec fn sort_events(events: Seq<SimulatorEvent>, until: Option<u64>) -> (
    Seq<SimulatorEvent>,
    Seq<Event>,
    Seq<(Direction, u32)>,
)
    decreases events.len(),
{
    if events.len() == 0 {
        (Seq::empty(), Seq::empty(), Seq::empty())
    } else {
        let (held, handed, packets) = sort_events(events.drop_last(), until);
        let e = events.last();
        if e.event == Event::SendNormal && (until matches Some(u) && e.time <= u) {
            (held.push(e), handed, packets)
        } else {
            (
                held,
                handed.push(e.event),
                if !spec_is_deferred(e.event) && event_direction(e.event) is Some {
                    packets.push((event_direction(e.event)->Some_0, e.size))
                } else {
                    packets
                },
            )
        }
    }
}

/// Whether a block ending at `until` holds back `e`: it is a normal packet sent while the block
/// is in force (up to and including its end).
pub open spec fn held_by(until: Option<u64>) -> spec_fn(SimulatorEvent) -> bool {
    |e: SimulatorEvent| e.event == Event::SendNormal && (until matches Some(u) && e.time <= u)
}

/// Whether a block ending at `until` lets `e` through.
pub open spec fn let_through_by(until: Option<u64>) -> spec_fn(SimulatorEvent) -> bool {
    |e: SimulatorEvent| !(e.event == Event::SendNormal && (until matches Some(u) && e.time <= u))
}

/// Whether a block ending at `until` lets `e` through and it is a packet, to be recorded.
pub open spec fn recorded_by(until: Option<u64>) -> spec_fn(SimulatorEvent) -> bool {
    |e: SimulatorEvent|
        !(e.event == Event::SendNormal && (until matches Some(u) && e.time <= u)) && event_direction(
            e.event,
        ) is Some
}

/// While a block is in force only normal packets sent are held back, in order; every other
/// event due is handed to the framework, in order, and recorded at once if it is a packet (a
/// decoy or a received packet among them).
pub proof fn lemma_only_normal_sends_held(events: Seq<SimulatorEvent>, until: Option<u64>)
    ensures
        sort_events(events, until).0 == events.filter(held_by(until)),
        sort_events(events, until).1 == events.filter(let_through_by(until)).map_values(
            |e: SimulatorEvent| e.event,
        ),
        sort_events(events, until).2 == events.filter(recorded_by(until)).map_values(
            |e: SimulatorEvent| (event_direction(e.event)->Some_0, e.size),
        ),
        forall|i: int|
            0 <= i < sort_events(events, until).0.len() ==> (#[trigger] sort_events(events, until).0[i]).event
                == Event::SendNormal,
        forall|i: int|
            0 <= i < events.len() && (#[trigger] events[i]).event != Event::SendNormal ==> events.filter(
                let_through_by(until),
            ).contains(events[i]),
    decreases events.len(),
{
    reveal(Seq::filter);
    if events.len() > 0 {
        lemma_only_normal_sends_held(events.drop_last(), until);
        let (held, handed, packets) = sort_events(events.drop_last(), until);
        let e = events.last();
        let fh = events.drop_last().filter(let_through_by(until));
        let fr = events.drop_last().filter(recorded_by(until));
        assert(fh.push(e).map_values(|e: SimulatorEvent| e.event) =~= fh.map_values(
            |e: SimulatorEvent| e.event,
        ).push(e.event));
        assert(fr.push(e).map_values(|e: SimulatorEvent| (event_direction(e.event)->Some_0, e.size))
            =~= fr.map_values(|e: SimulatorEvent| (event_direction(e.event)->Some_0, e.size)).push(
            (event_direction(e.event)->Some_0, e.size),
        ));
        assert(event_direction(e.event) is Some ==> !spec_is_deferred(e.event));
        let h = sort_events(events, until).0;
        assert forall|i: int| 0 <= i < h.len() implies (#[trigger] h[i]).event == Event::SendNormal by {
            if i < held.len() {
                assert(h[i] == held[i]);
            }
        }
        let f = events.filter(let_through_by(until));
        assert forall|i: int|
            0 <= i < events.len() && (#[trigger] events[i]).event != Event::SendNormal implies f.contains(
            events[i],
        ) by {
            if i < events.len() - 1 {
                assert(events[i] == events.drop_last()[i]);
                let k = choose|k: int| 0 <= k < fh.len() && fh[k] == events[i];
                assert(f[k] == events[i]);
            } else {
                assert(f[f.len() - 1] == e);
            }
        }
    }
}

/// The recorded trace `r`, whose last packet was at `last`, after recording `packets` at `now`:
/// the first is `now - last` (truncated to 32 bits) after the last, the others follow at once.
pub open spec fn recorded_after(r: TraceView, last: u64, now: u64, packets: Seq<(Direction, u32)>) -> TraceView
    decreases packets.len(),
{
    if packets.len() == 0 {
        r
    } else {
        let prev = recorded_after(r, last, now, packets.drop_last());
        let p = packets.last();
        TraceView {
            directions: prev.directions.push(p.0),
            timing_deltas: prev.timing_deltas.push(
                if packets.len() == 1 {
                    (now - last) as u32
                } else {
                    0u32
                },
            ),
            sizes: prev.sizes.push(p.1),
        }
    }
}

/// The events, each moved to time `t`.
pub open spec fn retimed(s: Seq<SimulatorEvent>, t: u64) -> Seq<SimulatorEvent> {
    s.map_values(|e: SimulatorEvent| SimulatorEvent { time: t, ..e })
}

/// The end of a block of `dur` microseconds from `now`, or the last representable time.
pub open spec fn block_end(now: u64, dur: u64) -> u64 {
    if dur <= u64::MAX - now {
        (now + dur) as u64
    } else {
        u64::MAX
    }
}

/// A decoy packet sent at `now`.
pub open spec fn decoy_at(now: u64) -> SimulatorEvent {
    SimulatorEvent { event: Event::SendDecoy, time: now, size: DECOY_SIZE }
}

/// The pending events, the end of the block and the events held back after carrying out the
/// integrator actions in order at `now`, from `q`, `until` and `held`; `durs[i]` is the duration
/// sampled for `actions[i]` if that is a block. A decoy is sent at `now`; a block lasts its
/// duration from `now`; a release ends the block and hands back the held events at `now`.
pub open spec fn integrator_effects(
    q: Seq<SimulatorEvent>,
    until: Option<u64>,
    held: Seq<SimulatorEvent>,
    actions: Seq<IntegratorAction>,
    now: u64,
    durs: Seq<u64>,
) -> (Seq<SimulatorEvent>, Option<u64>, Seq<SimulatorEvent>)
    decreases actions.len(),
{
    if actions.len() == 0 {
        (q, until, held)
    } else {
        let (q1, u1, h1) = integrator_effects(
            q,
            until,
            held,
            actions.drop_last(),
            now,
            durs.drop_last(),
        );
        match actions.last() {
            IntegratorAction::SendDecoy => (inserted_event(q1, decoy_at(now)), u1, h1),
            IntegratorAction::BlockOutgoing(_) => (q1, Some(block_end(now, durs.last())), h1),
            IntegratorAction::ReleaseBlock => (
                extended_events(q1, retimed(h1, now)),
                None,
                Seq::empty(),
            ),
        }
    }
}

proof fn lemma_effects_one(
    q: Seq<SimulatorEvent>,
    until: Option<u64>,
    held: Seq<SimulatorEvent>,
    x: IntegratorAction,
    now: u64,
    d: u64,
)
    ensures
        integrator_effects(q, until, held, seq![x], now, seq![d]) == match x {
            IntegratorAction::SendDecoy => (inserted_event(q, decoy_at(now)), until, held),
            IntegratorAction::BlockOutgoing(_) => (q, Some(block_end(now, d)), held),
            IntegratorAction::ReleaseBlock => (
                extended_events(q, retimed(held, now)),
                None,
                Seq::<SimulatorEvent>::empty(),
            ),
        },
{
    assert(seq![x].drop_last() =~= Seq::<IntegratorAction>::empty());
    assert(seq![d].drop_last() =~= Seq::<u64>::empty());
    assert(integrator_effects(q, until, held, Seq::empty(), now, Seq::empty()) == (q, until, held));
}

proof fn lemma_effects_push(
    q: Seq<SimulatorEvent>,
    until: Option<u64>,
    held: Seq<SimulatorEvent>,
    acts: Seq<IntegratorAction>,
    durs: Seq<u64>,
    x: IntegratorAction,
    now: u64,
    d: u64,
)
    ensures
        ({
            let e = integrator_effects(q, until, held, acts, now, durs);
            integrator_effects(q, until, held, acts.push(x), now, durs.push(d))
                == integrator_effects(e.0, e.1, e.2, seq![x], now, seq![d])
        }),
{
    assert(acts.push(x).drop_last() =~= acts);
    assert(durs.push(d).drop_last() =~= durs);
    let e = integrator_effects(q, until, held, acts, now, durs);
    lemma_effects_one(e.0, e.1, e.2, x, now, d);
}

/// Whether outgoing packets are blocked, and the packets held back.
#[derive(Clone, Debug, Default)]
pub struct BlockState {
    /// When the block ends, if there is one.
    pub until: Option<u64>,
    /// The events held back by the block, in order.
    pub buffered: Vec<SimulatorEvent>,
}

impl BlockState {
    /// Whether a block is active at `time` (up to and including its end).
    pub fn is_active_at(&self, time: u64) -> (r: bool)
        ensures
            r == (self.until matches Some(u) && time <= u),
    {
        match self.until {
            Some(until) => time <= until,
            None => false,
        }
    }

    /// Blocks until `until`.
    pub fn block(&mut self, until: u64)
        ensures
            final(self).until == Some(until),
            final(self).buffered == old(self).buffered,
    {
        self.until = Some(until);
    }

    /// Holds an event back.
    pub fn buffer(&mut self, event: SimulatorEvent)
        ensures
            final(self).until == old(self).until,
            final(self).buffered@ == old(self).buffered@.push(event),
    {
        self.buffered.push(event);
    }

    /// Ends the block and hands back the events held back, retimed to `release_time`.
    pub fn release(&mut self, release_time: u64) -> (r: Vec<SimulatorEvent>)
        ensures
            final(self).until.is_none(),
            final(self).buffered@ == Seq::<SimulatorEvent>::empty(),
            r@ == retimed(old(self).buffered@, release_time),
    {
        self.until = None;
        let mut out: Vec<SimulatorEvent> = Vec::new();
        let mut i: usize = 0;
        while i < self.buffered.len()
            invariant
                i <= self.buffered@.len(),
                self.buffered@ == old(self).buffered@,
                out@ == self.buffered@.take(i as int).map_values(
                    |e: SimulatorEvent| SimulatorEvent { time: release_time, ..e },
                ),
            decreases self.buffered@.len() - i,
        {
            let e = self.buffered[i];
            out.push(SimulatorEvent { time: release_time, ..e });
            i = i + 1;
            assert(out@ =~= self.buffered@.take(i as int).map_values(
                |e: SimulatorEvent| SimulatorEvent { time: release_time, ..e },
            ));
        }
        assert(self.buffered@.take(i as int) =~= self.buffered@);
        self.buffered = Vec::new();
        out
    }
}

/// The size of a simulated decoy packet.
pub const DECOY_SIZE: u32 = 512;

/// An instance of the simulator: a framework to simulate, the trace to run it on, and a sampler
/// for the durations of blocks. A run is [`Simulator::start`], then [`Simulator::step`] until it
/// returns `false`, then [`Simulator::output`].
pub struct Simulator<S: Sampler> {
    /// The framework being simulated.
    pub framework: Framework<S>,
    trace: Trace,
    queue: SimulatorQueue,
    rng: S,
    block_state: BlockState,
    out_builder: TraceBuilder,
    clock: u64,
    durations_asked: Ghost<Seq<(Distr, u64)>>,
}

/// The durations the sampler is asked for while carrying out `out`, `durs[i]` being the answer
/// for `out[i]`: one draw from the distribution of each block, in order.
pub open spec fn block_questions(out: Seq<IntegratorAction>, durs: Seq<u64>) -> Seq<(Distr, u64)>
    decreases out.len(),
{
    if out.len() == 0 {
        Seq::empty()
    } else {
        block_questions(out.drop_last(), durs.drop_last()) + match out.last() {
            IntegratorAction::BlockOutgoing(d) => seq![(d, durs.last())],
            _ => Seq::<(Distr, u64)>::empty(),
        }
    }
}

/// Asks `rng` for a duration drawn from `delay`, noting the question and its answer.
fn ask_duration<S: Sampler>(rng: &mut S, asked: &mut Ghost<Seq<(Distr, u64)>>, delay: &Distr) -> (r: u64)
    ensures
        final(asked)@ == old(asked)@.push((*delay, r)),
{
    let r = rng.sample_delay(delay);
    proof {
        asked@ = asked@.push((*delay, r));
    }
    r
}

impl<S: Sampler> Simulator<S> {
    /// The framework being simulated.
    pub closed spec fn fw(&self) -> Framework<S> {
        self.framework
    }

    /// The trace the simulator runs on.
    pub closed spec fn trace(&self) -> Trace {
        self.trace
    }

    /// The events waiting to happen.
    pub closed spec fn pending(&self) -> Seq<SimulatorEvent> {
        self.queue.events()
    }

    /// The defended trace recorded so far.
    pub closed spec fn recorded(&self) -> TraceView {
        self.out_builder.recorded()
    }

    /// The simulated time of the last step.
    pub closed spec fn clock(&self) -> u64 {
        self.clock
    }

    /// The block on outgoing packets.
    pub closed spec fn block(&self) -> BlockState {
        self.block_state
    }

    /// The block durations the sampler was asked for, each with its answer, in order.
    pub closed spec fn durations_asked(&self) -> Seq<(Distr, u64)> {
        self.durations_asked@
    }

    /// The time of the last packet recorded (or of the start of the run).
    pub closed spec fn last_recorded_time(&self) -> u64 {
        self.out_builder.last_ts()
    }

    /// The run replays its trace unchanged: the machine is silent and nothing is queued or
    /// blocked, the packets recorded so far are the trace's first packets with their own deltas,
    /// and the pending events are exactly those of the packets still to come.
    pub open spec fn replaying(&self) -> bool {
        let t = self.trace()@;
        let k = self.recorded().len();
        &&& self.fw().machine.is_silent()
        &&& queues_idle(self.fw().runtime)
        &&& self.block().until is None
        &&& self.block().buffered@.len() == 0
        &&& t.wf()
        &&& total_time(t.timing_deltas) <= u64::MAX
        &&& k <= t.len()
        &&& self.recorded() == trace_prefix(t, k as int)
        &&& self.pending() == trace_events(t).skip(k as int)
        &&& self.last_recorded_time() == total_time(t.timing_deltas.take(k as int))
    }

    /// The next time at which something needs handling: time 0 before the framework's first
    /// round, else the earliest of the next pending event, the end of the block, and the
    /// framework's soonest scheduled action; none if there is none of them.
    pub open spec fn earliest(&self) -> Option<u64> {
        if !self.fw().runtime.initialised {
            Some(0u64)
        } else {
            earlier(
                earlier(
                    if self.pending().len() > 0 {
                        Some(self.pending()[0].time)
                    } else {
                        None
                    },
                    self.block().until,
                ),
                soonest(self.fw().runtime.queues@, self.fw().runtime.queues@.len() as int),
            )
        }
    }

    /// Whether the block ends by `now`.
    pub open spec fn block_due(&self, now: u64) -> bool {
        self.block().until matches Some(u) && u <= now
    }

    /// The pending events once a block that ends by `now` has handed back its events at `now`.
    pub open spec fn pending_at(&self, now: u64) -> Seq<SimulatorEvent> {
        if self.block_due(now) {
            extended_events(self.pending(), retimed(self.block().buffered@, now))
        } else {
            self.pending()
        }
    }

    /// The end of the block once a block that ends by `now` is lifted.
    pub open spec fn until_at(&self, now: u64) -> Option<u64> {
        if self.block_due(now) {
            None
        } else {
            self.block().until
        }
    }

    /// The events held back once a block that ends by `now` is lifted.
    pub open spec fn held_at(&self, now: u64) -> Seq<SimulatorEvent> {
        if self.block_due(now) {
            Seq::<SimulatorEvent>::empty()
        } else {
            self.block().buffered@
        }
    }

    /// The events due at `now`, taken from the front of the pending events.
    pub open spec fn due_at(&self, now: u64) -> Seq<SimulatorEvent> {
        self.pending_at(now).take(leading_at(self.pending_at(now), now) as int)
    }

    /// The pending events left after those due at `now` are taken.
    pub open spec fn left_at(&self, now: u64) -> Seq<SimulatorEvent> {
        self.pending_at(now).skip(leading_at(self.pending_at(now), now) as int)
    }

    /// `new` is this simulator after one step at its next time `now` (see
    /// [`Simulator::earliest`]): a block that has ended by `now` is lifted and the events it held
    /// are put back at `now`; the events due at `now` are taken and let through (see
    /// [`sort_events`]), the packets among them recorded at `now`; the framework processes the
    /// events handed on (see [`processed`]); and the integrator actions it hands back are carried
    /// out (see [`integrator_effects`]), each block lasting the duration the sampler gave for it
    /// (noted in [`Simulator::durations_asked`], see [`block_questions`]).
    pub open spec fn stepped_to(&self, new: &Self) -> bool {
        let now = self.earliest()->Some_0;
        let sorted = sort_events(self.due_at(now), self.until_at(now));
        &&& self.earliest() is Some
        &&& new.clock() == now
        &&& new.trace() == self.trace()
        &&& new.fw().machine == self.fw().machine
        &&& new.recorded() == recorded_after(
            self.recorded(),
            self.last_recorded_time(),
            now,
            sorted.2,
        )
        &&& new.last_recorded_time() == if sorted.2.len() > 0 {
            now
        } else {
            self.last_recorded_time()
        }
        &&& exists|out: Seq<IntegratorAction>, durs: Seq<u64>|
            #![trigger integrator_effects(self.left_at(now), self.until_at(now), self.held_at(now) + sorted.0, out, now, durs)]
            {
                &&& processed(
                    self.fw().machine,
                    self.fw().runtime,
                    sorted.1,
                    now,
                    new.fw().runtime,
                    out,
                )
                &&& durs.len() == out.len()
                &&& new.durations_asked() == self.durations_asked() + block_questions(out, durs)
                &&& new.pending() == integrator_effects(
                    self.left_at(now),
                    self.until_at(now),
                    self.held_at(now) + sorted.0,
                    out,
                    now,
                    durs,
                ).0
                &&& new.block().until == integrator_effects(
                    self.left_at(now),
                    self.until_at(now),
                    self.held_at(now) + sorted.0,
                    out,
                    now,
                    durs,
                ).1
                &&& new.block().buffered@ == integrator_effects(
                    self.left_at(now),
                    self.until_at(now),
                    self.held_at(now) + sorted.0,
                    out,
                    now,
                    durs,
                ).2
            }
    }

    /// What a replaying run has left to do: the pending packets, and the framework's first round
    /// if it has not had it yet.
    pub open spec fn replay_remaining(&self) -> nat {
        self.pending().len() + if self.fw().runtime.initialised {
            0nat
        } else {
            1nat
        }
    }

    /// The framework is well formed, the recorded trace has matching field lengths, and nothing
    /// that is still to happen lies before the clock: time never runs backwards.
    pub closed spec fn wf(&self) -> bool {
        &&& self.framework.wf()
        &&& self.queue.wf()
        &&& self.out_builder.recorded().wf()
        &&& self.out_builder.last_ts() <= self.clock
        &&& forall|i: int| 0 <= i < self.queue.events().len() ==> #[trigger] self.queue.events()[i].time >= self.clock
        &&& (self.block_state.until matches Some(u) ==> u >= self.clock)
        &&& queues_not_before(self.framework.runtime, self.clock)
        &&& (!self.framework.runtime.initialised ==> self.clock == 0)
    }

    /// A simulator for the framework, to run on the trace, with a sampler for block durations.
    pub fn with(framework: Framework<S>, trace: Trace, rng: S) -> (r: Self)
        requires
            framework.wf(),
        ensures
            r.wf(),
            r.fw() == framework,
            r.trace() == trace,
            r.pending() == Seq::<SimulatorEvent>::empty(),
            r.durations_asked() == Seq::<(Distr, u64)>::empty(),
    {
        Simulator {
            framework,
            trace,
            queue: SimulatorQueue::new(),
            rng,
            block_state: BlockState { until: None, buffered: Vec::new() },
            out_builder: TraceBuilder::new(0),
            clock: 0,
            durations_asked: Ghost(Seq::empty()),
        }
    }

    /// Replaces the trace the simulator runs on.
    pub fn replace_trace(&mut self, trace: Trace)
        requires
            old(self).wf(),
        ensures
            final(self).wf(),
            final(self).trace() == trace,
            final(self).fw() == old(self).fw(),
    {
        self.trace = trace;
    }

    /// The trace the simulator runs on.
    pub fn get_trace(&self) -> (r: &Trace)
        ensures
            *r == self.trace(),
    {
        &self.trace
    }

    /// Starts a run: the trace's packets become the pending events, any block is lifted, and
    /// nothing is recorded yet.
    pub fn start(&mut self)
        requires
            old(self).wf(),
            old(self).trace()@.wf(),
            total_time(old(self).trace()@.timing_deltas) <= u64::MAX,
        ensures
            final(self).wf(),
            final(self).pending() == trace_events(old(self).trace()@),
            final(self).clock() == 0,
            final(self).recorded().len() == 0,
            final(self).fw() == old(self).fw(),
            final(self).trace() == old(self).trace(),
            final(self).block_consistent(),
            forall|d: Direction|
                #[trigger] final(self).accounted(d) == count_of(old(self).trace()@.directions, d),
            old(self).fw().machine.is_silent() && queues_idle(old(self).fw().runtime)
                ==> final(self).replaying(),
    {
        let queue = SimulatorQueue::from_trace(&self.trace);
        proof {
            assert forall|i: int| 0 <= i < queue.events().len() implies #[trigger] queue.events()[i].time >= 0 by {}
            assert(queues_not_before(self.framework.runtime, 0));
        }
        self.queue = queue;
        self.block_state = BlockState { until: None, buffered: Vec::new() };
        self.out_builder = TraceBuilder::new(0);
        self.clock = 0;
        proof {
            let t = self.trace@;
            assert(trace_events(t).skip(0) =~= trace_events(t));
            assert(t.timing_deltas.take(0) =~= Seq::<u32>::empty());
            assert(t.directions.take(0) =~= Seq::<Direction>::empty());
            assert(t.sizes.take(0) =~= Seq::<u32>::empty());
            assert(self.recorded() == trace_prefix(t, 0));
            assert(self.block_state.buffered@ =~= Seq::<SimulatorEvent>::empty());
            assert forall|d: Direction| #[trigger] self.accounted(d) == count_of(t.directions, d) by {
                lemma_trace_events_going(t, t.directions.len() as int, d);
                assert(t.directions.take(t.directions.len() as int) =~= t.directions);
                assert(events_going(Seq::<SimulatorEvent>::empty(), d) == 0);
                assert(count_of(Seq::<Direction>::empty(), d) == 0);
            }
        }
    }

    /// The next time at which something needs handling: time 0 while the framework has not had
    /// its initial round, else the earliest of the next pending event, the end of the block, and
    /// the framework's soonest scheduled action.
    pub fn next_earliest_time(&self) -> (r: Option<u64>)
        requires
            self.wf(),
        ensures
            r == self.earliest(),
            r matches Some(t) ==> t >= self.clock(),
            !self.fw().runtime.initialised ==> r == Some(0u64),
            self.fw().runtime.initialised ==> (r matches Some(t) ==> {
                &&& self.pending().len() > 0 ==> t <= self.pending()[0].time
                &&& self.block().until matches Some(u) ==> t <= u
                &&& soonest(self.fw().runtime.queues@, self.fw().runtime.queues@.len() as int) matches Some(x) ==> t <= x
                &&& {
                    ||| self.pending().len() > 0 && t == self.pending()[0].time
                    ||| self.block().until == Some(t)
                    ||| soonest(self.fw().runtime.queues@, self.fw().runtime.queues@.len() as int) == Some(t)
                }
            }),
            self.fw().runtime.initialised ==> (r is None <==> (self.pending().len() == 0
                && self.block().until is None && soonest(
                self.fw().runtime.queues@,
                self.fw().runtime.queues@.len() as int,
            ) is None)),
    {
        if !self.framework.is_initialised() {
            return Some(0);
        }
        let mut candidate: Option<u64> = self.queue.peek_time();
        match self.block_state.until {
            Some(until) => {
                candidate = match candidate {
                    None => Some(until),
                    Some(c) => Some(
                        if c < until {
                            c
                        } else {
                            until
                        },
                    ),
                };
            },
            None => {},
        }
        let soon = self.framework.peek_soonest_scheduled_instant();
        proof {
            lemma_soonest_not_before(self.framework.runtime, self.clock);
        }
        match soon {
            Some(runtime_ts) => {
                candidate = match candidate {
                    None => Some(runtime_ts),
                    Some(c) => Some(
                        if c < runtime_ts {
                            c
                        } else {
                            runtime_ts
                        },
                    ),
                };
            },
            None => {},
        }
        candidate
    }

    /// The events are the next packets of the trace, after those recorded so far, and nothing
    /// is blocked.
    closed spec fn replay_ready(&self, events: Seq<SimulatorEvent>) -> bool {
        let t = self.trace@;
        let k = self.out_builder.recorded().len();
        &&& self.block_state.until is None
        &&& t.wf()
        &&& total_time(t.timing_deltas) <= u64::MAX
        &&& k + events.len() <= t.len()
        &&& self.out_builder.recorded() == trace_prefix(t, k as int)
        &&& self.out_builder.last_ts() == total_time(t.timing_deltas.take(k as int))
        &&& forall|i: int| 0 <= i < events.len() ==> #[trigger] events[i] == trace_event(t, k + i)
    }

    /// Lets the events at `now` through: a normal packet sent while a block is active is held
    /// back; every other packet is recorded at `now`. Returns the events handed on to the
    /// framework, in order.
    fn let_through(&mut self, events: &Vec<SimulatorEvent>, now: u64) -> (r: Vec<Event>)
        requires
            old(self).out_builder.recorded().wf(),
            old(self).out_builder.last_ts() <= now,
            forall|i: int| 0 <= i < events@.len() ==> #[trigger] events@[i].time == now,
        ensures
            final(self).framework == old(self).framework,
            final(self).trace == old(self).trace,
            final(self).clock == old(self).clock,
            final(self).queue == old(self).queue,
            final(self).durations_asked == old(self).durations_asked,
            final(self).block_state.until == old(self).block_state.until,
            final(self).out_builder.recorded().wf(),
            final(self).out_builder.last_ts() <= now,
            old(self).out_builder.recorded().directions.is_prefix_of(
                final(self).out_builder.recorded().directions,
            ),
            ({
                let (held, handed, packets) = sort_events(events@, old(self).block_state.until);
                &&& final(self).block_state.buffered@ == old(self).block_state.buffered@ + held
                &&& r@ == handed
                &&& final(self).out_builder.recorded() == recorded_after(
                    old(self).out_builder.recorded(),
                    old(self).out_builder.last_ts(),
                    now,
                    packets,
                )
                &&& final(self).out_builder.last_ts() == if packets.len() > 0 {
                    now
                } else {
                    old(self).out_builder.last_ts()
                }
            }),
            old(self).replay_ready(events@) ==> {
                let t = old(self).trace@;
                let k = (old(self).out_builder.recorded().len() + events@.len()) as int;
                &&& final(self).block_state == old(self).block_state
                &&& final(self).out_builder.recorded() == trace_prefix(t, k)
                &&& final(self).out_builder.last_ts() == total_time(t.timing_deltas.take(k))
            },
    {
        let ghost rp = self.replay_ready(events@);
        let ghost t = self.trace@;
        let ghost k0 = self.out_builder.recorded().len() as int;
        let ghost old_rec = self.out_builder.recorded();
        let ghost fw0 = self.framework;
        let ghost bs0 = self.block_state;
        let ghost until = self.block_state.until;
        let ghost l0 = self.out_builder.last_ts();
        let mut handed: Vec<Event> = Vec::new();
        let mut k: usize = 0;
        assert(events@.take(0) =~= Seq::<SimulatorEvent>::empty());
        assert(bs0.buffered@ + Seq::<SimulatorEvent>::empty() =~= bs0.buffered@);
        while k < events.len()
            invariant
                k <= events@.len(),
                until == bs0.until,
                l0 == old(self).out_builder.last_ts(),
                old_rec == old(self).out_builder.recorded(),
                ({
                    let (held, hd, packets) = sort_events(events@.take(k as int), until);
                    &&& self.block_state.buffered@ == bs0.buffered@ + held
                    &&& handed@ == hd
                    &&& self.out_builder.recorded() == recorded_after(old_rec, l0, now, packets)
                    &&& self.out_builder.last_ts() == if packets.len() > 0 {
                        now
                    } else {
                        l0
                    }
                }),
                self.framework == fw0,
                self.trace == old(self).trace,
                self.clock == old(self).clock,
                self.queue == old(self).queue,
                self.durations_asked == old(self).durations_asked,
                self.block_state.until == bs0.until,
                self.out_builder.recorded().wf(),
                self.out_builder.last_ts() <= now,
                old_rec.directions.is_prefix_of(self.out_builder.recorded().directions),
                forall|i: int| 0 <= i < events@.len() ==> #[trigger] events@[i].time == now,
                0 <= k0,
                rp ==> {
                    &&& t == self.trace@
                    &&& t.wf()
                    &&& total_time(t.timing_deltas) <= u64::MAX
                    &&& k0 + events@.len() <= t.len()
                    &&& bs0.until is None
                    &&& self.block_state == bs0
                    &&& forall|i: int| 0 <= i < events@.len() ==> #[trigger] events@[i] == trace_event(t, k0 + i)
                    &&& self.out_builder.recorded() == trace_prefix(t, k0 + k)
                    &&& self.out_builder.last_ts() == total_time(t.timing_deltas.take(k0 + k))
                },
            decreases events@.len() - k,
        {
            let e = events[k];
            let ghost (h0, f0, p0) = sort_events(events@.take(k as int), until);
            let ghost buf0 = self.block_state.buffered@;
            let ghost rec0 = self.out_builder.recorded();
            let ghost last0 = self.out_builder.last_ts();
            proof {
                assert(events@.take(k + 1).drop_last() =~= events@.take(k as int));
                assert(events@.take(k + 1).last() == e);
            }
            if e.event == Event::SendNormal && self.block_state.is_active_at(e.time) {
                self.block_state.buffer(e);
            } else {
                if !e.event.is_deferred() {
                    match Direction::of_event(e.event) {
                        Some(d) => {
                            let ghost before = self.out_builder.recorded();
                            proof {
                                if rp {
                                    let j = k0 + k;
                                    assert(e == trace_event(t, j));
                                    lemma_trace_events_times(t, j);
                                    lemma_total_time_prefix(t.timing_deltas, j + 1);
                                    lemma_total_time_step(t.timing_deltas, j);
                                    lemma_prefix_push(t, j);
                                }
                            }
                            self.out_builder.record(d, now, e.size);
                            proof {
                                assert(old_rec.directions.is_prefix_of(self.out_builder.recorded().directions)) by {
                                    assert(self.out_builder.recorded().directions == before.directions.push(d));
                                    assert forall|i: int| 0 <= i < old_rec.directions.len() implies
                                        self.out_builder.recorded().directions[i] == old_rec.directions[i] by {
                                        assert(before.directions[i] == old_rec.directions[i]);
                                    }
                                }
                            }
                        },
                        None => {},
                    }
                }
                handed.push(e.event);
            }
            proof {
                let (h1, f1, p1) = sort_events(events@.take(k + 1), until);
                if e.event == Event::SendNormal && (until matches Some(u) && e.time <= u) {
                    assert(h1 == h0.push(e) && f1 == f0 && p1 == p0);
                    assert(self.block_state.buffered@ =~= bs0.buffered@ + h1);
                } else {
                    assert(h1 == h0 && f1 == f0.push(e.event));
                    assert(handed@ =~= f1);
                    if !spec_is_deferred(e.event) && event_direction(e.event) is Some {
                        assert(p1 == p0.push((event_direction(e.event)->Some_0, e.size)));
                        assert(p1.drop_last() =~= p0);
                        assert(recorded_after(old_rec, l0, now, p1).timing_deltas == rec0.timing_deltas.push(
                            (now - last0) as u32,
                        ));
                    } else {
                        assert(p1 == p0);
                    }
                }
            }
            k = k + 1;
        }
        assert(events@.take(k as int) =~= events@);
        handed
    }

    /// Nothing pending is due before `now`, the pending events are in order of time, and any
    /// block ends at `now` or later.
    pub open spec fn settled_at(&self, now: u64) -> bool {
        &&& events_by_time(self.pending())
        &&& forall|i: int| 0 <= i < self.pending().len() ==> #[trigger] self.pending()[i].time >= now
        &&& self.block().until matches Some(u) ==> u >= now
    }

    /// Carries out an integrator action at `now`, a block lasting `dur` microseconds: a decoy
    /// packet is sent at `now`; a block lasts until `now + dur` (or the last representable time);
    /// a release ends the block and hands back the held events at `now` (see
    /// [`integrator_effects`]).
    pub fn carry_out(&mut self, action: IntegratorAction, now: u64, dur: u64)
        requires
            old(self).settled_at(now),
        ensures
            final(self).settled_at(now),
            final(self).fw() == old(self).fw(),
            final(self).trace() == old(self).trace(),
            final(self).clock() == old(self).clock(),
            final(self).recorded() == old(self).recorded(),
            final(self).last_recorded_time() == old(self).last_recorded_time(),
            final(self).durations_asked() == old(self).durations_asked(),
            ({
                let eff = integrator_effects(
                    old(self).pending(),
                    old(self).block().until,
                    old(self).block().buffered@,
                    seq![action],
                    now,
                    seq![dur],
                );
                &&& final(self).pending() == eff.0
                &&& final(self).block().until == eff.1
                &&& final(self).block().buffered@ == eff.2
            }),
    {
        proof {
            lemma_effects_one(self.pending(), self.block().until, self.block().buffered@, action, now, dur);
        }
        match action {
            IntegratorAction::SendDecoy => {
                let ghost before = self.queue.events();
                let decoy = SimulatorEvent { event: Event::SendDecoy, time: now, size: DECOY_SIZE };
                self.queue.push(decoy);
                proof {
                    lemma_insert_not_before(before, self.queue.events(), decoy, now);
                }
            },
            IntegratorAction::BlockOutgoing(_) => {
                let end = if dur <= u64::MAX - now {
                    now + dur
                } else {
                    u64::MAX
                };
                self.block_state.block(end);
            },
            IntegratorAction::ReleaseBlock => {
                let released = self.block_state.release(now);
                assert forall|i: int| 0 <= i < released@.len() implies #[trigger] released@[i].time >= now by {}
                let ghost before = self.queue.events();
                let ghost rel = released@;
                self.queue.extend(released);
                proof {
                    lemma_extend_not_before(before, rel, self.queue.events(), now);
                    assert(self.block_state.buffered@ =~= Seq::<SimulatorEvent>::empty());
                }
            },
        }
    }

    /// One step of a run, at the next earliest time (see [`Simulator::next_earliest_time`]):
    /// ends a block that is due, takes every event pending at that time (holding back a normal
    /// packet sent while a block is active, recording the others that are packets), has the
    /// framework process them, and carries out the integrator actions it returns: a decoy packet
    /// is sent at once, a block lasts a sampled time, a release hands back the held packets.
    /// Returns `false`, changing nothing, when nothing is left to happen.
    pub fn step(&mut self) -> (r: bool)
        requires
            old(self).wf(),
        ensures
            final(self).wf(),
            final(self).trace() == old(self).trace(),
            final(self).fw().machine == old(self).fw().machine,
            final(self).clock() >= old(self).clock(),
            old(self).recorded().directions.is_prefix_of(final(self).recorded().directions),
            !r ==> final(self).pending() == old(self).pending() && final(self).recorded() == old(self).recorded(),
            old(self).replaying() ==> final(self).replaying(),
            old(self).replaying() && r ==> final(self).replay_remaining() < old(self).replay_remaining(),
            old(self).replaying() && !r ==> final(self).recorded() == final(self).trace()@,
            r == old(self).earliest() is Some,
            r ==> old(self).stepped_to(&*final(self)),
    {
        let ghost rp = self.replaying();
        let ghost t = self.trace@;
        let ghost k0 = self.out_builder.recorded().len() as int;
        proof {
            if rp {
                lemma_idle_nothing_scheduled(self.framework.runtime, self.framework.runtime.queues@.len() as int);
            }
        }
        let now = match self.next_earliest_time() {
            None => {
                proof {
                    if rp {
                        assert(trace_events(t).skip(k0).len() == 0);
                        lemma_prefix_whole(t);
                    }
                }
                return false;
            },
            Some(t) => t,
        };
        let ghost old_rec = self.out_builder.recorded();
        proof {
            assert forall|i: int| 0 <= i < self.queue.events().len() implies #[trigger] self.queue.events()[i].time >= now by {
                if self.framework.runtime.initialised {
                    assert(self.queue.events()[i].time >= self.queue.events()[0].time);
                }
            }
        }
        match self.block_state.until {
            Some(until) => {
                if until <= now {
                    let released = self.block_state.release(now);
                    assert forall|i: int| 0 <= i < released@.len() implies #[trigger] released@[i].time >= now by {}
                    let ghost before = self.queue.events();
                    let ghost rel = released@;
                    self.queue.extend(released);
                    proof {
                        lemma_extend_not_before(before, rel, self.queue.events(), now);
                    }
                }
            },
            None => {},
        }
        let ghost fw0 = self.framework;
        let ghost ob0 = self.out_builder;
        let ghost bs0 = self.block_state;
        let ghost tr0 = self.trace;
        let ghost clock0 = self.clock;
        let ghost pq0 = self.queue.events();
        let ghost until1 = self.block_state.until;
        let ghost held1 = self.block_state.buffered@;
        let events_now = self.queue.pop_at(now);
        let ghost m = events_now@.len() as int;
        let ghost rest = self.queue.events();
        proof {
            assert(events_now@ =~= pq0.take(m)) by {
                assert(events_now@ =~= (events_now@ + self.queue.events()).take(m));
            }
            assert(rest =~= pq0.skip(m)) by {
                assert(self.queue.events() =~= (events_now@ + self.queue.events()).skip(m));
            }
        }
        proof {
            if rp {
                assert(events_now@ == pq0.take(m)) by {
                    assert(events_now@ =~= (events_now@ + self.queue.events()).take(m));
                }
                assert(self.queue.events() == pq0.skip(m)) by {
                    assert(self.queue.events() =~= (events_now@ + self.queue.events()).skip(m));
                }
                assert forall|i: int| 0 <= i < m implies #[trigger] events_now@[i] == trace_event(t, k0 + i) by {
                    assert(events_now@[i] == pq0[i]);
                }
                assert(self.replay_ready(events_now@));
                if old(self).fw().runtime.initialised {
                    assert(pq0[0].time == now);
                    assert(m > 0) by {
                        if m == 0 {
                            assert(self.queue.events() =~= pq0);
                        }
                    }
                }
            }
        }
        let buffered_events = self.let_through(&events_now, now);
        proof {
            if rp {
                lemma_idle_nothing_scheduled(self.framework.runtime, self.framework.runtime.queues@.len() as int);
            }
        }
        let ghost q_a = self.queue.events();
        let ghost ob_a = self.out_builder;
        let ghost bs_a = self.block_state;
        let ghost sorted = sort_events(events_now@, until1);
        let actions = self.framework.process(buffered_events.as_slice(), now);
        let ghost fw_p = self.framework;
        let ghost dq0 = self.durations_asked@;
        let ghost mut durs: Seq<u64> = Seq::empty();
        let mut a: usize = 0;
        proof {
            assert(actions@.take(0) =~= Seq::<IntegratorAction>::empty());
        }
        while a < actions.len()
            invariant
                a <= actions@.len(),
                self.framework.wf(),
                self.framework.machine == fw0.machine,
                self.framework.runtime.initialised,
                queues_not_before(self.framework.runtime, now),
                self.trace == tr0,
                self.clock == clock0,
                clock0 <= now,
                self.out_builder.recorded().wf(),
                self.out_builder.last_ts() <= now,
                old_rec.directions.is_prefix_of(self.out_builder.recorded().directions),
                self.queue.wf(),
                forall|i: int| 0 <= i < self.queue.events().len() ==> #[trigger] self.queue.events()[i].time >= now,
                self.block_state.until matches Some(u) ==> u >= now,
                rp ==> {
                    &&& actions@.len() == 0
                    &&& queues_idle(self.framework.runtime)
                    &&& self.queue.events() == q_a
                    &&& self.out_builder.recorded() == ob_a.recorded()
                    &&& self.block_state == bs_a
                },
                durs.len() == a,
                self.durations_asked@ == dq0 + block_questions(actions@.take(a as int), durs),
                self.out_builder.recorded() == ob_a.recorded(),
                self.out_builder.last_ts() == ob_a.last_ts(),
                self.framework == fw_p,
                ({
                    let eff = integrator_effects(rest, until1, held1 + sorted.0, actions@.take(a as int), now, durs);
                    &&& self.queue.events() == eff.0
                    &&& self.block_state.until == eff.1
                    &&& self.block_state.buffered@ == eff.2
                }),
            decreases actions@.len() - a,
        {
            let ghost q_b = self.queue.events();
            let ghost u_b = self.block_state.until;
            let ghost h_b = self.block_state.buffered@;
            let ghost mut dur_g: u64 = 0;
            proof {
                assert(actions@.take(a + 1).drop_last() =~= actions@.take(a as int));
                assert(actions@.take(a + 1).last() == actions@[a as int]);
            }
            let action = actions[a];
            let dur: u64 = match &action {
                IntegratorAction::BlockOutgoing(d) => ask_duration(&mut self.rng, &mut self.durations_asked, d),
                _ => 0,
            };
            proof {
                dur_g = dur;
            }
            self.carry_out(action, now, dur);
            proof {
                let d2 = durs.push(dur_g);
                lemma_effects_push(rest, until1, held1 + sorted.0, actions@.take(a as int), durs, action, now, dur_g);
                assert(actions@.take(a + 1) =~= actions@.take(a as int).push(action));
                let eff = integrator_effects(rest, until1, held1 + sorted.0, actions@.take(a + 1), now, d2);
                assert(self.queue.events() == eff.0);
                assert(self.block_state.until == eff.1);
                assert(self.block_state.buffered@ =~= eff.2);
                assert(actions@.take(a + 1).drop_last() =~= actions@.take(a as int));
                assert(d2.drop_last() =~= durs);
                assert(self.durations_asked@ =~= dq0 + block_questions(actions@.take(a + 1), d2));
                durs = d2;
            }
            a = a + 1;
        }
        self.clock = now;
        proof {
            assert(actions@.take(a as int) =~= actions@);
            let o = old(self);
            assert(now == o.earliest()->Some_0);
            assert(pq0 == o.pending_at(now));
            assert(until1 == o.until_at(now));
            assert(held1 == o.held_at(now));
            assert(m == leading_at(pq0, now));
            assert(events_now@ == o.due_at(now));
            assert(rest == o.left_at(now));
            assert(sorted == sort_events(o.due_at(now), o.until_at(now)));
            let out = actions@;
            let eff = integrator_effects(o.left_at(now), o.until_at(now), o.held_at(now) + sorted.0, out, now, durs);
            assert(self.queue.events() == eff.0);
            assert(self.block_state.until == eff.1);
            assert(self.block_state.buffered@ == eff.2);
            assert(dq0 == o.durations_asked());
            assert(self.durations_asked() == o.durations_asked() + block_questions(out, durs));
            assert(processed(o.fw().machine, o.fw().runtime, sorted.1, now, self.framework.runtime, out));
            assert(self.out_builder.recorded() == recorded_after(o.recorded(), o.last_recorded_time(), now, sorted.2));
            assert(old(self).stepped_to(&*self));
        }
        proof {
            if rp {
                assert(trace_prefix(t, k0 + m).len() == k0 + m);
                assert(pq0.skip(m) =~= trace_events(t).skip(k0 + m));
            }
        }
        true
    }

    /// The defended trace recorded by the run, leaving nothing recorded.
    pub fn output(&mut self) -> (r: Trace)
        requires
            old(self).wf(),
        ensures
            final(self).wf(),
            r@ == old(self).recorded(),
            r@.wf(),
            final(self).recorded().len() == 0,
            final(self).trace() == old(self).trace(),
            final(self).fw() == old(self).fw(),
    {
        let mut b = TraceBuilder::new(0);
        std::mem::swap(&mut b, &mut self.out_builder);
        b.build()
    }
}

proof fn lemma_soonest_not_before(rt: crate::framework::MachineRuntime, now: u64)
    requires
        queues_not_before(rt, now),
    ensures
        soonest(rt.queues@, rt.queues@.len() as int) matches Some(t) ==> t >= now,
{
    lemma_soonest_not_before_n(rt, now, rt.queues@.len() as int);
}

proof fn lemma_soonest_not_before_n(rt: crate::framework::MachineRuntime, now: u64, n: int)
    requires
        queues_not_before(rt, now),
        n <= rt.queues@.len(),
    ensures
        soonest(rt.queues@, n) matches Some(t) ==> t >= now,
    decreases n,
{
    if n > 0 {
        lemma_soonest_not_before_n(rt, now, n - 1);
        if rt.queues@[n - 1].items().len() > 0 {
            assert(rt.queues@[n - 1].items()[0].execute_at >= now);
        }
    }
}

} // verus!
