//! What a simulated run does with the trace's packets: every received packet is recorded, and
//! every sent packet too, blocks delaying sends without dropping them and decoys only adding
//! sends.

use vstd::prelude::*;

use crate::action::IntegratorAction;
use crate::framework::{Sampler, count_of};
use crate::sim::{
    Simulator,
    SimulatorEvent,
    block_questions,
    decoy_at,
    extended_events,
    inserted_event,
    integrator_effects,
    leading_at,
    recorded_after,
    retimed,
    sort_events,
    trace_event,
    trace_events_upto,
};
use crate::trace::{Direction, TraceView, event_direction};

verus! {

/// The number of events in `s` that are packets going `d`.
pub open spec fn events_going(s: Seq<SimulatorEvent>, d: Direction) -> nat
    decreases s.len(),
{
    if s.len() == 0 {
        0
    } else {
        events_going(s.drop_last(), d) + if event_direction(s.last().event) == Some(d) {
            1nat
        } else {
            0nat
        }
    }
}

/// One if `e` is a packet going `d`, else zero.
pub open spec fn one_going(e: SimulatorEvent, d: Direction) -> nat {
    if event_direction(e.event) == Some(d) {
        1
    } else {
        0
    }
}

/// The number of packets in `ps` (direction and size) going `d`.
pub open spec fn packets_going(ps: Seq<(Direction, u32)>, d: Direction) -> nat
    decreases ps.len(),
{
    if ps.len() == 0 {
        0
    } else {
        packets_going(ps.drop_last(), d) + if ps.last().0 == d {
            1nat
        } else {
            0nat
        }
    }
}

proof fn lemma_going_concat(a: Seq<SimulatorEvent>, b: Seq<SimulatorEvent>, d: Direction)
    ensures
        events_going(a + b, d) == events_going(a, d) + events_going(b, d),
    decreases b.len(),
{
    if b.len() == 0 {
        assert(a + b =~= a);
    } else {
        lemma_going_concat(a, b.drop_last(), d);
        assert((a + b).drop_last() =~= a + b.drop_last());
    }
}

proof fn lemma_going_inserted(s: Seq<SimulatorEvent>, x: SimulatorEvent, d: Direction)
    ensures
        events_going(inserted_event(s, x), d) == events_going(s, d) + one_going(x, d),
    decreases s.len(),
{
    if s.len() == 0 {
        assert(seq![x].drop_last() =~= Seq::<SimulatorEvent>::empty());
        assert(events_going(Seq::<SimulatorEvent>::empty(), d) == 0);
    } else if s.last().time > x.time {
        lemma_going_inserted(s.drop_last(), x, d);
        let r = inserted_event(s.drop_last(), x);
        assert(r.push(s.last()).drop_last() =~= r);
    } else {
        assert(s.push(x).drop_last() =~= s);
    }
}

proof fn lemma_going_extended(s: Seq<SimulatorEvent>, items: Seq<SimulatorEvent>, d: Direction)
    ensures
        events_going(extended_events(s, items), d) == events_going(s, d) + events_going(items, d),
    decreases items.len(),
{
    if items.len() > 0 {
        lemma_going_extended(s, items.drop_last(), d);
        lemma_going_inserted(extended_events(s, items.drop_last()), items.last(), d);
    }
}

proof fn lemma_going_retimed(h: Seq<SimulatorEvent>, t: u64, d: Direction)
    ensures
        events_going(retimed(h, t), d) == events_going(h, d),
    decreases h.len(),
{
    if h.len() > 0 {
        lemma_going_retimed(h.drop_last(), t, d);
        assert(retimed(h, t).drop_last() =~= retimed(h.drop_last(), t));
    }
}

proof fn lemma_leading_bound(q: Seq<SimulatorEvent>, now: u64)
    ensures
        leading_at(q, now) <= q.len(),
    decreases q.len(),
{
    if q.len() > 0 && q[0].time == now {
        lemma_leading_bound(q.drop_first(), now);
    }
}

proof fn lemma_going_split(s: Seq<SimulatorEvent>, k: int, d: Direction)
    requires
        0 <= k <= s.len(),
    ensures
        events_going(s, d) == events_going(s.take(k), d) + events_going(s.skip(k), d),
{
    assert(s =~= s.take(k) + s.skip(k));
    lemma_going_concat(s.take(k), s.skip(k), d);
}

proof fn lemma_sort_going(events: Seq<SimulatorEvent>, until: Option<u64>, d: Direction)
    ensures
        events_going(events, d) == packets_going(sort_events(events, until).2, d) + events_going(
            sort_events(events, until).0,
            d,
        ),
        until is None ==> sort_events(events, until).0.len() == 0,
    decreases events.len(),
{
    if events.len() > 0 {
        lemma_sort_going(events.drop_last(), until, d);
        let (held, handed, packets) = sort_events(events.drop_last(), until);
        let e = events.last();
        assert(held.push(e).drop_last() =~= held);
        let p = (event_direction(e.event)->Some_0, e.size);
        assert(packets.push(p).drop_last() =~= packets);
    }
}

proof fn lemma_recorded_going(r: TraceView, last: u64, now: u64, ps: Seq<(Direction, u32)>, d: Direction)
    ensures
        count_of(recorded_after(r, last, now, ps).directions, d) == count_of(r.directions, d)
            + packets_going(ps, d),
    decreases ps.len(),
{
    if ps.len() > 0 {
        lemma_recorded_going(r, last, now, ps.drop_last(), d);
        let prev = recorded_after(r, last, now, ps.drop_last());
        assert(prev.directions.push(ps.last().0).drop_last() =~= prev.directions);
    }
}

proof fn lemma_effects_going(
    q: Seq<SimulatorEvent>,
    until: Option<u64>,
    held: Seq<SimulatorEvent>,
    actions: Seq<IntegratorAction>,
    now: u64,
    durs: Seq<u64>,
    d: Direction,
)
    ensures
        ({
            let e = integrator_effects(q, until, held, actions, now, durs);
            &&& events_going(e.0, d) + events_going(e.2, d) >= events_going(q, d) + events_going(held, d)
            &&& d == Direction::Receive ==> events_going(e.0, d) + events_going(e.2, d) == events_going(q, d)
                + events_going(held, d)
            &&& (until is None ==> held.len() == 0) ==> (e.1 is None ==> e.2.len() == 0)
        }),
    decreases actions.len(),
{
    if actions.len() > 0 {
        lemma_effects_going(q, until, held, actions.drop_last(), now, durs.drop_last(), d);
        let (q1, u1, h1) = integrator_effects(q, until, held, actions.drop_last(), now, durs.drop_last());
        match actions.last() {
            IntegratorAction::SendDecoy => {
                lemma_going_inserted(q1, decoy_at(now), d);
            },
            IntegratorAction::BlockOutgoing(_) => {},
            IntegratorAction::ReleaseBlock => {
                lemma_going_extended(q1, retimed(h1, now), d);
                lemma_going_retimed(h1, now, d);
                assert(events_going(Seq::<SimulatorEvent>::empty(), d) == 0);
            },
        }
    }
}

/// The simulated events of the first `k` packets of a trace go as many ways as those packets.
pub proof fn lemma_trace_events_going(t: TraceView, k: int, d: Direction)
    requires
        0 <= k <= t.directions.len(),
    ensures
        events_going(trace_events_upto(t, k), d) == count_of(t.directions.take(k), d),
    decreases k,
{
    if k > 0 {
        lemma_trace_events_going(t, k - 1, d);
        assert(trace_events_upto(t, k).drop_last() =~= trace_events_upto(t, k - 1));
        assert(t.directions.take(k).drop_last() =~= t.directions.take(k - 1));
        assert(trace_events_upto(t, k).last() == trace_event(t, k - 1));
    } else {
        assert(t.directions.take(0) =~= Seq::<Direction>::empty());
    }
}

/// Simulator `sims[i + 1]` is simulator `sims[i]` after one step.
pub open spec fn stepped_at<S: Sampler>(sims: Seq<Simulator<S>>, i: int) -> bool {
    sims[i].stepped_to(&sims[i + 1])
}

impl<S: Sampler> Simulator<S> {
    /// The packets going `d` that the run has recorded, that are pending, or that the block
    /// holds back.
    pub open spec fn accounted(&self, d: Direction) -> nat {
        count_of(self.recorded().directions, d) + events_going(self.pending(), d) + events_going(
            self.block().buffered@,
            d,
        )
    }

    /// Nothing is held back unless a block is in force.
    pub open spec fn block_consistent(&self) -> bool {
        self.block().until is None ==> self.block().buffered@.len() == 0
    }
}

/// One step loses no packet: every packet going either way that was recorded, pending or held
/// back still is, a step adding only decoys sent; and nothing is held back without a block.
pub proof fn lemma_step_keeps_packets<S: Sampler>(old: Simulator<S>, new: Simulator<S>, d: Direction)
    requires
        old.stepped_to(&new),
        old.block_consistent(),
    ensures
        new.block_consistent(),
        new.accounted(d) >= old.accounted(d),
        d == Direction::Receive ==> new.accounted(d) == old.accounted(d),
{
    let now = old.earliest()->Some_0;
    let pa = old.pending_at(now);
    let k = leading_at(pa, now) as int;
    let sorted = sort_events(old.due_at(now), old.until_at(now));
    let held = old.held_at(now) + sorted.0;
    // The block, if due, hands its events back to the pending ones.
    if old.block_due(now) {
        lemma_going_extended(old.pending(), retimed(old.block().buffered@, now), d);
        lemma_going_retimed(old.block().buffered@, now, d);
        assert(old.held_at(now).len() == 0);
    }
    assert(events_going(old.held_at(now), d) + events_going(pa, d) == events_going(old.pending(), d)
        + events_going(old.block().buffered@, d)) by {
        if !old.block_due(now) {
        } else {
            assert(old.held_at(now) =~= Seq::<SimulatorEvent>::empty());
        }
    }
    // The pending events split into those due now and those left.
    lemma_leading_bound(pa, now);
    lemma_going_split(pa, k, d);
    // The due events are recorded or held back.
    lemma_sort_going(old.due_at(now), old.until_at(now), d);
    lemma_going_concat(old.held_at(now), sorted.0, d);
    lemma_recorded_going(old.recorded(), old.last_recorded_time(), now, sorted.2, d);
    assert(old.until_at(now) is None ==> held.len() == 0) by {
        if old.until_at(now) is None {
            assert(old.held_at(now).len() == 0);
            assert(sorted.0.len() == 0);
        }
    }
    let (out, durs) = choose|out: Seq<IntegratorAction>, durs: Seq<u64>|
        #![trigger integrator_effects(old.left_at(now), old.until_at(now), old.held_at(now) + sorted.0, out, now, durs)]
        {
            &&& crate::framework::processed(
                old.fw().machine,
                old.fw().runtime,
                sorted.1,
                now,
                new.fw().runtime,
                out,
            )
            &&& durs.len() == out.len()
            &&& new.durations_asked() == old.durations_asked() + block_questions(out, durs)
            &&& new.pending() == integrator_effects(
                old.left_at(now),
                old.until_at(now),
                old.held_at(now) + sorted.0,
                out,
                now,
                durs,
            ).0
            &&& new.block().until == integrator_effects(
                old.left_at(now),
                old.until_at(now),
                old.held_at(now) + sorted.0,
                out,
                now,
                durs,
            ).1
            &&& new.block().buffered@ == integrator_effects(
                old.left_at(now),
                old.until_at(now),
                old.held_at(now) + sorted.0,
                out,
                now,
                durs,
            ).2
        };
    lemma_effects_going(old.left_at(now), old.until_at(now), held, out, now, durs, d);
}

/// A run keeps every packet of its trace: from a start that accounts for each of the trace's
/// packets with nothing held back, through steps, to the end, when nothing is left to happen,
/// the recorded trace has as many packets received as the trace and at least as many sent.
pub proof fn lemma_run_keeps_packets<S: Sampler>(sims: Seq<Simulator<S>>)
    requires
        sims.len() >= 1,
        sims[0].accounted(Direction::Receive) == count_of(sims[0].trace()@.directions, Direction::Receive),
        sims[0].accounted(Direction::Send) == count_of(sims[0].trace()@.directions, Direction::Send),
        sims[0].block_consistent(),
        forall|i: int| 0 <= i < sims.len() - 1 ==> #[trigger] stepped_at(sims, i),
        sims.last().earliest() is None,
    ensures
        count_of(sims.last().recorded().directions, Direction::Receive) == count_of(
            sims[0].trace()@.directions,
            Direction::Receive,
        ),
        count_of(sims.last().recorded().directions, Direction::Send) >= count_of(
            sims[0].trace()@.directions,
            Direction::Send,
        ),
    decreases sims.len(),
{
    if sims.len() == 1 {
        lemma_finished_accounted(sims[0], Direction::Receive);
        lemma_finished_accounted(sims[0], Direction::Send);
    } else {
        let rest = sims.drop_last();
        let n = sims.len() - 1;
        lemma_run_prefix(sims, n);
        let last = sims[n];
        let prev = sims[n - 1];
        assert(stepped_at(sims, n - 1));
        lemma_step_keeps_packets(prev, last, Direction::Receive);
        lemma_step_keeps_packets(prev, last, Direction::Send);
        lemma_finished_accounted(last, Direction::Receive);
        lemma_finished_accounted(last, Direction::Send);
        assert(last.trace() == sims[0].trace());
    }
}

proof fn lemma_run_prefix<S: Sampler>(sims: Seq<Simulator<S>>, n: int)
    requires
        1 <= n < sims.len(),
        sims[0].block_consistent(),
        forall|i: int| 0 <= i < sims.len() - 1 ==> #[trigger] stepped_at(sims, i),
    ensures
        sims[n - 1].block_consistent(),
        sims[n - 1].trace() == sims[0].trace(),
        sims[n - 1].accounted(Direction::Receive) == sims[0].accounted(Direction::Receive),
        sims[n - 1].accounted(Direction::Send) >= sims[0].accounted(Direction::Send),
    decreases n,
{
    if n > 1 {
        lemma_run_prefix(sims, n - 1);
        assert(stepped_at(sims, n - 2));
        lemma_step_keeps_packets(sims[n - 2], sims[n - 1], Direction::Receive);
        lemma_step_keeps_packets(sims[n - 2], sims[n - 1], Direction::Send);
    }
}

proof fn lemma_finished_accounted<S: Sampler>(s: Simulator<S>, d: Direction)
    requires
        s.earliest() is None,
        s.block_consistent(),
    ensures
        count_of(s.recorded().directions, d) == s.accounted(d),
{
    assert(s.pending().len() == 0);
    assert(s.block().buffered@.len() == 0);
}

} // verus!
