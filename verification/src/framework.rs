//! The [`Framework`]: runs a [`Machine`] on a stream of events, keeping its runtime state (the
//! current state, the timed queues, deferred events and decoy budgets) in a [`MachineRuntime`].
//!
//! Times are microseconds on the integrator's clock. Everything random or computed in floating
//! point (which transition fires, how long a delay is, how many decoys a proportional budget
//! allows) is asked of a [`Sampler`].

use vstd::prelude::*;

use crate::action::{Action, Distr, FrameworkAction, IntegratorAction};
use crate::event::{Event, spec_is_deferred};
use crate::machine::{
    Machine,
    MachineDecoyBudget,
    State,
    Transition,
    TransitionProbs,
    action_in_range,
    state_in_range,
};
use crate::queue::{QueuePushStatus, Timed, TimedAction, TimedQueue, inserted_by_time};

verus! {

/// The source of a framework's random and floating-point decisions, for its users to implement
/// (with a random number generator, for one). Nothing is assumed of its answers: the framework's
/// contracts hold whatever it answers. The framework notes each question it asks and the answer
/// (see [`MachineRuntime::transitions_asked`]), its contracts state that those are the answers it
/// acts on, and [`Framework::apply_event`] and [`Framework::perform_action_at`] state what one
/// answer leads to.
pub trait Sampler {
    /// A delay drawn from `delay`, in microseconds.
    fn sample_delay(&mut self, delay: &Distr) -> u64;

    /// Which of the transitions fires (its position among them), if any. Each transition has its
    /// probability, and at most one fires.
    fn choose_transition(&mut self, transitions: &Vec<Transition>) -> Option<usize>;

    /// How many decoys a proportional budget (`f64` bits) allows after `real_sent` real packets:
    /// the proportion times `real_sent`, rounded up.
    fn allowed_decoys(&mut self, proportion: u64, real_sent: usize) -> usize;
}

/// The runtime state of a [`Machine`].
pub struct MachineRuntime {
    /// Index of the current state.
    pub state: usize,
    /// The timed queues, one for each of the machine's queue capacities.
    pub queues: Vec<TimedQueue<TimedAction>>,
    /// Events emitted by the framework, handled before the events of the next processing round.
    pub deferred_events: Vec<Event>,
    /// The remaining decoy budget of the current state.
    pub current_state_budget: Option<usize>,
    /// Whether the initial state's actions have been taken.
    pub initialised: bool,
    /// Total decoy packets sent.
    pub decoys_sent: usize,
    /// Total real packets sent.
    pub real_sent: usize,
    /// Whether a proportional budget has currently been reached.
    pub proportion_blocked: bool,
    /// The transitions the sampler was asked to choose among, each with its answer, in order.
    pub transitions_asked: Ghost<Seq<(Seq<Transition>, Option<usize>)>>,
    /// The proportional budgets (`f64` bits) and real packet counts the sampler was asked for
    /// an allowance of decoys, each with its answer, in order.
    pub allowances_asked: Ghost<Seq<(u64, usize, usize)>>,
    /// The distributions the sampler was asked to draw a delay from, each with its answer, in
    /// order.
    pub delays_asked: Ghost<Seq<(Distr, u64)>>,
}

/// `new` has noted the same questions to the sampler as `old`.
pub open spec fn questions_kept(old: MachineRuntime, new: MachineRuntime) -> bool {
    &&& new.transitions_asked@ == old.transitions_asked@
    &&& new.allowances_asked@ == old.allowances_asked@
    &&& new.delays_asked@ == old.delays_asked@
}

/// The number of times `x` occurs in `s`.
pub open spec fn count_of<T>(s: Seq<T>, x: T) -> nat
    decreases s.len(),
{
    if s.len() == 0 {
        0
    } else {
        count_of(s.drop_last(), x) + if s.last() == x {
            1nat
        } else {
            0nat
        }
    }
}

/// `a + n`, or `usize::MAX` if that is larger.
pub open spec fn saturating_add(a: usize, n: nat) -> usize {
    if a + n > usize::MAX {
        usize::MAX
    } else {
        (a + n) as usize
    }
}

/// Every event in `s` is one the framework emits deferred.
pub open spec fn all_deferred(s: Seq<Event>) -> bool {
    forall|i: int| 0 <= i < s.len() ==> spec_is_deferred(#[trigger] s[i])
}

/// Every framework action in `s` acts on one of the first `nq` queues.
pub open spec fn all_in_range(s: Seq<Action>, nq: nat) -> bool {
    forall|i: int| 0 <= i < s.len() ==> action_in_range(#[trigger] s[i], nq)
}

/// Every queued action executes at `now` or later.
pub open spec fn queues_not_before(rt: MachineRuntime, now: u64) -> bool {
    forall|q: int, i: int|
        #![trigger rt.queues@[q].items()[i]]
        0 <= q < rt.queues@.len() && 0 <= i < rt.queues@[q].items().len() ==> rt.queues@[q].items()[i].execute_at
            >= now
}

/// No queue holds a scheduled action.
pub open spec fn queues_idle(rt: MachineRuntime) -> bool {
    forall|q: int| 0 <= q < rt.queues@.len() ==> (#[trigger] rt.queues@[q]).items().len() == 0
}

/// The runtime fits the machine: its state is one of the machine's, it has one queue for each
/// capacity of the machine, with that capacity, and every queued framework action acts on one of
/// the queues.
pub open spec fn runtime_fits(rt: MachineRuntime, m: Machine) -> bool {
    &&& rt.state < m.states().len()
    &&& rt.queues@.len() == m.queues().len()
    &&& forall|q: int| 0 <= q < rt.queues@.len() ==> #[trigger] rt.queues@[q].capacity() == m.queues()[q]
    &&& forall|q: int, i: int|
        #![trigger rt.queues@[q].items()[i]]
        0 <= q < rt.queues@.len() && 0 <= i < rt.queues@[q].items().len() ==> action_in_range(
            rt.queues@[q].items()[i].action,
            m.queues().len(),
        )
}

/// What applying the decoy budgets to an integrator action gives: whether the action goes ahead,
/// the decoys sent, whether a proportional budget is reached, the state budget, and the events
/// emitted. `allowed` is the number of decoys a proportional budget allows; it matters only for a
/// decoy under a proportional budget once a real packet has been sent. The machine budget is
/// checked before the state budget.
pub open spec fn budget_step(
    rt: MachineRuntime,
    budget: Option<MachineDecoyBudget>,
    action: IntegratorAction,
    allowed: usize,
) -> (bool, usize, bool, Option<usize>, Seq<Event>) {
    let d = rt.decoys_sent;
    let blocked = rt.proportion_blocked;
    if action != IntegratorAction::SendDecoy {
        (true, d, blocked, rt.current_state_budget, Seq::empty())
    } else {
        let (pass, blocked1, ev1) = match budget {
            Some(MachineDecoyBudget::Absolute(max)) => if d >= max {
                (false, blocked, Seq::<Event>::empty())
            } else if d + 1 == max {
                (true, blocked, seq![Event::MachineBudgetExhausted])
            } else {
                (true, blocked, Seq::<Event>::empty())
            },
            Some(MachineDecoyBudget::Proportion(_)) => if rt.real_sent == 0 || d >= allowed {
                if !blocked {
                    (false, true, seq![Event::MachineBudgetReached])
                } else {
                    (false, blocked, Seq::<Event>::empty())
                }
            } else if d + 1 == allowed {
                (true, true, seq![Event::MachineBudgetReached])
            } else {
                (true, blocked, Seq::<Event>::empty())
            },
            None => (true, blocked, Seq::<Event>::empty()),
        };
        if !pass {
            (false, d, blocked1, rt.current_state_budget, ev1)
        } else {
            match rt.current_state_budget {
                Some(b) => if b == 0 {
                    (false, d, blocked1, Some(0usize), ev1)
                } else {
                    (
                        true,
                        saturating_add(d, 1),
                        blocked1,
                        Some((b - 1) as usize),
                        ev1 + if b == 1 {
                            seq![Event::StateBudgetExhausted]
                        } else {
                            Seq::<Event>::empty()
                        },
                    )
                },
                None => (true, saturating_add(d, 1), blocked1, None, ev1),
            }
        }
    }
}

/// `new` is `old` after applying the decoy budgets to `action` with `allowed` decoys allowed,
/// which gave `ok`.
pub open spec fn budget_applied(
    old: MachineRuntime,
    new: MachineRuntime,
    budget: Option<MachineDecoyBudget>,
    action: IntegratorAction,
    allowed: usize,
    ok: bool,
) -> bool {
    let (pass, d, blocked, sb, evs) = budget_step(old, budget, action, allowed);
    &&& ok == pass
    &&& new.decoys_sent == d
    &&& new.proportion_blocked == blocked
    &&& new.current_state_budget == sb
    &&& new.deferred_events@ == old.deferred_events@ + evs
    &&& new.state == old.state
    &&& new.queues == old.queues
    &&& new.initialised == old.initialised
    &&& new.real_sent == old.real_sent
}

/// Under an absolute machine budget of `max` decoys, a decoy is let through only while fewer
/// than `max` have been sent, and [`Event::MachineBudgetExhausted`] is deferred exactly when the
/// decoy is the `max`-th: when `old.decoys_sent + 1 == max`.
pub proof fn lemma_absolute_budget(
    old: MachineRuntime,
    new: MachineRuntime,
    max: usize,
    allowed: usize,
    ok: bool,
)
    requires
        budget_applied(
            old,
            new,
            Some(MachineDecoyBudget::Absolute(max)),
            IntegratorAction::SendDecoy,
            allowed,
            ok,
        ),
    ensures
        old.deferred_events@.is_prefix_of(new.deferred_events@),
        new.deferred_events@.skip(old.deferred_events@.len() as int).contains(
            Event::MachineBudgetExhausted,
        ) <==> old.decoys_sent + 1 == max,
        ok ==> old.decoys_sent < max && new.decoys_sent == old.decoys_sent + 1,
        !ok ==> new.decoys_sent == old.decoys_sent,
{
    let evs = budget_step(old, Some(MachineDecoyBudget::Absolute(max)), IntegratorAction::SendDecoy, allowed).4;
    let added = new.deferred_events@.skip(old.deferred_events@.len() as int);
    assert(added =~= evs);
    if old.decoys_sent + 1 == max {
        assert(evs[0] == Event::MachineBudgetExhausted);
    } else {
        assert forall|i: int| 0 <= i < evs.len() implies evs[i] != Event::MachineBudgetExhausted by {}
    }
}

/// The decoy budgets: only a decoy counts against them. A decoy is let through only if the
/// machine budget allows it (under a proportional budget: once a real packet has been sent, and
/// while fewer than `allowed` decoys have been sent) and the state budget is not spent; then it
/// counts one decoy and uses one of the state's budget, deferring
/// [`Event::StateBudgetExhausted`] when that was the last. A proportional budget defers
/// [`Event::MachineBudgetReached`] when it refuses a decoy without having been reached before,
/// or lets through the `allowed`-th decoy, and is then reached.
pub proof fn lemma_budget_rules(
    old: MachineRuntime,
    new: MachineRuntime,
    budget: Option<MachineDecoyBudget>,
    action: IntegratorAction,
    allowed: usize,
    ok: bool,
)
    requires
        budget_applied(old, new, budget, action, allowed, ok),
    ensures
        old.deferred_events@.is_prefix_of(new.deferred_events@),
        new.state == old.state,
        new.queues == old.queues,
        new.real_sent == old.real_sent,
        action != IntegratorAction::SendDecoy ==> {
            &&& ok
            &&& new.decoys_sent == old.decoys_sent
            &&& new.current_state_budget == old.current_state_budget
            &&& new.proportion_blocked == old.proportion_blocked
            &&& new.deferred_events@ == old.deferred_events@
        },
        action == IntegratorAction::SendDecoy ==> {
            let added = new.deferred_events@.skip(old.deferred_events@.len() as int);
            let machine_ok = match budget {
                Some(MachineDecoyBudget::Absolute(max)) => old.decoys_sent < max,
                Some(MachineDecoyBudget::Proportion(_)) => old.real_sent != 0 && old.decoys_sent < allowed,
                None => true,
            };
            &&& ok == (machine_ok && old.current_state_budget != Some(0usize))
            &&& new.decoys_sent == if ok {
                saturating_add(old.decoys_sent, 1)
            } else {
                old.decoys_sent
            }
            &&& new.current_state_budget == match old.current_state_budget {
                Some(b) => if ok {
                    Some((b - 1) as usize)
                } else {
                    Some(b)
                },
                None => None,
            }
            &&& (added.contains(Event::StateBudgetExhausted) <==> ok && old.current_state_budget == Some(
                1usize,
            ))
            &&& budget matches Some(MachineDecoyBudget::Proportion(_)) ==> {
                &&& (added.contains(Event::MachineBudgetReached) <==> (!machine_ok
                    && !old.proportion_blocked) || (machine_ok && old.decoys_sent + 1 == allowed))
                &&& new.proportion_blocked == (old.proportion_blocked || !machine_ok || old.decoys_sent + 1
                    == allowed)
            }
        },
{
    let (pass, d, blocked, sb, evs) = budget_step(old, budget, action, allowed);
    let added = new.deferred_events@.skip(old.deferred_events@.len() as int);
    assert(added =~= evs);
    if action == IntegratorAction::SendDecoy {
        let (mpass, blocked1, ev1) = match budget {
            Some(MachineDecoyBudget::Absolute(max)) => if old.decoys_sent >= max {
                (false, old.proportion_blocked, Seq::<Event>::empty())
            } else if old.decoys_sent + 1 == max {
                (true, old.proportion_blocked, seq![Event::MachineBudgetExhausted])
            } else {
                (true, old.proportion_blocked, Seq::<Event>::empty())
            },
            Some(MachineDecoyBudget::Proportion(_)) => if old.real_sent == 0 || old.decoys_sent >= allowed {
                if !old.proportion_blocked {
                    (false, true, seq![Event::MachineBudgetReached])
                } else {
                    (false, old.proportion_blocked, Seq::<Event>::empty())
                }
            } else if old.decoys_sent + 1 == allowed {
                (true, true, seq![Event::MachineBudgetReached])
            } else {
                (true, old.proportion_blocked, Seq::<Event>::empty())
            },
            None => (true, old.proportion_blocked, Seq::<Event>::empty()),
        };
        assert(!ev1.contains(Event::StateBudgetExhausted));
        if ev1.len() > 0 {
            assert(ev1.contains(ev1[0]));
        }
        assert forall|e: Event| ev1.contains(e) implies e == ev1[0] && ev1.len() == 1 by {}
        if mpass && old.current_state_budget == Some(1usize) {
            assert(evs == ev1 + seq![Event::StateBudgetExhausted]);
            assert(evs[evs.len() - 1] == Event::StateBudgetExhausted);
        } else {
            assert(evs == ev1 || evs == ev1 + Seq::<Event>::empty());
            assert(evs =~= ev1);
        }
        assert(added.contains(Event::MachineBudgetReached) <==> ev1.contains(Event::MachineBudgetReached)) by {
            if added.contains(Event::MachineBudgetReached) {
                let i = choose|i: int| 0 <= i < added.len() && added[i] == Event::MachineBudgetReached;
                if i < ev1.len() {
                    assert(ev1[i] == Event::MachineBudgetReached);
                }
            }
            if ev1.contains(Event::MachineBudgetReached) {
                let i = choose|i: int| 0 <= i < ev1.len() && ev1[i] == Event::MachineBudgetReached;
                assert(added[i] == Event::MachineBudgetReached);
            }
        }
    }
}

/// The actions popped from the queues, tagged with their queue index, queue by queue: what the
/// first `n` queues of `olds` held beyond what they hold in `news`.
pub open spec fn popped_actions(
    olds: Seq<TimedQueue<TimedAction>>,
    news: Seq<TimedQueue<TimedAction>>,
    n: int,
) -> Seq<(u8, Action)>
    decreases n,
{
    if n <= 0 {
        Seq::empty()
    } else {
        popped_actions(olds, news, n - 1) + olds[n - 1].items().take(
            olds[n - 1].items().len() - news[n - 1].items().len(),
        ).map_values(|t: TimedAction| ((n - 1) as u8, t.action))
    }
}

/// The soonest execution time among the first items of the first `n` queues.
pub open spec fn soonest(qs: Seq<TimedQueue<TimedAction>>, n: int) -> Option<u64>
    decreases n,
{
    if n <= 0 {
        None
    } else {
        let rest = soonest(qs, n - 1);
        let q = qs[n - 1];
        if q.items().len() == 0 {
            rest
        } else {
            let t = q.items()[0].execute_at;
            match rest {
                None => Some(t),
                Some(r) => Some(if t < r {
                    t
                } else {
                    r
                }),
            }
        }
    }
}

impl MachineRuntime {
    /// A runtime for the machine: in the initial state, with empty queues of the machine's
    /// capacities, no deferred events, the initial state's decoy budget, and nothing sent.
    pub fn new(machine: &Machine) -> (r: Self)
        ensures
            r.state == 0,
            r.queues@.len() == machine.queues().len(),
            forall|q: int|
                0 <= q < r.queues@.len() ==> #[trigger] r.queues@[q].capacity() == machine.queues()[q],
            forall|q: int| 0 <= q < r.queues@.len() ==> #[trigger] r.queues@[q].items().len() == 0,
            r.deferred_events@ == Seq::<Event>::empty(),
            r.current_state_budget == machine.states()[0].decoy_budget,
            !r.initialised,
            r.decoys_sent == 0,
            r.real_sent == 0,
            !r.proportion_blocked,
            r.transitions_asked@ == Seq::<(Seq<Transition>, Option<usize>)>::empty(),
            r.allowances_asked@ == Seq::<(u64, usize, usize)>::empty(),
            r.delays_asked@ == Seq::<(Distr, u64)>::empty(),
    {
        let caps = machine.queue_capacities();
        let mut queues: Vec<TimedQueue<TimedAction>> = Vec::new();
        let mut i: usize = 0;
        while i < caps.len()
            invariant
                i <= caps@.len(),
                queues@.len() == i,
                forall|q: int| 0 <= q < i ==> #[trigger] queues@[q].capacity() == caps@[q],
                forall|q: int| 0 <= q < i ==> #[trigger] queues@[q].items().len() == 0,
            decreases caps@.len() - i,
        {
            let fresh = TimedQueue::new(caps[i]);
            assert(fresh.items().len() == 0);
            queues.push(fresh);
            assert(queues@[i as int].items().len() == 0);
            i = i + 1;
        }
        let n = machine.num_states();
        MachineRuntime {
            state: 0,
            queues,
            deferred_events: Vec::new(),
            current_state_budget: machine.state(0).decoy_budget,
            initialised: false,
            decoys_sent: 0,
            real_sent: 0,
            proportion_blocked: false,
            transitions_asked: Ghost(Seq::empty()),
            allowances_asked: Ghost(Seq::empty()),
            delays_asked: Ghost(Seq::empty()),
        }
    }

    /// Applies the decoy budgets to an integrator action, returning `false` if it should be
    /// suppressed. Only a decoy counts against the budgets; the machine budget takes precedence
    /// over the state budget. `allowed` is the number of decoys a proportional budget allows now.
    pub fn apply_budget(
        &mut self,
        budget: Option<MachineDecoyBudget>,
        action: IntegratorAction,
        allowed: usize,
    ) -> (r: bool)
        ensures
            budget_applied(*old(self), *final(self), budget, action, allowed, r),
            questions_kept(*old(self), *final(self)),
    {
        if action == IntegratorAction::SendDecoy {
            match budget {
                Some(MachineDecoyBudget::Absolute(max)) => {
                    if self.decoys_sent >= max {
                        assert(self.deferred_events@ =~= old(self).deferred_events@ + Seq::<Event>::empty());
                        return false;
                    }
                    if self.decoys_sent + 1 == max {
                        self.deferred_events.push(Event::MachineBudgetExhausted);
                    }
                },
                Some(MachineDecoyBudget::Proportion(_)) => {
                    if self.real_sent == 0 || self.decoys_sent >= allowed {
                        if !self.proportion_blocked {
                            self.deferred_events.push(Event::MachineBudgetReached);
                            self.proportion_blocked = true;
                        }
                        proof {
                            let evs = budget_step(*old(self), budget, action, allowed).4;
                            assert(self.deferred_events@ =~= old(self).deferred_events@ + evs);
                        }
                        return false;
                    }
                    if self.decoys_sent + 1 == allowed {
                        self.deferred_events.push(Event::MachineBudgetReached);
                        self.proportion_blocked = true;
                    }
                },
                None => {},
            }
            match self.current_state_budget {
                Some(b) => {
                    if b == 0 {
                        proof {
                            let evs = budget_step(*old(self), budget, action, allowed).4;
                            assert(self.deferred_events@ =~= old(self).deferred_events@ + evs);
                        }
                        return false;
                    }
                    self.current_state_budget = Some(b - 1);
                    if b == 1 {
                        self.deferred_events.push(Event::StateBudgetExhausted);
                    }
                },
                None => {},
            }
            if self.decoys_sent < usize::MAX {
                self.decoys_sent = self.decoys_sent + 1;
            }
        }
        proof {
            let evs = budget_step(*old(self), budget, action, allowed).4;
            assert(self.deferred_events@ =~= old(self).deferred_events@ + evs);
        }
        true
    }

    /// Pops, queue by queue, every action that is ready at `now`, tagged with its queue index.
    pub fn pop_queues(&mut self, now: u64) -> (r: Vec<(u8, Action)>)
        requires
            old(self).queues@.len() <= 256,
        ensures
            questions_kept(*old(self), *final(self)),
            final(self).queues@.len() == old(self).queues@.len(),
            forall|q: int|
                0 <= q < old(self).queues@.len() ==> {
                    let o = #[trigger] old(self).queues@[q];
                    let n = final(self).queues@[q];
                    let k = o.items().len() - n.items().len();
                    &&& n.capacity() == o.capacity()
                    &&& o.items() == o.items().take(k) + n.items()
                    &&& forall|i: int| 0 <= i < k ==> #[trigger] o.items()[i].spec_ready(now)
                    &&& n.items().len() > 0 ==> !n.items()[0].spec_ready(now)
                    &&& crate::queue::sorted_by_time(n.items())
                },
            r@ == popped_actions(old(self).queues@, final(self).queues@, old(self).queues@.len() as int),
            final(self).state == old(self).state,
            final(self).deferred_events == old(self).deferred_events,
            final(self).current_state_budget == old(self).current_state_budget,
            final(self).initialised == old(self).initialised,
            final(self).decoys_sent == old(self).decoys_sent,
            final(self).real_sent == old(self).real_sent,
            final(self).proportion_blocked == old(self).proportion_blocked,
    {
        let ghost olds = self.queues@;
        let mut out: Vec<(u8, Action)> = Vec::new();
        let mut queues: Vec<TimedQueue<TimedAction>> = Vec::new();
        std::mem::swap(&mut queues, &mut self.queues);
        let mut done: Vec<TimedQueue<TimedAction>> = Vec::new();
        let n = queues.len();
        let mut idx: usize = 0;
        while idx < n
            invariant
                idx <= n,
                n == olds.len(),
                n <= 256,
                queues@ == olds.skip(idx as int),
                done@.len() == idx,
                forall|q: int|
                    0 <= q < idx ==> {
                        let o = #[trigger] olds[q];
                        let m = done@[q];
                        let k = o.items().len() - m.items().len();
                        &&& m.capacity() == o.capacity()
                        &&& o.items() == o.items().take(k) + m.items()
                        &&& forall|i: int| 0 <= i < k ==> #[trigger] o.items()[i].spec_ready(now)
                        &&& m.items().len() > 0 ==> !m.items()[0].spec_ready(now)
                        &&& crate::queue::sorted_by_time(m.items())
                    },
                out@ == popped_actions(olds, done@, idx as int),
            decreases n - idx,
        {
            let mut q = queues.remove(0);
            let ghost oq = q;
            assert(oq == olds[idx as int]);
            let popped = q.pop_ready(now);
            let ghost before = out@;
            let mut j: usize = 0;
            while j < popped.len()
                invariant
                    j <= popped@.len(),
                    idx < 256,
                    out@ == before + popped@.take(j as int).map_values(
                        |t: TimedAction| (idx as u8, t.action),
                    ),
                decreases popped@.len() - j,
            {
                out.push((idx as u8, popped[j].action));
                j = j + 1;
                assert(out@ =~= before + popped@.take(j as int).map_values(
                    |t: TimedAction| (idx as u8, t.action),
                ));
            }
            assert(popped@.take(j as int) =~= popped@);
            let ghost old_done = done@;
            done.push(q);
            proof {
                assert(done@.drop_last() =~= old_done);
                let k = oq.items().len() - q.items().len();
                assert(popped@ =~= oq.items().take(k));
                assert(queues@ =~= olds.skip(idx + 1));
                let next = idx + 1;
                lemma_popped_prefix(olds, done@, done@.drop_last(), idx as int);
                assert(done@[idx as int] == q);
                let tail = olds[idx as int].items().take(
                    olds[idx as int].items().len() - done@[idx as int].items().len(),
                ).map_values(|t: TimedAction| (((next as int) - 1) as u8, t.action));
                assert(tail =~= popped@.map_values(|t: TimedAction| (idx as u8, t.action)));
                assert(popped_actions(olds, done@, next as int) =~= popped_actions(
                    olds,
                    done@,
                    idx as int,
                ) + popped@.map_values(|t: TimedAction| (idx as u8, t.action)));
            }
            idx = idx + 1;
        }
        self.queues = done;
        out
    }

    /// The soonest execution time among the queued actions, if any.
    pub fn peek_soonest_scheduled_instant(&self) -> (r: Option<u64>)
        ensures
            r == soonest(self.queues@, self.queues@.len() as int),
    {
        let mut best: Option<u64> = None;
        let mut i: usize = 0;
        while i < self.queues.len()
            invariant
                i <= self.queues@.len(),
                best == soonest(self.queues@, i as int),
            decreases self.queues@.len() - i,
        {
            match self.queues[i].peek_soonest_instant() {
                None => {},
                Some(t) => {
                    best = match best {
                        None => Some(t),
                        Some(b) => Some(
                            if t < b {
                                t
                            } else {
                                b
                            },
                        ),
                    };
                },
            }
            i = i + 1;
        }
        best
    }

    /// Pushes `t` onto queue `queue`, deferring a [`Event::QueuePushed`] or
    /// [`Event::QueueFilled`] event, or a [`Event::QueueFull`] event if the queue was at capacity.
    pub fn schedule(&mut self, queue: u8, t: TimedAction)
        requires
            (queue as int) < old(self).queues@.len(),
        ensures
            scheduled(*old(self), *final(self), queue, t),
            questions_kept(*old(self), *final(self)),
    {
        let qi = queue as usize;
        let mut queues: Vec<TimedQueue<TimedAction>> = Vec::new();
        std::mem::swap(&mut queues, &mut self.queues);
        let ghost olds = queues@;
        let mut target = queues.remove(qi);
        let status = target.push(t);
        queues.insert(qi, target);
        assert forall|i: int| 0 <= i < olds.len() && i != qi implies #[trigger] queues@[i] == olds[i] by {}
        self.queues = queues;
        let ev = match status {
            QueuePushStatus::Pushed => Event::QueuePushed(queue),
            QueuePushStatus::PushedButFull => Event::QueueFilled(queue),
            QueuePushStatus::Full => Event::QueueFull(queue),
        };
        self.deferred_events.push(ev);
    }

    /// Cancels every action on queue `queue`.
    pub fn cancel_queue(&mut self, queue: u8)
        requires
            (queue as int) < old(self).queues@.len(),
        ensures
            queue_cancelled(*old(self), *final(self), queue as int),
            questions_kept(*old(self), *final(self)),
    {
        let qi = queue as usize;
        let mut queues: Vec<TimedQueue<TimedAction>> = Vec::new();
        std::mem::swap(&mut queues, &mut self.queues);
        let ghost olds = queues@;
        let mut target = queues.remove(qi);
        target.cancel();
        queues.insert(qi, target);
        assert forall|i: int| 0 <= i < olds.len() && i != qi implies #[trigger] queues@[i] == olds[i] by {}
        self.queues = queues;
    }

    /// Cancels every action on every queue.
    pub fn cancel_all(&mut self)
        ensures
            all_cancelled(*old(self), *final(self)),
            questions_kept(*old(self), *final(self)),
    {
        let mut queues: Vec<TimedQueue<TimedAction>> = Vec::new();
        std::mem::swap(&mut queues, &mut self.queues);
        let ghost olds = queues@;
        let n = queues.len();
        let mut done: Vec<TimedQueue<TimedAction>> = Vec::new();
        let mut i: usize = 0;
        while i < n
            invariant
                i <= n,
                n == olds.len(),
                queues@ == olds.skip(i as int),
                done@.len() == i,
                forall|q: int| 0 <= q < i ==> #[trigger] done@[q].items() == Seq::<TimedAction>::empty(),
                forall|q: int| 0 <= q < i ==> #[trigger] done@[q].capacity() == olds[q].capacity(),
            decreases n - i,
        {
            let mut target = queues.remove(0);
            assert(target == olds[i as int]);
            target.cancel();
            done.push(target);
            i = i + 1;
            assert(queues@ =~= olds.skip(i as int));
        }
        self.queues = done;
    }

    /// Returns the number of decoy packets sent.
    pub fn get_decoys_sent(&self) -> (r: usize)
        ensures
            r == self.decoys_sent,
    {
        self.decoys_sent
    }

    /// Returns the number of real packets sent.
    pub fn get_real_sent(&self) -> (r: usize)
        ensures
            r == self.real_sent,
    {
        self.real_sent
    }
}


/// `new` is `old` with `t` pushed onto queue `q` (or not, if the queue was at capacity), and a
/// deferred event for how the push went; everything else is unchanged.
pub open spec fn scheduled(old: MachineRuntime, new: MachineRuntime, queue: u8, t: TimedAction) -> bool {
    let q = queue as int;
    let o = old.queues@[q];
    let n = new.queues@[q];
    &&& 0 <= q < old.queues@.len()
    &&& new.queues@.len() == old.queues@.len()
    &&& forall|i: int| 0 <= i < old.queues@.len() && i != q ==> #[trigger] new.queues@[i] == old.queues@[i]
    &&& n.capacity() == o.capacity()
    &&& if o.capacity() matches Some(c) && o.items().len() >= c {
        &&& n.items() == o.items()
        &&& new.deferred_events@ == old.deferred_events@.push(Event::QueueFull(queue))
    } else {
        &&& inserted_by_time(o.items(), n.items(), t)
        &&& new.deferred_events@ == old.deferred_events@.push(
            if o.capacity() matches Some(c) && n.items().len() == c {
                Event::QueueFilled(queue)
            } else {
                Event::QueuePushed(queue)
            },
        )
    }
    &&& new.state == old.state
    &&& new.current_state_budget == old.current_state_budget
    &&& new.initialised == old.initialised
    &&& new.decoys_sent == old.decoys_sent
    &&& new.real_sent == old.real_sent
    &&& new.proportion_blocked == old.proportion_blocked
}

/// `new` is `old` with queue `q` emptied; everything else is unchanged.
pub open spec fn queue_cancelled(old: MachineRuntime, new: MachineRuntime, q: int) -> bool {
    &&& 0 <= q < old.queues@.len()
    &&& new.queues@.len() == old.queues@.len()
    &&& new.queues@[q].items() == Seq::<TimedAction>::empty()
    &&& new.queues@[q].capacity() == old.queues@[q].capacity()
    &&& forall|i: int| 0 <= i < old.queues@.len() && i != q ==> #[trigger] new.queues@[i] == old.queues@[i]
    &&& new.deferred_events == old.deferred_events
    &&& new.state == old.state
    &&& new.current_state_budget == old.current_state_budget
    &&& new.initialised == old.initialised
    &&& new.decoys_sent == old.decoys_sent
    &&& new.real_sent == old.real_sent
    &&& new.proportion_blocked == old.proportion_blocked
}

/// `new` is `old` with every queue emptied; everything else is unchanged.
pub open spec fn all_cancelled(old: MachineRuntime, new: MachineRuntime) -> bool {
    &&& new.queues@.len() == old.queues@.len()
    &&& forall|i: int| 0 <= i < old.queues@.len() ==> #[trigger] new.queues@[i].items() == Seq::<TimedAction>::empty()
    &&& forall|i: int| 0 <= i < old.queues@.len() ==> #[trigger] new.queues@[i].capacity() == old.queues@[i].capacity()
    &&& new.deferred_events == old.deferred_events
    &&& new.state == old.state
    &&& new.current_state_budget == old.current_state_budget
    &&& new.initialised == old.initialised
    &&& new.decoys_sent == old.decoys_sent
    &&& new.real_sent == old.real_sent
    &&& new.proportion_blocked == old.proportion_blocked
}

/// `new` is `old` after the framework action at time `now`: a scheduled action is pushed (at a
/// `now + d`, or the last representable time if that is later.
pub open spec fn time_after(now: u64, d: u64) -> u64 {
    if d <= u64::MAX - now {
        (now + d) as u64
    } else {
        u64::MAX
    }
}

/// `new` is `old` after the framework action at `now`, a scheduled action being delayed by
/// `delay` microseconds: it is pushed onto its queue to execute at `now + delay`, or a queue, or
/// every queue, is emptied.
pub open spec fn framework_action_applied(
    old: MachineRuntime,
    new: MachineRuntime,
    action: FrameworkAction,
    now: u64,
    delay: u64,
) -> bool {
    match action {
        FrameworkAction::Schedule { action: a, queue, .. } => scheduled(
            old,
            new,
            queue,
            TimedAction { execute_at: time_after(now, delay), action: Action::Integrator(a) },
        ),
        FrameworkAction::CancelQueue(queue) => queue_cancelled(old, new, queue as int),
        FrameworkAction::CancelAll => all_cancelled(old, new),
    }
}

/// `new` is `old` after the framework action at `now`, a scheduled action being delayed by the
/// delay the sampler drew, which `new` notes with its question.
pub open spec fn framework_action_done(
    old: MachineRuntime,
    new: MachineRuntime,
    action: FrameworkAction,
    now: u64,
) -> bool {
    &&& new.transitions_asked@ == old.transitions_asked@
    &&& new.allowances_asked@ == old.allowances_asked@
    &&& exists|delay: u64|
        {
            &&& #[trigger] framework_action_applied(old, new, action, now, delay)
            &&& new.delays_asked@ == old.delays_asked@ + delay_question(action, delay)
        }
}

/// The state that the transitions `tp` lead to on `event` when the sampler picks position `pick`
/// among the transitions for the event; none if there are none for it or none is picked.
pub open spec fn transition_target(tp: Option<TransitionProbs>, event: Event, pick: Option<usize>) -> Option<
    usize,
> {
    match tp {
        Some(t) => if t.view_map().contains_key(event) && pick is Some && pick->Some_0
            < t.view_map()[event].len() {
            Some(t.view_map()[event][pick->Some_0 as int].index)
        } else {
            None
        },
        None => None,
    }
}

/// `new` is `old` after handling `event`, which gathered the actions `acts` and the deferred
/// events `defs`, when the sampler picked transition `pick` and a proportional budget allowed
/// `allowed` decoys. A real packet sent is counted, and a proportional budget that was reached
/// recovers once it allows more decoys than were sent. A transition that fires enters its state
/// and gathers that state's actions; entering a different state takes on its decoy budget and
/// defers [`Event::StateBudgetExhausted`] if that budget is `0`.
pub open spec fn event_handled(
    m: Machine,
    old: MachineRuntime,
    new: MachineRuntime,
    event: Event,
    pick: Option<usize>,
    allowed: usize,
    acts: Seq<Action>,
    defs: Seq<Event>,
) -> bool {
    let sent = event == Event::SendNormal;
    let recovered = sent && (m.budget() matches Some(MachineDecoyBudget::Proportion(_)))
        && old.proportion_blocked && allowed > old.decoys_sent;
    let d0 = if recovered {
        seq![Event::MachineBudgetRecovered]
    } else {
        Seq::<Event>::empty()
    };
    &&& new.real_sent == saturating_add(
        old.real_sent,
        if sent {
            1nat
        } else {
            0nat
        },
    )
    &&& new.proportion_blocked == (old.proportion_blocked && !recovered)
    &&& new.queues == old.queues
    &&& new.deferred_events == old.deferred_events
    &&& new.decoys_sent == old.decoys_sent
    &&& new.initialised == old.initialised
    &&& match transition_target(m.states()[old.state as int].trans_probs, event, pick) {
        None => {
            &&& new.state == old.state
            &&& new.current_state_budget == old.current_state_budget
            &&& acts == Seq::<Action>::empty()
            &&& defs == d0
        },
        Some(ns) => {
            &&& new.state == ns
            &&& acts == m.states()[ns as int].actions@
            &&& if ns != old.state {
                &&& new.current_state_budget == m.states()[ns as int].decoy_budget
                &&& defs == d0 + if m.states()[ns as int].decoy_budget == Some(0usize) {
                    seq![Event::StateBudgetExhausted]
                } else {
                    Seq::<Event>::empty()
                }
            } else {
                &&& new.current_state_budget == old.current_state_budget
                &&& defs == d0
            }
        },
    }
}

/// `new` is `old` after handling `event` (see [`event_handled`]) with the sampler's answers
/// `pick` and `allowed`, which `new` notes with their questions.
pub open spec fn event_answered(
    m: Machine,
    old: MachineRuntime,
    new: MachineRuntime,
    event: Event,
    pick: Option<usize>,
    allowed: usize,
    acts: Seq<Action>,
    defs: Seq<Event>,
) -> bool {
    &&& event_handled(m, old, new, event, pick, allowed, acts, defs)
    &&& new.transitions_asked@ == old.transitions_asked@ + transition_question(m, old.state, event, pick)
    &&& new.allowances_asked@ == old.allowances_asked@ + allowance_question(m, old.real_sent, event, allowed)
    &&& new.delays_asked@ == old.delays_asked@
}

/// Runtime `rts[i + 1]` is `rts[i]` after handling `events[i]`, for which the sampler answered
/// `picks[i]` and `alloweds[i]` and which gathered `aa[i]` and `dd[i]`.
pub open spec fn handled_chain(
    m: Machine,
    rts: Seq<MachineRuntime>,
    events: Seq<Event>,
    picks: Seq<Option<usize>>,
    alloweds: Seq<usize>,
    aa: Seq<Seq<Action>>,
    dd: Seq<Seq<Event>>,
) -> bool {
    &&& rts.len() == events.len() + 1
    &&& picks.len() == events.len()
    &&& alloweds.len() == events.len()
    &&& aa.len() == events.len()
    &&& dd.len() == events.len()
    &&& forall|i: int|
        #![trigger aa[i]]
        0 <= i < events.len() ==> event_answered(
            m,
            rts[i],
            rts[i + 1],
            events[i],
            picks[i],
            alloweds[i],
            aa[i],
            dd[i],
        )
}

/// `new` is `old` after handling `events` in order, which gathered the actions `acts` and the
/// deferred events `defs`, with the sampler's answers, which `new` notes with their questions.
pub open spec fn events_handled(
    m: Machine,
    old: MachineRuntime,
    new: MachineRuntime,
    events: Seq<Event>,
    acts: Seq<Action>,
    defs: Seq<Event>,
) -> bool {
    exists|
        rts: Seq<MachineRuntime>,
        picks: Seq<Option<usize>>,
        alloweds: Seq<usize>,
        aa: Seq<Seq<Action>>,
        dd: Seq<Seq<Event>>,
    |
        {
            &&& #[trigger] handled_chain(m, rts, events, picks, alloweds, aa, dd)
            &&& rts[0] == old
            &&& rts.last() == new
            &&& acts == aa.flatten_alt()
            &&& defs == dd.flatten_alt()
        }
}

/// Each queue of `news` is the queue of `olds` without the items at its front that are ready at
/// `now`, and its first item, if any, is not ready.
pub open spec fn queues_popped(
    olds: Seq<TimedQueue<TimedAction>>,
    news: Seq<TimedQueue<TimedAction>>,
    now: u64,
) -> bool {
    &&& news.len() == olds.len()
    &&& forall|q: int|
        0 <= q < olds.len() ==> {
            let o = #[trigger] olds[q];
            let n = news[q];
            let k = o.items().len() - n.items().len();
            &&& n.capacity() == o.capacity()
            &&& o.items() == o.items().take(k) + n.items()
            &&& forall|i: int| 0 <= i < k ==> #[trigger] o.items()[i].spec_ready(now)
            &&& n.items().len() > 0 ==> !n.items()[0].spec_ready(now)
            &&& crate::queue::sorted_by_time(n.items())
        }
}

/// The events deferred by popping: [`Event::QueuePopped`] for each action popped, followed by
/// [`Event::QueueEmpty`] if its queue is left empty.
pub open spec fn pop_events(popped: Seq<(u8, Action)>, news: Seq<TimedQueue<TimedAction>>) -> Seq<Event>
    decreases popped.len(),
{
    if popped.len() == 0 {
        Seq::empty()
    } else {
        let idx = popped.last().0;
        pop_events(popped.drop_last(), news) + seq![Event::QueuePopped(idx)] + if news[idx as int].items().len()
            == 0 {
            seq![Event::QueueEmpty(idx)]
        } else {
            Seq::<Event>::empty()
        }
    }
}

/// `new` is `old` after one round of gathering at `now`: the current state's actions if the
/// machine has not yet had its first round; then the actions of handling the previously deferred
/// events and then `events`; then the actions popped from the queues, queue by queue. `acts` are
/// those actions in that order and `defs` the events deferred meanwhile. `new` keeps no deferred
/// events of its own.
pub open spec fn actions_collected(
    m: Machine,
    old: MachineRuntime,
    events: Seq<Event>,
    now: u64,
    new: MachineRuntime,
    acts: Seq<Action>,
    defs: Seq<Event>,
) -> bool {
    exists|start: MachineRuntime, mid: MachineRuntime, a1: Seq<Action>, d1: Seq<Event>|
        #![trigger events_handled(m, start, mid, old.deferred_events@ + events, a1, d1)]
        {
            &&& start.state == old.state
            &&& start.queues == old.queues
            &&& start.deferred_events@ == Seq::<Event>::empty()
            &&& start.current_state_budget == old.current_state_budget
            &&& start.initialised
            &&& start.decoys_sent == old.decoys_sent
            &&& start.real_sent == old.real_sent
            &&& start.proportion_blocked == old.proportion_blocked
            &&& questions_kept(old, start)
            &&& events_handled(m, start, mid, old.deferred_events@ + events, a1, d1)
            &&& queues_popped(mid.queues@, new.queues@, now)
            &&& new.state == mid.state
            &&& new.deferred_events@ == Seq::<Event>::empty()
            &&& new.current_state_budget == mid.current_state_budget
            &&& new.initialised
            &&& new.decoys_sent == mid.decoys_sent
            &&& new.real_sent == mid.real_sent
            &&& new.proportion_blocked == mid.proportion_blocked
            &&& questions_kept(mid, new)
            &&& acts == (if old.initialised {
                Seq::<Action>::empty()
            } else {
                m.states()[old.state as int].actions@
            }) + a1 + popped_actions(mid.queues@, new.queues@, mid.queues@.len() as int).map_values(
                |p: (u8, Action)| p.1,
            )
            &&& defs == d1 + pop_events(
                popped_actions(mid.queues@, new.queues@, mid.queues@.len() as int),
                new.queues@,
            )
        }
}

/// `new` is `old` after taking the action at `now`: a framework action is performed; an
/// integrator action goes through the decoy budgets and is handed on (`out`) if they let it.
pub open spec fn action_taken(
    m: Machine,
    old: MachineRuntime,
    action: Action,
    now: u64,
    new: MachineRuntime,
    out: Option<IntegratorAction>,
) -> bool {
    match action {
        Action::Framework(fa) => out is None && framework_action_done(old, new, fa, now),
        Action::Integrator(ia) => {
            &&& new.transitions_asked@ == old.transitions_asked@
            &&& new.delays_asked@ == old.delays_asked@
            &&& exists|allowed: usize, ok: bool|
                {
                    &&& #[trigger] budget_applied(old, new, m.budget(), ia, allowed, ok)
                    &&& new.allowances_asked@ == old.allowances_asked@ + budget_question(
                        m.budget(),
                        old.real_sent,
                        ia,
                        allowed,
                    )
                    &&& out == if ok {
                        Some(ia)
                    } else {
                        None
                    }
                }
        },
    }
}

/// The integrator actions handed on, in order.
pub open spec fn handed_on(outs: Seq<Option<IntegratorAction>>) -> Seq<IntegratorAction>
    decreases outs.len(),
{
    if outs.len() == 0 {
        Seq::empty()
    } else {
        handed_on(outs.drop_last()) + match outs.last() {
            Some(a) => seq![a],
            None => Seq::<IntegratorAction>::empty(),
        }
    }
}

/// Runtime `rts[i + 1]` is `rts[i]` after taking `actions[i]` at `now`, which handed on
/// `outs[i]`.
pub open spec fn taken_chain(
    m: Machine,
    rts: Seq<MachineRuntime>,
    actions: Seq<Action>,
    now: u64,
    outs: Seq<Option<IntegratorAction>>,
) -> bool {
    &&& rts.len() == actions.len() + 1
    &&& outs.len() == actions.len()
    &&& forall|i: int|
        #![trigger outs[i]]
        0 <= i < actions.len() ==> action_taken(m, rts[i], actions[i], now, rts[i + 1], outs[i])
}

/// `new` is `old` after taking `actions` in order at `now`, handing on `out`.
pub open spec fn actions_taken(
    m: Machine,
    old: MachineRuntime,
    actions: Seq<Action>,
    now: u64,
    new: MachineRuntime,
    out: Seq<IntegratorAction>,
) -> bool {
    exists|rts: Seq<MachineRuntime>, outs: Seq<Option<IntegratorAction>>|
        {
            &&& #[trigger] taken_chain(m, rts, actions, now, outs)
            &&& rts[0] == old
            &&& rts.last() == new
            &&& out == handed_on(outs)
        }
}

/// `new` is `old` after processing `events` at `now`, handing on `out`: the round's actions are
/// gathered (see [`actions_collected`]), the events deferred meanwhile are kept for the next
/// round, and the actions are taken in order (see [`action_taken`]).
pub open spec fn processed(
    m: Machine,
    old: MachineRuntime,
    events: Seq<Event>,
    now: u64,
    new: MachineRuntime,
    out: Seq<IntegratorAction>,
) -> bool {
    exists|col: MachineRuntime, acts: Seq<Action>, defs: Seq<Event>, kept: MachineRuntime|
        #![trigger actions_collected(m, old, events, now, col, acts, defs), actions_taken(m, kept, acts, now, new, out)]
        {
            &&& actions_collected(m, old, events, now, col, acts, defs)
            &&& kept.state == col.state
            &&& kept.queues == col.queues
            &&& kept.deferred_events@ == defs
            &&& kept.current_state_budget == col.current_state_budget
            &&& kept.initialised == col.initialised
            &&& kept.decoys_sent == col.decoys_sent
            &&& kept.real_sent == col.real_sent
            &&& kept.proportion_blocked == col.proportion_blocked
            &&& actions_taken(m, kept, acts, now, new, out)
        }
}

/// A runtime that fits a machine still fits it after any of the queue operations, as long as only
/// integrator actions are pushed.
proof fn lemma_fits_after(old: MachineRuntime, new: MachineRuntime, m: Machine)
    requires
        runtime_fits(old, m),
        all_deferred(old.deferred_events@),
        (exists|queue: u8, t: TimedAction| t.action is Integrator && #[trigger] scheduled(old, new, queue, t))
            || (exists|q: int| #[trigger] queue_cancelled(old, new, q)) || all_cancelled(old, new),
    ensures
        runtime_fits(new, m),
        all_deferred(new.deferred_events@),
{
    let nq = m.queues().len();
    if exists|queue: u8, t: TimedAction| t.action is Integrator && #[trigger] scheduled(old, new, queue, t) {
        let (queue, t) = choose|queue: u8, t: TimedAction| t.action is Integrator && #[trigger] scheduled(old, new, queue, t);
        let q = queue as int;
        let o = old.queues@[q];
        let n = new.queues@[q];
        assert forall|x: int| 0 <= x < new.queues@.len() implies #[trigger] new.queues@[x].capacity()
            == m.queues()[x] by {
            if x != q {
                assert(new.queues@[x] == old.queues@[x]);
            }
        }
        assert forall|x: int, i: int|
            #![trigger new.queues@[x].items()[i]]
            0 <= x < new.queues@.len() && 0 <= i < new.queues@[x].items().len() implies action_in_range(
                new.queues@[x].items()[i].action,
                nq,
            ) by {
            if x != q {
                assert(new.queues@[x] == old.queues@[x]);
            } else if !(o.capacity() matches Some(c) && o.items().len() >= c) {
                let p = choose|p: int|
                    0 <= p <= o.items().len() && n.items() == o.items().insert(p, t) && (forall|i: int|
                        0 <= i < p ==> #[trigger] o.items()[i].spec_execute_at() <= t.spec_execute_at())
                        && (forall|i: int|
                        p <= i < o.items().len() ==> #[trigger] o.items()[i].spec_execute_at()
                            > t.spec_execute_at());
                if i < p {
                    assert(n.items()[i] == o.items()[i]);
                } else if i > p {
                    assert(n.items()[i] == o.items()[i - 1]);
                }
            }
        }
        assert forall|i: int| 0 <= i < new.deferred_events@.len() implies spec_is_deferred(
            #[trigger] new.deferred_events@[i],
        ) by {
            if i < old.deferred_events@.len() {
                assert(new.deferred_events@[i] == old.deferred_events@[i]);
            }
        }
    } else if exists|q: int| #[trigger] queue_cancelled(old, new, q) {
        let q = choose|q: int| #[trigger] queue_cancelled(old, new, q);
        assert forall|x: int| 0 <= x < new.queues@.len() implies #[trigger] new.queues@[x].capacity()
            == m.queues()[x] by {
            if x != q {
                assert(new.queues@[x] == old.queues@[x]);
            }
        }
        assert forall|x: int, i: int|
            #![trigger new.queues@[x].items()[i]]
            0 <= x < new.queues@.len() && 0 <= i < new.queues@[x].items().len() implies action_in_range(
                new.queues@[x].items()[i].action,
                nq,
            ) by {
            assert(x != q);
            assert(new.queues@[x] == old.queues@[x]);
        }
    } else {
        assert forall|x: int| 0 <= x < new.queues@.len() implies #[trigger] new.queues@[x].capacity()
            == m.queues()[x] by {
            assert(new.queues@[x].capacity() == old.queues@[x].capacity());
        }
    }
}

proof fn lemma_popped_prefix(
    olds: Seq<TimedQueue<TimedAction>>,
    a: Seq<TimedQueue<TimedAction>>,
    b: Seq<TimedQueue<TimedAction>>,
    n: int,
)
    requires
        n <= a.len(),
        n <= b.len(),
        forall|q: int| 0 <= q < n ==> a[q] == b[q],
    ensures
        popped_actions(olds, a, n) == popped_actions(olds, b, n),
    decreases n,
{
    if n > 0 {
        lemma_popped_prefix(olds, a, b, n - 1);
    }
}


proof fn lemma_popped_in_range(
    olds: Seq<TimedQueue<TimedAction>>,
    news: Seq<TimedQueue<TimedAction>>,
    n: int,
    nq: nat,
)
    requires
        0 <= n <= olds.len(),
        n <= news.len(),
        forall|q: int| 0 <= q < n ==> #[trigger] news[q].items().len() <= olds[q].items().len(),
        forall|q: int, i: int|
            #![trigger olds[q].items()[i]]
            0 <= q < olds.len() && 0 <= i < olds[q].items().len() ==> action_in_range(
                olds[q].items()[i].action,
                nq,
            ),
    ensures
        forall|i: int|
            0 <= i < popped_actions(olds, news, n).len() ==> action_in_range(
                #[trigger] popped_actions(olds, news, n)[i].1,
                nq,
            ),
        forall|i: int|
            0 <= i < popped_actions(olds, news, n).len() ==> #[trigger] popped_actions(
                olds,
                news,
                n,
            )[i].0 < n,
    decreases n,
{
    if n > 0 {
        lemma_popped_in_range(olds, news, n - 1, nq);
        let prev = popped_actions(olds, news, n - 1);
        let k = olds[n - 1].items().len() - news[n - 1].items().len();
        let tail = olds[n - 1].items().take(k).map_values(|t: TimedAction| ((n - 1) as u8, t.action));
        assert(popped_actions(olds, news, n) == prev + tail);
        assert forall|i: int| 0 <= i < prev.len() + tail.len() implies action_in_range(
            #[trigger] (prev + tail)[i].1,
            nq,
        ) && (prev + tail)[i].0 < n by {
            if i >= prev.len() {
                let j = i - prev.len();
                assert(tail[j] == ((n - 1) as u8, olds[n - 1].items()[j].action));
                assert(action_in_range(olds[n - 1].items()[j].action, nq));
            }
        }
    }
}

proof fn lemma_popped_idle(olds: Seq<TimedQueue<TimedAction>>, news: Seq<TimedQueue<TimedAction>>, n: int)
    requires
        n <= olds.len(),
        n <= news.len(),
        forall|q: int| 0 <= q < olds.len() ==> (#[trigger] olds[q]).items().len() == 0,
        forall|q: int| 0 <= q < news.len() ==> (#[trigger] news[q]).items().len() == 0,
    ensures
        popped_actions(olds, news, n).len() == 0,
    decreases n,
{
    if n > 0 {
        lemma_popped_idle(olds, news, n - 1);
        assert(olds[n - 1].items().take(olds[n - 1].items().len() - news[n - 1].items().len()).len() == 0);
    }
}

/// With no action queued anywhere, nothing is scheduled.
pub(crate) proof fn lemma_idle_nothing_scheduled(rt: MachineRuntime, n: int)
    requires
        queues_idle(rt),
        n <= rt.queues@.len(),
    ensures
        soonest(rt.queues@, n) is None,
    decreases n,
{
    if n > 0 {
        lemma_idle_nothing_scheduled(rt, n - 1);
        assert(rt.queues@[n - 1].items().len() == 0);
    }
}

proof fn lemma_events_handled_empty(m: Machine, old: MachineRuntime)
    ensures
        events_handled(m, old, old, Seq::empty(), Seq::empty(), Seq::empty()),
{
    let rts = seq![old];
    let aa = Seq::<Seq<Action>>::empty();
    let dd = Seq::<Seq<Event>>::empty();
    assert(handled_chain(m, rts, Seq::empty(), Seq::empty(), Seq::empty(), aa, dd));
    assert(aa.flatten_alt() =~= Seq::<Action>::empty());
    assert(dd.flatten_alt() =~= Seq::<Event>::empty());
}

proof fn lemma_events_handled_push(
    m: Machine,
    old: MachineRuntime,
    mid: MachineRuntime,
    new: MachineRuntime,
    s: Seq<Event>,
    e: Event,
    a1: Seq<Action>,
    d1: Seq<Event>,
    pick: Option<usize>,
    allowed: usize,
    a2: Seq<Action>,
    d2: Seq<Event>,
)
    requires
        events_handled(m, old, mid, s, a1, d1),
        event_answered(m, mid, new, e, pick, allowed, a2, d2),
    ensures
        events_handled(m, old, new, s.push(e), a1 + a2, d1 + d2),
{
    let (rts, picks, alloweds, aa, dd) = choose|
        rts: Seq<MachineRuntime>,
        picks: Seq<Option<usize>>,
        alloweds: Seq<usize>,
        aa: Seq<Seq<Action>>,
        dd: Seq<Seq<Event>>,
    |
        {
            &&& #[trigger] handled_chain(m, rts, s, picks, alloweds, aa, dd)
            &&& rts[0] == old
            &&& rts.last() == mid
            &&& a1 == aa.flatten_alt()
            &&& d1 == dd.flatten_alt()
        };
    let rts2 = rts.push(new);
    let t = s.push(e);
    let picks2 = picks.push(pick);
    let alloweds2 = alloweds.push(allowed);
    let aa2 = aa.push(a2);
    let dd2 = dd.push(d2);
    assert forall|i: int|
        #![trigger aa2[i]]
        0 <= i < t.len() implies event_answered(
            m,
            rts2[i],
            rts2[i + 1],
            t[i],
            picks2[i],
            alloweds2[i],
            aa2[i],
            dd2[i],
        ) by {
        if i < s.len() {
            assert(aa[i] == aa2[i]);
            assert(event_answered(m, rts[i], rts[i + 1], s[i], picks[i], alloweds[i], aa[i], dd[i]));
        }
    }
    assert(handled_chain(m, rts2, t, picks2, alloweds2, aa2, dd2));
    assert(aa2.drop_last() =~= aa);
    assert(dd2.drop_last() =~= dd);
    assert(aa2.flatten_alt() == a1 + a2);
    assert(dd2.flatten_alt() == d1 + d2);
    assert(rts2[0] == old);
}

proof fn lemma_actions_taken_empty(m: Machine, old: MachineRuntime, now: u64)
    ensures
        actions_taken(m, old, Seq::empty(), now, old, Seq::empty()),
{
    let rts = seq![old];
    let outs = Seq::<Option<IntegratorAction>>::empty();
    assert(taken_chain(m, rts, Seq::empty(), now, outs));
}

proof fn lemma_actions_taken_push(
    m: Machine,
    old: MachineRuntime,
    mid: MachineRuntime,
    new: MachineRuntime,
    acts: Seq<Action>,
    a: Action,
    now: u64,
    out: Seq<IntegratorAction>,
    passed: Option<IntegratorAction>,
)
    requires
        actions_taken(m, old, acts, now, mid, out),
        action_taken(m, mid, a, now, new, passed),
    ensures
        actions_taken(
            m,
            old,
            acts.push(a),
            now,
            new,
            out + match passed {
                Some(x) => seq![x],
                None => Seq::<IntegratorAction>::empty(),
            },
        ),
{
    let (rts, outs) = choose|rts: Seq<MachineRuntime>, outs: Seq<Option<IntegratorAction>>|
        {
            &&& #[trigger] taken_chain(m, rts, acts, now, outs)
            &&& rts[0] == old
            &&& rts.last() == mid
            &&& out == handed_on(outs)
        };
    let rts2 = rts.push(new);
    let outs2 = outs.push(passed);
    let t = acts.push(a);
    assert forall|i: int|
        #![trigger outs2[i]]
        0 <= i < t.len() implies action_taken(m, rts2[i], t[i], now, rts2[i + 1], outs2[i]) by {
        if i < acts.len() {
            assert(outs[i] == outs2[i]);
            assert(action_taken(m, rts[i], acts[i], now, rts[i + 1], outs[i]));
        }
    }
    assert(taken_chain(m, rts2, t, now, outs2));
    assert(outs2.drop_last() =~= outs);
    assert(rts2[0] == old);
}

proof fn lemma_count_deferred(s: Seq<Event>)
    requires
        all_deferred(s),
    ensures
        count_of(s, Event::SendNormal) == 0,
    decreases s.len(),
{
    if s.len() > 0 {
        assert(spec_is_deferred(s[s.len() - 1]));
        lemma_count_deferred(s.drop_last());
    }
}

proof fn lemma_count_push<T>(s: Seq<T>, x: T, y: T)
    ensures
        count_of(s.push(y), x) == count_of(s, x) + if y == x {
            1nat
        } else {
            0nat
        },
{
    assert(s.push(y).drop_last() =~= s);
}

/// An instance of the framework: a machine, its runtime, and the sampler it asks for random and
/// floating-point decisions.
pub struct Framework<S: Sampler> {
    /// The machine being run.
    pub machine: Machine,
    /// The machine's runtime state.
    pub runtime: MachineRuntime,
    /// The sampler asked for transitions, delays and proportional allowances.
    pub sampler: S,
}

/// What handling `event` in state `state` asks the sampler of transitions, answered by `pick`:
/// to choose among the state's transitions for the event, if it has any for it.
pub open spec fn transition_question(m: Machine, state: usize, event: Event, pick: Option<usize>) -> Seq<
    (Seq<Transition>, Option<usize>),
> {
    match m.states()[state as int].trans_probs {
        Some(tp) => if tp.view_map().contains_key(event) {
            seq![(tp.view_map()[event], pick)]
        } else {
            Seq::empty()
        },
        None => Seq::empty(),
    }
}

/// What handling `event` after `real_sent` real packets asks the sampler of allowances, answered
/// by `allowed`: under a proportional budget, how many decoys a normal packet sent brings it to.
pub open spec fn allowance_question(m: Machine, real_sent: usize, event: Event, allowed: usize) -> Seq<
    (u64, usize, usize),
> {
    match m.budget() {
        Some(MachineDecoyBudget::Proportion(p)) => if event == Event::SendNormal {
            seq![(p, saturating_add(real_sent, 1), allowed)]
        } else {
            Seq::empty()
        },
        _ => Seq::empty(),
    }
}

/// What applying the decoy budget `budget` to `action` after `real_sent` real packets asks the
/// sampler of allowances, answered by `allowed`: under a proportional budget, how many decoys a
/// decoy is allowed once a real packet has been sent.
pub open spec fn budget_question(
    budget: Option<MachineDecoyBudget>,
    real_sent: usize,
    action: IntegratorAction,
    allowed: usize,
) -> Seq<(u64, usize, usize)> {
    match budget {
        Some(MachineDecoyBudget::Proportion(p)) => if action == IntegratorAction::SendDecoy && real_sent != 0 {
            seq![(p, real_sent, allowed)]
        } else {
            Seq::empty()
        },
        _ => Seq::empty(),
    }
}

/// What performing `action` asks the sampler of delays, answered by `delay`: a draw from the
/// distribution of a scheduled action.
pub open spec fn delay_question(action: FrameworkAction, delay: u64) -> Seq<(Distr, u64)> {
    match action {
        FrameworkAction::Schedule { delay: d, .. } => seq![(d, delay)],
        _ => Seq::empty(),
    }
}

impl<S: Sampler> Framework<S> {
    /// The machine is runnable, the runtime fits it, and every deferred event is one the framework
    /// emits.
    pub open spec fn wf(&self) -> bool {
        &&& self.machine.runnable()
        &&& runtime_fits(self.runtime, self.machine)
        &&& all_deferred(self.runtime.deferred_events@)
    }

    /// A framework running `machine` from its initial state, with a fresh runtime.
    pub fn new(machine: Machine, sampler: S) -> (r: Self)
        requires
            machine.runnable(),
        ensures
            r.wf(),
            r.machine == machine,
            r.sampler == sampler,
            r.runtime.transitions_asked@ == Seq::<(Seq<Transition>, Option<usize>)>::empty(),
            r.runtime.allowances_asked@ == Seq::<(u64, usize, usize)>::empty(),
            r.runtime.delays_asked@ == Seq::<(Distr, u64)>::empty(),
            r.runtime.state == 0,
            forall|q: int| 0 <= q < r.runtime.queues@.len() ==> #[trigger] r.runtime.queues@[q].items().len() == 0,
            r.runtime.deferred_events@ == Seq::<Event>::empty(),
            r.runtime.current_state_budget == machine.states()[0].decoy_budget,
            !r.runtime.initialised,
            r.runtime.decoys_sent == 0,
            r.runtime.real_sent == 0,
            !r.runtime.proportion_blocked,
    {
        let runtime = MachineRuntime::new(&machine);
        Framework { machine, runtime, sampler }
    }

    /// Asks the sampler which of `transitions` fires, noting the question and its answer.
    fn ask_transition(
        sampler: &mut S,
        asked: &mut Ghost<Seq<(Seq<Transition>, Option<usize>)>>,
        transitions: &Vec<Transition>,
    ) -> (r: Option<usize>)
        ensures
            final(asked)@ == old(asked)@.push((transitions@, r)),
    {
        let r = sampler.choose_transition(transitions);
        proof {
            asked@ = asked@.push((transitions@, r));
        }
        r
    }

    /// Asks the sampler how many decoys `proportion` allows after `real_sent` real packets,
    /// noting the question and its answer.
    fn ask_allowance(
        sampler: &mut S,
        asked: &mut Ghost<Seq<(u64, usize, usize)>>,
        proportion: u64,
        real_sent: usize,
    ) -> (r: usize)
        ensures
            final(asked)@ == old(asked)@.push((proportion, real_sent, r)),
    {
        let r = sampler.allowed_decoys(proportion, real_sent);
        proof {
            asked@ = asked@.push((proportion, real_sent, r));
        }
        r
    }

    /// Asks the sampler for a delay drawn from `delay`, noting the question and its answer.
    fn ask_delay(sampler: &mut S, asked: &mut Ghost<Seq<(Distr, u64)>>, delay: &Distr) -> (r: u64)
        ensures
            final(asked)@ == old(asked)@.push((*delay, r)),
    {
        let r = sampler.sample_delay(delay);
        proof {
            asked@ = asked@.push((*delay, r));
        }
        r
    }

    /// The transition probabilities of the current state.
    pub fn get_trans_probs(&self) -> (r: Option<&TransitionProbs>)
        requires
            self.wf(),
        ensures
            r == match self.machine.states()[self.runtime.state as int].trans_probs {
                Some(tp) => Some(&tp),
                None => None,
            },
    {
        match &self.machine.state(self.runtime.state).trans_probs {
            Some(tp) => Some(tp),
            None => None,
        }
    }

    /// The soonest execution time among the runtime's queued actions, if any.
    pub fn peek_soonest_scheduled_instant(&self) -> (r: Option<u64>)
        ensures
            r == soonest(self.runtime.queues@, self.runtime.queues@.len() as int),
    {
        self.runtime.peek_soonest_scheduled_instant()
    }

    /// Whether the initial state's actions have been taken.
    pub fn is_initialised(&self) -> (r: bool)
        ensures
            r == self.runtime.initialised,
    {
        self.runtime.initialised
    }

    /// The index of the current state.
    pub fn get_state(&self) -> (r: usize)
        ensures
            r == self.runtime.state,
    {
        self.runtime.state
    }

    /// The runtime.
    pub fn peek_runtime(&self) -> (r: &MachineRuntime)
        ensures
            *r == self.runtime,
    {
        &self.runtime
    }

    /// Performs a framework action at time `now`: schedules an integrator action on a queue
    /// after a delay drawn from its distribution by the sampler, or cancels one queue or all of
    /// them (see [`Framework::perform_action_at`]).
    pub fn perform_action(&mut self, action: FrameworkAction, now: u64)
        requires
            old(self).wf(),
            action_in_range(Action::Framework(action), old(self).machine.queues().len()),
        ensures
            final(self).wf(),
            final(self).machine == old(self).machine,
            queues_not_before(old(self).runtime, now) ==> queues_not_before(final(self).runtime, now),
            framework_action_done(old(self).runtime, final(self).runtime, action, now),
    {
        let sampled: u64 = match &action {
            FrameworkAction::Schedule { delay, .. } => Self::ask_delay(
                &mut self.sampler,
                &mut self.runtime.delays_asked,
                delay,
            ),
            _ => 0,
        };
        proof {
            assert(self.runtime.delays_asked@ =~= old(self).runtime.delays_asked@ + delay_question(action, sampled));
        }
        self.perform_action_at(action, now, sampled);
        proof {
            assert(framework_action_applied(old(self).runtime, self.runtime, action, now, sampled));
        }
    }

    /// Performs a framework action at time `now`, a scheduled action being delayed by `sampled`
    /// microseconds: it is pushed onto its queue to execute at `now + sampled` (or the last
    /// representable time), with a deferred event for how the push went; or one queue, or all of
    /// them, are emptied (see [`framework_action_applied`]).
    pub fn perform_action_at(&mut self, action: FrameworkAction, now: u64, sampled: u64)
        requires
            old(self).wf(),
            action_in_range(Action::Framework(action), old(self).machine.queues().len()),
        ensures
            final(self).wf(),
            final(self).machine == old(self).machine,
            final(self).sampler == old(self).sampler,
            final(self).runtime.transitions_asked@ == old(self).runtime.transitions_asked@,
            final(self).runtime.allowances_asked@ == old(self).runtime.allowances_asked@,
            final(self).runtime.delays_asked@ == old(self).runtime.delays_asked@,
            queues_not_before(old(self).runtime, now) ==> queues_not_before(final(self).runtime, now),
            framework_action_applied(old(self).runtime, final(self).runtime, action, now, sampled),
    {
        let ghost nq = self.machine.queues().len();
        match action {
            FrameworkAction::Schedule { action: a, queue, delay } => {
                let d = sampled;
                let execute_at = if d <= u64::MAX - now {
                    now + d
                } else {
                    u64::MAX
                };
                let t = TimedAction { execute_at, action: Action::Integrator(a) };
                self.runtime.schedule(queue, t);
                proof {
                    lemma_fits_after(old(self).runtime, self.runtime, self.machine);
                    if queues_not_before(old(self).runtime, now) {
                        let o = old(self).runtime.queues@[queue as int];
                        let n = self.runtime.queues@[queue as int];
                        assert forall|q: int, i: int|
                            #![trigger self.runtime.queues@[q].items()[i]]
                            0 <= q < self.runtime.queues@.len() && 0 <= i < self.runtime.queues@[q].items().len()
                                implies self.runtime.queues@[q].items()[i].execute_at >= now by {
                            if q != queue as int {
                                assert(self.runtime.queues@[q] == old(self).runtime.queues@[q]);
                            } else if !(o.capacity() matches Some(c) && o.items().len() >= c) {
                                let p = choose|p: int|
                                    0 <= p <= o.items().len() && n.items() == o.items().insert(p, t)
                                        && (forall|i: int|
                                        0 <= i < p ==> #[trigger] o.items()[i].spec_execute_at()
                                            <= t.spec_execute_at()) && (forall|i: int|
                                        p <= i < o.items().len() ==> #[trigger] o.items()[i].spec_execute_at()
                                            > t.spec_execute_at());
                                if i < p {
                                    assert(n.items()[i] == o.items()[i]);
                                } else if i > p {
                                    assert(n.items()[i] == o.items()[i - 1]);
                                }
                            } else {
                                assert(n.items() == o.items());
                            }
                        }
                    }
                }
            },
            FrameworkAction::CancelQueue(queue) => {
                self.runtime.cancel_queue(queue);
                proof {
                    lemma_fits_after(old(self).runtime, self.runtime, self.machine);
                    assert forall|q: int, i: int|
                        #![trigger self.runtime.queues@[q].items()[i]]
                        0 <= q < self.runtime.queues@.len() && 0 <= i < self.runtime.queues@[q].items().len()
                            && queues_not_before(old(self).runtime, now)
                            implies self.runtime.queues@[q].items()[i].execute_at >= now by {
                        assert(q != queue as int);
                        assert(self.runtime.queues@[q] == old(self).runtime.queues@[q]);
                    }
                }
            },
            FrameworkAction::CancelAll => {
                self.runtime.cancel_all();
                proof {
                    lemma_fits_after(old(self).runtime, self.runtime, self.machine);
                }
            },
        }
    }

    /// Applies the decoy budgets to an integrator action (see [`MachineRuntime::apply_budget`]),
    /// asking the sampler how many decoys a proportional budget allows when that matters.
    pub fn apply_budget(&mut self, action: IntegratorAction) -> (r: bool)
        ensures
            final(self).machine == old(self).machine,
            exists|allowed: usize|
                {
                    &&& #[trigger] budget_applied(
                        old(self).runtime,
                        final(self).runtime,
                        old(self).machine.budget(),
                        action,
                        allowed,
                        r,
                    )
                    &&& final(self).runtime.allowances_asked@ == old(self).runtime.allowances_asked@ + budget_question(
                        old(self).machine.budget(),
                        old(self).runtime.real_sent,
                        action,
                        allowed,
                    )
                },
            final(self).runtime.transitions_asked@ == old(self).runtime.transitions_asked@,
            final(self).runtime.delays_asked@ == old(self).runtime.delays_asked@,
    {
        let budget = self.machine.get_budget();
        let allowed = match budget {
            Some(MachineDecoyBudget::Proportion(p)) => {
                if action == IntegratorAction::SendDecoy && self.runtime.real_sent != 0 {
                    Self::ask_allowance(&mut self.sampler, &mut self.runtime.allowances_asked, p, self.runtime.real_sent)
                } else {
                    0
                }
            },
            _ => 0,
        };
        proof {
            assert(self.runtime.allowances_asked@ =~= old(self).runtime.allowances_asked@ + budget_question(
                self.machine.budget(),
                self.runtime.real_sent,
                action,
                allowed,
            ));
        }
        let r = self.runtime.apply_budget(budget, action, allowed);
        proof {
            assert(budget_applied(old(self).runtime, self.runtime, old(self).machine.budget(), action, allowed, r));
        }
        r
    }

    /// Handles one event with the sampler's answers given: counts a real packet sent (and,
    /// under a proportional budget that allows `allowed` decoys, notes when it has recovered),
    /// then fires the transition at position `pick` among the current state's transitions for
    /// the event, if there is one, appending the actions of the state entered to `actions` and
    /// the events it defers to `deferred` (see [`event_handled`]).
    pub fn apply_event(
        &mut self,
        event: Event,
        pick: Option<usize>,
        allowed: usize,
        actions: &mut Vec<Action>,
        deferred: &mut Vec<Event>,
    )
        requires
            old(self).machine.runnable(),
            runtime_fits(old(self).runtime, old(self).machine),
            all_in_range(old(actions)@, old(self).machine.queues().len()),
            all_deferred(old(deferred)@),
        ensures
            final(self).machine == old(self).machine,
            runtime_fits(final(self).runtime, final(self).machine),
            final(self).runtime.queues == old(self).runtime.queues,
            final(self).runtime.deferred_events == old(self).runtime.deferred_events,
            final(self).runtime.decoys_sent == old(self).runtime.decoys_sent,
            final(self).runtime.initialised == old(self).runtime.initialised,
            final(self).runtime.real_sent == saturating_add(
                old(self).runtime.real_sent,
                if event == Event::SendNormal {
                    1nat
                } else {
                    0nat
                },
            ),
            all_in_range(final(actions)@, final(self).machine.queues().len()),
            all_deferred(final(deferred)@),
            old(self).machine.is_silent() ==> final(actions)@ == old(actions)@,
            final(self).runtime.state == old(self).runtime.state || {
                let tp = old(self).machine.states()[old(self).runtime.state as int].trans_probs;
                &&& tp is Some
                &&& tp->Some_0.view_map().contains_key(event)
                &&& exists|j: int|
                    0 <= j < tp->Some_0.view_map()[event].len()
                        && #[trigger] tp->Some_0.view_map()[event][j].index == final(self).runtime.state
            },
            final(self).sampler == old(self).sampler,
            final(self).runtime.transitions_asked@ == old(self).runtime.transitions_asked@,
            final(self).runtime.allowances_asked@ == old(self).runtime.allowances_asked@,
            final(self).runtime.delays_asked@ == old(self).runtime.delays_asked@,
            exists|a: Seq<Action>, d: Seq<Event>|
                {
                    &&& #[trigger] event_handled(
                        old(self).machine,
                        old(self).runtime,
                        final(self).runtime,
                        event,
                        pick,
                        allowed,
                        a,
                        d,
                    )
                    &&& final(actions)@ == old(actions)@ + a
                    &&& final(deferred)@ == old(deferred)@ + d
                },
    {
        let ghost nq = self.machine.queues().len();
        let ghost ns = self.machine.states().len();
        let ghost mut rec: Seq<Event> = Seq::empty();
        let ghost mut gained: Seq<Action> = Seq::empty();
        let ghost mut exhausted: Seq<Event> = Seq::empty();
        if event == Event::SendNormal {
            if self.runtime.real_sent < usize::MAX {
                self.runtime.real_sent = self.runtime.real_sent + 1;
            }
            match self.machine.get_budget() {
                Some(MachineDecoyBudget::Proportion(p)) => {
                    if self.runtime.proportion_blocked && allowed > self.runtime.decoys_sent {
                        deferred.push(Event::MachineBudgetRecovered);
                        self.runtime.proportion_blocked = false;
                        proof {
                            rec = seq![Event::MachineBudgetRecovered];
                        }
                        proof {
                            assert forall|i: int| 0 <= i < deferred@.len() implies spec_is_deferred(
                                #[trigger] deferred@[i],
                            ) by {
                                if i < old(deferred)@.len() {
                                    assert(deferred@[i] == old(deferred)@[i]);
                                }
                            }
                        }
                    }
                },
                _ => {},
            }
        }
        let st = self.runtime.state;
        let state = self.machine.state(st);
        assert(state_in_range(*state, ns, nq));
        match &state.trans_probs {
            None => {},
            Some(tp) => {
                match tp.get(event) {
                    None => {},
                    Some(ts) => {
                        match pick {
                            None => {},
                            Some(pos) => {
                                if pos < ts.len() {
                                    let new_state = ts[pos].index;
                                    assert(tp.view_map()[event][pos as int].index < ns);
                                    if st != new_state {
                                        self.runtime.state = new_state;
                                        self.runtime.current_state_budget = self.machine.state(
                                            new_state,
                                        ).decoy_budget;
                                        if self.runtime.current_state_budget == Some(0usize) {
                                            deferred.push(Event::StateBudgetExhausted);
                                            proof {
                                                exhausted = seq![Event::StateBudgetExhausted];
                                                assert forall|i: int|
                                                    0 <= i < deferred@.len() implies spec_is_deferred(
                                                    #[trigger] deferred@[i],
                                                ) by {
                                                    if i < deferred@.len() - 1 {
                                                        assert(deferred@[i] == deferred@.drop_last()[i]);
                                                    }
                                                }
                                            }
                                        }
                                    }
                                    let entered = self.machine.state(new_state);
                                    assert(state_in_range(*entered, ns, nq));
                                    let ghost silent = self.machine.is_silent();
                                    let ghost a0 = actions@;
                                    proof {
                                        gained = entered.actions@;
                                    }
                                    let mut k: usize = 0;
                                    while k < entered.actions.len()
                                        invariant
                                            k <= entered.actions@.len(),
                                            state_in_range(*entered, ns, nq),
                                            all_in_range(actions@, nq),
                                            silent ==> entered.actions@.len() == 0 && actions@ == a0,
                                            actions@ == a0 + entered.actions@.take(k as int),
                                        decreases entered.actions@.len() - k,
                                    {
                                        actions.push(entered.actions[k]);
                                        proof {
                                            assert forall|i: int| 0 <= i < actions@.len() implies action_in_range(
                                                #[trigger] actions@[i],
                                                nq,
                                            ) by {
                                                if i < actions@.len() - 1 {
                                                    assert(actions@[i] == actions@.drop_last()[i]);
                                                }
                                            }
                                        }
                                        k = k + 1;
                                        assert(actions@ =~= a0 + entered.actions@.take(k as int));
                                    }
                                    assert(entered.actions@.take(k as int) =~= entered.actions@);
                                    assert(tp.view_map()[event][pos as int].index == new_state);
                                }
                            },
                        }
                    },
                }
            },
        }
        proof {
            assert(actions@ =~= old(actions)@ + gained);
            assert(deferred@ =~= old(deferred)@ + (rec + exhausted));
            assert(event_handled(
                old(self).machine,
                old(self).runtime,
                self.runtime,
                event,
                pick,
                allowed,
                gained,
                rec + exhausted,
            ));
        }
    }

    /// Handles one event (see [`Framework::apply_event`]), asking the sampler how many decoys a
    /// proportional budget allows once a real packet is counted, and which of the current state's
    /// transitions for the event fires.
    fn handle_event(
        &mut self,
        event: Event,
        actions: &mut Vec<Action>,
        deferred: &mut Vec<Event>,
    )
        requires
            old(self).machine.runnable(),
            runtime_fits(old(self).runtime, old(self).machine),
            all_in_range(old(actions)@, old(self).machine.queues().len()),
            all_deferred(old(deferred)@),
        ensures
            final(self).machine == old(self).machine,
            runtime_fits(final(self).runtime, final(self).machine),
            final(self).runtime.queues == old(self).runtime.queues,
            final(self).runtime.deferred_events == old(self).runtime.deferred_events,
            final(self).runtime.decoys_sent == old(self).runtime.decoys_sent,
            final(self).runtime.initialised == old(self).runtime.initialised,
            final(self).runtime.real_sent == saturating_add(
                old(self).runtime.real_sent,
                if event == Event::SendNormal {
                    1nat
                } else {
                    0nat
                },
            ),
            all_in_range(final(actions)@, final(self).machine.queues().len()),
            all_deferred(final(deferred)@),
            old(self).machine.is_silent() ==> final(actions)@ == old(actions)@,
            exists|pick: Option<usize>, allowed: usize, a: Seq<Action>, d: Seq<Event>|
                {
                    &&& #[trigger] event_handled(
                        old(self).machine,
                        old(self).runtime,
                        final(self).runtime,
                        event,
                        pick,
                        allowed,
                        a,
                        d,
                    )
                    &&& final(actions)@ == old(actions)@ + a
                    &&& final(deferred)@ == old(deferred)@ + d
                    &&& final(self).runtime.transitions_asked@ == old(self).runtime.transitions_asked@
                        + transition_question(old(self).machine, old(self).runtime.state, event, pick)
                    &&& final(self).runtime.allowances_asked@ == old(self).runtime.allowances_asked@
                        + allowance_question(old(self).machine, old(self).runtime.real_sent, event, allowed)
                },
            final(self).runtime.delays_asked@ == old(self).runtime.delays_asked@,
    {
        let mut allowed: usize = 0;
        if event == Event::SendNormal {
            match self.machine.get_budget() {
                Some(MachineDecoyBudget::Proportion(p)) => {
                    let counted: usize = if self.runtime.real_sent < usize::MAX {
                        self.runtime.real_sent + 1
                    } else {
                        self.runtime.real_sent
                    };
                    allowed = Self::ask_allowance(&mut self.sampler, &mut self.runtime.allowances_asked, p, counted);
                },
                _ => {},
            }
        }
        let mut pick: Option<usize> = None;
        let st = self.runtime.state;
        match &self.machine.state(st).trans_probs {
            None => {},
            Some(tp) => {
                match tp.get(event) {
                    None => {},
                    Some(ts) => {
                        pick = Self::ask_transition(&mut self.sampler, &mut self.runtime.transitions_asked, ts);
                    },
                }
            },
        }
        proof {
            assert(self.runtime.allowances_asked@ =~= old(self).runtime.allowances_asked@ + allowance_question(
                self.machine,
                self.runtime.real_sent,
                event,
                allowed,
            ));
            assert(self.runtime.transitions_asked@ =~= old(self).runtime.transitions_asked@ + transition_question(
                self.machine,
                self.runtime.state,
                event,
                pick,
            ));
        }
        let ghost mid = self.runtime;
        let ghost acts0 = actions@;
        let ghost defs0 = deferred@;
        self.apply_event(event, pick, allowed, actions, deferred);
        proof {
            let (a, d) = choose|a: Seq<Action>, d: Seq<Event>|
                {
                    &&& #[trigger] event_handled(self.machine, mid, self.runtime, event, pick, allowed, a, d)
                    &&& actions@ == acts0 + a
                    &&& deferred@ == defs0 + d
                };
            assert(event_handled(old(self).machine, old(self).runtime, self.runtime, event, pick, allowed, a, d));
        }
    }

    /// Gathers the actions and deferred events of one processing round: the initial state's
    /// actions on the first round, then the previously deferred events followed by the given
    /// events, then every queued action that is ready at `now`.
    fn collect_actions(&mut self, events: &[Event], now: u64) -> (r: (Vec<Action>, Vec<Event>))
        requires
            old(self).wf(),
        ensures
            final(self).machine == old(self).machine,
            final(self).machine.runnable(),
            runtime_fits(final(self).runtime, final(self).machine),
            final(self).runtime.deferred_events@ == Seq::<Event>::empty(),
            final(self).runtime.decoys_sent == old(self).runtime.decoys_sent,
            final(self).runtime.initialised,
            final(self).runtime.real_sent == saturating_add(
                old(self).runtime.real_sent,
                count_of(events@, Event::SendNormal),
            ),
            all_in_range(r.0@, final(self).machine.queues().len()),
            queues_not_before(final(self).runtime, now),
            all_deferred(r.1@),
            old(self).machine.is_silent() && queues_idle(old(self).runtime) ==> r.0@.len() == 0
                && queues_idle(final(self).runtime),
            actions_collected(
                old(self).machine,
                old(self).runtime,
                events@,
                now,
                final(self).runtime,
                r.0@,
                r.1@,
            ),
    {
        let ghost nq = self.machine.queues().len();
        let ghost ns = self.machine.states().len();
        let ghost m = self.machine;
        let ghost quiet = self.machine.is_silent() && queues_idle(self.runtime);
        let mut actions: Vec<Action> = Vec::new();
        let mut deferred: Vec<Event> = Vec::new();
        if !self.runtime.initialised {
            let first = self.machine.state(self.runtime.state);
            assert(state_in_range(*first, ns, nq));
            let mut k: usize = 0;
            while k < first.actions.len()
                invariant
                    k <= first.actions@.len(),
                    state_in_range(*first, ns, nq),
                    all_in_range(actions@, nq),
                    quiet ==> first.actions@.len() == 0 && actions@.len() == 0,
                    actions@ == first.actions@.take(k as int),
                decreases first.actions@.len() - k,
            {
                actions.push(first.actions[k]);
                proof {
                    assert forall|i: int| 0 <= i < actions@.len() implies action_in_range(
                        #[trigger] actions@[i],
                        nq,
                    ) by {
                        if i < actions@.len() - 1 {
                            assert(actions@[i] == actions@.drop_last()[i]);
                        }
                    }
                }
                k = k + 1;
                assert(actions@ =~= first.actions@.take(k as int));
            }
            assert(first.actions@.take(k as int) =~= first.actions@);
            self.runtime.initialised = true;
        }
        let ghost init_acts = actions@;
        assert(init_acts == (if old(self).runtime.initialised {
            Seq::<Action>::empty()
        } else {
            m.states()[old(self).runtime.state as int].actions@
        }));
        let mut prior: Vec<Event> = Vec::new();
        std::mem::swap(&mut prior, &mut self.runtime.deferred_events);
        proof {
            lemma_count_deferred(prior@);
        }
        let ghost start = self.runtime;
        let ghost all = prior@ + events@;
        let ghost mut ga: Seq<Action> = Seq::empty();
        let ghost mut gd: Seq<Event> = Seq::empty();
        assert(all.take(0) =~= Seq::<Event>::empty());
        proof {
            lemma_events_handled_empty(m, start);
        }
        let real0 = self.runtime.real_sent;
        let mut i: usize = 0;
        while i < prior.len()
            invariant
                i <= prior@.len(),
                all_deferred(prior@),
                self.machine == m,
                m == old(self).machine,
                self.machine.runnable(),
                runtime_fits(self.runtime, self.machine),
                self.runtime.deferred_events@ == Seq::<Event>::empty(),
                self.runtime.decoys_sent == old(self).runtime.decoys_sent,
                self.runtime.initialised,
                self.runtime.real_sent == real0,
                real0 == old(self).runtime.real_sent,
                all_in_range(actions@, nq),
                all_deferred(deferred@),
                nq == self.machine.queues().len(),
                quiet ==> self.machine.is_silent() && queues_idle(self.runtime) && actions@.len() == 0,
                all == prior@ + events@,
                events_handled(m, start, self.runtime, all.take(i as int), ga, gd),
                actions@ == init_acts + ga,
                deferred@ == gd,
            decreases prior@.len() - i,
        {
            let e = prior[i];
            assert(spec_is_deferred(prior@[i as int]));
            let ghost rt_before = self.runtime;
            let ghost acts_before = actions@;
            let ghost defs_before = deferred@;
            self.handle_event(e, &mut actions, &mut deferred);
            proof {
                let (pick, allowed, a, d) = choose|pick: Option<usize>, allowed: usize, a: Seq<Action>, d: Seq<Event>|
                    {
                        &&& #[trigger] event_handled(m, rt_before, self.runtime, e, pick, allowed, a, d)
                        &&& actions@ == acts_before + a
                        &&& deferred@ == defs_before + d
                        &&& self.runtime.transitions_asked@ == rt_before.transitions_asked@
                            + transition_question(m, rt_before.state, e, pick)
                        &&& self.runtime.allowances_asked@ == rt_before.allowances_asked@
                            + allowance_question(m, rt_before.real_sent, e, allowed)
                    };
                lemma_events_handled_push(m, start, rt_before, self.runtime, all.take(i as int), e, ga, gd, pick, allowed, a, d);
                assert(all.take(i + 1) =~= all.take(i as int).push(e));
                ga = ga + a;
                gd = gd + d;
                assert(actions@ =~= init_acts + ga);
            }
            i = i + 1;
        }
        let mut j: usize = 0;
        while j < events.len()
            invariant
                j <= events@.len(),
                self.machine == m,
                m == old(self).machine,
                self.machine.runnable(),
                runtime_fits(self.runtime, self.machine),
                self.runtime.deferred_events@ == Seq::<Event>::empty(),
                self.runtime.decoys_sent == old(self).runtime.decoys_sent,
                self.runtime.initialised,
                self.runtime.real_sent == saturating_add(
                    old(self).runtime.real_sent,
                    count_of(events@.take(j as int), Event::SendNormal),
                ),
                all_in_range(actions@, nq),
                all_deferred(deferred@),
                nq == self.machine.queues().len(),
                quiet ==> self.machine.is_silent() && queues_idle(self.runtime) && actions@.len() == 0,
                all == prior@ + events@,
                events_handled(m, start, self.runtime, all.take(prior@.len() + j), ga, gd),
                actions@ == init_acts + ga,
                deferred@ == gd,
            decreases events@.len() - j,
        {
            let e = events[j];
            proof {
                assert(events@.take(j + 1) =~= events@.take(j as int).push(e));
                lemma_count_push(events@.take(j as int), Event::SendNormal, e);
            }
            let ghost rt_before = self.runtime;
            let ghost acts_before = actions@;
            let ghost defs_before = deferred@;
            self.handle_event(e, &mut actions, &mut deferred);
            proof {
                let (pick, allowed, a, d) = choose|pick: Option<usize>, allowed: usize, a: Seq<Action>, d: Seq<Event>|
                    {
                        &&& #[trigger] event_handled(m, rt_before, self.runtime, e, pick, allowed, a, d)
                        &&& actions@ == acts_before + a
                        &&& deferred@ == defs_before + d
                        &&& self.runtime.transitions_asked@ == rt_before.transitions_asked@
                            + transition_question(m, rt_before.state, e, pick)
                        &&& self.runtime.allowances_asked@ == rt_before.allowances_asked@
                            + allowance_question(m, rt_before.real_sent, e, allowed)
                    };
                let k = prior@.len() + j;
                lemma_events_handled_push(m, start, rt_before, self.runtime, all.take(k), e, ga, gd, pick, allowed, a, d);
                assert(all.take(k + 1) =~= all.take(k).push(e));
                ga = ga + a;
                gd = gd + d;
                assert(actions@ =~= init_acts + ga);
            }
            j = j + 1;
        }
        assert(events@.take(j as int) =~= events@);
        assert(all.take(prior@.len() + j) =~= all);
        let ghost mid = self.runtime;
        let ghost olds = self.runtime.queues@;
        let popped = self.runtime.pop_queues(now);
        proof {
            let news = self.runtime.queues@;
            lemma_popped_in_range(olds, news, olds.len() as int, nq);
            assert(runtime_fits(self.runtime, self.machine)) by {
                assert forall|q: int| 0 <= q < news.len() implies #[trigger] news[q].capacity()
                    == self.machine.queues()[q] by {
                    assert(news[q].capacity() == olds[q].capacity());
                }
                assert forall|q: int, i: int|
                    #![trigger news[q].items()[i]]
                    0 <= q < news.len() && 0 <= i < news[q].items().len() implies action_in_range(
                        news[q].items()[i].action,
                        nq,
                    ) by {
                    let k = olds[q].items().len() - news[q].items().len();
                    assert(olds[q].items() == olds[q].items().take(k) + news[q].items());
                    assert(news[q].items()[i] == olds[q].items()[k + i]);
                }
            }
            if quiet {
                assert forall|q: int| 0 <= q < news.len() implies (#[trigger] news[q]).items().len() == 0 by {
                    let o = olds[q];
                    let k = o.items().len() - news[q].items().len();
                    assert(o.items() == o.items().take(k) + news[q].items());
                }
                lemma_popped_idle(olds, news, olds.len() as int);
            }
        }
        proof {
            let news = self.runtime.queues@;
            assert forall|q: int, i: int|
                #![trigger news[q].items()[i]]
                0 <= q < news.len() && 0 <= i < news[q].items().len() implies news[q].items()[i].execute_at
                    >= now by {
                let o = olds[q];
                assert(!news[q].items()[0].spec_ready(now));
                if i > 0 {
                    assert(news[q].items()[0].spec_execute_at() <= news[q].items()[i].spec_execute_at());
                }
            }
        }
        let ghost after = self.runtime;
        let ghost news = self.runtime.queues@;
        let ghost acts_mid = actions@;
        let ghost defs_mid = deferred@;
        assert(popped@.take(0) =~= Seq::<(u8, Action)>::empty());
        assert(popped@.take(0).map_values(|x: (u8, Action)| x.1) =~= Seq::<Action>::empty());
        let mut p: usize = 0;
        while p < popped.len()
            invariant
                p <= popped@.len(),
                popped@ == popped_actions(olds, news, olds.len() as int),
                forall|x: int| 0 <= x < popped@.len() ==> action_in_range(#[trigger] popped@[x].1, nq),
                forall|x: int| 0 <= x < popped@.len() ==> #[trigger] popped@[x].0 < olds.len(),
                olds.len() == news.len(),
                self.runtime == after,
                news == after.queues@,
                all_in_range(actions@, nq),
                all_deferred(deferred@),
                quiet ==> popped@.len() == 0 && actions@.len() == 0 && queues_idle(self.runtime),
                actions@ == acts_mid + popped@.take(p as int).map_values(|x: (u8, Action)| x.1),
                deferred@ == defs_mid + pop_events(popped@.take(p as int), news),
            decreases popped@.len() - p,
        {
            let (idx, action) = popped[p];
            deferred.push(Event::QueuePopped(idx));
            if self.runtime.queues[idx as usize].is_empty() {
                deferred.push(Event::QueueEmpty(idx));
            }
            actions.push(action);
            proof {
                assert forall|i: int| 0 <= i < deferred@.len() implies spec_is_deferred(
                    #[trigger] deferred@[i],
                ) by {}
                assert forall|i: int| 0 <= i < actions@.len() implies action_in_range(
                    #[trigger] actions@[i],
                    nq,
                ) by {
                    if i < actions@.len() - 1 {
                        assert(actions@[i] == actions@.drop_last()[i]);
                    }
                }
                let t1 = popped@.take(p + 1);
                assert(t1.drop_last() =~= popped@.take(p as int));
                assert(t1.last() == (idx, action));
                assert(actions@ =~= acts_mid + t1.map_values(|x: (u8, Action)| x.1));
                assert(deferred@ =~= defs_mid + pop_events(t1, news));
            }
            p = p + 1;
        }
        proof {
            assert(popped@.take(p as int) =~= popped@);
            assert(self.runtime.deferred_events@ == Seq::<Event>::empty());
            assert(actions@ =~= init_acts + ga + popped_actions(olds, news, olds.len() as int).map_values(
                |x: (u8, Action)| x.1,
            ));
            assert(events_handled(m, start, mid, old(self).runtime.deferred_events@ + events@, ga, gd));
        }
        (actions, deferred)
    }

    /// Processes a batch of events at time `now`, then pops the queued actions that are ready.
    ///
    /// Events deferred by the previous round are handled before the given events. Framework
    /// actions are taken by the framework; only the integrator actions that the decoy budgets let
    /// through are returned, in order. Popping a queue defers a [`Event::QueuePopped`] event
    /// (and [`Event::QueueEmpty`] once it is empty) to the next round; entering a state with a
    /// budget of `0` defers a [`Event::StateBudgetExhausted`] event.
    pub fn process(&mut self, events: &[Event], now: u64) -> (r: Vec<IntegratorAction>)
        requires
            old(self).wf(),
        ensures
            final(self).wf(),
            queues_not_before(final(self).runtime, now),
            final(self).machine == old(self).machine,
            final(self).runtime.initialised,
            final(self).runtime.real_sent == saturating_add(
                old(self).runtime.real_sent,
                count_of(events@, Event::SendNormal),
            ),
            final(self).runtime.decoys_sent == saturating_add(
                old(self).runtime.decoys_sent,
                count_of(r@, IntegratorAction::SendDecoy),
            ),
            old(self).machine.budget() matches Some(MachineDecoyBudget::Absolute(max))
                ==> old(self).runtime.decoys_sent <= max ==> final(self).runtime.decoys_sent <= max,
            old(self).machine.is_silent() && queues_idle(old(self).runtime) ==> r@.len() == 0
                && queues_idle(final(self).runtime),
            processed(old(self).machine, old(self).runtime, events@, now, final(self).runtime, r@),
    {
        let ghost quiet = self.machine.is_silent() && queues_idle(self.runtime);
        let ghost m = self.machine;
        let (actions, deferred) = self.collect_actions(events, now);
        let ghost col = self.runtime;
        let ghost defs = deferred@;
        self.runtime.deferred_events = deferred;
        let ghost kept = self.runtime;
        proof {
            lemma_actions_taken_empty(m, kept, now);
            assert(actions@.take(0) =~= Seq::<Action>::empty());
        }
        let ghost nq = self.machine.queues().len();
        let ghost d0 = self.runtime.decoys_sent;
        let mut out: Vec<IntegratorAction> = Vec::new();
        let mut k: usize = 0;
        while k < actions.len()
            invariant
                k <= actions@.len(),
                self.wf(),
                self.machine == old(self).machine,
                nq == self.machine.queues().len(),
                all_in_range(actions@, nq),
                self.runtime.initialised,
                self.runtime.real_sent == saturating_add(
                    old(self).runtime.real_sent,
                    count_of(events@, Event::SendNormal),
                ),
                queues_not_before(self.runtime, now),
                d0 == old(self).runtime.decoys_sent,
                self.runtime.decoys_sent == saturating_add(d0, count_of(out@, IntegratorAction::SendDecoy)),
                old(self).machine.budget() matches Some(MachineDecoyBudget::Absolute(max))
                    ==> d0 <= max ==> self.runtime.decoys_sent <= max,
                quiet ==> actions@.len() == 0 && out@.len() == 0 && queues_idle(self.runtime),
                m == self.machine,
                actions_taken(m, kept, actions@.take(k as int), now, self.runtime, out@),
            decreases actions@.len() - k,
        {
            let a = actions[k];
            assert(action_in_range(actions@[k as int], nq));
            let ghost rt_before = self.runtime;
            let ghost out_before = out@;
            match a {
                Action::Framework(fa) => {
                    self.perform_action(fa, now);
                    proof {
                        assert(action_taken(m, rt_before, a, now, self.runtime, None));
                        lemma_actions_taken_push(m, kept, rt_before, self.runtime, actions@.take(k as int), a, now, out_before, None);
                    }
                },
                Action::Integrator(ia) => {
                    let ghost before = self.runtime;
                    let ghost old_out = out@;
                    let ok = self.apply_budget(ia);
                    if ok {
                        out.push(ia);
                    }
                    proof {
                        let allowed = choose|allowed: usize|
                            {
                                &&& #[trigger] budget_applied(before, self.runtime, self.machine.budget(), ia, allowed, ok)
                                &&& self.runtime.allowances_asked@ == before.allowances_asked@ + budget_question(
                                    self.machine.budget(),
                                    before.real_sent,
                                    ia,
                                    allowed,
                                )
                            };
                        let (pass, dd, bb, sb, evs) = budget_step(before, self.machine.budget(), ia, allowed);
                        assert(ok == pass);
                        assert(self.runtime.decoys_sent == dd);
                        if ok {
                            assert(out@ == old_out.push(ia));
                            lemma_count_push(old_out, IntegratorAction::SendDecoy, ia);
                        }
                        let passed = if ok {
                            Some(ia)
                        } else {
                            None
                        };
                        assert(budget_applied(before, self.runtime, m.budget(), ia, allowed, ok));
                        assert(action_taken(m, before, a, now, self.runtime, passed));
                        lemma_actions_taken_push(m, kept, before, self.runtime, actions@.take(k as int), a, now, out_before, passed);
                        assert(out@ =~= out_before + match passed {
                            Some(x) => seq![x],
                            None => Seq::<IntegratorAction>::empty(),
                        });
                        if ia == IntegratorAction::SendDecoy && pass {
                            assert(dd == saturating_add(before.decoys_sent, 1));
                        } else {
                            assert(dd == before.decoys_sent);
                        }
                        assert(all_deferred(evs));
                        assert(all_deferred(self.runtime.deferred_events@)) by {
                            assert forall|i: int| 0 <= i < self.runtime.deferred_events@.len() implies spec_is_deferred(
                                #[trigger] self.runtime.deferred_events@[i],
                            ) by {
                                if i >= before.deferred_events@.len() {
                                    assert(self.runtime.deferred_events@[i] == evs[i - before.deferred_events@.len()]);
                                }
                            }
                        }
                    }
                },
            }
            assert(actions@.take(k + 1) =~= actions@.take(k as int).push(a));
            k = k + 1;
        }
        proof {
            assert(actions@.take(k as int) =~= actions@);
            assert(kept.deferred_events@ == defs);
            assert(actions_collected(m, old(self).runtime, events@, now, col, actions@, defs));
            assert(actions_taken(m, kept, actions@, now, self.runtime, out@));
        }
        out
    }
}

proof fn lemma_count_le<T>(s: Seq<T>, x: T)
    ensures
        count_of(s, x) <= s.len(),
    decreases s.len(),
{
    if s.len() > 0 {
        lemma_count_le(s.drop_last(), x);
    }
}

} // verus!
