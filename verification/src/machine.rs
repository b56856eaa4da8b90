//! Machines: states with stochastic transitions and actions, a set of timed queues, and an
//! optional decoy budget; their validation.
//!
//! Probabilities are `f32`s and proportions are `f64`s; they are held as their IEEE-754 bit
//! patterns and compared here only where the comparison is with a constant.

use vstd::prelude::*;

use crate::action::{Action, FrameworkAction};
use crate::errors::{ValidationError, ValidationErrorView, inner_errors};
use crate::event::Event;

verus! {

/// The bit pattern of an `f32` in `0.0..=1.0`: a non-negative value up to `1.0` (bits
/// `0x3F80_0000`), or negative zero.
pub open spec fn prob_in_unit(bits: u32) -> bool {
    bits <= 0x3F80_0000u32 || bits == 0x8000_0000u32
}

/// The bit pattern of an `f64` below `0.0`: negative zero and NaNs are not.
pub open spec fn f64_is_negative(bits: u64) -> bool {
    0x8000_0000_0000_0000u64 < bits && bits <= 0xFFF0_0000_0000_0000u64
}

/// A stochastic transition to the state at `index` with probability `prob` (`f32` bits).
#[derive(Debug, Clone, Copy, PartialEq, Eq, Structural)]
pub struct Transition {
    /// The index of the state to transition to.
    pub index: usize,
    /// The probability of transitioning to that state, as `f32` bits.
    pub prob: u32,
}

impl Transition {
    /// Checks that a probability lies in `0.0..=1.0`.
    pub fn validate(prob: u32) -> (r: Result<(), ValidationError>)
        ensures
            r is Ok <==> prob_in_unit(prob),
            r is Err ==> r->Err_0@ == ValidationErrorView::BadTransitionProbs(prob),
    {
        if prob <= 0x3F80_0000u32 || prob == 0x8000_0000u32 {
            Ok(())
        } else {
            Err(ValidationError::BadTransitionProbs(prob))
        }
    }

    /// A transition, if its probability lies in `0.0..=1.0`.
    pub fn try_new(index: usize, prob: u32) -> (r: Result<Self, ValidationError>)
        ensures
            r is Ok <==> prob_in_unit(prob),
            r is Ok ==> r->Ok_0 == (Transition { index, prob }),
            r is Err ==> r->Err_0@ == ValidationErrorView::BadTransitionProbs(prob),
    {
        Self::validate(prob)?;
        Ok(Transition { index, prob })
    }
}

/// The transitions for each event, with each event's transitions gathered in the order given.
pub open spec fn merged_transitions(pairs: Seq<(Event, Vec<Transition>)>) -> Map<
    Event,
    Seq<Transition>,
>
    decreases pairs.len(),
{
    if pairs.len() == 0 {
        Map::empty()
    } else {
        let m = merged_transitions(pairs.drop_last());
        let e = pairs.last().0;
        let ts = pairs.last().1@;
        if m.contains_key(e) {
            m.insert(e, m[e] + ts)
        } else {
            m.insert(e, ts)
        }
    }
}

fn copy_transitions(v: &Vec<Transition>) -> (r: Vec<Transition>)
    ensures
        r@ == v@,
{
    let mut r: Vec<Transition> = Vec::new();
    let mut i: usize = 0;
    while i < v.len()
        invariant
            i <= v@.len(),
            r@ == v@.take(i as int),
        decreases v@.len() - i,
    {
        r.push(v[i]);
        i = i + 1;
        assert(r@ =~= v@.take(i as int));
    }
    assert(v@.take(i as int) =~= v@);
    r
}

/// The transition probabilities of a state: for each event, the transitions it can trigger.
#[derive(Debug, PartialEq)]
pub struct TransitionProbs {
    events: Vec<Event>,
    transitions: Vec<Vec<Transition>>,
}

impl TransitionProbs {
    #[verifier::type_invariant]
    closed spec fn inv(self) -> bool {
        &&& self.events@.len() == self.transitions@.len()
        &&& self.events@.no_duplicates()
    }

    /// For each event, its transitions.
    pub closed spec fn view_map(&self) -> Map<Event, Seq<Transition>> {
        Map::new(
            |e: Event| self.events@.contains(e),
            |e: Event| self.transitions@[self.events@.index_of(e)]@,
        )
    }

    /// The events that have transitions, in the order in which they were first given.
    pub closed spec fn events(&self) -> Seq<Event> {
        self.events@
    }

    /// The transitions of the `k`-th event of [`TransitionProbs::events`].
    pub closed spec fn transitions_at(&self, k: int) -> Seq<Transition> {
        self.transitions@[k]@
    }

    /// Gathers the given event-to-transitions pairs; transitions given for the same event more
    /// than once are joined in the order given.
    pub fn from_pairs(pairs: Vec<(Event, Vec<Transition>)>) -> (r: Self)
        ensures
            r.view_map() == merged_transitions(pairs@),
    {
        let mut events: Vec<Event> = Vec::new();
        let mut transitions: Vec<Vec<Transition>> = Vec::new();
        let mut i: usize = 0;
        while i < pairs.len()
            invariant
                i <= pairs@.len(),
                events@.len() == transitions@.len(),
                events@.no_duplicates(),
                forall|e: Event|
                    events@.contains(e) <==> #[trigger] merged_transitions(
                        pairs@.take(i as int),
                    ).contains_key(e),
                forall|k: int|
                    0 <= k < events@.len() ==> #[trigger] transitions@[k]@ == merged_transitions(
                        pairs@.take(i as int),
                    )[events@[k]],
            decreases pairs@.len() - i,
        {
            let e = pairs[i].0;
            let ghost prev = pairs@.take(i as int);
            assert(pairs@.take(i + 1).drop_last() =~= prev);
            let mut k: usize = 0;
            while k < events.len() && events[k] != e
                invariant
                    k <= events@.len(),
                    forall|j: int| 0 <= j < k ==> events@[j] != e,
                decreases events@.len() - k,
            {
                k = k + 1;
            }
            let ts = copy_transitions(&pairs[i].1);
            let ghost old_events = events@;
            if k < events.len() {
                let mut joined = copy_transitions(&transitions[k]);
                let mut more = ts;
                joined.append(&mut more);
                transitions.set(k, joined);
                proof {
                    assert(events@.contains(e));
                    assert forall|j: int| 0 <= j < events@.len() implies #[trigger] transitions@[j]@
                        == merged_transitions(pairs@.take(i + 1))[events@[j]] by {
                        if j != k {
                            assert(events@[j] != events@[k as int]);
                        }
                    }
                }
            } else {
                events.push(e);
                transitions.push(ts);
                proof {
                    assert(!merged_transitions(prev).contains_key(e)) by {
                        if merged_transitions(prev).contains_key(e) {
                            assert(events@.drop_last().contains(e));
                            let j = events@.drop_last().index_of(e);
                            assert(events@[j] == e);
                        }
                    }
                    assert forall|a: int, b: int|
                        0 <= a < b < events@.len() implies events@[a] != events@[b] by {
                        if b == events@.len() - 1 {
                            assert(events@[a] != e);
                        }
                    }
                    assert forall|j: int| 0 <= j < events@.len() implies #[trigger] transitions@[j]@
                        == merged_transitions(pairs@.take(i + 1))[events@[j]] by {
                        if j < events@.len() - 1 {
                            assert(events@[j] != e);
                        }
                    }
                }
            }
            proof {
                assert(events@ == old_events || events@ == old_events.push(e));
                assert(events@.contains(e)) by {
                    if events@ == old_events {
                        assert(events@[k as int] == e);
                    } else {
                        assert(events@[events@.len() - 1] == e);
                    }
                }
                assert forall|x: Event|
                    events@.contains(x) <==> #[trigger] merged_transitions(
                        pairs@.take(i + 1),
                    ).contains_key(x) by {
                    if x != e {
                        if events@.contains(x) {
                            let j = events@.index_of(x);
                            assert(events@[j] == x);
                            assert(old_events.contains(x)) by {
                                assert(old_events[j] == x);
                            }
                        }
                        if old_events.contains(x) {
                            let j = old_events.index_of(x);
                            assert(events@[j] == x);
                        }
                    }
                }
            }
            i = i + 1;
        }
        assert(pairs@.take(i as int) =~= pairs@);
        let r = TransitionProbs { events, transitions };
        proof {
            assert(r.view_map() =~= merged_transitions(pairs@)) by {
                assert forall|x: Event| #[trigger] r.view_map().contains_key(x) implies r.view_map()[x]
                    == merged_transitions(pairs@)[x] by {
                    let j = r.events@.index_of(x);
                    assert(r.events@[j] == x);
                }
            }
        }
        r
    }

    /// The transitions associated with the given event, if it has any.
    pub fn get(&self, event: Event) -> (r: Option<&Vec<Transition>>)
        ensures
            r is Some <==> self.view_map().contains_key(event),
            r is Some ==> r->Some_0@ == self.view_map()[event],
    {
        proof {
            use_type_invariant(self);
        }
        let mut k: usize = 0;
        while k < self.events.len()
            invariant
                k <= self.events@.len(),
                self.events@.len() == self.transitions@.len(),
                self.events@.no_duplicates(),
                forall|j: int| 0 <= j < k ==> self.events@[j] != event,
            decreases self.events@.len() - k,
        {
            if self.events[k] == event {
                proof {
                    assert(self.events@.contains(event));
                    let j = self.events@.index_of(event);
                    assert(self.events@[j] == event);
                    assert(j == k);
                }
                return Some(&self.transitions[k]);
            }
            k = k + 1;
        }
        None
    }

    /// The number of events that have transitions. The events are distinct and each has its
    /// transitions.
    pub fn num_events(&self) -> (r: usize)
        ensures
            r == self.events().len(),
            self.events().no_duplicates(),
            forall|k: int|
                0 <= k < self.events().len() ==> #[trigger] self.view_map()[self.events()[k]]
                    == self.transitions_at(k) && self.view_map().contains_key(self.events()[k]),
            forall|e: Event| #[trigger] self.view_map().contains_key(e) <==> self.events().contains(e),
    {
        proof {
            use_type_invariant(self);
            assert forall|k: int| 0 <= k < self.events().len() implies #[trigger] self.view_map()[self.events()[k]]
                == self.transitions_at(k) && self.view_map().contains_key(self.events()[k]) by {
                assert(self.events@.contains(self.events@[k]));
                let j = self.events@.index_of(self.events@[k]);
                assert(self.events@[j] == self.events@[k]);
            }
        }
        self.events.len()
    }

    /// A copy with the same events and transitions.
    pub fn copy(&self) -> (r: Self)
        ensures
            r.events() == self.events(),
            forall|k: int| 0 <= k < self.events().len() ==> r.transitions_at(k) == self.transitions_at(k),
            r.view_map() == self.view_map(),
    {
        proof {
            use_type_invariant(self);
        }
        let mut events: Vec<Event> = Vec::new();
        let mut transitions: Vec<Vec<Transition>> = Vec::new();
        let mut k: usize = 0;
        while k < self.events.len()
            invariant
                k <= self.events@.len(),
                self.events@.len() == self.transitions@.len(),
                events@ == self.events@.take(k as int),
                transitions@.len() == k,
                forall|j: int| 0 <= j < k ==> #[trigger] transitions@[j]@ == self.transitions@[j]@,
            decreases self.events@.len() - k,
        {
            events.push(self.events[k]);
            transitions.push(copy_transitions(&self.transitions[k]));
            k = k + 1;
            assert(events@ =~= self.events@.take(k as int));
        }
        assert(events@ =~= self.events@);
        let r = TransitionProbs { events, transitions };
        assert(r.view_map() =~= self.view_map());
        r
    }

    /// The transitions of the `k`-th event of [`TransitionProbs::events`].
    pub fn transitions_of(&self, k: usize) -> (r: &Vec<Transition>)
        requires
            k < self.events().len(),
        ensures
            r@ == self.transitions_at(k as int),
    {
        proof {
            use_type_invariant(self);
        }
        &self.transitions[k]
    }
}

/// A single state of a machine.
#[derive(Debug, Clone, PartialEq)]
pub struct State {
    /// The probabilities of transitioning to other states of the machine.
    pub trans_probs: Option<TransitionProbs>,
    /// The actions to take on transitioning to this state, in order.
    pub actions: Vec<Action>,
    /// The number of decoys this state can send via self-transition (includes the initial
    /// transition to this state).
    pub decoy_budget: Option<usize>,
}

impl State {
    /// A state with the given transitions, actions on transition, and decoy budget.
    pub fn new(
        trans_probs: Option<TransitionProbs>,
        actions: Vec<Action>,
        decoy_budget: Option<usize>,
    ) -> (r: Self)
        ensures
            r.trans_probs == trans_probs,
            r.actions == actions,
            r.decoy_budget == decoy_budget,
    {
        State { trans_probs, actions, decoy_budget }
    }
}

/// A machine's decoy budget.
#[derive(Debug, Clone, Copy, PartialEq, Eq, Structural)]
pub enum MachineDecoyBudget {
    /// The machine can only send up to this many decoy packets before getting limited.
    Absolute(usize),
    /// The machine can only send this proportion (`f64` bits) of real traffic as decoys before
    /// getting limited.
    Proportion(u64),
}

/// The target indices of transitions that lead to no state of `n` states (index `n` or above).
pub open spec fn bad_targets_list(ts: Seq<Transition>, n: usize) -> Seq<usize>
    decreases ts.len(),
{
    if ts.len() == 0 {
        Seq::empty()
    } else {
        bad_targets_list(ts.drop_last(), n) + if ts.last().index >= n {
            seq![ts.last().index]
        } else {
            Seq::empty()
        }
    }
}

/// [`bad_targets_list`] over the transitions of the first `k` events of `tp`.
pub open spec fn bad_targets_probs(tp: TransitionProbs, k: int, n: usize) -> Seq<usize>
    decreases k,
{
    if k <= 0 {
        Seq::empty()
    } else {
        bad_targets_probs(tp, k - 1, n) + bad_targets_list(tp.transitions_at(k - 1), n)
    }
}

/// [`bad_targets_list`] over a state's transitions, event by event.
pub open spec fn bad_targets_state(s: State, n: usize) -> Seq<usize> {
    match s.trans_probs {
        None => Seq::empty(),
        Some(tp) => bad_targets_probs(tp, tp.events().len() as int, n),
    }
}

/// [`bad_targets_state`] over states, in order.
pub open spec fn bad_targets(states: Seq<State>, n: usize) -> Seq<usize>
    decreases states.len(),
{
    if states.len() == 0 {
        Seq::empty()
    } else {
        bad_targets(states.drop_last(), n) + bad_targets_state(states.last(), n)
    }
}

/// The queue a framework action acts on, if it is past the last of `q` queues (index above `q`).
pub open spec fn bad_queue_of(a: Action, q: u8) -> Seq<u8> {
    match a {
        Action::Framework(FrameworkAction::Schedule { queue, .. }) => if queue > q {
            seq![queue]
        } else {
            Seq::empty()
        },
        Action::Framework(FrameworkAction::CancelQueue(queue)) => if queue > q {
            seq![queue]
        } else {
            Seq::empty()
        },
        _ => Seq::empty(),
    }
}

/// [`bad_queue_of`] over actions, in order.
pub open spec fn bad_queues_actions(actions: Seq<Action>, q: u8) -> Seq<u8>
    decreases actions.len(),
{
    if actions.len() == 0 {
        Seq::empty()
    } else {
        bad_queues_actions(actions.drop_last(), q) + bad_queue_of(actions.last(), q)
    }
}

/// [`bad_queues_actions`] over the actions of states, in order.
pub open spec fn bad_queues(states: Seq<State>, q: u8) -> Seq<u8>
    decreases states.len(),
{
    if states.len() == 0 {
        Seq::empty()
    } else {
        bad_queues(states.drop_last(), q) + bad_queues_actions(states.last().actions@, q)
    }
}

/// The validation errors of a machine with at least one state and at most 255 queues, in order:
/// transitions to invalid states, actions on invalid queues, a negative proportional budget.
pub open spec fn machine_errors(
    states: Seq<State>,
    queues: u8,
    budget: Option<MachineDecoyBudget>,
) -> Seq<ValidationErrorView> {
    let t = bad_targets(states, states.len() as usize);
    let q = bad_queues(states, queues);
    (if t.len() > 0 {
        seq![ValidationErrorView::TransitionToInvalidState(t)]
    } else {
        Seq::empty()
    }) + (if q.len() > 0 {
        seq![ValidationErrorView::InvalidStateActionQueue(q)]
    } else {
        Seq::empty()
    }) + (match budget {
        Some(MachineDecoyBudget::Proportion(p)) => if f64_is_negative(p) {
            seq![ValidationErrorView::NegativeProportion(p)]
        } else {
            Seq::empty()
        },
        _ => Seq::empty(),
    })
}

/// What validating a machine gives: `Ok`, or the one error, or several errors together.
pub open spec fn validation_ok(
    states: Seq<State>,
    queues: usize,
    budget: Option<MachineDecoyBudget>,
    r: Result<(), ValidationError>,
) -> bool {
    if queues > 255 {
        r is Err && r->Err_0@ == ValidationErrorView::TooManyQueues(queues)
    } else if states.len() == 0 {
        r is Err && r->Err_0@ == ValidationErrorView::NoStates
    } else {
        let errs = machine_errors(states, queues as u8, budget);
        if errs.len() == 0 {
            r is Ok
        } else if errs.len() == 1 {
            r is Err && r->Err_0@ == errs[0]
        } else {
            r is Err && r->Err_0@ == ValidationErrorView::Multiple && inner_errors(r->Err_0)
                == errs
        }
    }
}

fn collect_bad_targets(states: &Vec<State>, n: usize) -> (r: Vec<usize>)
    ensures
        r@ == bad_targets(states@, n),
{
    let mut out: Vec<usize> = Vec::new();
    let mut i: usize = 0;
    while i < states.len()
        invariant
            i <= states@.len(),
            out@ == bad_targets(states@.take(i as int), n),
        decreases states@.len() - i,
    {
        assert(states@.take(i + 1).drop_last() =~= states@.take(i as int));
        let ghost before = out@;
        match &states[i].trans_probs {
            None => {},
            Some(tp) => {
                let mut k: usize = 0;
                while k < tp.num_events()
                    invariant
                        k <= tp.events().len(),
                        out@ == before + bad_targets_probs(*tp, k as int, n),
                    decreases tp.events().len() - k,
                {
                    let ts = tp.transitions_of(k);
                    let ghost before_list = out@;
                    let mut j: usize = 0;
                    while j < ts.len()
                        invariant
                            j <= ts@.len(),
                            ts@ == tp.transitions_at(k as int),
                            out@ == before_list + bad_targets_list(ts@.take(j as int), n),
                        decreases ts@.len() - j,
                    {
                        assert(ts@.take(j + 1).drop_last() =~= ts@.take(j as int));
                        if ts[j].index >= n {
                            out.push(ts[j].index);
                        }
                        j = j + 1;
                        assert(out@ =~= before_list + bad_targets_list(ts@.take(j as int), n));
                    }
                    assert(ts@.take(j as int) =~= ts@);
                    k = k + 1;
                    assert(out@ =~= before + bad_targets_probs(*tp, k as int, n));
                }
            },
        }
        i = i + 1;
        assert(out@ =~= bad_targets(states@.take(i as int), n));
    }
    assert(states@.take(i as int) =~= states@);
    out
}

fn collect_bad_queues(states: &Vec<State>, q: u8) -> (r: Vec<u8>)
    ensures
        r@ == bad_queues(states@, q),
{
    let mut out: Vec<u8> = Vec::new();
    let mut i: usize = 0;
    while i < states.len()
        invariant
            i <= states@.len(),
            out@ == bad_queues(states@.take(i as int), q),
        decreases states@.len() - i,
    {
        assert(states@.take(i + 1).drop_last() =~= states@.take(i as int));
        let actions = &states[i].actions;
        let ghost before = out@;
        let mut j: usize = 0;
        while j < actions.len()
            invariant
                j <= actions@.len(),
                out@ == before + bad_queues_actions(actions@.take(j as int), q),
            decreases actions@.len() - j,
        {
            assert(actions@.take(j + 1).drop_last() =~= actions@.take(j as int));
            match actions[j] {
                Action::Framework(FrameworkAction::Schedule { queue, .. }) => {
                    if queue > q {
                        out.push(queue);
                    }
                },
                Action::Framework(FrameworkAction::CancelQueue(queue)) => {
                    if queue > q {
                        out.push(queue);
                    }
                },
                _ => {},
            }
            j = j + 1;
            assert(out@ =~= before + bad_queues_actions(actions@.take(j as int), q));
        }
        assert(actions@.take(j as int) =~= actions@);
        i = i + 1;
        assert(out@ =~= bad_queues(states@.take(i as int), q));
    }
    assert(states@.take(i as int) =~= states@);
    out
}

/// A framework action that acts on a queue acts on one of the first `nq` queues.
pub open spec fn action_in_range(a: Action, nq: nat) -> bool {
    match a {
        Action::Framework(FrameworkAction::Schedule { queue, .. }) => queue < nq,
        Action::Framework(FrameworkAction::CancelQueue(queue)) => queue < nq,
        _ => true,
    }
}

/// Every transition of the state leads to one of the first `ns` states, and every action of the
/// state acts on one of the first `nq` queues.
pub open spec fn state_in_range(s: State, ns: nat, nq: nat) -> bool {
    &&& forall|i: int| 0 <= i < s.actions@.len() ==> action_in_range(#[trigger] s.actions@[i], nq)
    &&& s.trans_probs matches Some(tp) ==> forall|e: Event, j: int|
        #![trigger tp.view_map()[e][j]]
        tp.view_map().contains_key(e) && 0 <= j < tp.view_map()[e].len() ==> tp.view_map()[e][j].index
            < ns
}

fn copy_actions(v: &Vec<Action>) -> (r: Vec<Action>)
    ensures
        r@ == v@,
{
    let mut r: Vec<Action> = Vec::new();
    let mut i: usize = 0;
    while i < v.len()
        invariant
            i <= v@.len(),
            r@ == v@.take(i as int),
        decreases v@.len() - i,
    {
        r.push(v[i]);
        i = i + 1;
        assert(r@ =~= v@.take(i as int));
    }
    assert(v@.take(i as int) =~= v@);
    r
}

impl State {
    /// A copy with the same transitions, actions and budget.
    pub fn copy(&self) -> (r: Self)
        ensures
            r.actions@ == self.actions@,
            r.decoy_budget == self.decoy_budget,
            r.trans_probs is Some == self.trans_probs is Some,
            r.trans_probs is Some ==> r.trans_probs->Some_0.view_map()
                == self.trans_probs->Some_0.view_map() && r.trans_probs->Some_0.events()
                == self.trans_probs->Some_0.events(),
    {
        let trans_probs = match &self.trans_probs {
            Some(tp) => Some(tp.copy()),
            None => None,
        };
        State { trans_probs, actions: copy_actions(&self.actions), decoy_budget: self.decoy_budget }
    }

    /// Whether every transition leads to one of the first `ns` states and every action acts on
    /// one of the first `nq` queues.
    pub fn in_range(&self, ns: usize, nq: usize) -> (r: bool)
        ensures
            r == state_in_range(*self, ns as nat, nq as nat),
    {
        let mut i: usize = 0;
        while i < self.actions.len()
            invariant
                i <= self.actions@.len(),
                forall|j: int| 0 <= j < i ==> action_in_range(#[trigger] self.actions@[j], nq as nat),
            decreases self.actions@.len() - i,
        {
            let ok = match self.actions[i] {
                Action::Framework(FrameworkAction::Schedule { queue, .. }) => (queue as usize) < nq,
                Action::Framework(FrameworkAction::CancelQueue(queue)) => (queue as usize) < nq,
                _ => true,
            };
            if !ok {
                return false;
            }
            i = i + 1;
        }
        match &self.trans_probs {
            None => true,
            Some(tp) => {
                let n = tp.num_events();
                let mut k: usize = 0;
                while k < n
                    invariant
                        k <= n,
                        self.trans_probs == Some(*tp),
                        n == tp.events().len(),
                        tp.events().no_duplicates(),
                        forall|x: int|
                            0 <= x < tp.events().len() ==> #[trigger] tp.view_map()[tp.events()[x]]
                                == tp.transitions_at(x) && tp.view_map().contains_key(tp.events()[x]),
                        forall|e: Event| #[trigger] tp.view_map().contains_key(e) <==> tp.events().contains(e),
                        forall|x: int, j: int|
                            0 <= x < k && 0 <= j < tp.transitions_at(x).len()
                                ==> #[trigger] tp.transitions_at(x)[j].index < ns,
                    decreases n - k,
                {
                    let ts = tp.transitions_of(k);
                    let mut j: usize = 0;
                    while j < ts.len()
                        invariant
                            j <= ts@.len(),
                            self.trans_probs == Some(*tp),
                            k < tp.events().len(),
                            ts@ == tp.transitions_at(k as int),
                            tp.view_map()[tp.events()[k as int]] == tp.transitions_at(k as int),
                            tp.view_map().contains_key(tp.events()[k as int]),
                            forall|y: int| 0 <= y < j ==> #[trigger] ts@[y].index < ns,
                        decreases ts@.len() - j,
                    {
                        if ts[j].index >= ns {
                            proof {
                                let e = tp.events()[k as int];
                                assert(tp.view_map().contains_key(e));
                                assert(0 <= j < tp.view_map()[e].len());
                                assert(tp.view_map()[e][j as int].index >= ns);
                                assert(self.trans_probs == Some(*tp));
                                let stp = self.trans_probs->Some_0;
                                assert(stp == *tp);
                                assert(!(forall|e2: Event, j2: int|
                                    #![trigger stp.view_map()[e2][j2]]
                                    stp.view_map().contains_key(e2) && 0 <= j2 < stp.view_map()[e2].len()
                                        ==> stp.view_map()[e2][j2].index < ns));
                                assert(!state_in_range(*self, ns as nat, nq as nat));
                            }
                            return false;
                        }
                        j = j + 1;
                    }
                    k = k + 1;
                }
                proof {
                    assert forall|e: Event, j: int|
                        tp.view_map().contains_key(e) && 0 <= j < tp.view_map()[e].len()
                            implies #[trigger] tp.view_map()[e][j].index < ns by {
                        let x = tp.events().index_of(e);
                        assert(tp.events()[x] == e);
                        assert(tp.transitions_at(x)[j].index < ns);
                    }
                }
                true
            },
        }
    }
}

/// A queue machine: states with transitions and actions, queues with optional capacities, and an
/// optional decoy budget. Made only through [`Machine::try_new`], so it has at least one state and
/// at most 255 queues.
#[derive(Debug, PartialEq)]
pub struct Machine {
    states: Vec<State>,
    queues: Vec<Option<usize>>,
    budget: Option<MachineDecoyBudget>,
}

impl Machine {
    #[verifier::type_invariant]
    closed spec fn inv(self) -> bool {
        &&& self.states@.len() > 0
        &&& self.queues@.len() <= 255
    }

    /// Every transition leads to a state of the machine, and every action acts on one of its
    /// queues, so that the machine can run without going out of range.
    pub open spec fn runnable(&self) -> bool {
        &&& self.states().len() > 0
        &&& self.queues().len() <= 255
        &&& forall|i: int|
            0 <= i < self.states().len() ==> state_in_range(
                #[trigger] self.states()[i],
                self.states().len(),
                self.queues().len(),
            )
    }

    /// No state has actions: running the machine never schedules, sends, blocks or releases
    /// anything.
    pub open spec fn is_silent(&self) -> bool {
        forall|i: int| 0 <= i < self.states().len() ==> (#[trigger] self.states()[i]).actions@.len() == 0
    }

    /// The states; the first is the initial state.
    pub closed spec fn states(&self) -> Seq<State> {
        self.states@
    }

    /// The capacities of the queues ([`None`] for unlimited).
    pub closed spec fn queues(&self) -> Seq<Option<usize>> {
        self.queues@
    }

    /// The decoy budget.
    pub closed spec fn budget(&self) -> Option<MachineDecoyBudget> {
        self.budget
    }

    /// Validates states and a number of queues: at most 255 queues; at least one state;
    /// transitions must lead to states of the machine; state actions must not act on queues past the
    /// last; a proportional budget must not be negative. All errors of the last three kinds are
    /// reported, together if there are several.
    pub fn validate(states: &Vec<State>, queues: usize, budget: Option<MachineDecoyBudget>) -> (r:
        Result<(), ValidationError>)
        ensures
            validation_ok(states@, queues, budget, r),
    {
        if queues > 255 {
            return Err(ValidationError::TooManyQueues(queues));
        }
        let q = queues as u8;
        let num_states = states.len();
        if num_states == 0 {
            return Err(ValidationError::NoStates);
        }
        let mut errors: Vec<ValidationError> = Vec::new();
        let bad_t = collect_bad_targets(states, num_states);
        if bad_t.len() > 0 {
            errors.push(ValidationError::TransitionToInvalidState(bad_t));
        }
        let bad_q = collect_bad_queues(states, q);
        if bad_q.len() > 0 {
            errors.push(ValidationError::InvalidStateActionQueue(bad_q));
        }
        match budget {
            Some(MachineDecoyBudget::Proportion(p)) => {
                if 0x8000_0000_0000_0000u64 < p && p <= 0xFFF0_0000_0000_0000u64 {
                    errors.push(ValidationError::NegativeProportion(p));
                }
            },
            _ => {},
        }
        let ghost errs = machine_errors(states@, q, budget);
        assert(errors@.map_values(|x: ValidationError| x@) =~= errs);
        if errors.len() == 0 {
            Ok(())
        } else if errors.len() == 1 {
            let e = errors.pop().unwrap();
            Err(e)
        } else {
            Err(ValidationError::Multiple(errors))
        }
    }

    /// A machine with the given states, queue capacities ([`None`] for unlimited) and budget, if
    /// [`Machine::validate`] accepts them.
    pub fn try_new(
        states: Vec<State>,
        queues: Vec<Option<usize>>,
        budget: Option<MachineDecoyBudget>,
    ) -> (r: Result<Self, ValidationError>)
        ensures
            validation_ok(
                states@,
                queues@.len() as usize,
                budget,
                match r {
                    Ok(_) => Ok(()),
                    Err(e) => Err(e),
                },
            ),
            r is Ok ==> r->Ok_0.states() == states@ && r->Ok_0.queues() == queues@
                && r->Ok_0.budget() == budget,
    {
        Self::validate(&states, queues.len(), budget)?;
        Ok(Machine { states, queues, budget })
    }

    /// Whether the machine is [`Machine::runnable`]: every transition leads to one of its states
    /// and every action acts on one of its queues. (Validation lets an action act on the index
    /// just past the last queue.)
    pub fn is_runnable(&self) -> (r: bool)
        ensures
            r == self.runnable(),
    {
        proof {
            use_type_invariant(self);
        }
        let ns = self.states.len();
        let nq = self.queues.len();
        let mut i: usize = 0;
        while i < ns
            invariant
                i <= ns,
                ns == self.states@.len(),
                nq == self.queues@.len(),
                forall|j: int| 0 <= j < i ==> state_in_range(#[trigger] self.states@[j], ns as nat, nq as nat),
            decreases ns - i,
        {
            if !self.states[i].in_range(ns, nq) {
                return false;
            }
            i = i + 1;
        }
        true
    }

    /// The number of states.
    pub fn num_states(&self) -> (r: usize)
        ensures
            r == self.states().len(),
            r > 0,
    {
        proof {
            use_type_invariant(self);
        }
        self.states.len()
    }

    /// The state at `index`.
    pub fn state(&self, index: usize) -> (r: &State)
        requires
            index < self.states().len(),
        ensures
            *r == self.states()[index as int],
    {
        &self.states[index]
    }

    /// The queue capacities ([`None`] for unlimited).
    pub fn queue_capacities(&self) -> (r: &Vec<Option<usize>>)
        ensures
            r@ == self.queues(),
            r@.len() <= 255,
    {
        proof {
            use_type_invariant(self);
        }
        &self.queues
    }

    /// The decoy budget.
    pub fn get_budget(&self) -> (r: Option<MachineDecoyBudget>)
        ensures
            r == self.budget(),
    {
        self.budget
    }
}

impl Clone for Machine {
    fn clone(&self) -> (r: Self)
        ensures
            r.queues() == self.queues(),
            r.budget() == self.budget(),
            r.states().len() == self.states().len(),
    {
        proof {
            use_type_invariant(self);
        }
        let mut states: Vec<State> = Vec::new();
        let mut i: usize = 0;
        while i < self.states.len()
            invariant
                i <= self.states@.len(),
                states@.len() == i,
            decreases self.states@.len() - i,
        {
            states.push(self.states[i].copy());
            i = i + 1;
        }
        let mut queues: Vec<Option<usize>> = Vec::new();
        let mut j: usize = 0;
        while j < self.queues.len()
            invariant
                j <= self.queues@.len(),
                queues@ == self.queues@.take(j as int),
            decreases self.queues@.len() - j,
        {
            queues.push(self.queues[j]);
            j = j + 1;
            assert(queues@ =~= self.queues@.take(j as int));
        }
        assert(queues@ =~= self.queues@);
        Machine { states, queues, budget: self.budget }
    }
}

impl Clone for TransitionProbs {
    fn clone(&self) -> (r: Self)
        ensures
            r.events() == self.events(),
            r.view_map() == self.view_map(),
    {
        self.copy()
    }
}

} // verus!
