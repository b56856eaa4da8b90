use chaff::action::{Action, Distr, DistrKind, FrameworkAction, IntegratorAction};
use chaff::event::Event;
use chaff::framework::{Framework, Sampler};
use chaff::machine::{Machine, MachineDecoyBudget, State, Transition, TransitionProbs};
use chaff::queue::{QueuePushStatus, TimedAction};

/// Samples constant delays exactly and rolls transitions with `rand`.
struct TestSampler;

impl Sampler for TestSampler {
    fn sample_delay(&mut self, delay: &Distr) -> u64 {
        let base = match delay.kind {
            DistrKind::Constant(bits) => f64::from_bits(bits),
            _ => panic!("only constant delays are used here"),
        };
        let mut v = f64::from_bits(delay.offset) + base;
        if let Some(min) = delay.min {
            v = v.max(f64::from_bits(min));
        }
        if let Some(max) = delay.max {
            v = v.min(f64::from_bits(max));
        }
        std::time::Duration::from_secs_f64(v.max(0.0)).as_micros() as u64
    }

    fn choose_transition(&mut self, transitions: &Vec<Transition>) -> Option<usize> {
        let mut roll: f32 = rand::random();
        for (i, t) in transitions.iter().enumerate() {
            let p = f32::from_bits(t.prob);
            if roll < p {
                return Some(i);
            }
            roll -= p;
        }
        None
    }

    fn allowed_decoys(&mut self, proportion: u64, real_sent: usize) -> usize {
        (f64::from_bits(proportion) * real_sent as f64).ceil() as usize
    }
}

const NOW: u64 = 1_000_000;

fn secs(s: f64) -> Distr {
    Distr::of_kind(DistrKind::Constant(s.to_bits()))
}

fn probs(pairs: Vec<(Event, Vec<(usize, f32)>)>) -> TransitionProbs {
    TransitionProbs::from_pairs(
        pairs
            .into_iter()
            .map(|(e, ts)| {
                (
                    e,
                    ts.into_iter()
                        .map(|(i, p)| Transition::try_new(i, p.to_bits()).unwrap())
                        .collect(),
                )
            })
            .collect(),
    )
}

fn to(e: Event, target: usize) -> (Event, Vec<(usize, f32)>) {
    (e, vec![(target, 1.0)])
}

fn state(transitions: Vec<(Event, Vec<(usize, f32)>)>, actions: Vec<Action>, budget: Option<usize>) -> State {
    let tp = if transitions.is_empty() { None } else { Some(probs(transitions)) };
    State::new(tp, actions, budget)
}

fn framework(states: Vec<State>, queues: Vec<Option<usize>>, budget: Option<MachineDecoyBudget>) -> Framework<TestSampler> {
    let machine = Machine::try_new(states, queues, budget).unwrap();
    assert!(machine.is_runnable());
    Framework::new(machine, TestSampler)
}

fn decoy_at(t: u64) -> TimedAction {
    TimedAction { execute_at: t, action: IntegratorAction::SendDecoy.into() }
}

fn queued(fw: &Framework<TestSampler>, q: usize) -> usize {
    fw.runtime.queues[q].len()
}

#[test]
fn test_get_trans_probs() {
    let fw = framework(
        vec![
            state(vec![(Event::SendNormal, vec![(1, 0.5)])], vec![IntegratorAction::SendDecoy.into()], None),
            state(vec![], vec![IntegratorAction::SendDecoy.into()], None),
        ],
        vec![],
        None,
    );
    assert_eq!(*fw.get_trans_probs().unwrap(), probs(vec![(Event::SendNormal, vec![(1, 0.5)])]));
    assert_eq!(fw.get_state(), 0);
}

#[test]
fn test_trigger_and_get_trans_probs() {
    let mut fw = framework(
        vec![
            state(vec![to(Event::SendNormal, 1)], vec![IntegratorAction::SendDecoy.into()], None),
            state(vec![], vec![IntegratorAction::SendDecoy.into()], None),
        ],
        vec![],
        None,
    );
    assert_eq!(*fw.get_trans_probs().unwrap(), probs(vec![to(Event::SendNormal, 1)]));
    assert_eq!(fw.get_state(), 0);

    fw.process(&[Event::SendNormal], NOW);

    assert!(fw.get_trans_probs().is_none());
    assert_eq!(fw.get_state(), 1);
}

#[test]
fn test_trigger_with_0_trans_probs() {
    let mut fw = framework(
        vec![
            state(vec![(Event::SendNormal, vec![(1, 0.0)])], vec![IntegratorAction::SendDecoy.into()], None),
            state(vec![], vec![FrameworkAction::CancelAll.into()], None),
        ],
        vec![],
        None,
    );
    fw.process(&[Event::SendNormal], NOW);
    assert_eq!(*fw.get_trans_probs().unwrap(), probs(vec![(Event::SendNormal, vec![(1, 0.0)])]));
    assert_eq!(fw.get_state(), 0);
}

#[test]
fn test_get_trans_probs_state_with_no_trans_probs() {
    let fw = framework(vec![state(vec![], vec![IntegratorAction::SendDecoy.into()], None)], vec![], None);
    assert!(fw.get_trans_probs().is_none());
    assert_eq!(fw.get_state(), 0);
}

#[test]
fn test_trigger_events_no_matching_event() {
    let mut fw = framework(
        vec![
            state(vec![to(Event::SendNormal, 1)], vec![], None),
            state(vec![], vec![IntegratorAction::SendDecoy.into()], None),
        ],
        vec![],
        None,
    );
    let actions = fw.process(&[Event::ReceiveNormal], NOW);
    assert!(actions.is_empty());
    assert_eq!(fw.get_state(), 0);
}

#[test]
fn test_perform_action_cancel_all() {
    let mut fw = framework(
        vec![
            state(vec![to(Event::SendNormal, 1)], vec![IntegratorAction::SendDecoy.into()], None),
            state(vec![], vec![FrameworkAction::CancelAll.into()], None),
        ],
        vec![None, None],
        None,
    );
    let far_future = NOW + 9999 * 1_000_000;
    for queue in &mut fw.runtime.queues {
        let _ = queue.push(decoy_at(far_future));
    }
    fw.process(&[Event::SendNormal], NOW);
    for queue in &fw.runtime.queues {
        assert!(queue.is_empty());
    }
}

#[test]
fn test_perform_action_cancel_queue() {
    let mut fw = framework(
        vec![
            state(vec![to(Event::SendNormal, 1)], vec![IntegratorAction::SendDecoy.into()], None),
            state(vec![], vec![FrameworkAction::CancelQueue(0).into()], None),
        ],
        vec![None, None],
        None,
    );
    let far_future = NOW + 999 * 1_000_000;
    for queue in &mut fw.runtime.queues {
        let _ = queue.push(decoy_at(far_future));
    }
    fw.process(&[Event::SendNormal], NOW);
    assert!(fw.runtime.queues[0].is_empty(), "queue 0 should have been cancelled");
    assert!(!fw.runtime.queues[1].is_empty(), "other queues should not have been affected");
}

#[test]
fn test_perform_action_schedule() {
    let mut fw = framework(
        vec![
            state(vec![to(Event::SendNormal, 1)], vec![], None),
            state(
                vec![],
                vec![FrameworkAction::schedule(IntegratorAction::SendDecoy, 0, secs(999.0)).into()],
                None,
            ),
        ],
        vec![None],
        None,
    );
    let actions = fw.process(&[Event::SendNormal], NOW);
    assert!(actions.is_empty());
    let queued = fw.runtime.queues[0].pop_ready(u64::MAX);
    assert_eq!(queued.len(), 1, "expected something to be queued.");
    assert_eq!(queued[0].action, IntegratorAction::SendDecoy.into());
    assert_eq!(queued[0].execute_at, NOW + 999_000_000);
}

#[test]
fn test_perform_action_schedule_far_doesnt_pop() {
    let mut fw = framework(
        vec![
            state(vec![to(Event::SendNormal, 1)], vec![], None),
            state(
                vec![],
                vec![FrameworkAction::schedule(IntegratorAction::SendDecoy, 0, secs(999.0)).into()],
                None,
            ),
        ],
        vec![None],
        None,
    );
    let actions = fw.process(&[Event::SendNormal], NOW);
    assert!(!actions.contains(&IntegratorAction::SendDecoy), "far future action should not fire yet");
    assert!(!fw.runtime.queues[0].is_empty(), "action should still be sitting in the queue");
}

#[test]
fn test_perform_action_cancel_all_via_queue() {
    let mut fw = framework(vec![state(vec![], vec![IntegratorAction::SendDecoy.into()], None)], vec![None; 3], None);
    let _ = fw.runtime.queues[0].push(TimedAction { execute_at: NOW, action: FrameworkAction::CancelAll.into() });
    let far_future = NOW + 999 * 1_000_000;
    for queue in &mut fw.runtime.queues[1..] {
        let _ = queue.push(decoy_at(far_future));
    }
    fw.process(&[], NOW);
    for queue in &fw.runtime.queues {
        assert!(queue.is_empty(), "queues should have been cancelled");
    }
}

#[test]
fn test_perform_action_cancel_queue_via_queue() {
    let mut fw = framework(vec![state(vec![], vec![IntegratorAction::SendDecoy.into()], None)], vec![None, None], None);
    let _ = fw.runtime.queues[0].push(TimedAction { execute_at: NOW, action: FrameworkAction::CancelQueue(0).into() });
    let _ = fw.runtime.queues[1].push(decoy_at(NOW + 9999 * 1_000_000));
    fw.process(&[], NOW);
    assert!(fw.runtime.queues[0].is_empty(), "queue 0 should have been cancelled");
    assert!(!fw.runtime.queues[1].is_empty(), "other queues should not have been affected");
}

#[test]
fn test_perform_action_schedule_via_queue() {
    let mut fw = framework(vec![state(vec![], vec![], None)], vec![None, None], None);
    let _ = fw.runtime.queues[0].push(TimedAction {
        execute_at: NOW,
        action: FrameworkAction::schedule(IntegratorAction::SendDecoy, 1, secs(0.0)).into(),
    });
    let actions = fw.process(&[], NOW);
    assert!(actions.is_empty());
    let actions = fw.process(&[], NOW);
    assert!(!actions.is_empty());
    assert_eq!(actions[0], IntegratorAction::SendDecoy);
}

#[test]
fn test_deferred_queue_popped_event_ordering() {
    let mut fw = framework(
        vec![
            state(vec![to(Event::QueuePopped(0), 1)], vec![], None),
            state(vec![], vec![IntegratorAction::ReleaseBlock.into()], None),
        ],
        vec![None],
        None,
    );
    let _ = fw.runtime.queues[0].push(decoy_at(NOW));
    let actions = fw.process(&[], NOW);
    assert_eq!(actions.len(), 1);
    assert_eq!(actions[0], IntegratorAction::SendDecoy);
    assert_eq!(fw.get_state(), 0, "state should not change in the same tick as the pop");
    assert_eq!(
        fw.runtime.deferred_events,
        [Event::QueuePopped(0), Event::QueueEmpty(0)],
        "queue pop and queue empty event should be deferred"
    );

    let actions = fw.process(&[], NOW);
    assert_eq!(fw.get_state(), 1, "state should have transitioned in the second call");
    assert_eq!(actions.len(), 1);
    assert_eq!(actions[0], IntegratorAction::ReleaseBlock);
    assert!(fw.runtime.deferred_events.is_empty());
}

#[test]
fn test_deferred_events_happen_before_new_events() {
    let mut fw = framework(
        vec![
            state(vec![to(Event::QueuePopped(0), 1)], vec![IntegratorAction::SendDecoy.into()], None),
            state(vec![to(Event::SendNormal, 2)], vec![IntegratorAction::SendDecoy.into()], None),
            state(vec![], vec![IntegratorAction::ReleaseBlock.into()], None),
        ],
        vec![None],
        None,
    );
    let _ = fw.runtime.queues[0].push(decoy_at(NOW));
    fw.process(&[], NOW);
    fw.process(&[Event::SendNormal], NOW);
    assert_eq!(fw.get_state(), 2, "should have processed deferred event then new event to reach state 2");
}

#[test]
fn test_framework_action_schedule_samples_delay() {
    let mut fw = framework(vec![state(vec![], vec![IntegratorAction::ReleaseBlock.into()], None)], vec![None], None);
    let action = FrameworkAction::schedule(IntegratorAction::SendDecoy, 0, secs(5.0));
    fw.perform_action(action, NOW);
    assert_eq!(queued(&fw, 0), 1);
    assert_eq!(fw.peek_soonest_scheduled_instant(), Some(NOW + 5_000_000));
}

#[test]
fn test_queue_capacity_limit() {
    let long_delay = secs(999.0);
    let mut fw = framework(
        vec![
            state(
                vec![to(Event::ReceiveNormal, 0), to(Event::SendNormal, 1)],
                vec![FrameworkAction::schedule(IntegratorAction::SendDecoy, 0, long_delay).into()],
                None,
            ),
            state(
                vec![to(Event::QueueFull(0), 2)],
                vec![FrameworkAction::schedule(IntegratorAction::SendDecoy, 0, long_delay).into()],
                None,
            ),
            state(vec![], vec![IntegratorAction::ReleaseBlock.into()], None),
        ],
        vec![Some(1)],
        None,
    );
    fw.process(&[Event::ReceiveNormal], NOW);
    assert_eq!(queued(&fw, 0), 1);
    fw.process(&[Event::SendNormal], NOW);
    assert_eq!(queued(&fw, 0), 1);
    fw.process(&[], NOW);
    assert_eq!(fw.get_state(), 2);
}

#[test]
fn test_state_budget_exhausted() {
    let mut fw = framework(
        vec![
            state(vec![to(Event::SendNormal, 1)], vec![IntegratorAction::ReleaseBlock.into()], None),
            state(vec![to(Event::StateBudgetExhausted, 2)], vec![IntegratorAction::SendDecoy.into()], Some(1)),
            state(vec![], vec![IntegratorAction::ReleaseBlock.into()], None),
        ],
        vec![],
        None,
    );
    let actions = fw.process(&[Event::SendNormal], NOW);
    assert!(actions.contains(&IntegratorAction::SendDecoy));
    assert_eq!(fw.get_state(), 1);
    fw.process(&[], NOW);
    assert_eq!(fw.get_state(), 2);
}

#[test]
fn test_state_budget_exhausted_via_queue() {
    let mut fw = framework(
        vec![
            state(vec![to(Event::StateBudgetExhausted, 1)], vec![IntegratorAction::ReleaseBlock.into()], Some(1)),
            state(vec![], vec![IntegratorAction::ReleaseBlock.into()], None),
        ],
        vec![None],
        None,
    );
    let _ = fw.runtime.queues[0].push(decoy_at(NOW));
    let actions = fw.process(&[], NOW);
    assert!(actions.contains(&IntegratorAction::SendDecoy));
    assert_eq!(fw.get_state(), 0);
    fw.process(&[], NOW);
    assert_eq!(fw.get_state(), 1);
}

#[test]
fn test_state_budget_zero_and_self_transitions() {
    let mut fw = framework(
        vec![
            state(vec![to(Event::ReceiveNormal, 1)], vec![IntegratorAction::ReleaseBlock.into()], None),
            state(
                vec![to(Event::SendNormal, 1), to(Event::StateBudgetExhausted, 2)],
                vec![IntegratorAction::SendDecoy.into()],
                Some(2),
            ),
            state(vec![], vec![IntegratorAction::SendDecoy.into()], Some(0)),
        ],
        vec![],
        None,
    );
    let actions = fw.process(&[Event::ReceiveNormal], NOW);
    assert!(actions.contains(&IntegratorAction::SendDecoy));
    assert_eq!(fw.get_state(), 1);
    let actions = fw.process(&[Event::SendNormal], NOW);
    assert!(actions.contains(&IntegratorAction::SendDecoy));
    assert_eq!(fw.get_state(), 1);
    let actions = fw.process(&[], NOW);
    assert_eq!(fw.get_state(), 2);
    assert!(actions.is_empty());
}

#[test]
fn test_queue_empty() {
    let mut fw = framework(
        vec![
            state(vec![to(Event::ReceiveNormal, 1)], vec![IntegratorAction::ReleaseBlock.into()], None),
            state(
                vec![to(Event::SendNormal, 1), to(Event::ReceiveNormal, 2)],
                vec![FrameworkAction::schedule(IntegratorAction::SendDecoy, 0, secs(0.015)).into()],
                None,
            ),
            state(vec![to(Event::QueueEmpty(0), 3)], vec![IntegratorAction::ReleaseBlock.into()], None),
            state(vec![], vec![IntegratorAction::ReleaseBlock.into()], None),
        ],
        vec![Some(2)],
        None,
    );
    fw.process(&[Event::ReceiveNormal], NOW);
    assert_eq!(fw.get_state(), 1);
    fw.process(&[Event::SendNormal, Event::SendNormal], NOW);
    assert_eq!(fw.get_state(), 1);
    fw.process(&[Event::ReceiveNormal], NOW);
    assert_eq!(fw.get_state(), 2);

    let later = NOW + 16_000;
    let actions = fw.process(&[], later);
    assert_eq!(actions, vec![IntegratorAction::SendDecoy, IntegratorAction::SendDecoy]);
    assert_eq!(fw.get_state(), 2);
    fw.process(&[], later);
    assert_eq!(fw.get_state(), 3);
}

#[test]
fn test_none_action() {
    let mut fw = framework(
        vec![state(vec![to(Event::SendNormal, 1)], vec![], None), state(vec![], vec![], None)],
        vec![None],
        None,
    );
    let actions = fw.process(&[Event::SendNormal], NOW);
    assert!(actions.is_empty());
    assert!(fw.runtime.queues[0].is_empty());
}

#[test]
fn test_no_transition() {
    let mut fw = framework(
        vec![
            state(vec![(Event::ReceiveNormal, vec![(1, 0.0)]), to(Event::SendNormal, 1)], vec![], None),
            state(vec![], vec![], None),
        ],
        vec![None],
        None,
    );
    let actions = fw.process(&[Event::ReceiveNormal], NOW);
    assert!(actions.is_empty());
    assert!(fw.runtime.queues[0].is_empty());
    assert_eq!(fw.get_state(), 0);
    let actions = fw.process(&[Event::SendDecoy], NOW);
    assert!(actions.is_empty());
    assert!(fw.runtime.queues[0].is_empty());
    assert_eq!(fw.get_state(), 0);
}

#[test]
fn test_absolute_machine_budget_exhaustion_and_suppression() {
    let mut fw = framework(
        vec![state(vec![], vec![IntegratorAction::SendDecoy.into()], None)],
        vec![None],
        Some(MachineDecoyBudget::Absolute(1)),
    );
    let actions = fw.process(&[], NOW);
    assert!(actions.contains(&IntegratorAction::SendDecoy));
    assert_eq!(fw.runtime.decoys_sent, 1);
    assert!(fw.runtime.deferred_events.contains(&Event::MachineBudgetExhausted));

    let _ = fw.runtime.queues[0].push(decoy_at(NOW));
    let actions = fw.process(&[], NOW);
    assert!(actions.is_empty());
    assert_eq!(fw.runtime.decoys_sent, 1);
    assert!(!fw.runtime.deferred_events.contains(&Event::MachineBudgetExhausted));
}

#[test]
fn test_proportion_block_when_no_real_and_recovery() {
    let mut fw = framework(
        vec![state(vec![], vec![IntegratorAction::SendDecoy.into()], None)],
        vec![None],
        Some(MachineDecoyBudget::Proportion(0.5f64.to_bits())),
    );
    let actions = fw.process(&[], NOW);
    assert!(actions.is_empty(), "decoy should be blocked");
    assert!(fw.runtime.proportion_blocked, "proportion_blocked should be set");
    assert_eq!(fw.runtime.decoys_sent, 0);
    assert!(fw.runtime.deferred_events.contains(&Event::MachineBudgetReached));
    assert!(!fw.runtime.deferred_events.contains(&Event::MachineBudgetRecovered));

    let _ = fw.process(&[Event::SendNormal], NOW);
    assert!(fw.runtime.real_sent == 1);
    assert!(fw.runtime.deferred_events.contains(&Event::MachineBudgetRecovered));

    let _ = fw.runtime.queues[0].push(decoy_at(NOW));
    let actions = fw.process(&[], NOW);
    assert_eq!(fw.runtime.decoys_sent, 1);
    assert!(actions.contains(&IntegratorAction::SendDecoy));
}

#[test]
fn test_state_budget_not_consumed_when_machine_blocks() {
    let mut fw = framework(
        vec![state(vec![], vec![IntegratorAction::SendDecoy.into()], Some(1))],
        vec![],
        Some(MachineDecoyBudget::Absolute(0)),
    );
    let actions = fw.process(&[], NOW);
    assert!(actions.is_empty());
    assert_eq!(fw.runtime.current_state_budget, Some(1));
    assert!(!fw.runtime.deferred_events.contains(&Event::StateBudgetExhausted));
}

#[test]
fn test_proportion_block_immediate_via_queue() {
    let mut fw = framework(
        vec![state(vec![], vec![], None)],
        vec![None],
        Some(MachineDecoyBudget::Proportion(0.3f64.to_bits())),
    );
    let _ = fw.runtime.queues[0].push(decoy_at(NOW));
    let actions = fw.process(&[], NOW);
    assert!(actions.is_empty());
    assert_eq!(fw.runtime.decoys_sent, 0);
    assert!(fw.runtime.proportion_blocked);
    assert!(fw.runtime.deferred_events.contains(&Event::MachineBudgetReached));
}

#[test]
fn test_proportion_allowed_boundary_and_blocking() {
    let mut fw = framework(
        vec![state(vec![], vec![], None)],
        vec![None],
        Some(MachineDecoyBudget::Proportion(0.5f64.to_bits())),
    );
    for _ in 0..4 {
        let _ = fw.process(&[Event::SendNormal], NOW);
    }
    assert_eq!(fw.runtime.real_sent, 4);
    for _ in 0..2 {
        let _ = fw.runtime.queues[0].push(decoy_at(NOW));
    }
    let actions = fw.process(&[], NOW);
    assert_eq!(fw.runtime.decoys_sent, 2);
    assert!(actions.iter().filter(|a| **a == IntegratorAction::SendDecoy).count() >= 2);
    assert!(fw.runtime.deferred_events.contains(&Event::MachineBudgetReached));

    let _ = fw.runtime.queues[0].push(decoy_at(NOW));
    let actions = fw.process(&[], NOW);
    assert_eq!(actions.len(), 0);
    assert!(fw.runtime.proportion_blocked);
}

#[test]
fn test_machine_exhausted_event_is_emitted_only_once_for_absolute() {
    let mut fw = framework(
        vec![state(vec![], vec![IntegratorAction::SendDecoy.into()], None)],
        vec![None],
        Some(MachineDecoyBudget::Absolute(1)),
    );
    let _ = fw.process(&[], NOW);
    assert!(fw.runtime.deferred_events.contains(&Event::MachineBudgetExhausted));
    for _ in 0..3 {
        let _ = fw.process(&[], NOW);
        assert!(!fw.runtime.deferred_events.contains(&Event::MachineBudgetExhausted));
    }
}

#[test]
fn test_queue_push_status() {
    let mut fw = framework(vec![state(vec![], vec![], None)], vec![Some(1)], None);
    assert_eq!(fw.runtime.queues[0].push(decoy_at(NOW + 5)), QueuePushStatus::PushedButFull);
    assert_eq!(fw.runtime.queues[0].push(decoy_at(NOW + 1)), QueuePushStatus::Full);
    assert_eq!(queued(&fw, 0), 1);
    assert_eq!(fw.peek_soonest_scheduled_instant(), Some(NOW + 5));
    assert!(fw.process(&[], NOW).is_empty());
    assert_eq!(fw.process(&[], NOW + 5), vec![IntegratorAction::SendDecoy]);
}

#[test]
fn test_process_counts_packets() {
    let mut fw = framework(vec![state(vec![], vec![IntegratorAction::SendDecoy.into()], None)], vec![], None);
    let actions = fw.process(&[Event::SendNormal, Event::ReceiveNormal, Event::SendNormal], NOW);
    assert_eq!(actions, vec![IntegratorAction::SendDecoy]);
    assert!(fw.is_initialised());
    assert_eq!(fw.peek_runtime().get_real_sent(), 2);
    assert_eq!(fw.peek_runtime().get_decoys_sent(), 1);
}

#[test]
fn test_pop_queues_with_data() {
    let mut fw = framework(vec![state(vec![], vec![], None)], vec![None], None);
    let _ = fw.runtime.queues[0].push(decoy_at(NOW));
    let actions = fw.process(&[], NOW);
    assert_eq!(actions.len(), 1);
    assert_eq!(actions[0], IntegratorAction::SendDecoy);
}

#[test]
fn test_proportion_budget_reached_emitted_only_once_when_over_budget() {
    let mut fw = framework(
        vec![state(vec![], vec![], None)],
        vec![None],
        Some(MachineDecoyBudget::Proportion(0.5f64.to_bits())),
    );

    fw.process(&[Event::SendNormal; 2], NOW);
    assert_eq!(fw.runtime.real_sent, 2);
    assert!(!fw.runtime.proportion_blocked);

    // send allowed decoy
    let _ = fw.runtime.queues[0].push(decoy_at(NOW));
    let actions = fw.process(&[], NOW);
    assert!(actions.contains(&IntegratorAction::SendDecoy));
    assert_eq!(fw.runtime.decoys_sent, 1);
    assert!(fw.runtime.proportion_blocked);

    // drain deferred events
    let _ = fw.process(&[], NOW);
    assert!(!fw.runtime.deferred_events.contains(&Event::MachineBudgetReached));

    // force reset proportion_blocked and send a decoy
    fw.runtime.proportion_blocked = false;
    let _ = fw.runtime.queues[0].push(decoy_at(NOW));
    let actions = fw.process(&[], NOW);
    assert!(actions.is_empty());
    assert_eq!(fw.runtime.decoys_sent, 1);
    assert!(fw.runtime.proportion_blocked);
    assert!(fw.runtime.deferred_events.contains(&Event::MachineBudgetReached));
}
