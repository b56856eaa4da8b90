use chaff::action::{Action, Distr, DistrKind, FrameworkAction, IntegratorAction};
use chaff::errors::ValidationError;
use chaff::event::Event;
use chaff::machine::{Machine, MachineDecoyBudget, State, Transition, TransitionProbs};
use chaff::queue::{Scheduled, TimedAction, TimedQueue};

fn probs(pairs: Vec<(Event, Vec<(usize, f32)>)>) -> TransitionProbs {
    TransitionProbs::from_pairs(
        pairs
            .into_iter()
            .map(|(e, ts)| {
                (
                    e,
                    ts.into_iter()
                        .map(|(i, p)| Transition::try_new(i, p.to_bits()).unwrap())
                        .collect(),
                )
            })
            .collect(),
    )
}

fn const_distr(s: f64) -> Distr {
    Distr::of_kind(DistrKind::Constant(s.to_bits()))
}

fn act(a: impl Into<Action>) -> Vec<Action> {
    vec![a.into()]
}

#[test]
fn test_queues_correct_len() {
    let machine = Machine::try_new(
        vec![
            State::new(Some(probs(vec![(Event::SendNormal, vec![(1, 0.0)])])), act(IntegratorAction::SendDecoy), None),
            State::new(None, act(IntegratorAction::SendDecoy), None),
        ],
        vec![None; 42],
        None,
    )
    .unwrap();
    assert_eq!(machine.queue_capacities().len(), 42);
    assert_eq!(machine.num_states(), 2);
}

#[test]
fn test_validate_invalid_state() {
    let machine = Machine::try_new(
        vec![
            State::new(Some(probs(vec![(Event::SendNormal, vec![(3, 0.0)])])), act(IntegratorAction::SendDecoy), None),
            State::new(None, act(IntegratorAction::SendDecoy), None),
        ],
        vec![None; 42],
        None,
    );
    match machine {
        Err(ValidationError::TransitionToInvalidState(state)) => {
            assert!(state[0] == 3usize, "unexpected invalid state: {state:?}");
        }
        other => panic!("unexpected result: {other:?}"),
    }
}

#[test]
fn test_validate_good_queues() {
    let machine = Machine::try_new(
        vec![
            State::new(Some(probs(vec![(Event::SendNormal, vec![(1, 1.0)])])), act(FrameworkAction::CancelQueue(1)), None),
            State::new(
                None,
                act(FrameworkAction::schedule(IntegratorAction::SendDecoy, 1, const_distr(1.0))),
                None,
            ),
        ],
        vec![None],
        None,
    );
    assert!(machine.is_ok());
    // validation lets actions use the index just past the last queue, which cannot run
    assert!(!machine.unwrap().is_runnable());
}

#[test]
fn test_validate_invalid_state_action_queue() {
    let machine = Machine::try_new(
        vec![
            State::new(Some(probs(vec![(Event::SendNormal, vec![(1, 1.0)])])), act(FrameworkAction::CancelQueue(2)), None),
            State::new(
                None,
                act(FrameworkAction::schedule(IntegratorAction::SendDecoy, 3, const_distr(1.0))),
                None,
            ),
        ],
        vec![None],
        None,
    );
    match machine {
        Err(ValidationError::InvalidStateActionQueue(queues)) => {
            assert_eq!(queues, vec![2, 3], "unexpected invalid queues: {queues:?}");
        }
        other => panic!("unexpected result: {other:?}"),
    }
}

#[test]
fn test_multiple_validation_errors() {
    let machine = Machine::try_new(
        vec![
            State::new(Some(probs(vec![(Event::SendNormal, vec![(5, 1.0)])])), act(FrameworkAction::CancelQueue(2)), None),
            State::new(
                None,
                act(FrameworkAction::schedule(IntegratorAction::SendDecoy, 3, const_distr(1.0))),
                None,
            ),
        ],
        vec![None],
        None,
    );
    match machine {
        Err(ValidationError::Multiple(errors)) => {
            let num_errors = errors.len();
            assert_eq!(num_errors, 2, "unexpected number of errors: {num_errors}");
        }
        other => panic!("unexpected result: {other:?}"),
    }
}

#[test]
fn test_too_many_queues() {
    const U8_MAX_PLUS_ONE: usize = u8::MAX as usize + 1;
    let err = Machine::try_new(vec![], vec![None; U8_MAX_PLUS_ONE], None);
    assert!(matches!(err, Err(ValidationError::TooManyQueues(U8_MAX_PLUS_ONE))));
}

#[test]
fn test_no_states_validation() {
    let err = Machine::try_new(vec![], vec![], None);
    assert!(matches!(err, Err(ValidationError::NoStates)));
}

#[test]
fn test_negative_proportion_validation() {
    let err = Machine::try_new(
        vec![State::new(None, vec![], None)],
        vec![],
        Some(MachineDecoyBudget::Proportion((-0.1f64).to_bits())),
    );
    assert!(matches!(err, Err(ValidationError::NegativeProportion(bits)) if f64::from_bits(bits) == -0.1));
    let ok = Machine::try_new(
        vec![State::new(None, vec![], None)],
        vec![],
        Some(MachineDecoyBudget::Proportion((-0.0f64).to_bits())),
    );
    assert!(ok.is_ok());
}

#[test]
fn test_transition_try_new() {
    assert!(Transition::try_new(0, 0.5f32.to_bits()).is_ok());
    assert!(Transition::try_new(0, 1.0f32.to_bits()).is_ok());
    assert!(Transition::try_new(0, 0.0f32.to_bits()).is_ok());
    assert!(matches!(
        Transition::try_new(0, 1.5f32.to_bits()),
        Err(ValidationError::BadTransitionProbs(b)) if f32::from_bits(b) == 1.5
    ));
    assert!(Transition::try_new(0, (-0.5f32).to_bits()).is_err());
    assert!(Transition::try_new(0, f32::NAN.to_bits()).is_err());
}

#[test]
fn test_get_transition() {
    let tp = probs(vec![(Event::SendNormal, vec![(1, 0.25), (2, 0.75)])]);
    let ts = tp.get(Event::SendNormal).unwrap();
    assert_eq!(ts.len(), 2);
    assert_eq!(ts[0].index, 1);
    assert_eq!(f32::from_bits(ts[1].prob), 0.75);
    assert!(tp.get(Event::ReceiveNormal).is_none());
}

#[test]
fn test_probs_validation_multiple_same_event() {
    let tp = probs(vec![(Event::SendNormal, vec![(1, 0.25)]), (Event::ReceiveNormal, vec![(0, 1.0)]), (Event::SendNormal, vec![(2, 0.5)])]);
    let ts = tp.get(Event::SendNormal).unwrap();
    assert_eq!(ts.iter().map(|t| t.index).collect::<Vec<_>>(), vec![1, 2]);
    assert_eq!(tp.num_events(), 2);
}

#[test]
fn test_scheduled_eq() {
    let now = 1_000;
    let timed_action = TimedAction { action: IntegratorAction::SendDecoy.into(), execute_at: now };
    let scheduled_0 = Scheduled(timed_action.clone());
    let scheduled_1 = Scheduled(timed_action);
    assert_eq!(scheduled_0, scheduled_1);

    let scheduled_1 = Scheduled(TimedAction { action: IntegratorAction::SendDecoy.into(), execute_at: now + 1_000_000 });
    assert_ne!(scheduled_0, scheduled_1);
}

#[test]
fn test_scheduled_ord_and_partial_ord() {
    let now = 1_000;
    let soon = now + 1_000_000;
    let later = now + 10_000_000;
    let scheduled_soon = Scheduled(TimedAction { action: IntegratorAction::SendDecoy.into(), execute_at: soon });
    let scheduled_later = Scheduled(TimedAction { action: IntegratorAction::SendDecoy.into(), execute_at: later });
    assert_eq!(scheduled_soon.cmp(&scheduled_later), std::cmp::Ordering::Greater);
    assert_eq!(scheduled_later.cmp(&scheduled_soon), std::cmp::Ordering::Less);
    assert!(scheduled_soon > scheduled_later);
    assert!(scheduled_later < scheduled_soon);
}

#[test]
fn test_min_heap_behavior() {
    let earliest = 1_000_000;
    let latest = 10_000_000;
    let mut queue: TimedQueue<TimedAction> = TimedQueue::new(None);
    let _ = queue.push(TimedAction { action: IntegratorAction::SendDecoy.into(), execute_at: latest });
    let _ = queue.push(TimedAction { action: IntegratorAction::SendDecoy.into(), execute_at: earliest });
    assert_eq!(queue.peek_soonest_instant(), Some(earliest));
    let popped = queue.pop_ready(earliest);
    assert_eq!(popped.len(), 1);
    assert_eq!(popped[0].execute_at, earliest);
    assert_eq!(queue.len(), 1);
}

#[test]
fn test_timed_queue_pop_ready_in_order_and_cancel() {
    let mut queue: TimedQueue<TimedAction> = TimedQueue::new(Some(3));
    assert!(queue.is_empty());
    for t in [30, 10, 20] {
        let _ = queue.push(TimedAction { action: IntegratorAction::SendDecoy.into(), execute_at: t });
    }
    assert_eq!(queue.get_capacity(), Some(3));
    let ready = queue.pop_ready(25);
    assert_eq!(ready.iter().map(|a| a.execute_at).collect::<Vec<_>>(), vec![10, 20]);
    assert_eq!(queue.len(), 1);
    queue.cancel();
    assert!(queue.is_empty());
}

#[test]
fn test_validate_transition_to_missing_state() {
    let machine = Machine::try_new(
        vec![State::new(Some(probs(vec![(Event::SendNormal, vec![(1, 1.0)])])), vec![], None)],
        vec![],
        None,
    );
    match machine {
        Err(ValidationError::TransitionToInvalidState(state)) => assert_eq!(state, vec![1usize]),
        other => panic!("unexpected result: {other:?}"),
    }
}
