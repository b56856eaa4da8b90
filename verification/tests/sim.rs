use std::cmp::Ordering;

use chaff::action::{Action, Distr, DistrKind, FrameworkAction, IntegratorAction};
use chaff::event::Event;
use chaff::framework::{Framework, Sampler};
use chaff::machine::{Machine, State, Transition, TransitionProbs};
use chaff::sim::{BlockState, SimulatorEvent, SimulatorQueue, Simulator};
use chaff::trace::{Direction, Trace};

/// Samples constant and uniform delays and rolls transitions with `rand`.
struct TestSampler;

impl Sampler for TestSampler {
    fn sample_delay(&mut self, delay: &Distr) -> u64 {
        let base = match delay.kind {
            DistrKind::Constant(bits) => f64::from_bits(bits),
            DistrKind::Uniform { low, high } => {
                let (low, high) = (f64::from_bits(low), f64::from_bits(high));
                low + (high - low) * rand::random::<f64>()
            }
            _ => panic!("only constant and uniform delays are used here"),
        };
        let mut v = f64::from_bits(delay.offset) + base;
        if let Some(min) = delay.min {
            v = v.max(f64::from_bits(min));
        }
        if let Some(max) = delay.max {
            v = v.min(f64::from_bits(max));
        }
        std::time::Duration::from_secs_f64(v.max(0.0)).as_micros() as u64
    }

    fn choose_transition(&mut self, transitions: &Vec<Transition>) -> Option<usize> {
        let mut roll: f32 = rand::random();
        for (i, t) in transitions.iter().enumerate() {
            let p = f32::from_bits(t.prob);
            if roll < p {
                return Some(i);
            }
            roll -= p;
        }
        None
    }

    fn allowed_decoys(&mut self, proportion: u64, real_sent: usize) -> usize {
        (f64::from_bits(proportion) * real_sent as f64).ceil() as usize
    }
}

fn secs(s: f64) -> Distr {
    Distr::of_kind(DistrKind::Constant(s.to_bits()))
}

fn to(e: Event, target: usize) -> Option<TransitionProbs> {
    Some(TransitionProbs::from_pairs(vec![(
        e,
        vec![Transition::try_new(target, 1.0f32.to_bits()).unwrap()],
    )]))
}

fn framework(states: Vec<State>, queues: Vec<Option<usize>>) -> Framework<TestSampler> {
    let machine = Machine::try_new(states, queues, None).unwrap();
    assert!(machine.is_runnable());
    Framework::new(machine, TestSampler)
}

fn idle() -> Framework<TestSampler> {
    framework(vec![State::new(None, vec![], None)], vec![])
}

fn run(sim: &mut Simulator<TestSampler>) -> Trace {
    sim.start();
    while sim.step() {}
    sim.output()
}

fn sim_on(fw: Framework<TestSampler>, trace: Trace) -> Simulator<TestSampler> {
    Simulator::with(fw, trace, TestSampler)
}

fn act(a: impl Into<Action>) -> Vec<Action> {
    vec![a.into()]
}

#[test]
fn test_sim_round_trip() {
    let trace = Trace {
        directions: vec![Direction::Send, Direction::Receive, Direction::Send],
        timing_deltas: vec![10, 20, 30],
        sizes: vec![100, 200, 300],
    };
    let mut sim = sim_on(idle(), trace.clone());
    let out_trace = run(&mut sim);
    assert_eq!(trace, out_trace);
}

#[test]
fn test_sim_round_trip_same_instant_packets() {
    let trace = Trace {
        directions: vec![Direction::Receive, Direction::Send, Direction::Send, Direction::Receive],
        timing_deltas: vec![5, 0, 0, 1_000_000],
        sizes: vec![1500, 60, 61, 1500],
    };
    let mut sim = sim_on(idle(), trace.clone());
    assert_eq!(run(&mut sim), trace);
}

#[test]
fn test_sim_event_ord() {
    let early = SimulatorEvent { event: Event::SendNormal, time: 10, size: 100 };
    let late = SimulatorEvent { event: Event::SendNormal, time: 20, size: 100 };

    assert_eq!(early.cmp(&late), Ordering::Greater);
    assert_eq!(late.cmp(&early), Ordering::Less);
    assert!(early > late);

    let early_alt = SimulatorEvent { event: Event::SendNormal, time: 10, size: 500 };
    assert_eq!(early.time.cmp(&early_alt.time), Ordering::Equal);
    assert_eq!(early.cmp(&early_alt), Ordering::Equal);
}

#[test]
fn test_simulator_queue_orders_by_time() {
    let mut queue = SimulatorQueue::new();
    assert_eq!(queue.peek_time(), None);
    queue.push(SimulatorEvent { event: Event::SendNormal, time: 30, size: 1 });
    queue.push(SimulatorEvent { event: Event::ReceiveNormal, time: 10, size: 2 });
    queue.push(SimulatorEvent { event: Event::SendDecoy, time: 30, size: 3 });
    queue.push(SimulatorEvent { event: Event::ReceiveNormal, time: 20, size: 4 });
    assert_eq!(queue.peek_time(), Some(10));
    let sizes: Vec<u32> = std::iter::from_fn(|| queue.pop()).map(|e| e.size).collect();
    assert_eq!(sizes, vec![2, 4, 1, 3]);
    assert_eq!(queue.pop(), None);
}

#[test]
fn test_simulator_queue_from_trace() {
    let trace = Trace {
        directions: vec![Direction::Send, Direction::Receive],
        timing_deltas: vec![7, 3],
        sizes: vec![40, 50],
    };
    let mut queue = SimulatorQueue::from_trace(&trace);
    assert_eq!(queue.pop(), Some(SimulatorEvent { event: Event::SendNormal, time: 7, size: 40 }));
    assert_eq!(queue.pop(), Some(SimulatorEvent { event: Event::ReceiveNormal, time: 10, size: 50 }));
    assert_eq!(queue.pop(), None);
}

#[test]
fn test_block_state_buffers_and_releases() {
    let mut block = BlockState { until: None, buffered: Vec::new() };
    assert!(!block.is_active_at(0));
    block.block(50);
    assert!(block.is_active_at(50));
    assert!(!block.is_active_at(51));
    block.buffer(SimulatorEvent { event: Event::SendNormal, time: 10, size: 1 });
    block.buffer(SimulatorEvent { event: Event::SendNormal, time: 20, size: 2 });
    let released = block.release(40);
    assert_eq!(block.until, None);
    assert!(block.buffered.is_empty());
    assert_eq!(released.iter().map(|e| (e.time, e.size)).collect::<Vec<_>>(), vec![(40, 1), (40, 2)]);
}

#[test]
fn test_block_and_manual_release() {
    let long_delay = secs(999.0);
    let fw = framework(
        vec![
            State::new(to(Event::ReceiveNormal, 1), act(IntegratorAction::ReleaseBlock), None),
            State::new(to(Event::ReceiveNormal, 2), act(IntegratorAction::block_outgoing(long_delay)), None),
            State::new(None, act(IntegratorAction::ReleaseBlock), None),
        ],
        vec![],
    );
    let mut sim = sim_on(
        fw,
        Trace {
            directions: vec![Direction::Receive, Direction::Send, Direction::Send, Direction::Receive],
            timing_deltas: vec![0, 10, 10, 10],
            sizes: vec![100, 100, 100, 100],
        },
    );
    let out = run(&mut sim);
    assert_eq!(out.directions.len(), 4);
    assert_eq!(out.directions[0], Direction::Receive);
    assert_eq!(out.directions[1], Direction::Receive);
    assert_eq!(out.directions[2], Direction::Send);
    assert_eq!(out.directions[3], Direction::Send);
    assert_eq!(out.timing_deltas[2], 0);
    assert_eq!(out.timing_deltas[3], 0);
}

#[test]
fn test_block_natural_expiration() {
    let fw = framework(
        vec![
            State::new(to(Event::ReceiveNormal, 1), act(IntegratorAction::ReleaseBlock), None),
            State::new(None, act(IntegratorAction::block_outgoing(secs(0.00005))), None),
        ],
        vec![],
    );
    let mut sim = sim_on(
        fw,
        Trace {
            directions: vec![Direction::Receive, Direction::Send, Direction::Send],
            timing_deltas: vec![0, 10, 50],
            sizes: vec![100, 100, 100],
        },
    );
    let out = run(&mut sim);
    assert_eq!(out.directions.len(), 3);
    assert_eq!(out.timing_deltas[0], 0);
    assert_eq!(out.timing_deltas[1], 50);
    assert_eq!(out.timing_deltas[2], 10);
}

#[test]
fn test_send_decoy() {
    let fw = framework(
        vec![
            State::new(to(Event::ReceiveNormal, 1), act(IntegratorAction::ReleaseBlock), None),
            State::new(None, act(IntegratorAction::SendDecoy), None),
        ],
        vec![],
    );
    let mut sim = sim_on(
        fw,
        Trace { directions: vec![Direction::Receive], timing_deltas: vec![0], sizes: vec![100] },
    );
    let out = run(&mut sim);
    assert_eq!(out.directions.len(), 2);
    assert_eq!(out.timing_deltas[0], 0);
    assert_eq!(out.timing_deltas[1], 0);
    assert_eq!(out.directions[0], Direction::Receive);
    assert_eq!(out.directions[1], Direction::Send);
    assert_eq!(out.sizes[1], 512);
}

#[test]
fn test_with_uniform_distribution() {
    let uniform = Distr::of_kind(DistrKind::Uniform {
        low: 0.000110f64.to_bits(),
        high: 0.000160f64.to_bits(),
    });
    let fw = framework(
        vec![
            State::new(to(Event::ReceiveNormal, 1), act(IntegratorAction::ReleaseBlock), None),
            State::new(None, act(IntegratorAction::BlockOutgoing(uniform)), None),
        ],
        vec![],
    );
    let input_trace = Trace {
        directions: vec![Direction::Receive, Direction::Send, Direction::Send],
        timing_deltas: vec![0, 10, 100],
        sizes: vec![100, 100, 100],
    };
    let mut sim = sim_on(fw, input_trace);
    let output_trace = run(&mut sim);
    assert_eq!(output_trace.directions.len(), 3);
    assert_eq!(output_trace.directions[0], Direction::Receive);
    let elapsed: u32 = output_trace.timing_deltas.iter().sum();
    assert!(elapsed > 110, "total time should be extended due to random block.");
}

#[test]
fn test_simulator_empty_trace() {
    let mut sim = sim_on(idle(), Trace::default());
    let out = run(&mut sim);
    assert!(out.directions.is_empty());
}

#[test]
fn test_block_expires_after_trace_ends() {
    let fw = framework(
        vec![
            State::new(to(Event::ReceiveNormal, 1), act(IntegratorAction::ReleaseBlock), None),
            State::new(None, act(IntegratorAction::block_outgoing(secs(0.000999))), None),
        ],
        vec![],
    );
    let mut sim = sim_on(
        fw,
        Trace {
            directions: vec![Direction::Receive, Direction::Send],
            timing_deltas: vec![0, 10],
            sizes: vec![100, 100],
        },
    );
    let out = run(&mut sim);
    assert_eq!(out.directions.len(), 2);
    assert_eq!(out.directions[0], Direction::Receive);
    assert_eq!(out.directions[1], Direction::Send);
    assert_eq!(out.timing_deltas[1], 999);
}

#[test]
fn test_simulator_replace_trace() {
    let fw = framework(vec![State::new(None, act(IntegratorAction::ReleaseBlock), None)], vec![]);
    let trace_0 = Trace {
        directions: vec![Direction::Receive, Direction::Send],
        timing_deltas: vec![0, 10],
        sizes: vec![100, 100],
    };
    let trace_1 = Trace {
        directions: vec![Direction::Send, Direction::Receive],
        timing_deltas: vec![10, 0],
        sizes: vec![20, 20],
    };
    let mut sim = sim_on(fw, trace_0.clone());
    assert_eq!(*sim.get_trace(), trace_0);
    sim.replace_trace(trace_1.clone());
    assert_eq!(*sim.get_trace(), trace_1);
}

#[test]
fn test_simulator_handles_runtime_action_between_packets() {
    let fw = framework(
        vec![State::new(None, act(FrameworkAction::schedule(IntegratorAction::SendDecoy, 0, secs(1.0))), None)],
        vec![None],
    );
    let trace = Trace {
        directions: vec![Direction::Receive, Direction::Receive],
        timing_deltas: vec![0, 2_000_000],
        sizes: vec![100, 100],
    };
    let mut sim = sim_on(fw, trace);
    let out = run(&mut sim);
    assert_eq!(out.directions.len(), 3, "expected decoy");
    assert_eq!(out.directions[0], Direction::Receive);
    assert_eq!(out.directions[1], Direction::Send);
    assert_eq!(out.directions[2], Direction::Receive);
    assert_eq!(out.timing_deltas[0], 0);
    assert_eq!(out.timing_deltas[1], 1_000_000, "expected decoy");
    assert_eq!(out.timing_deltas[2], 1_000_000);
}

#[test]
fn test_zero_delay_runtime_schedule_processed_same_instant() {
    let fw = framework(
        vec![State::new(None, act(FrameworkAction::schedule(IntegratorAction::SendDecoy, 0, secs(0.0))), None)],
        vec![None],
    );
    let trace = Trace {
        directions: vec![Direction::Receive, Direction::Receive],
        timing_deltas: vec![0, 1_000_000],
        sizes: vec![100, 100],
    };
    let mut sim = sim_on(fw, trace);
    let out = run(&mut sim);
    assert_eq!(out.directions.len(), 3);
    assert_eq!(out.directions[0], Direction::Receive);
    assert_eq!(out.directions[1], Direction::Send);
    assert_eq!(out.directions[2], Direction::Receive);
    assert_eq!(out.timing_deltas[0], 0);
    assert_eq!(out.timing_deltas[1], 0);
    assert_eq!(out.timing_deltas[2], 1_000_000);
}

#[test]
fn test_runtime_scheduled_at_same_time_as_trace_event() {
    let fw = framework(
        vec![State::new(None, act(FrameworkAction::schedule(IntegratorAction::SendDecoy, 0, secs(1.0))), None)],
        vec![None],
    );
    let trace = Trace {
        directions: vec![Direction::Receive, Direction::Receive],
        timing_deltas: vec![0, 1_000_000],
        sizes: vec![100, 100],
    };
    let mut sim = sim_on(fw, trace);
    let out = run(&mut sim);
    assert!(out.directions.len() == 3);
    assert!(out.directions.contains(&Direction::Receive));
    assert!(out.directions.contains(&Direction::Send));
    assert_eq!(out.timing_deltas[1], 1_000_000);
    assert_eq!(out.timing_deltas[2], 0);
}

#[test]
fn test_multiple_runtime_actions_same_instant() {
    let delay = secs(1.0);
    let fw = framework(
        vec![
            State::new(
                to(Event::ReceiveNormal, 1),
                act(FrameworkAction::schedule(IntegratorAction::SendDecoy, 0, delay)),
                None,
            ),
            State::new(None, act(FrameworkAction::schedule(IntegratorAction::SendDecoy, 1, delay)), None),
        ],
        vec![None; 2],
    );
    let trace = Trace {
        directions: vec![Direction::Receive, Direction::Receive],
        timing_deltas: vec![0, 2_000_000],
        sizes: vec![100, 100],
    };
    let mut sim = sim_on(fw, trace);
    let out = run(&mut sim);
    assert_eq!(out.directions.len(), 4);
    assert_eq!(out.directions[0], Direction::Receive);
    assert_eq!(out.directions[1], Direction::Send);
    assert_eq!(out.directions[2], Direction::Send);
    assert_eq!(out.directions[3], Direction::Receive);
    assert_eq!(out.timing_deltas[0], 0);
    assert_eq!(out.timing_deltas[1], 1_000_000);
    assert_eq!(out.timing_deltas[2], 0);
    assert_eq!(out.timing_deltas[3], 1_000_000);
}

#[test]
fn test_only_runtime_queued() {
    let fw = framework(
        vec![State::new(None, act(FrameworkAction::schedule(IntegratorAction::SendDecoy, 0, secs(1.0))), None)],
        vec![None],
    );
    let mut sim = sim_on(fw, Trace { directions: vec![], timing_deltas: vec![], sizes: vec![] });
    let out = run(&mut sim);
    assert_eq!(out.directions.len(), 1);
    assert_eq!(out.directions[0], Direction::Send);
    assert_eq!(out.timing_deltas[0], 1_000_000);
}

#[test]
fn test_run_keeps_received_and_sent_packets() {
    // Blocks after the first receive, sends a decoy on every receive after that.
    let fw = framework(
        vec![
            State::new(to(Event::ReceiveNormal, 1), vec![], None),
            State::new(
                to(Event::ReceiveNormal, 1),
                vec![IntegratorAction::SendDecoy.into(), IntegratorAction::block_outgoing(secs(0.00002)).into()],
                None,
            ),
        ],
        vec![],
    );
    let trace = Trace {
        directions: vec![
            Direction::Receive,
            Direction::Send,
            Direction::Receive,
            Direction::Send,
            Direction::Send,
            Direction::Receive,
        ],
        timing_deltas: vec![0, 5, 5, 5, 5, 5],
        sizes: vec![100, 200, 300, 400, 500, 600],
    };
    let mut sim = sim_on(fw, trace.clone());
    let out = run(&mut sim);
    let count = |t: &Trace, d: Direction| t.directions.iter().filter(|x| **x == d).count();
    assert_eq!(count(&out, Direction::Receive), count(&trace, Direction::Receive));
    assert!(count(&out, Direction::Send) >= count(&trace, Direction::Send));
    assert_eq!(count(&out, Direction::Send), count(&trace, Direction::Send) + 3);
}
