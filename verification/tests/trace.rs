use chaff::event::Event;
use chaff::stats::{count_sent, largest_burst, largest_delta};
use chaff::trace::{CaptureError, Direction, Trace, TraceBuilder, TraceError};

fn sample_trace() -> Trace {
    Trace {
        directions: vec![Direction::Send, Direction::Receive, Direction::Send],
        timing_deltas: vec![10, 20, 30],
        sizes: vec![100, 200, 300],
    }
}

#[test]
fn trace_test_serialise_trace() {
    let trace = sample_trace();
    let bytes = trace.to_bytes().unwrap();

    assert_eq!(&bytes[0..5], b"CHAFF");
    assert_eq!(&bytes[5..8], &[0u8, 1, 0]);
    assert_eq!(u32::from_le_bytes(bytes[8..12].try_into().unwrap()), 3);
    assert_eq!(&bytes[12], &0b0000_0010u8);

    let mut off = 13;
    let inc = 4;
    for delta in &trace.timing_deltas {
        let read_delta = u32::from_le_bytes(bytes[off..off + inc].try_into().unwrap());
        off += inc;
        assert_eq!(read_delta, *delta);
    }
    for size in &trace.sizes {
        let read_size = u32::from_le_bytes(bytes[off..off + inc].try_into().unwrap());
        off += inc;
        assert_eq!(read_size, *size);
    }
    assert_eq!(bytes.len(), off);
}

#[test]
fn test_serialise_length_mismatch() {
    let trace = Trace {
        directions: vec![Direction::Send, Direction::Receive, Direction::Send],
        timing_deltas: vec![10, 20, 30],
        sizes: vec![100, 200],
    };
    match trace.to_bytes() {
        Err(TraceError::LengthMismatch(3, 3, 2)) => {}
        other => panic!("unexpected result: {other:?}"),
    }
}

#[test]
fn test_deserialise_invalid_magic() {
    let mut bytes = Vec::new();
    bytes.extend_from_slice(b"WRONG");
    bytes.extend_from_slice(&[0, 1, 0]);
    bytes.extend_from_slice(&(1u32.to_le_bytes()));
    bytes.push(0u8);
    bytes.extend_from_slice(&0u32.to_le_bytes());
    bytes.extend_from_slice(&0u32.to_le_bytes());

    match Trace::from_bytes(&bytes) {
        Err(TraceError::InvalidMagic(found)) => {
            let found: [u8; 5] = found[0..5].try_into().unwrap();
            assert_eq!(&found, b"WRONG");
        }
        other => panic!("unexpected result: {other:?}"),
    }
}

#[test]
fn test_deserialise_invalid_version() {
    let mut bytes = Vec::new();
    bytes.extend_from_slice(b"CHAFF");
    bytes.extend_from_slice(&[255u8, 255u8, 255u8]);
    bytes.extend_from_slice(&(1u32.to_le_bytes()));
    bytes.push(0u8);
    bytes.extend_from_slice(&0u32.to_le_bytes());
    bytes.extend_from_slice(&0u32.to_le_bytes());

    match Trace::from_bytes(&bytes) {
        Err(TraceError::InvalidVersion(found)) => {
            assert_eq!(*found, [255u8, 255u8, 255u8]);
        }
        other => panic!("unexpected result: {other:?}"),
    }
}

#[test]
fn trace_test_serde_round_trip() {
    let trace = sample_trace();
    let bytes = trace.to_bytes().unwrap();
    let back = Trace::from_bytes(&bytes).unwrap();
    assert_eq!(trace, back);
}

#[test]
fn test_deserialise_truncated_is_unexpected_eof() {
    let trace = sample_trace();
    let bytes = trace.to_bytes().unwrap();
    for cut in [0, 4, 11, 12, 13, bytes.len() - 1] {
        match Trace::from_bytes(&bytes[..cut]) {
            Err(TraceError::UnexpectedEof) => {}
            other => panic!("unexpected result at {cut}: {other:?}"),
        }
    }
}

#[test]
fn test_round_trip_many_directions() {
    // more than eight packets, so the directions span two bytes
    let n = 11;
    let trace = Trace {
        directions: (0..n)
            .map(|i| if i % 3 == 0 { Direction::Receive } else { Direction::Send })
            .collect(),
        timing_deltas: (0..n).map(|i| i as u32 * 1000).collect(),
        sizes: (0..n).map(|i| 60 + i as u32).collect(),
    };
    let bytes = trace.to_bytes().unwrap();
    assert_eq!(bytes.len(), 12 + 2 + 4 * n + 4 * n);
    assert_eq!(bytes[12], 0b0100_1001);
    assert_eq!(bytes[13], 0b0000_0010);
    assert_eq!(Trace::from_bytes(&bytes).unwrap(), trace);
}

#[test]
fn test_trace_is_empty() {
    let empty_trace = Trace {
        directions: vec![],
        timing_deltas: vec![],
        sizes: vec![],
    };
    assert!(empty_trace.is_empty());
    assert_eq!(empty_trace.len(), 0);

    let non_empty_trace = Trace {
        directions: vec![Direction::Send],
        timing_deltas: vec![0],
        sizes: vec![0],
    };
    assert!(!non_empty_trace.is_empty());
    assert_eq!(non_empty_trace.len(), 1);
}

#[test]
fn test_trace_iterator() {
    let trace = Trace {
        directions: vec![Direction::Send, Direction::Receive],
        timing_deltas: vec![10, 20],
        sizes: vec![100, 200],
    };

    let mut iter = trace.iter();

    let p1 = iter.next().expect("Should have first packet");
    assert!(matches!(p1.0, Direction::Send));
    assert_eq!(p1.1, 10);
    assert_eq!(p1.2, 100);

    let p2 = iter.next().expect("Should have second packet");
    assert!(matches!(p2.0, Direction::Receive));
    assert_eq!(p2.1, 20);
    assert_eq!(p2.2, 200);

    assert!(iter.next().is_none());

    let mut count = 0;
    let mut again = trace.iter();
    while again.next().is_some() {
        count += 1;
    }
    assert_eq!(count, 2);
}

#[test]
fn test_trace_display_format() {
    let trace = Trace {
        directions: vec![Direction::Send, Direction::Receive],
        timing_deltas: vec![5, 15],
        sizes: vec![64, 1500],
    };

    let output = trace.to_string();
    let expected = "+5 Send: 64\n+15 Receive: 1500\n";

    assert_eq!(output, expected);
}

#[test]
fn test_try_from_queue_cant_convert() {
    assert!(matches!(
        Direction::try_from(Event::QueuePopped(0)).unwrap_err(),
        CaptureError::CantConvert
    ));
}

#[test]
fn test_try_from_packet_events() {
    assert_eq!(Direction::try_from(Event::SendNormal).unwrap(), Direction::Send);
    assert_eq!(Direction::try_from(Event::SendDecoy).unwrap(), Direction::Send);
    assert_eq!(Direction::try_from(Event::ReceiveNormal).unwrap(), Direction::Receive);
    assert_eq!(Direction::try_from(Event::ReceiveDecoy).unwrap(), Direction::Receive);
    assert!(matches!(
        Direction::try_from(Event::StateBudgetExhausted),
        Err(CaptureError::CantConvert)
    ));
}

#[test]
fn test_trace_builder_records_deltas() {
    let mut builder = TraceBuilder::new(100);
    builder.record(Direction::Send, 100, 10);
    builder.record(Direction::Receive, 250, 20);
    builder.record(Direction::Receive, 250, 30);
    let trace = builder.build();
    assert_eq!(trace.directions, vec![Direction::Send, Direction::Receive, Direction::Receive]);
    assert_eq!(trace.timing_deltas, vec![0, 150, 0]);
    assert_eq!(trace.sizes, vec![10, 20, 30]);

    let mut default_builder = TraceBuilder::default();
    default_builder.record(Direction::Send, 7, 1);
    assert_eq!(default_builder.build().timing_deltas, vec![7]);
}

#[test]
fn test_trace_builder_truncates_long_gaps() {
    let mut builder = TraceBuilder::new(0);
    builder.record(Direction::Send, (1u64 << 32) + 5, 1);
    assert_eq!(builder.build().timing_deltas, vec![5]);
}

#[test]
fn test_trace_stats() {
    let trace = Trace {
        directions: vec![Direction::Send, Direction::Receive, Direction::Send, Direction::Send],
        timing_deltas: vec![0, 0, 150, 0],
        sizes: vec![1, 2, 3, 4],
    };
    assert_eq!(count_sent(&trace), 3);
    assert_eq!(largest_delta(&trace.timing_deltas), 150);
    assert_eq!(largest_delta(&vec![]), 0);
    assert_eq!(largest_burst(&trace.timing_deltas, 0), 2);
    assert_eq!(largest_burst(&trace.timing_deltas, 100), 2);
    assert_eq!(largest_burst(&trace.timing_deltas, 150), 4);
    assert_eq!(largest_burst(&vec![], 10), 0);
    assert_eq!(largest_burst(&vec![5, 5, 5], 1), 0);
}
