use chaff::capture::{CapturedPacket, ETHERNET, LINUX_SLL, LINUX_SLL2};
use chaff::unpacked::{packets_to_trace, CaptureError, Direction, Trace, TraceError};

fn sample() -> Trace {
    Trace {
        directions: vec![Direction::Send, Direction::Receive, Direction::Send],
        timing_deltas: vec![10, 20, 30],
        sizes: vec![100, 200, 300],
    }
}

#[test]
fn unpacked_test_serialise_trace() {
    let trace = sample();
    let bytes = trace.to_bytes().unwrap();

    // header
    assert_eq!(&bytes[0..5], b"CHAFF");
    assert_eq!(&bytes[5..8], &[0, 1, 0]);
    assert_eq!(u32::from_le_bytes(bytes[8..12].try_into().unwrap()), 3);

    // directions
    assert_eq!(&bytes[12..15], &[0, 1, 0]);

    // timing deltas
    let delta_0 = u64::from_le_bytes(bytes[15..23].try_into().unwrap());
    let delta_1 = u64::from_le_bytes(bytes[23..31].try_into().unwrap());
    let delta_2 = u64::from_le_bytes(bytes[31..39].try_into().unwrap());
    assert_eq!(delta_0, trace.timing_deltas[0]);
    assert_eq!(delta_1, trace.timing_deltas[1]);
    assert_eq!(delta_2, trace.timing_deltas[2]);

    // sizes
    let size_0 = u32::from_le_bytes(bytes[39..43].try_into().unwrap());
    let size_1 = u32::from_le_bytes(bytes[43..47].try_into().unwrap());
    let size_2 = u32::from_le_bytes(bytes[47..51].try_into().unwrap());
    assert_eq!(size_0, trace.sizes[0]);
    assert_eq!(size_1, trace.sizes[1]);
    assert_eq!(size_2, trace.sizes[2]);
    assert_eq!(bytes.len(), 51);
}

#[test]
fn unpacked_test_serde_round_trip() {
    let trace = sample();
    let bytes = trace.to_bytes().unwrap();
    let trace_deserialised = Trace::from_bytes(&bytes).unwrap();
    assert_eq!(trace, trace_deserialised);
}

#[test]
fn unpacked_round_trip_large_delta() {
    let trace = Trace {
        directions: vec![Direction::Receive],
        timing_deltas: vec![u64::MAX - 1],
        sizes: vec![u32::MAX],
    };
    let bytes = trace.to_bytes().unwrap();
    assert_eq!(Trace::from_bytes(&bytes).unwrap(), trace);
}

#[test]
fn unpacked_empty_trace() {
    let trace = Trace { directions: vec![], timing_deltas: vec![], sizes: vec![] };
    let bytes = trace.to_bytes().unwrap();
    assert_eq!(bytes, b"CHAFF\x00\x01\x00\x00\x00\x00\x00".to_vec());
    assert_eq!(Trace::from_bytes(&bytes).unwrap(), trace);
}

#[test]
fn unpacked_length_mismatch() {
    let trace = Trace {
        directions: vec![Direction::Send, Direction::Receive, Direction::Send],
        timing_deltas: vec![10, 20],
        sizes: vec![100],
    };
    assert_eq!(trace.to_bytes(), Err(TraceError::LengthMismatch(3, 2, 1)));
    assert_eq!(trace.len_check(), Err(TraceError::LengthMismatch(3, 2, 1)));
    assert_eq!(sample().len_check(), Ok(()));
}

#[test]
fn unpacked_invalid_direction() {
    let mut bytes = sample().to_bytes().unwrap();
    bytes[13] = 7;
    bytes[14] = 9;
    assert_eq!(Trace::from_bytes(&bytes), Err(TraceError::InvalidDirection(7)));
}

#[test]
fn unpacked_invalid_direction_before_short_body() {
    // the direction bytes are checked before the deltas are read
    let bytes = b"CHAFF\x00\x01\x00\x02\x00\x00\x00\x01\x02".to_vec();
    assert_eq!(Trace::from_bytes(&bytes), Err(TraceError::InvalidDirection(2)));
}

#[test]
fn unpacked_invalid_magic_and_version() {
    let mut bytes = sample().to_bytes().unwrap();
    bytes[0] = b'W';
    assert_eq!(
        Trace::from_bytes(&bytes),
        Err(TraceError::InvalidMagic(b"WHAFF".to_vec()))
    );
    let mut bytes = sample().to_bytes().unwrap();
    bytes[7] = 255;
    assert_eq!(
        Trace::from_bytes(&bytes),
        Err(TraceError::InvalidVersion(vec![0, 1, 255]))
    );
}

#[test]
fn unpacked_unexpected_eof() {
    let bytes = sample().to_bytes().unwrap();
    for cut in [0, 4, 7, 11, 14, 20, 50] {
        assert_eq!(
            Trace::from_bytes(&bytes[..cut]),
            Err(TraceError::UnexpectedEof),
            "cut at {cut}"
        );
    }
}

#[test]
fn unpacked_trailing_bytes_ignored() {
    let mut bytes = sample().to_bytes().unwrap();
    bytes.extend_from_slice(&[1, 2, 3]);
    assert_eq!(Trace::from_bytes(&bytes).unwrap(), sample());
}

fn packet(ts_sec: i64, ts_usec: i64, len: u32, data: Vec<u8>) -> CapturedPacket {
    CapturedPacket { ts_sec, ts_usec, len, data }
}

#[test]
fn unpacked_packets_to_trace_ethernet() {
    let mac = [1, 2, 3, 4, 5, 6];
    let mut sent = vec![0u8; 14];
    sent[6..12].copy_from_slice(&mac);
    let mut received = vec![0u8; 14];
    received[0..6].copy_from_slice(&mac);
    let packets = vec![
        packet(10, 500_000, 60, sent.clone()),
        packet(10, 750_999, 1500, received),
        packet(12, 0, 40, sent.clone()),
        // the clock went back: no negative delta
        packet(11, 0, 52, sent),
    ];
    let trace = packets_to_trace(&packets, ETHERNET, mac);
    assert_eq!(
        trace.directions,
        vec![Direction::Send, Direction::Receive, Direction::Send, Direction::Send]
    );
    assert_eq!(trace.timing_deltas, vec![0, 250, 1250, 0]);
    assert_eq!(trace.sizes, vec![60, 1500, 40, 52]);
}

#[test]
fn unpacked_packets_to_trace_cooked_captures() {
    let mac = [0; 6];
    let sll = |t: u16| {
        let mut d = vec![0u8; 16];
        d[0..2].copy_from_slice(&t.to_be_bytes());
        d
    };
    let packets = vec![
        packet(0, 0, 1, sll(0)),
        packet(0, 1000, 2, sll(3)),
        packet(0, 2000, 3, sll(4)),
        packet(0, 3000, 4, sll(7)),
    ];
    let trace = packets_to_trace(&packets, LINUX_SLL, mac);
    assert_eq!(
        trace.directions,
        vec![Direction::Receive, Direction::Receive, Direction::Send, Direction::Send]
    );
    assert_eq!(trace.timing_deltas, vec![0, 1, 1, 1]);

    let sll2 = |t: u8| {
        let mut d = vec![0u8; 20];
        d[10] = t;
        d
    };
    let packets = vec![packet(1, 0, 9, sll2(4)), packet(3, 0, 8, sll2(1))];
    let trace = packets_to_trace(&packets, LINUX_SLL2, mac);
    assert_eq!(trace.directions, vec![Direction::Send, Direction::Receive]);
    assert_eq!(trace.timing_deltas, vec![0, 2000]);
    assert_eq!(trace.sizes, vec![9, 8]);

    assert!(packets_to_trace(&vec![], ETHERNET, mac).directions.is_empty());
}

#[test]
fn unpacked_capture_error_messages() {
    assert_eq!(CaptureError::NoDevice.to_string(), "No capture device found.");
    assert_eq!(CaptureError::CaptureThreadPanic.to_string(), "Capture thread panicked.");
    assert_eq!(
        CaptureError::InvalidPacket("short".to_string()).to_string(),
        "Invalid packet found: short"
    );
    assert_eq!(CaptureError::Pcap("x".to_string()).to_string(), "Error from pcap: x");
    assert_eq!(
        CaptureError::MacAddress("y".to_string()).to_string(),
        "Error from mac_address: y"
    );
    assert_eq!(
        CaptureError::NoMac("eth0".to_string()).to_string(),
        "Couldn't get MAC address for device: eth0"
    );
}
