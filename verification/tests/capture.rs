use chaff::capture::{
    capture_to_trace, determine_packet_direction, packet_ts_to_us, packets_to_trace,
    CapturedPacket, ETHERNET, LINUX_SLL, LINUX_SLL2,
};
use chaff::trace::{CaptureError, DeviceError, Direction, TraceError};

const USER0: i32 = 147;

#[test]
fn test_ethernet_direction_send() {
    let local_mac = [0x01, 0x02, 0x03, 0x04, 0x05, 0x06];
    let mut data = [0u8; 14];
    data[6..12].copy_from_slice(&local_mac);
    let dir = determine_packet_direction(&data, ETHERNET, local_mac).unwrap();
    assert!(matches!(dir, Direction::Send));
}

#[test]
fn test_ethernet_direction_recv() {
    let local_mac = [0x01, 0x02, 0x03, 0x04, 0x05, 0x06];
    let mut data = [0u8; 14];
    data[..6].copy_from_slice(&local_mac);
    let dir = determine_packet_direction(&data, ETHERNET, local_mac).unwrap();
    assert!(matches!(dir, Direction::Receive));
}

#[test]
fn test_ethernet_too_short() {
    let local_mac = [0x01, 0x02, 0x03, 0x04, 0x05, 0x06];
    let data = [0u8; 6];
    let dir = determine_packet_direction(&data, ETHERNET, local_mac);
    assert!(dir.is_err());
}

#[test]
fn test_linux_sll_direction_send() {
    let local_mac = [0x01, 0x02, 0x03, 0x04, 0x05, 0x06];
    let data = [0x00, 0x04];
    let dir = determine_packet_direction(&data, LINUX_SLL, local_mac).unwrap();
    assert!(matches!(dir, Direction::Send));
}

#[test]
fn test_linux_sll_direction_recv() {
    let local_mac = [0x01, 0x02, 0x03, 0x04, 0x05, 0x06];
    let mut data = [0x00, 0x00];
    for pkt_type in 0u8..=3u8 {
        data[1] = pkt_type;
        let dir = determine_packet_direction(&data, LINUX_SLL, local_mac).unwrap();
        assert!(matches!(dir, Direction::Receive));
    }
}

#[test]
fn test_linux_sll_direction_err() {
    let local_mac = [0x01, 0x02, 0x03, 0x04, 0x05, 0x06];
    let data = [0x00, 0x05];
    let dir = determine_packet_direction(&data, LINUX_SLL, local_mac);
    assert!(dir.is_err());
}

#[test]
fn test_linux_sll_too_short() {
    let local_mac = [0x01, 0x02, 0x03, 0x04, 0x05, 0x06];
    let data = [0x00];
    let dir = determine_packet_direction(&data, LINUX_SLL, local_mac);
    assert!(dir.is_err());
}

#[test]
fn test_linux_sll2_direction_send() {
    let local_mac = [0x01, 0x02, 0x03, 0x04, 0x05, 0x06];
    let mut data = [0; 11];
    data[10] = 0x04;
    let dir = determine_packet_direction(&data, LINUX_SLL2, local_mac).unwrap();
    assert!(matches!(dir, Direction::Send));
}

#[test]
fn test_linux_sll2_direction_recv() {
    let local_mac = [0x01, 0x02, 0x03, 0x04, 0x05, 0x06];
    let mut data = [0; 11];
    for pkt_type in 0u8..=3u8 {
        data[10] = pkt_type;
        let dir = determine_packet_direction(&data, LINUX_SLL2, local_mac).unwrap();
        assert!(matches!(dir, Direction::Receive));
    }
}

#[test]
fn test_linux_sll2_direction_err() {
    let local_mac = [0x01, 0x02, 0x03, 0x04, 0x05, 0x06];
    let mut data = [0; 11];
    data[10] = 0x05;
    let dir = determine_packet_direction(&data, LINUX_SLL2, local_mac);
    assert!(dir.is_err());
}

#[test]
fn test_linux_sll2_too_short() {
    let local_mac = [0x01, 0x02, 0x03, 0x04, 0x05, 0x06];
    let data = [0; 10];
    let dir = determine_packet_direction(&data, LINUX_SLL2, local_mac);
    assert!(dir.is_err());
}

fn message(r: Result<Direction, DeviceError>) -> String {
    match r {
        Err(DeviceError::InvalidPacket(m)) => m,
        other => panic!("unexpected result: {other:?}"),
    }
}

#[test]
fn test_direction_error_messages() {
    let mac = [0; 6];
    assert_eq!(message(determine_packet_direction(&[0; 11], ETHERNET, mac)), "Ethernet frame too short");
    assert_eq!(message(determine_packet_direction(&[1], LINUX_SLL, mac)), "SLL frame too short");
    assert_eq!(message(determine_packet_direction(&[1, 2], LINUX_SLL, mac)), "Invalid SLL type: 258");
    assert_eq!(message(determine_packet_direction(&[0; 10], LINUX_SLL2, mac)), "SLL2 frame too short");
    let mut sll2 = [0u8; 11];
    sll2[10] = 200;
    assert_eq!(message(determine_packet_direction(&sll2, LINUX_SLL2, mac)), "Invalid SLL2 type: 200");
    assert_eq!(message(determine_packet_direction(&[0; 20], USER0, mac)), "Unsupported linktype: Linktype(147)");
    assert_eq!(message(determine_packet_direction(&[0; 20], -3, mac)), "Unsupported linktype: Linktype(-3)");
}

#[test]
fn test_packet_ts_to_us() {
    assert_eq!(packet_ts_to_us(0, 0), 0);
    assert_eq!(packet_ts_to_us(12, 345_678), 12_345_678);
    assert_eq!(packet_ts_to_us(1_700_000_000, 1), 1_700_000_000_000_001);
}

fn sll2(ts_sec: i64, ts_usec: i64, len: u32, kind: u8) -> CapturedPacket {
    let mut data = vec![0u8; 20];
    data[10] = kind;
    CapturedPacket { ts_sec, ts_usec, len, data }
}

#[test]
fn test_packets_to_trace_empty() {
    let packets = Vec::new();
    let trace = packets_to_trace(&packets, ETHERNET, [0xde, 0xad, 0xbe, 0xef, 0xca, 0xfe]).unwrap();
    assert_eq!(trace.directions.len(), 0);
}

#[test]
fn test_packets_to_trace_unsupported_linktype() {
    let packets = vec![sll2(1, 0, 144, 0)];
    let trace = packets_to_trace(&packets, USER0, [0xde, 0xad, 0xbe, 0xef, 0xca, 0xfe]);
    assert!(trace.is_err());
}

#[test]
fn test_packets_to_trace_deltas_and_sizes() {
    let packets = vec![
        sll2(10, 500_000, 62, 4),
        sll2(11, 411_310, 62, 0),
        sll2(11, 411_000, 533, 4),
        sll2(11, 411_100, 60, 1),
    ];
    let trace = packets_to_trace(&packets, LINUX_SLL2, [0; 6]).unwrap();
    assert_eq!(
        trace.directions,
        vec![Direction::Send, Direction::Receive, Direction::Send, Direction::Receive]
    );
    // a packet captured before the previous one has a delta of 0
    assert_eq!(trace.timing_deltas, vec![0, 911_310, 0, 100]);
    assert_eq!(trace.sizes, vec![62, 62, 533, 60]);
}

#[test]
fn test_capture_to_trace_success() {
    let packets = vec![sll2(10, 500_000, 62, 4), sll2(11, 411_310, 62, 0), sll2(11, 411_310, 90, 3)];
    let trace = capture_to_trace(&packets, LINUX_SLL2, [0; 6]).unwrap();
    assert_eq!(trace.directions.len(), 3);
    assert_eq!(trace.directions[0], Direction::Send);
    assert_eq!(trace.directions[1], Direction::Receive);
    assert_eq!(trace.timing_deltas, vec![0, 911_310, 0]);
    assert_eq!(trace.sizes, vec![62, 62, 90]);
}

#[test]
fn test_capture_to_trace_empty_error() {
    let result = capture_to_trace(&Vec::new(), LINUX_SLL2, [0; 6]);
    match result {
        Err(CaptureError::Trace(TraceError::UnexpectedEof)) => (),
        _ => panic!("unexpected result: {result:?}"),
    }
}

#[test]
fn test_capture_to_trace_bad_packet_error() {
    let packets = vec![sll2(1, 0, 10, 4), sll2(2, 0, 10, 9)];
    match capture_to_trace(&packets, LINUX_SLL2, [0; 6]) {
        Err(CaptureError::Device(DeviceError::InvalidPacket(m))) => {
            assert_eq!(m, "Invalid SLL2 type: 9");
        }
        other => panic!("unexpected result: {other:?}"),
    }
}

#[test]
fn test_ethernet_packets_to_trace() {
    let local = [0x00, 0x00, 0x01, 0x00, 0x00, 0x00];
    let mut out = vec![0u8; 14];
    out[6..12].copy_from_slice(&local);
    let mut inc = vec![0u8; 14];
    inc[..6].copy_from_slice(&local);
    let packets = vec![
        CapturedPacket { ts_sec: 5, ts_usec: 0, len: 62, data: out },
        CapturedPacket { ts_sec: 5, ts_usec: 911_310, len: 62, data: inc },
    ];
    let trace = packets_to_trace(&packets, ETHERNET, local).unwrap();
    assert!(matches!(trace.directions[0], Direction::Send));
    assert!(matches!(trace.directions[1], Direction::Receive));
    assert_eq!(trace.timing_deltas, vec![0, 911_310]);
    assert_eq!(trace.sizes, vec![62, 62]);
}

/// The first packets of the HTTP capture the original tests read from a file, rebuilt from the
/// values those tests record (sources and lengths as `tshark` shows them).
fn http_capture() -> Vec<CapturedPacket> {
    let local = [0x00, 0x00, 0x01, 0x00, 0x00, 0x00];
    let remote = [0xfe, 0xff, 0x20, 0x00, 0x01, 0x00];
    let frame = |src: [u8; 6], dst: [u8; 6]| {
        let mut d = vec![0u8; 62];
        d[..6].copy_from_slice(&dst);
        d[6..12].copy_from_slice(&src);
        d
    };
    vec![
        CapturedPacket { ts_sec: 1_084_443_427, ts_usec: 311_224, len: 62, data: frame(local, remote) },
        CapturedPacket { ts_sec: 1_084_443_428, ts_usec: 222_534, len: 62, data: frame(remote, local) },
        CapturedPacket { ts_sec: 1_084_443_428, ts_usec: 222_534, len: 54, data: frame(local, remote) },
        CapturedPacket { ts_sec: 1_084_443_428, ts_usec: 222_534, len: 533, data: frame(local, remote) },
    ]
}

#[test]
fn test_packets_to_trace_ethernet_from_file() {
    let local_mac = [0x00, 0x00, 0x01, 0x00, 0x00, 0x00];
    let trace = packets_to_trace(&http_capture(), ETHERNET, local_mac).unwrap();
    assert!(matches!(trace.directions[0], Direction::Send));
    assert!(matches!(trace.directions[1], Direction::Receive));
    assert_eq!(trace.timing_deltas[0], 0);
    assert_eq!(trace.timing_deltas[1], 911_310);
    assert_eq!(trace.sizes[0], 62);
    assert_eq!(trace.sizes[1], 62);
    assert_eq!(trace.sizes[3], 533);
}

#[test]
fn test_packets_to_trace_sll2_type_0_from_file() {
    let local_mac = [0xde, 0xad, 0xbe, 0xef, 0xca, 0xfe];
    let trace = packets_to_trace(&vec![sll2(1_700_000_000, 5, 144, 0)], LINUX_SLL2, local_mac).unwrap();
    assert!(matches!(trace.directions[0], Direction::Receive));
    assert_eq!(trace.timing_deltas[0], 0);
    assert_eq!(trace.sizes[0], 144);
}

#[test]
fn test_packets_to_trace_sll2_type_4_from_file() {
    let local_mac = [0xde, 0xad, 0xbe, 0xef, 0xca, 0xfe];
    let trace = packets_to_trace(&vec![sll2(1_700_000_000, 5, 144, 4)], LINUX_SLL2, local_mac).unwrap();
    assert!(matches!(trace.directions[0], Direction::Send));
    assert_eq!(trace.timing_deltas[0], 0);
    assert_eq!(trace.sizes[0], 144);
}

#[test]
fn test_capture_to_trace_sll2() {
    let trace = capture_to_trace(&vec![sll2(1_700_000_000, 5, 144, 0)], LINUX_SLL2, [0; 6]).unwrap();
    assert_eq!(trace.directions.len(), 1);
    assert_eq!(trace.directions[0], Direction::Receive);
    assert_eq!(trace.sizes[0], 144);
}
