use chaff::cli::{mac_argument, parse_mac_argument, CliError};
use chaff::dataset::ParseError;
use chaff::trace::{CaptureError, DeviceError, TraceError};

#[test]
fn test_parse_mac_argument() {
    assert_eq!(
        parse_mac_argument("00:11:22:33:44:55").unwrap(),
        [0x00, 0x11, 0x22, 0x33, 0x44, 0x55]
    );
    assert_eq!(
        parse_mac_argument("de-ad-be-ef-ca-fe").unwrap(),
        [0xde, 0xad, 0xbe, 0xef, 0xca, 0xfe]
    );
    assert_eq!(parse_mac_argument("001122334455").unwrap(), [0x00, 0x11, 0x22, 0x33, 0x44, 0x55]);
    match parse_mac_argument("zz:11:22:33:44:55") {
        Err(CliError::MacParse(m)) => assert_eq!(m, "invalid digit"),
        other => panic!("unexpected result: {other:?}"),
    }
    match parse_mac_argument("0011") {
        Err(CliError::MacParse(m)) => assert_eq!(m, "invalid length"),
        other => panic!("unexpected result: {other:?}"),
    }
}

#[test]
fn test_mac_argument() {
    assert_eq!(mac_argument(Ok([1, 2, 3, 4, 5, 6])).unwrap(), [1, 2, 3, 4, 5, 6]);
    match mac_argument(Err("bad".to_string())) {
        Err(CliError::MacParse(m)) => assert_eq!(m, "bad"),
        other => panic!("unexpected result: {other:?}"),
    }
}

#[test]
fn test_trace_error_messages() {
    assert_eq!(
        TraceError::LengthMismatch(3, 3, 2).to_string(),
        "mismatched trace field lengths — directions: 3, timing_deltas: 3, sizes: 2."
    );
    assert_eq!(TraceError::Io("boom".to_string()).to_string(), "io error: boom");
    assert_eq!(
        TraceError::InvalidMagic(b"WRONG".to_vec()).to_string(),
        "invalid trace file magic bytes: [87, 82, 79, 78, 71]"
    );
    assert_eq!(
        TraceError::InvalidVersion(vec![255, 0, 1]).to_string(),
        "invalid trace file version: [255, 0, 1]"
    );
    assert_eq!(TraceError::InvalidVersion(vec![]).to_string(), "invalid trace file version: []");
    assert_eq!(TraceError::UnexpectedEof.to_string(), "trace file ended unexpectedly.");
}

#[test]
fn test_capture_error_messages() {
    assert_eq!(DeviceError::NoDevice.to_string(), "no capture device found.");
    assert_eq!(DeviceError::CaptureThreadPanic.to_string(), "capture thread panicked.");
    assert_eq!(
        DeviceError::InvalidPacket("SLL frame too short".to_string()).to_string(),
        "invalid packet: SLL frame too short"
    );
    assert_eq!(DeviceError::NoMac("eth0".to_string()).to_string(), "could not get mac address for device: eth0");
    assert_eq!(
        CaptureError::Device(DeviceError::Pcap("no such device".to_string())).to_string(),
        "device error: pcap error: no such device"
    );
    assert_eq!(
        CaptureError::Trace(TraceError::UnexpectedEof).to_string(),
        "trace error: trace file ended unexpectedly."
    );
    assert_eq!(CaptureError::CantConvert.to_string(), "conversion between types failed");
}

#[test]
fn test_parse_and_cli_error_messages() {
    let e = ParseError::InvalidFormat {
        file: "d/1-0".to_string(),
        line: 12,
        message: "invalid line format: x".to_string(),
    };
    assert_eq!(e.to_string(), "invalid format in d/1-0 at line 12: invalid line format: x");
    assert_eq!(ParseError::NotADirectory("p".to_string()).to_string(), "path is not a directory: p");
    assert_eq!(
        ParseError::InvalidFileName { file: "d/x".to_string(), message: "m".to_string() }.to_string(),
        "error parsing filename for d/x: m"
    );
    assert_eq!(
        CliError::UnknownDatasetType("wang".to_string()).to_string(),
        "\x1b[1m\x1b[31merror:\x1b[0m unknown dataset type 'wang'"
    );
    assert_eq!(
        CliError::Dataset(ParseError::Io("gone".to_string())).to_string(),
        "\x1b[1m\x1b[31merror:\x1b[0m dataset error: io error: gone"
    );
}
