use chaff::dataset::ParseError;
use chaff::tiktok::{parse_line, parse_text, text_is_readable, TikTokDisplay};
use chaff::trace::{Direction, Trace, TraceBuilder};

#[test]
fn test_parse_line_trims_whitespace_and_tabs() {
    let (ts, dir_size) = parse_line("  1.000001\t-42  ").unwrap();
    assert_eq!(ts, 1_000_001);
    assert_eq!(dir_size, -42);
}

#[test]
fn test_parse_line_rejects_missing_space_separator() {
    assert!(parse_line("1.0-42").is_none());
}

#[test]
fn test_parse_line_rejects_missing_directional_size() {
    assert!(parse_line("1.23 ").is_none());
    assert!(parse_line("1.23\t").is_none());
}

#[test]
fn test_parse_line_rejects_non_numeric_timestamp() {
    assert!(parse_line("abc 10").is_none());
    assert!(parse_line("1..2 10").is_none());
}

#[test]
fn test_parse_line_rejects_non_numeric_directional_size() {
    assert!(parse_line("1.23 +10").is_none());
    assert!(parse_line("1.23 10x").is_none());
    assert!(parse_line("1.23 -").is_none());
    assert!(parse_line("1.23 --10").is_none());
}

#[test]
fn test_parse_line_rejects_empty_after_timestamp() {
    assert!(parse_line("   1.23   ").is_none());
    assert!(parse_line("1.23 \n").is_none());
}

#[test]
fn test_parse_line_timestamp_syntax() {
    assert_eq!(parse_line("0.5 1"), Some((500_000, 1)));
    assert_eq!(parse_line("2 -1"), Some((2_000_000, -1)));
    assert_eq!(parse_line(".25 3"), Some((250_000, 3)));
    assert_eq!(parse_line("3. 3"), Some((3_000_000, 3)));
    assert_eq!(parse_line("+1.5 0"), Some((1_500_000, 0)));
    assert_eq!(parse_line("1e-3 7"), Some((1_000, 7)));
    assert_eq!(parse_line("1.5E2 7"), Some((150_000_000, 7)));
    assert_eq!(parse_line("0.0000006 1"), Some((1, 1)));
    assert_eq!(parse_line("0.0000004 1"), Some((0, 1)));
    assert_eq!(parse_line("-1.5 2"), Some((0, 2)));
    assert_eq!(parse_line("inf 2"), Some((u64::MAX, 2)));
    assert_eq!(parse_line("-Infinity 2"), Some((0, 2)));
    assert_eq!(parse_line("NaN 2"), Some((0, 2)));
    assert_eq!(parse_line("1e400 2"), Some((u64::MAX, 2)));
    assert_eq!(parse_line("1e-400 2"), Some((0, 2)));
    assert!(parse_line(". 2").is_none());
    assert!(parse_line("1e 2").is_none());
    assert!(parse_line("e5 2").is_none());
    assert!(parse_line("infin 2").is_none());
}

#[test]
fn test_parse_line_separators() {
    assert_eq!(parse_line("1.5 \t  -7"), Some((1_500_000, -7)));
    assert_eq!(parse_line("\u{a0}1 2\u{3000}"), Some((1_000_000, 2)));
    assert!(parse_line("1\u{a0}2").is_none());
    assert_eq!(parse_line("1 2147483647"), Some((1_000_000, i32::MAX)));
    assert_eq!(parse_line("1 -2147483647"), Some((1_000_000, -i32::MAX)));
}

fn build(lines: &[(u64, i32)]) -> Trace {
    let mut builder = TraceBuilder::default();
    for &(ts, dir_size) in lines {
        let size = dir_size.unsigned_abs();
        let direction = if dir_size > 0 {
            Direction::Send
        } else {
            Direction::Receive
        };
        builder.record(direction, ts, size);
    }
    builder.build()
}

#[test]
fn test_roundtrip_trace() {
    let first_text = "0.0 300\n0.000234 -1500\n0.117 -1500\n0.117 600\n1.25 -60\n";
    assert!(text_is_readable(first_text));
    let first_trace = parse_text("35-0", first_text).unwrap();
    assert_eq!(
        first_trace,
        build(&[(0, 300), (234, -1500), (117_000, -1500), (117_000, 600), (1_250_000, -60)])
    );

    let formatted = TikTokDisplay(&first_trace).to_string();
    assert!(text_is_readable(&formatted));
    let reparsed_trace = parse_text("35-0", &formatted).unwrap();

    assert_eq!(first_trace, reparsed_trace);
}

#[test]
fn test_tiktok_display_format() {
    let trace = Trace {
        directions: vec![Direction::Send, Direction::Receive, Direction::Receive],
        timing_deltas: vec![1, 2_000_000, 0],
        sizes: vec![512, 1500, 0],
    };
    assert_eq!(
        TikTokDisplay(&trace).to_string(),
        "0.000001\t512\n2.000001\t-1500\n2.000001\t0\n"
    );
}

#[test]
fn test_try_parse_skips_empty_lines() {
    let content = "0.000001 1\n\n0.000002 -1\r\n";
    let trace = parse_text("1-0", content).unwrap();
    assert_eq!(trace.directions, vec![Direction::Send, Direction::Receive]);
    assert_eq!(trace.timing_deltas, vec![1, 1]);
    assert_eq!(trace.sizes, vec![1, 1]);
}

#[test]
fn test_try_parse_invalid_line_format() {
    let err = parse_text("dir/1-0", "0.000001 1\nthis_is_bad\n").unwrap_err();
    match err {
        ParseError::InvalidFormat { file, line, message } => {
            assert_eq!(file, "dir/1-0");
            assert_eq!(line, 2);
            assert_eq!(message, "invalid line format: this_is_bad");
        }
        other => panic!("unexpected result: {other:?}"),
    }
}

#[test]
fn test_parse_text_zero_size_is_received() {
    let trace = parse_text("f", "0.5 0\n").unwrap();
    assert_eq!(trace.directions, vec![Direction::Receive]);
    assert_eq!(trace.sizes, vec![0]);
}

#[test]
fn test_text_is_readable_rejects_what_would_overflow() {
    assert!(text_is_readable("0.1 1\n0.2 -2\n"));
    assert!(!text_is_readable("0.2 1\n0.1 -2\n"));
    assert!(!text_is_readable("0.1 99999999999\n"));
    assert!(text_is_readable("0.1 1\nbad\n0.0 2\n"));
    assert!(text_is_readable(""));
}
