use chaff::cli::{parse_dataset, CliError, DatasetType};
use chaff::dataset::{
    group_instances, is_chaff_trace, parse_file_name, DatasetBuilder, ParseError,
};
use chaff::trace::{Direction, Trace, TraceError};

fn make_trace(dir: Direction) -> Trace {
    Trace {
        directions: vec![dir],
        timing_deltas: vec![0],
        sizes: vec![1],
    }
}

#[test]
fn test_dataset_accessors() {
    let mut builder = DatasetBuilder::new(5000);
    builder.push_to_class("A", make_trace(Direction::Send));
    builder.extend_class(
        "B",
        vec![make_trace(Direction::Receive), make_trace(Direction::Send)],
    );
    let dataset = builder.build();

    assert_eq!(dataset.get_pad_to(), 5000);

    let data = dataset.get_dataset();
    assert_eq!(data.len(), 2);
    assert!(data.iter().any(|(c, _)| c == "A"));
    assert!(data.iter().any(|(c, _)| c == "B"));

    let mut classes = dataset.classes();
    classes.sort();
    assert_eq!(classes, vec![&"A".to_string(), &"B".to_string()]);

    let a = "A".to_string();
    let a_traces = dataset.get_class(&a).unwrap();
    assert_eq!(a_traces.len(), 1);
    assert_eq!(a_traces[0].directions[0], Direction::Send);

    let missing = "><>".to_string();
    assert!(dataset.get_class(&missing).is_none());
}

#[test]
fn test_dataset_builder_methods_and_build() {
    let mut builder = DatasetBuilder::new(123);
    assert_eq!(builder.build().get_pad_to(), 123);

    let mut builder = DatasetBuilder::new(123);
    builder.push_to_class("A", make_trace(Direction::Send));
    builder.push_to_class("A", make_trace(Direction::Receive));
    builder.extend_class(
        "B",
        vec![make_trace(Direction::Send), make_trace(Direction::Send)],
    );
    builder.set_pad_to(999);

    let dataset = builder.build();
    assert_eq!(dataset.get_pad_to(), 999);

    let a = "A".to_string();
    let a_traces = dataset.get_class(&a).unwrap();
    assert_eq!(a_traces.len(), 2);
    assert_eq!(a_traces[0].directions[0], Direction::Send);
    assert_eq!(a_traces[1].directions[0], Direction::Receive);

    let b = "B".to_string();
    assert_eq!(dataset.get_class(&b).unwrap().len(), 2);
}

#[test]
fn test_extend_class_with_nothing_adds_the_class() {
    let mut builder = DatasetBuilder::new(0);
    builder.extend_class("empty", Vec::new());
    let dataset = builder.build();
    assert_eq!(dataset.get_class(&"empty".to_string()).unwrap().len(), 0);
    assert_eq!(dataset.classes(), vec![&"empty".to_string()]);
}

#[test]
fn test_dump_to_writes_expected_trace_files() {
    let mut builder = DatasetBuilder::new(10);
    builder.push_to_class("A", make_trace(Direction::Send));
    builder.push_to_class("A", make_trace(Direction::Receive));
    builder.push_to_class("B", make_trace(Direction::Send));
    let dataset = builder.build();

    let files = dataset.dump_files().unwrap();
    let mut names: Vec<&str> = files.iter().map(|(n, _)| n.as_str()).collect();
    names.sort();
    assert_eq!(names, vec!["A-0", "A-1", "B-0"]);
    for (name, bytes) in &files {
        let trace = Trace::from_bytes(bytes).unwrap();
        let expected = if name == "A-1" { Direction::Receive } else { Direction::Send };
        assert_eq!(trace.directions, vec![expected]);
    }
}

#[test]
fn test_dump_files_reports_bad_trace() {
    let mut builder = DatasetBuilder::new(10);
    builder.push_to_class(
        "A",
        Trace {
            directions: vec![Direction::Send],
            timing_deltas: vec![],
            sizes: vec![1],
        },
    );
    match builder.build().dump_files() {
        Err(TraceError::LengthMismatch(1, 0, 1)) => {}
        other => panic!("unexpected result: {other:?}"),
    }
}

#[test]
fn test_try_parse_skips_invalid_filenames() {
    assert_eq!(parse_file_name("d/badname", "badname").unwrap(), None);
    assert_eq!(parse_file_name("d/1-2-3", "1-2-3").unwrap(), None);
    assert_eq!(
        parse_file_name("d/1-0", "1-0").unwrap(),
        Some(("1".to_string(), 0))
    );
    assert_eq!(
        parse_file_name("d/web-+12", "web-+12").unwrap(),
        Some(("web".to_string(), 12))
    );
}

#[test]
fn test_try_parse_invalid_instance_number_errors() {
    for name in ["1-notanumber", "1-", "1-99999999999999999999999", "1-+"] {
        let path = format!("dir/{name}");
        let err = parse_file_name(&path, name).unwrap_err();
        match err {
            ParseError::InvalidFileName { file, message } => {
                assert!(file.ends_with(name));
                assert!(message.contains("expected two unsigned integers"));
            }
            other => panic!("unexpected result: {other:?}"),
        }
    }
}

#[test]
fn test_try_parse_sorts_instances_by_instance_number() {
    let entries = vec![
        ("9".to_string(), 1, make_trace(Direction::Send)),
        ("9".to_string(), 0, make_trace(Direction::Receive)),
        ("3".to_string(), 5, make_trace(Direction::Send)),
    ];
    let dataset = group_instances(entries, 5000);
    let traces = dataset.get_class(&"9".to_string()).unwrap();
    assert_eq!(traces.len(), 2);
    assert_eq!(traces[0].directions[0], Direction::Receive);
    assert_eq!(traces[1].directions[0], Direction::Send);
    assert_eq!(dataset.get_class(&"3".to_string()).unwrap().len(), 1);
    assert_eq!(dataset.get_pad_to(), 5000);
}

#[test]
fn test_group_instances_keeps_order_of_equal_instances() {
    let t1 = Trace { directions: vec![Direction::Send], timing_deltas: vec![1], sizes: vec![1] };
    let t2 = Trace { directions: vec![Direction::Send], timing_deltas: vec![2], sizes: vec![1] };
    let t3 = Trace { directions: vec![Direction::Send], timing_deltas: vec![3], sizes: vec![1] };
    let entries = vec![
        ("c".to_string(), 4, t1.clone()),
        ("c".to_string(), 2, t2.clone()),
        ("c".to_string(), 4, t3.clone()),
    ];
    let dataset = group_instances(entries, 0);
    let traces = dataset.get_class(&"c".to_string()).unwrap();
    assert_eq!(traces, &vec![t2, t1, t3]);
}

#[test]
fn test_try_parse_magic_read_fails_treated_as_non_chaff() {
    assert!(!is_chaff_trace(b""));
    assert!(!is_chaff_trace(b"CHAF"));
    assert!(!is_chaff_trace(b"0.000001 1\n"));
    assert!(is_chaff_trace(b"CHAFF"));
    let bytes = make_trace(Direction::Send).to_bytes().unwrap();
    assert!(is_chaff_trace(&bytes));
}

#[test]
fn test_parse_dataset_types() {
    assert_eq!(parse_dataset("tiktok").unwrap(), DatasetType::TikTok);
    assert_eq!(parse_dataset("TikTok").unwrap(), DatasetType::TikTok);
    match parse_dataset("Wang") {
        Err(CliError::UnknownDatasetType(t)) => assert_eq!(t, "wang"),
        other => panic!("unexpected result: {other:?}"),
    }
}

#[test]
fn dump_files_read_back_gives_dataset() {
    let t = |dirs: Vec<Direction>, base: u32| Trace {
        timing_deltas: (0..dirs.len() as u32).map(|i| base + i).collect(),
        sizes: (0..dirs.len() as u32).map(|i| 100 * base + i).collect(),
        directions: dirs,
    };
    let mut builder = DatasetBuilder::new(7);
    builder.extend_class(
        "news",
        vec![t(vec![Direction::Send, Direction::Receive], 1), t(vec![Direction::Receive], 2)],
    );
    builder.push_to_class("mail", t(vec![Direction::Send; 9], 3));
    builder.push_to_class("news", t(vec![], 4));
    let dataset = builder.build();

    let files = dataset.dump_files().unwrap();
    let names: Vec<&str> = files.iter().map(|(n, _)| n.as_str()).collect();
    assert_eq!(names, vec!["news-0", "news-1", "news-2", "mail-0"]);

    let mut entries = Vec::new();
    for (name, bytes) in &files {
        let (class, instance) = parse_file_name(name, name).unwrap().unwrap();
        assert!(is_chaff_trace(bytes));
        entries.push((class, instance, Trace::from_bytes(bytes).unwrap()));
    }
    let read_back = group_instances(entries, dataset.get_pad_to());
    assert_eq!(read_back.get_dataset(), dataset.get_dataset());
}
