use rx::dumpfile::{
    format_date, log_filename, now_timestamp, read_operations, render_dump, Operation, Timestamp,
};
use rx::error::{Error, ErrorKind};
use rx::path::{parse_path, path_to_string};

fn stamp() -> Timestamp {
    Timestamp { year: 2024, month: 1, day: 2, hour: 3, minute: 4, second: 5 }
}

#[test]
fn date_format_is_padded() {
    assert_eq!(format_date(&stamp()), "2024-01-02 03:04:05");
}

#[test]
fn log_filename_embeds_the_stamp() {
    assert_eq!(log_filename(&stamp()), "rx-2024-01-02_030405.json");
}

#[test]
fn persist_then_load_round_trip() {
    let ops = vec![
        Operation { source: parse_path("a/b"), target: parse_path("a/c") },
        Operation { source: parse_path("/x/old name"), target: parse_path("/x/new\"name") },
    ];
    let text = render_dump(&ops, &stamp());
    let loaded = read_operations(text.as_str()).expect("rendered record must load");
    assert_eq!(loaded.len(), ops.len());
    for (l, o) in loaded.iter().zip(ops.iter()) {
        assert_eq!(path_to_string(&l.source), path_to_string(&o.source));
        assert_eq!(path_to_string(&l.target), path_to_string(&o.target));
    }
}

#[test]
fn empty_sequence_round_trip() {
    let ops: Vec<Operation> = Vec::new();
    let text = render_dump(&ops, &stamp());
    let loaded = read_operations(text.as_str()).expect("rendered record must load");
    assert_eq!(loaded.len(), 0);
}

#[test]
fn rendered_record_shape() {
    let ops = vec![Operation { source: parse_path("a"), target: parse_path("b") }];
    let text = render_dump(&ops, &stamp());
    assert_eq!(
        text,
        "{\"date\":\"2024-01-02 03:04:05\",\"operations\":[{\"source\":\"a\",\"target\":\"b\"}]}"
    );
}

#[test]
fn load_accepts_whitespace() {
    let text = "{ \"date\" : \"2024-01-02 03:04:05\" ,\n \"operations\" : [\n {\"source\": \"a\", \"target\": \"b\"} ] }";
    let loaded = read_operations(text).expect("spaced record must load");
    assert_eq!(loaded.len(), 1);
    assert_eq!(path_to_string(&loaded[0].source), "a");
    assert_eq!(path_to_string(&loaded[0].target), "b");
}

#[test]
fn malformed_text_is_a_parse_error() {
    let err = read_operations("not a record").err().expect("junk must be refused");
    assert!(matches!(err.kind, ErrorKind::JsonParse));
}

#[test]
fn truncated_record_is_a_parse_error() {
    let err = read_operations("{\"date\":\"x\",\"operations\":[")
        .err()
        .expect("truncated record must be refused");
    assert!(matches!(err.kind, ErrorKind::JsonParse));
}

#[test]
fn now_timestamp_is_in_range() {
    let t = now_timestamp();
    assert!((1..=12).contains(&t.month));
    assert!((1..=31).contains(&t.day));
    assert!(t.hour <= 23 && t.minute <= 59 && t.second <= 59);
}

#[test]
fn error_descriptions() {
    let cases = [
        (ErrorKind::CreateBackup, "Cannot create a backup of"),
        (ErrorKind::CreateFile, "Cannot create file"),
        (ErrorKind::CreateSymlink, "Cannot create symlink"),
        (ErrorKind::ExistingPath, "Conflict with existing path"),
        (ErrorKind::JsonParse, "Cannot parse JSON  file"),
        (ErrorKind::ReadFile, "Cannot open/read file"),
        (ErrorKind::Rename, "Cannot Rename"),
        (ErrorKind::SameFilename, "Files will have the same name"),
        (ErrorKind::SolveOrder, "Cannot solve sorting problem"),
    ];
    for (kind, text) in cases {
        let e = Error { kind, value: None };
        assert_eq!(e.description(), text);
    }
}
