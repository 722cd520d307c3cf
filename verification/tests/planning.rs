use rx::config::{AppCommand, ReplaceMode, RunMode};
use rx::error::ErrorKind;
use rx::path::{parse_path, path_to_string};
use rx::renamer::{build_rename_map, mode_is_valid, replace_match};

#[test]
fn app_command_from_string() {
    assert_eq!(AppCommand::from_str("").unwrap(), AppCommand::Root);
    assert_eq!(AppCommand::from_str("from-file").unwrap(), AppCommand::FromFile)
}

#[test]
#[should_panic]
fn app_command_from_string_unknown_error() {
    AppCommand::from_str("testing unknown command").unwrap();
}

#[test]
fn app_command_unknown_message() {
    let err = AppCommand::from_str("xyz").unwrap_err();
    assert_eq!(err, "Non-registred subcommand 'xyz'");
}

#[test]
fn dumpfile_get_file_list() {
    let mock_files: Vec<String> = [
        "test_file_1.txt".to_string(),
        "test_file_2.txt".to_string(),
        "test_file_3.txt".to_string(),
    ]
    .to_vec();

    let mode = RunMode::Simple(mock_files);

    println!("file list, {:?}", mode)
}

#[test]
fn replace_match_regexp() {
    let mode = ReplaceMode::RegExp {
        expression: "b".to_string(),
        replacement: "c".to_string(),
        limit: 1,
    };
    let target = replace_match(&mode, &parse_path("a/b"));
    assert_eq!(path_to_string(&target), "a/c");
}

#[test]
fn replace_match_to_ascii() {
    let target = replace_match(&ReplaceMode::ToASCII, &parse_path("caf\u{e9}"));
    assert_eq!(path_to_string(&target), "cafe");
}

#[test]
fn mode_validity() {
    let bad = ReplaceMode::RegExp {
        expression: "(".to_string(),
        replacement: "x".to_string(),
        limit: 0,
    };
    assert!(!mode_is_valid(&bad));
    let good = ReplaceMode::RegExp {
        expression: "a+".to_string(),
        replacement: "x".to_string(),
        limit: 0,
    };
    assert!(mode_is_valid(&good));
    assert!(mode_is_valid(&ReplaceMode::ToASCII));
}

#[test]
fn build_collision_is_reported() {
    let mode = ReplaceMode::RegExp {
        expression: "[xy]".to_string(),
        replacement: "z".to_string(),
        limit: 0,
    };
    let candidates = vec![parse_path("a/x"), parse_path("a/y")];
    let err = build_rename_map(&candidates, &mode).err().expect("collision expected");
    assert!(matches!(err.kind, ErrorKind::SameFilename));
    let text = err.value.expect("collision text expected");
    assert_eq!(text, "\na/x->a/z\na/y->a/z\n");
}

#[test]
fn build_keeps_changed_names_only() {
    let mode = ReplaceMode::RegExp {
        expression: "b".to_string(),
        replacement: "c".to_string(),
        limit: 1,
    };
    let candidates = vec![parse_path("a/b"), parse_path("a/c")];
    let map = build_rename_map(&candidates, &mode).expect("no collision expected");
    assert_eq!(map.entries.len(), 1);
    assert_eq!(path_to_string(&map.entries[0].source), "a/b");
    assert_eq!(path_to_string(&map.entries[0].target), "a/c");
}
