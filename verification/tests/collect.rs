use rx::config::RunMode;
use rx::fileutils::{
    cleanup_paths, create_backup, get_paths, get_unique_filename, paths_fold_equal, walk_keep,
};
use rx::error::ErrorKind;
use rx::path::{parse_path, path_eq, path_to_string};

#[test]
fn get_file_list() {
    let mock_files: Vec<String> = vec![
        "test_file_1.txt".to_string(),
        "test_file_2.txt".to_string(),
        "test_file_3.txt".to_string(),
    ];

    let mode = RunMode::Simple(mock_files);
    let files = get_paths(&mode);
    assert!(files.iter().any(|f| path_eq(f, &parse_path("test_file_1.txt"))));
    assert!(files.iter().any(|f| path_eq(f, &parse_path("test_file_2.txt"))));
    assert!(files.iter().any(|f| path_eq(f, &parse_path("test_file_3.txt"))));
}

#[test]
fn from_file_mode_collects_nothing() {
    let mode = RunMode::FromFile { path: "rx-log.json".to_string(), undo: false };
    assert_eq!(get_paths(&mode).len(), 0);
}

#[test]
fn hidden_entries_are_filtered_below_the_root() {
    assert!(!walk_keep(&Some(".hidden".to_string()), 1, false));
    assert!(walk_keep(&Some(".hidden".to_string()), 0, false));
    assert!(walk_keep(&Some(".hidden".to_string()), 2, true));
    assert!(walk_keep(&Some("plain".to_string()), 3, false));
    assert!(!walk_keep(&None, 1, false));
}

#[test]
fn path_parsing_normalizes() {
    assert_eq!(path_to_string(&parse_path("a//b/./c/")), "a/b/c");
    assert_eq!(path_to_string(&parse_path("./a")), "./a");
    assert_eq!(path_to_string(&parse_path("/a/b")), "/a/b");
    assert_eq!(parse_path("/a/b").depth(), 3);
    assert_eq!(parse_path("").depth(), 0);
}

#[test]
fn case_folded_comparison() {
    assert!(paths_fold_equal(&parse_path("Dir/File"), &parse_path("dir/file")));
    assert!(!paths_fold_equal(&parse_path("a"), &parse_path("b")));
}

#[test]
fn unique_name_for_a_free_path() {
    let p = parse_path("no_such_file_for_this_suite");
    let fresh = get_unique_filename(&p, ".rx");
    assert_eq!(path_to_string(&fresh), "no_such_file_for_this_suite .rx");
}

#[test]
fn backup_of_a_missing_file_fails() {
    let err = create_backup(&parse_path("no_such_file_for_this_suite"))
        .err()
        .expect("missing source cannot be copied");
    assert!(matches!(err.kind, ErrorKind::CreateBackup));
    assert_eq!(err.value.expect("names the source"), "no_such_file_for_this_suite");
}

#[test]
fn cleanup_drops_missing_entries() {
    let mut paths = vec![
        parse_path("no_such_file_for_this_suite"),
        parse_path("also_missing_for_this_suite"),
    ];
    cleanup_paths(&mut paths, false);
    assert_eq!(paths.len(), 0);
}
