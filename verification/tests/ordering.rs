use rx::config::ReplaceMode;
use rx::dumpfile::Operation;
use rx::error::ErrorKind;
use rx::path::{parse_path, path_to_string};
use rx::renamer::{build_rename_map, RenameMap};
use rx::solver::{get_existing_targets, revert_operations, solve_rename_order, FsView};

fn op(source: &str, target: &str) -> Operation {
    Operation { source: parse_path(source), target: parse_path(target) }
}

fn empty_view() -> FsView {
    FsView { existing: Vec::new(), same: Vec::new(), resolved: Vec::new() }
}

#[test]
fn solve_free_targets() {
    let map = RenameMap { entries: vec![op("a", "b")] };
    let ops = solve_rename_order(&map, &empty_view()).expect("free target must solve");
    assert_eq!(ops.len(), 1);
    assert_eq!(path_to_string(&ops[0].source), "a");
    assert_eq!(path_to_string(&ops[0].target), "b");
}

#[test]
fn solve_chain_orders_occupied_target_last() {
    // b -> c frees b, then a -> b can follow; b is occupied at solve time
    let map = RenameMap { entries: vec![op("a", "b"), op("b", "c")] };
    let fs = FsView { existing: vec![parse_path("b")], same: Vec::new(), resolved: Vec::new() };
    let ops = solve_rename_order(&map, &fs).expect("chain must solve");
    assert_eq!(ops.len(), 2);
    assert_eq!(path_to_string(&ops[0].target), "c");
    assert_eq!(path_to_string(&ops[1].target), "b");
}

#[test]
fn solve_swap_fails() {
    let map = RenameMap { entries: vec![op("a", "b"), op("b", "a")] };
    let fs = FsView {
        existing: vec![parse_path("a"), parse_path("b")],
        same: Vec::new(),
        resolved: Vec::new(),
    };
    let err = solve_rename_order(&map, &fs).err().expect("swap cannot be ordered");
    assert!(matches!(err.kind, ErrorKind::SolveOrder));
    let probe = rx::error::Error { kind: err.kind, value: None };
    assert_eq!(probe.description(), "Cannot solve sorting problem");
}

#[test]
fn solve_existing_unrelated_occupant_fails() {
    let map = RenameMap { entries: vec![op("a", "b")] };
    let fs = FsView { existing: vec![parse_path("b")], same: Vec::new(), resolved: Vec::new() };
    let err = solve_rename_order(&map, &fs).err().expect("occupied target must conflict");
    assert!(matches!(err.kind, ErrorKind::ExistingPath));
    assert_eq!(err.value.expect("conflict names the paths"), "a -> b");
}

#[test]
fn solve_tolerates_same_file_occupant() {
    // a case-only rename whose target is already this very file
    let map = RenameMap { entries: vec![op("a", "A")] };
    let fs = FsView {
        existing: vec![parse_path("A")],
        same: vec![op("a", "A")],
        resolved: Vec::new(),
    };
    let ops = solve_rename_order(&map, &fs).expect("same-file occupant is tolerated");
    assert_eq!(ops.len(), 1);
    assert_eq!(path_to_string(&ops[0].target), "A");
}

#[test]
fn solve_deeper_targets_first() {
    let map = RenameMap { entries: vec![op("x/y", "x/y2"), op("x/y/z", "x/y/z2")] };
    let ops = solve_rename_order(&map, &empty_view()).expect("free targets must solve");
    assert_eq!(ops.len(), 2);
    assert_eq!(path_to_string(&ops[0].target), "x/y/z2");
    assert_eq!(path_to_string(&ops[1].target), "x/y2");
}

#[test]
fn solve_of_noop_candidates_is_empty() {
    // names already ASCII: every transformed name equals its candidate
    let candidates = vec![parse_path("plain"), parse_path("dir/name")];
    let map = build_rename_map(&candidates, &ReplaceMode::ToASCII).expect("no collision");
    let ops = solve_rename_order(&map, &empty_view()).expect("empty plan must solve");
    assert_eq!(ops.len(), 0);
}

#[test]
fn revert_swaps_and_reverses() {
    let ops = vec![op("a", "b"), op("c", "d")];
    let inv = revert_operations(&ops).expect("inversion always succeeds");
    assert_eq!(inv.len(), 2);
    assert_eq!(path_to_string(&inv[0].source), "d");
    assert_eq!(path_to_string(&inv[0].target), "c");
    assert_eq!(path_to_string(&inv[1].source), "b");
    assert_eq!(path_to_string(&inv[1].target), "a");
}

#[test]
fn resolved_forms_drive_the_ordering() {
    // a swap written with distinct spellings that resolve alike still fails
    let map = RenameMap { entries: vec![op("p", "q"), op("q", "p")] };
    let fs = FsView {
        existing: vec![parse_path("p"), parse_path("q")],
        same: Vec::new(),
        resolved: vec![
            rx::solver::PathPair { path: parse_path("p"), abs: parse_path("/w/p") },
            rx::solver::PathPair { path: parse_path("q"), abs: parse_path("/w/q") },
        ],
    };
    let err = solve_rename_order(&map, &fs).err().expect("swap cannot be ordered");
    assert!(matches!(err.kind, ErrorKind::SolveOrder));
}

#[test]
fn chain_of_three_solves_in_vacating_order() {
    // d is free; c must be vacated into d before b moves into c
    let map = RenameMap { entries: vec![op("c", "d"), op("a", "b"), op("b", "c")] };
    let fs = FsView {
        existing: vec![parse_path("b"), parse_path("c")],
        same: Vec::new(),
        resolved: Vec::new(),
    };
    let ops = solve_rename_order(&map, &fs).expect("chain must solve");
    assert_eq!(ops.len(), 3);
    assert_eq!(path_to_string(&ops[0].target), "d");
    assert_eq!(path_to_string(&ops[1].target), "c");
    assert_eq!(path_to_string(&ops[2].target), "b");
}

#[test]
fn screening_keeps_only_pending_occupants() {
    let map = RenameMap { entries: vec![op("a", "b"), op("b", "c")] };
    let fs = FsView { existing: vec![parse_path("b")], same: Vec::new(), resolved: Vec::new() };
    let targets = vec![parse_path("b"), parse_path("c")];
    let kept = get_existing_targets(&targets, &map, &fs).expect("no unrelated occupant");
    assert_eq!(kept.len(), 1);
    assert_eq!(path_to_string(&kept[0]), "b");
}
