//! Filesystem-facing helpers: scope enumeration, existence probes,
//! backup names, and the snapshot of the filesystem a planning pass
//! works against.

use vstd::prelude::*;
use vstd::string::StrSliceExecFns;
use vstd::string::StringExecFns;
use crate::config::RunMode;
use crate::dumpfile::dec_exec;
use crate::dumpfile::dec_str;
use crate::error::{Error, ErrorKind};
use crate::path::{
    FsPath, file_name_of, has_file_name, parent_of, parse_path, parse_path_spec,
    path_has_file_name, path_to_string, path_to_string_spec, plain_comp, wf_path,
};
use crate::renamer::{is_source, is_target, RenameMap};
use crate::strutil::push_char;
use crate::solver::{FsView, PathPair};

verus! {

/// The case-folded form str::to_lowercase computes; it depends on the
/// characters alone.
pub uninterp spec fn lower_of(s: Seq<char>) -> Seq<char>;

/// Relies on str::to_lowercase: a pure function of the characters.
#[verifier::external_body]
fn lowercase(s: &str) -> (r: String)
    ensures
        r@ == lower_of(s@),
{
    s.to_lowercase()
}

/// Relies on path_abs::PathInfo::symlink_metadata (on std's Path):
/// whether any entry, links not followed, answers at the path.
#[verifier::external_body]
fn entry_exists(path: &str) -> bool {
    path_abs::PathInfo::symlink_metadata(std::path::Path::new(path)).is_ok()
}

/// Relies on path_abs::PathInfo::metadata (on std's Path), links
/// followed: the entry's kind flags, its size, and its modification
/// time as seconds and nanoseconds since the epoch, where the path
/// answers and the time is representable.
#[verifier::external_body]
fn probe_metadata(path: &str) -> Option<(bool, bool, u64, u64, u32)> {
    let m = path_abs::PathInfo::metadata(std::path::Path::new(path)).ok()?;
    let t = m.modified().ok()?.duration_since(std::time::UNIX_EPOCH).ok()?;
    Some((m.is_dir(), m.is_file(), m.len(), t.as_secs(), t.subsec_nanos()))
}

/// Whether two probe answers agree: both present, with equal kind
/// flags, size and modification time.
fn probes_match(a: &Option<(bool, bool, u64, u64, u32)>, b: &Option<(bool, bool, u64, u64, u32)>) -> (r:
    bool)
    ensures
        r == ((*a) is Some && (*b) is Some && (*a)->Some_0 == (*b)->Some_0),
{
    match (a, b) {
        (Some(x), Some(y)) => x.0 == y.0 && x.1 == y.1 && x.2 == y.2 && x.3 == y.3 && x.4 == y.4,
        _ => false,
    }
}

/// Whether both paths answer and agree on entry kind, size and
/// modification time.
fn metadata_matches(source: &str, target: &str) -> bool {
    let sm = probe_metadata(source);
    let tm = probe_metadata(target);
    probes_match(&sm, &tm)
}

/// Relies on path_abs::PathAbs::new: the path in resolved absolute
/// form, which depends on the working directory.
#[verifier::external_body]
fn absolutize(path: &str) -> Option<String> {
    match path_abs::PathAbs::new(path) {
        Ok(p) => Some(path_abs::PathInfo::to_string_lossy(&p).to_string()),
        Err(_) => None,
    }
}

/// Relies on path_abs::PathFile::new and PathFile::copy: whether the
/// file could be copied to the destination.
#[verifier::external_body]
fn copy_file(source: &str, dest: &str) -> bool {
    match path_abs::PathFile::new(source) {
        Ok(f) => f.copy(dest).is_ok(),
        Err(_) => false,
    }
}

/// Whether two paths' textual forms agree once case-folded.
pub fn paths_fold_equal(a: &FsPath, b: &FsPath) -> (r: bool)
    ensures
        r == (lower_of(path_to_string_spec(a@)) == lower_of(path_to_string_spec(b@))),
{
    let la = lowercase(path_to_string(a).as_str());
    let lb = lowercase(path_to_string(b).as_str());
    la == lb
}

/// Whether source and target are recognizably the same underlying
/// file: equal case-folded textual forms, plus matching entry type,
/// size and modification time.
pub fn is_same_file(source: &FsPath, target: &FsPath) -> (r: bool)
    ensures
        r ==> lower_of(path_to_string_spec(source@)) == lower_of(path_to_string_spec(target@)),
{
    if !paths_fold_equal(source, target) {
        return false;
    }
    let ss = path_to_string(source);
    let ts = path_to_string(target);
    metadata_matches(ss.as_str(), ts.as_str())
}

/// Whether a walked entry is kept: the root always; below it, when
/// hidden entries are not requested, only entries whose base name is
/// readable and does not start with the hidden marker.
pub open spec fn walk_keep_spec(name: Option<Seq<char>>, depth: nat, hidden: bool) -> bool {
    if !hidden && depth > 0 {
        match name {
            Some(n) => !(n.len() > 0 && n[0] == '.'),
            None => false,
        }
    } else {
        true
    }
}

/// Whether a walked entry is kept.
pub fn walk_keep(name: &Option<String>, depth: usize, hidden: bool) -> (r: bool)
    ensures
        r == walk_keep_spec(name.deep_view(), depth as nat, hidden),
{
    if hidden || depth == 0 {
        true
    } else {
        match name {
            Some(n) => {
                let ns = n.as_str();
                if ns.unicode_len() == 0 {
                    true
                } else {
                    ns.get_char(0) != '.'
                }
            },
            None => false,
        }
    }
}

/// Law: the walk root is always enumerated, whatever its own name.
pub proof fn lemma_walk_root_kept(name: Option<Seq<char>>, hidden: bool)
    ensures
        walk_keep_spec(name, 0, hidden),
{
}

/// Law: below the root, a name starting with the hidden marker is
/// excluded unless hidden entries are requested.
pub proof fn lemma_walk_hidden(name: Seq<char>, depth: nat)
    requires
        name.len() > 0,
        name[0] == '.',
        depth > 0,
    ensures
        !walk_keep_spec(Some(name), depth, false),
        walk_keep_spec(Some(name), depth, true),
{
}

/// Relies on walkdir::WalkDir: walks the root, skipping unreadable
/// entries, pruning (with their subtrees) the entries the verified
/// keep-decision refuses; no entry is deeper than the given maximum,
/// as walkdir documents for max_depth, and the walk yields the root
/// itself first, at depth zero and under its given path.
#[verifier::external_body]
fn walk_dir(root: &str, max_depth: &Option<usize>, hidden: bool) -> (r: Vec<(String, usize)>)
    ensures
        forall|k: int|
            0 <= k < r@.len() && (*max_depth) is Some ==> (#[trigger] r@[k]).1 <= (
            *max_depth)->Some_0,
        r@.len() > 0 ==> r@[0].1 == 0 && (r@[0].0)@ == root@,
{
    let wd = match max_depth {
        Some(d) => walkdir::WalkDir::new(root).max_depth(*d),
        None => walkdir::WalkDir::new(root),
    };
    let kept = |e: &walkdir::DirEntry|
        walk_keep(&e.file_name().to_str().map(|s| s.to_string()), e.depth(), hidden);
    let mut out: Vec<(String, usize)> = Vec::new();
    for e in wd.into_iter().filter_entry(kept).filter_map(|e| e.ok()) {
        out.push((e.path().to_string_lossy().to_string(), e.depth()));
    }
    out
}

/// The candidate paths a run mode denotes: an explicit list taken
/// verbatim, or a recursive walk of each root under the depth and
/// hidden-entry rules; replay modes enumerate nothing themselves.
pub fn get_paths(mode: &RunMode) -> (r: Vec<FsPath>)
    ensures
        forall|k: int| 0 <= k < r.deep_view().len() ==> wf_path(#[trigger] r.deep_view()[k]),
        match mode {
            RunMode::Simple(list) => r.deep_view() == list.deep_view().map_values(
                |s: Seq<char>| parse_path_spec(s),
            ),
            RunMode::Recursive { .. } => true,
            RunMode::FromFile { .. } => r.deep_view().len() == 0,
        },
{
    match mode {
        RunMode::Simple(list) => {
            let mut out: Vec<FsPath> = Vec::new();
            let mut i: usize = 0;
            while i < list.len()
                invariant
                    i <= list.len(),
                    out.deep_view().len() == i as int,
                    forall|k: int|
                        0 <= k < i ==> #[trigger] out.deep_view()[k] == parse_path_spec(
                            list.deep_view()[k],
                        ) && wf_path(out.deep_view()[k]),
                decreases list.len() - i,
            {
                let ghost pre = out.deep_view();
                out.push(parse_path(list[i].as_str()));
                proof {
                    assert(out.deep_view() =~= pre.push(
                        parse_path_spec(list.deep_view()[i as int]),
                    ));
                }
                i += 1;
            }
            proof {
                assert(out.deep_view() =~= list.deep_view().map_values(
                    |s: Seq<char>| parse_path_spec(s),
                ));
            }
            out
        },
        RunMode::Recursive { paths, max_depth, hidden } => {
            let mut out: Vec<FsPath> = Vec::new();
            let mut i: usize = 0;
            while i < paths.len()
                invariant
                    i <= paths.len(),
                    forall|k: int|
                        0 <= k < out.deep_view().len() ==> wf_path(#[trigger] out.deep_view()[k]),
                decreases paths.len() - i,
            {
                let entries = walk_dir(paths[i].as_str(), max_depth, *hidden);
                let mut j: usize = 0;
                while j < entries.len()
                    invariant
                        j <= entries.len(),
                        forall|k: int|
                            0 <= k < out.deep_view().len() ==> wf_path(
                                #[trigger] out.deep_view()[k],
                            ),
                    decreases entries.len() - j,
                {
                    let ghost pre = out.deep_view();
                    let p = parse_path(entries[j].0.as_str());
                    out.push(p);
                    proof {
                        assert forall|k: int|
                            0 <= k < out.deep_view().len() implies wf_path(
                            #[trigger] out.deep_view()[k],
                        ) by {
                            assert(out.deep_view() =~= pre.push(out.deep_view().last()));
                            if k < pre.len() {
                                assert(wf_path(pre[k]));
                            }
                        }
                    }
                    j += 1;
                }
                i += 1;
            }
            out
        },
        RunMode::FromFile { .. } => {
            let out: Vec<FsPath> = Vec::new();
            proof {
                assert(out.deep_view().len() == 0);
            }
            out
        },
    }
}

/// The base of every fresh backup name: the original name, a space,
/// and the suffix.
pub open spec fn backup_base(name: Seq<char>, suffix: Seq<char>) -> Seq<char> {
    name + seq![' '] + suffix
}

/// Decimal digits contain no separator.
proof fn lemma_dec_no_slash(n: nat)
    ensures
        !dec_str(n).contains('/'),
    decreases n,
{
    if n < 10 {
        if dec_str(n).contains('/') {
            let j = choose|j: int| 0 <= j < dec_str(n).len() && dec_str(n)[j] == '/';
            assert(false);
        }
    } else {
        lemma_dec_no_slash(n / 10);
        if dec_str(n).contains('/') {
            let j = choose|j: int| 0 <= j < dec_str(n).len() && dec_str(n)[j] == '/';
            if j < dec_str(n / 10).len() {
                assert(dec_str(n / 10)[j] == '/');
            }
        }
    }
}

/// A name derived from the path's base name and the suffix that no
/// filesystem entry currently answers at: the base name itself, then
/// with a rising numeric counter appended.
pub fn get_unique_filename(path: &FsPath, suffix: &str) -> (r: FsPath)
    requires
        wf_path(path@),
        has_file_name(path@),
        !suffix@.contains('/'),
    ensures
        r@.len() == path@.len(),
        r@.drop_last() == path@.drop_last(),
        wf_path(r@),
        r@.last() == backup_base(path@.last(), suffix@) || exists|n: nat|
            n >= 1 && r@.last() == backup_base(path@.last(), suffix@) + seq!['.']
                + #[trigger] dec_str(n),
{
    let name = file_name_of(path);
    let parent = parent_of(path);
    let mut base = name;
    push_char(&mut base, ' ');
    let mut base = base.concat(suffix);
    let ghost basev = backup_base(path@.last(), suffix@);
    proof {
        assert(base@ == basev);
        assert(!basev.contains('/')) by {
            if basev.contains('/') {
                let j = choose|j: int| 0 <= j < basev.len() && basev[j] == '/';
                if j < path@.last().len() {
                    assert(path@.last().contains('/')) by {
                        assert(plain_comp(path@.last()));
                        assert(path@.last()[j] == '/');
                    }
                } else if j == path@.last().len() {
                } else {
                    assert(suffix@[j - path@.last().len() - 1] == '/');
                    assert(suffix@.contains('/'));
                }
            }
        }
    }
    let mut candidate: String = base.clone();
    let mut idx: u64 = 0;
    loop
        invariant
            wf_path(path@),
            has_file_name(path@),
            parent@ == path@.drop_last(),
            basev == backup_base(path@.last(), suffix@),
            base@ == basev,
            !basev.contains('/'),
            basev.is_prefix_of(candidate@),
            candidate@ == basev || exists|n: nat|
                n >= 1 && candidate@ == basev + seq!['.'] + #[trigger] dec_str(n),
            !candidate@.contains('/'),
            candidate@.len() > path@.last().len(),
        decreases u64::MAX - idx,
    {
        let cand_path = append_name(&parent, &candidate);
        proof {
            assert(cand_path@.drop_last() =~= parent@);
            assert(cand_path@.last() == candidate@);
            assert(wf_path(cand_path@)) by {
                assert(plain_comp(candidate@)) by {
                    assert(candidate@.len() > 0);
                    let nl = path@.last().len() as int;
                    assert(basev[nl] == ' ') by {
                        assert((path@.last() + seq![' '])[nl] == ' ');
                    }
                    assert(basev =~= candidate@.subrange(0, basev.len() as int));
                    assert(candidate@[nl] == basev[nl]);
                }
                assert forall|k: int| 1 <= k < cand_path@.len() implies plain_comp(
                    #[trigger] cand_path@[k],
                ) by {
                    if k < cand_path@.len() - 1 {
                        assert(cand_path@[k] == path@.drop_last()[k]);
                        assert(plain_comp(path@[k]));
                    }
                }
                if cand_path@.len() == 1 {
                } else {
                    assert(cand_path@[0] == path@[0]);
                }
            }
        }
        let cand_str = path_to_string(&cand_path);
        if !entry_exists(cand_str.as_str()) || idx == u64::MAX {
            proof {
                assert(cand_path@.len() == path@.len());
            }
            return cand_path;
        }
        idx = idx + 1;
        let mut next = base.clone();
        push_char(&mut next, '.');
        let digits = dec_exec(idx);
        let next = next.concat(digits.as_str());
        proof {
            lemma_dec_no_slash(idx as nat);
            assert(next@ == basev + seq!['.'] + dec_str(idx as nat));
            assert(basev.is_prefix_of(next@));
            assert(!next@.contains('/')) by {
                if next@.contains('/') {
                    let j = choose|j: int| 0 <= j < next@.len() && next@[j] == '/';
                    if j < basev.len() {
                        assert(basev[j] == '/');
                    } else if j == basev.len() {
                    } else {
                        assert(dec_str(idx as nat)[j - basev.len() - 1] == '/');
                        assert(dec_str(idx as nat).contains('/'));
                    }
                }
            }
        }
        candidate = next;
    }
}

/// A path made of the parent's components plus one final name.
fn append_name(parent: &FsPath, name: &String) -> (r: FsPath)
    ensures
        r@ == parent@.push(name@),
{
    let mut p = parent.clone();
    let ghost pre = p@;
    p.comps.push(name.clone());
    proof {
        assert(p@ =~= pre.push(name@));
    }
    p
}

/// Creates a backup copy of the path under a fresh derived name; a
/// failed copy is a backup-creation error naming the source.
pub fn create_backup(path: &FsPath) -> (r: Result<FsPath, Error>)
    requires
        wf_path(path@),
        has_file_name(path@),
    ensures
        match r {
            Ok(b) => b@.len() == path@.len() && b@.drop_last() == path@.drop_last() && wf_path(b@),
            Err(e) => e.kind == ErrorKind::CreateBackup && e.value is Some && (
            e.value->Some_0)@ == path_to_string_spec(path@),
        },
{
    proof {
        reveal_strlit(".rx");
        assert(!".rx"@.contains('/')) by {
            if ".rx"@.contains('/') {
                let j = choose|j: int| 0 <= j < ".rx"@.len() && ".rx"@[j] == '/';
                assert(false);
            }
        }
    }
    let backup = get_unique_filename(path, ".rx");
    let src = path_to_string(path);
    let dst = path_to_string(&backup);
    if copy_file(src.as_str(), dst.as_str()) {
        Ok(backup)
    } else {
        Err(Error { kind: ErrorKind::CreateBackup, value: Some(src) })
    }
}

/// The filesystem snapshot one planning pass works against: which
/// targets are occupied, which (source, target) pairs look like the
/// same underlying file, and each path's resolved form.
pub fn take_fs_view(rename_map: &RenameMap) -> (r: FsView)
    ensures
        forall|k: int| 0 <= k < r@.existing.len() ==> is_target(rename_map@, #[trigger] r@.existing[k]),
        forall|k: int| 0 <= k < r@.same.len() ==> rename_map@.contains(#[trigger] r@.same[k]),
        forall|k: int|
            0 <= k < r@.same.len() ==> lower_of(
                path_to_string_spec((#[trigger] r@.same[k]).source),
            ) == lower_of(path_to_string_spec(r@.same[k].target)),
        forall|k: int|
            0 <= k < r@.resolved.len() ==> is_source(rename_map@, (#[trigger] r@.resolved[k]).path)
                || is_target(rename_map@, r@.resolved[k].path),
{
    let mut existing: Vec<FsPath> = Vec::new();
    let mut same: Vec<crate::dumpfile::Operation> = Vec::new();
    let mut resolved: Vec<PathPair> = Vec::new();
    let mut i: usize = 0;
    while i < rename_map.entries.len()
        invariant
            i <= rename_map.entries.len(),
            forall|k: int|
                0 <= k < existing.deep_view().len() ==> is_target(
                    rename_map@,
                    #[trigger] existing.deep_view()[k],
                ),
            forall|k: int|
                0 <= k < same.deep_view().len() ==> rename_map@.contains(
                    #[trigger] same.deep_view()[k],
                ),
            forall|k: int|
                0 <= k < same.deep_view().len() ==> lower_of(
                    path_to_string_spec((#[trigger] same.deep_view()[k]).source),
                ) == lower_of(path_to_string_spec(same.deep_view()[k].target)),
            forall|k: int|
                0 <= k < resolved.deep_view().len() ==> is_source(
                    rename_map@,
                    (#[trigger] resolved.deep_view()[k]).path,
                ) || is_target(rename_map@, resolved.deep_view()[k].path),
        decreases rename_map.entries.len() - i,
    {
        let entry = &rename_map.entries[i];
        proof {
            assert(rename_map@[i as int] == entry@);
        }
        let tstr = path_to_string(&entry.target);
        if entry_exists(tstr.as_str()) {
            let ghost pre_existing = existing.deep_view();
            existing.push(entry.target.clone());
            proof {
                assert(existing.deep_view() =~= pre_existing.push(rename_map@[i as int].target));
                assert(is_target(rename_map@, rename_map@[i as int].target));
            }
            let ghost pre = same.deep_view();
            if is_same_file(&entry.source, &entry.target) {
                same.push(entry.clone());
                proof {
                    assert(same.deep_view() =~= pre.push(
                        rename_map.entries.deep_view()[i as int],
                    ));
                    assert(rename_map@.contains(rename_map@[i as int]));
                }
            }
        }
        let sstr = path_to_string(&entry.source);
        match absolutize(sstr.as_str()) {
            Some(a) => {
                let ghost pre = resolved.deep_view();
                resolved.push(PathPair { path: entry.source.clone(), abs: parse_path(a.as_str()) });
                proof {
                    assert(resolved.deep_view() =~= pre.push(resolved.deep_view().last()));
                    assert(resolved.deep_view().last().path == rename_map@[i as int].source);
                    assert(is_source(rename_map@, rename_map@[i as int].source));
                }
            },
            None => {},
        }
        match absolutize(tstr.as_str()) {
            Some(a) => {
                let ghost pre = resolved.deep_view();
                resolved.push(PathPair { path: entry.target.clone(), abs: parse_path(a.as_str()) });
                proof {
                    assert(resolved.deep_view() =~= pre.push(resolved.deep_view().last()));
                    assert(resolved.deep_view().last().path == rename_map@[i as int].target);
                    assert(is_target(rename_map@, rename_map@[i as int].target));
                }
            },
            None => {},
        }
        i += 1;
    }
    FsView { existing, same, resolved }
}


/// Relies on path_abs::PathInfo::is_dir (on std's Path), links
/// followed: whether the path answers as a directory.
#[verifier::external_body]
fn is_directory(path: &str) -> bool {
    path_abs::PathInfo::is_dir(std::path::Path::new(path))
}

/// Whether a list of strings holds one equal to `x`.
fn string_list_contains(v: &Vec<String>, x: &String) -> (r: bool)
    ensures
        r == v.deep_view().contains(x@),
{
    let mut i: usize = 0;
    while i < v.len()
        invariant
            i <= v.len(),
            forall|j: int| 0 <= j < i ==> #[trigger] v.deep_view()[j] != x@,
        decreases v.len() - i,
    {
        if v[i] == *x {
            assert(v.deep_view()[i as int] == x@);
            return true;
        }
        i += 1;
    }
    proof {
        if v.deep_view().contains(x@) {
            let j = choose|j: int| 0 <= j < v.deep_view().len() && v.deep_view()[j] == x@;
            assert(false);
        }
    }
    false
}

/// Drops candidates that no longer answer on disk and directories that
/// are not wanted or carry no final name, and keeps one candidate per
/// resolved path; every kept path comes from the given list.
pub fn cleanup_paths(paths: &mut Vec<FsPath>, keep_dirs: bool)
    ensures
        forall|k: int|
            0 <= k < final(paths).deep_view().len() ==> old(paths).deep_view().contains(
                #[trigger] final(paths).deep_view()[k],
            ),
{
    let mut kept: Vec<FsPath> = Vec::new();
    let mut seen: Vec<String> = Vec::new();
    let mut i: usize = 0;
    while i < paths.len()
        invariant
            *paths == *old(paths),
            i <= paths.len(),
            forall|k: int|
                0 <= k < kept.deep_view().len() ==> paths.deep_view().contains(
                    #[trigger] kept.deep_view()[k],
                ),
        decreases paths.len() - i,
    {
        let text = path_to_string(&paths[i]);
        if entry_exists(text.as_str()) {
            let keep = if is_directory(text.as_str()) {
                keep_dirs && path_has_file_name(&paths[i])
            } else {
                true
            };
            if keep {
                let key = match absolutize(text.as_str()) {
                    Some(a) => a,
                    None => text,
                };
                if !string_list_contains(&seen, &key) {
                    seen.push(key);
                    let ghost pre = kept.deep_view();
                    kept.push(paths[i].clone());
                    proof {
                        assert(kept.deep_view() =~= pre.push(paths.deep_view()[i as int]));
                        assert(paths.deep_view().contains(paths.deep_view()[i as int]));
                    }
                }
            }
        }
        i += 1;
    }
    *paths = kept;
}
} // verus!
