//! Solving the order in which a mapping's renames can safely be applied:
//! deepest targets first, free targets before occupied ones, and within a
//! depth an occupied target only after the operation that vacates it.

use vstd::prelude::*;
use vstd::string::StrSliceExecFns;
use vstd::string::StringExecFns;
use crate::dumpfile::{Operation, Operations, OpView};
use crate::error::{Error, ErrorKind};
use crate::path::{FsPath, path_eq, path_list_contains, path_to_string, path_to_string_spec, wf_path};
use crate::config::ReplaceMode;
use crate::renamer::{
    RenameMap, is_source, is_target, lemma_lookup_unique, lookup_source, planned, target_of,
    wf_map, wf_map_paths,
};

verus! {

/// A path paired with its resolved (absolute) form.
pub struct PathPair {
    pub path: FsPath,
    pub abs: FsPath,
}

/// The mathematical content of a resolution pair.
pub ghost struct PairView {
    pub path: Seq<Seq<char>>,
    pub abs: Seq<Seq<char>>,
}

impl View for PathPair {
    type V = PairView;

    open spec fn view(&self) -> PairView {
        PairView { path: self.path@, abs: self.abs@ }
    }
}

impl DeepView for PathPair {
    type V = PairView;

    open spec fn deep_view(&self) -> PairView {
        self@
    }
}

/// What one planning pass sees of the filesystem: which paths are
/// occupied, which (source, target) pairs are the same underlying file,
/// and each path's resolved form.
pub struct FsView {
    pub existing: Vec<FsPath>,
    pub same: Vec<Operation>,
    pub resolved: Vec<PathPair>,
}

/// The mathematical content of a filesystem view.
pub ghost struct FsVView {
    pub existing: Seq<Seq<Seq<char>>>,
    pub same: Seq<OpView>,
    pub resolved: Seq<PairView>,
}

impl View for FsView {
    type V = FsVView;

    open spec fn view(&self) -> FsVView {
        FsVView {
            existing: self.existing.deep_view(),
            same: self.same.deep_view(),
            resolved: self.resolved.deep_view(),
        }
    }
}

/// The resolved form the view records for a path; a path without a
/// recorded form stands for itself.
pub open spec fn resolve(pairs: Seq<PairView>, p: Seq<Seq<char>>) -> Seq<Seq<char>>
    decreases pairs.len(),
{
    if pairs.len() == 0 {
        p
    } else if pairs[0].path == p {
        pairs[0].abs
    } else {
        resolve(pairs.skip(1), p)
    }
}

/// The resolved form of a path under the view.
pub fn resolve_path(fs: &FsView, p: &FsPath) -> (r: FsPath)
    ensures
        r@ == resolve(fs@.resolved, p@),
{
    let ghost pairs = fs@.resolved;
    let mut i: usize = 0;
    proof {
        assert(pairs.skip(0) =~= pairs);
    }
    while i < fs.resolved.len()
        invariant
            pairs == fs@.resolved,
            i <= fs.resolved.len(),
            resolve(pairs, p@) == resolve(pairs.skip(i as int), p@),
        decreases fs.resolved.len() - i,
    {
        proof {
            assert(pairs.skip(i as int)[0] == pairs[i as int]);
            assert(pairs.skip(i as int).skip(1) =~= pairs.skip(i as int + 1));
        }
        if path_eq(&fs.resolved[i].path, p) {
            return fs.resolved[i].abs.clone();
        }
        i += 1;
    }
    proof {
        assert(pairs.skip(pairs.len() as int) =~= Seq::<PairView>::empty());
    }
    p.clone()
}

/// Whether the view records (source, target) as the same underlying file.
pub open spec fn same_listed(same: Seq<OpView>, s: Seq<Seq<char>>, t: Seq<Seq<char>>) -> bool {
    exists|i: int| 0 <= i < same.len() && (#[trigger] same[i]).source == s && same[i].target == t
}

/// Whether the view records (source, target) as the same underlying file.
pub fn is_same_listed(fs: &FsView, s: &FsPath, t: &FsPath) -> (r: bool)
    ensures
        r == same_listed(fs@.same, s@, t@),
{
    let mut i: usize = 0;
    while i < fs.same.len()
        invariant
            i <= fs.same.len(),
            forall|j: int|
                0 <= j < i ==> !((#[trigger] fs@.same[j]).source == s@ && fs@.same[j].target == t@),
        decreases fs.same.len() - i,
    {
        if path_eq(&fs.same[i].source, s) && path_eq(&fs.same[i].target, t) {
            assert(fs@.same[i as int].source == s@ && fs@.same[i as int].target == t@);
            return true;
        }
        i += 1;
    }
    proof {
        if same_listed(fs@.same, s@, t@) {
            let j = choose|j: int|
                0 <= j < fs@.same.len() && (#[trigger] fs@.same[j]).source == s@
                    && fs@.same[j].target == t@;
            assert(false);
        }
    }
    false
}

/// A pre-existing conflict at a target: it is occupied, its occupant is
/// not itself scheduled to move, and it is not the same underlying file
/// as the source that wants to move there.
pub open spec fn conflict_at(m: Seq<OpView>, fs: FsVView, t: Seq<Seq<char>>) -> bool {
    fs.existing.contains(t) && !is_source(m, t) && !same_listed(fs.same, lookup_source(m, t), t)
}

/// Whether some target of the mapping is blocked by a pre-existing
/// unrelated occupant.
pub open spec fn existing_conflict(m: Seq<OpView>, fs: FsVView) -> bool {
    exists|i: int| 0 <= i < m.len() && conflict_at(m, fs, (#[trigger] m[i]).target)
}

/// The targets of a list that are occupied and whose occupant is itself
/// scheduled to move, in list order.
pub open spec fn kept_targets(
    ts: Seq<Seq<Seq<char>>>,
    m: Seq<OpView>,
    fs: FsVView,
) -> Seq<Seq<Seq<char>>>
    decreases ts.len(),
{
    if ts.len() == 0 {
        Seq::empty()
    } else {
        let rest = kept_targets(ts.drop_last(), m, fs);
        if fs.existing.contains(ts.last()) && is_source(m, ts.last()) {
            rest.push(ts.last())
        } else {
            rest
        }
    }
}

/// Membership in the kept targets.
pub proof fn lemma_kept_contains(
    ts: Seq<Seq<Seq<char>>>,
    m: Seq<OpView>,
    fs: FsVView,
    p: Seq<Seq<char>>,
)
    ensures
        kept_targets(ts, m, fs).contains(p) == (ts.contains(p) && fs.existing.contains(p)
            && is_source(m, p)),
    decreases ts.len(),
{
    if ts.len() == 0 {
    } else {
        lemma_kept_contains(ts.drop_last(), m, fs, p);
        assert(ts.contains(p) == (ts.drop_last().contains(p) || ts.last() == p)) by {
            if ts.contains(p) {
                let i = choose|i: int| 0 <= i < ts.len() && ts[i] == p;
                if i < ts.len() - 1 {
                    assert(ts.drop_last()[i] == p);
                }
            }
            if ts.drop_last().contains(p) {
                let i = choose|i: int| 0 <= i < ts.drop_last().len() && ts.drop_last()[i] == p;
                assert(ts[i] == p);
            }
        }
        let rest = kept_targets(ts.drop_last(), m, fs);
        if fs.existing.contains(ts.last()) && is_source(m, ts.last()) {
            assert(kept_targets(ts, m, fs) == rest.push(ts.last()));
            assert(rest.push(ts.last()).contains(p) == (rest.contains(p) || ts.last() == p)) by {
                if rest.contains(p) {
                    let i = choose|i: int| 0 <= i < rest.len() && rest[i] == p;
                    assert(rest.push(ts.last())[i] == p);
                }
                if ts.last() == p {
                    assert(rest.push(ts.last())[rest.len() as int] == p);
                }
                if rest.push(ts.last()).contains(p) {
                    let i = choose|i: int|
                        0 <= i < rest.push(ts.last()).len() && rest.push(ts.last())[i] == p;
                    if i < rest.len() {
                        assert(rest[i] == p);
                    }
                }
            }
        }
    }
}

/// No two equal elements of a path sequence.
pub open spec fn distinct_paths(s: Seq<Seq<Seq<char>>>) -> bool {
    forall|a: int, b: int| 0 <= a < b < s.len() ==> s[a] != s[b]
}

/// Screens the occupied targets of one depth level: tolerates an
/// occupant that is the same underlying file, keeps one that is itself
/// scheduled to move, and fails on any other occupant.
pub fn get_existing_targets(targets: &Vec<FsPath>, rename_map: &RenameMap, fs: &FsView) -> (r:
    Result<Vec<FsPath>, Error>)
    ensures
        match r {
            Ok(out) => out.deep_view() == kept_targets(targets.deep_view(), rename_map@, fs@)
                && forall|k: int|
                0 <= k < targets.deep_view().len() ==> !conflict_at(
                    rename_map@,
                    fs@,
                    #[trigger] targets.deep_view()[k],
                ),
            Err(e) => e.kind == ErrorKind::ExistingPath && e.value is Some && exists|k: int|
                0 <= k < targets.deep_view().len() && conflict_at(
                    rename_map@,
                    fs@,
                    #[trigger] targets.deep_view()[k],
                ) && (e.value->Some_0)@ == path_to_string_spec(
                    lookup_source(rename_map@, targets.deep_view()[k]),
                ) + " -> "@ + path_to_string_spec(targets.deep_view()[k]),
        },
{
    let ghost ts = targets.deep_view();
    let mut out: Vec<FsPath> = Vec::new();
    let mut i: usize = 0;
    proof {
        assert(ts.take(0) =~= Seq::<Seq<Seq<char>>>::empty());
    }
    while i < targets.len()
        invariant
            ts == targets.deep_view(),
            i <= targets.len(),
            out.deep_view() == kept_targets(ts.take(i as int), rename_map@, fs@),
            forall|k: int| 0 <= k < i ==> !conflict_at(rename_map@, fs@, #[trigger] ts[k]),
        decreases targets.len() - i,
    {
        let ghost pre = out.deep_view();
        proof {
            assert(ts.take(i as int + 1).drop_last() =~= ts.take(i as int));
            assert(ts.take(i as int + 1).last() == ts[i as int]);
        }
        let t = &targets[i];
        proof {
            assert(t@ == ts[i as int]);
        }
        if path_list_contains(&fs.existing, t) {
            if !rename_map.has_source(t) {
                let source = rename_map.source_of(t);
                if !is_same_listed(fs, &source, t) {
                    let mut msg = path_to_string(&source);
                    msg.append(" -> ");
                    let tstr = path_to_string(t);
                    msg.append(tstr.as_str());
                    proof {
                        assert(conflict_at(rename_map@, fs@, ts[i as int]));
                        assert(msg@ == path_to_string_spec(lookup_source(rename_map@, ts[i as int]))
                            + " -> "@ + path_to_string_spec(ts[i as int]));
                    }
                    return Err(Error { kind: ErrorKind::ExistingPath, value: Some(msg) });
                }
            } else {
                out.push(t.clone());
                proof {
                    assert(out.deep_view() =~= pre.push(ts[i as int]));
                }
            }
        }
        i += 1;
    }
    proof {
        assert(ts.take(ts.len() as int) =~= ts);
    }
    Ok(out)
}


/// Whether some member of `ts` has a pending source that still
/// resolves onto the path `t`.
pub open spec fn still_read_from(
    m: Seq<OpView>,
    fs: FsVView,
    ts: Seq<Seq<Seq<char>>>,
    t: Seq<Seq<char>>,
) -> bool {
    exists|u: int|
        0 <= u < ts.len() && resolve(fs.resolved, t) == resolve(
            fs.resolved,
            #[trigger] lookup_source(m, ts[u]),
        )
}

/// A genuine rename cycle: a nonempty collection of targets, each of
/// which some member's pending source still resolves onto, so that no
/// member can ever be written first.
pub open spec fn cycle_among(m: Seq<OpView>, fs: FsVView, ts: Seq<Seq<Seq<char>>>) -> bool {
    ts.len() > 0 && forall|i: int|
        0 <= i < ts.len() ==> still_read_from(m, fs, ts, #[trigger] ts[i])
}

/// Removing the element at `i` by a swap-remove keeps distinctness and
/// removes exactly that element from membership.
proof fn lemma_swap_remove_distinct<T>(s: Seq<T>, i: int)
    requires
        forall|a: int, b: int| 0 <= a < b < s.len() ==> s[a] != s[b],
        0 <= i < s.len(),
    ensures
        forall|a: int, b: int|
            0 <= a < b < s.update(i, s.last()).drop_last().len() ==> s.update(
                i,
                s.last(),
            ).drop_last()[a] != s.update(i, s.last()).drop_last()[b],
        forall|p: T|
            #[trigger] s.update(i, s.last()).drop_last().contains(p) == (s.contains(p) && p
                != s[i]),
{
    let s2 = s.update(i, s.last()).drop_last();
    assert forall|a: int, b: int| 0 <= a < b < s2.len() implies s2[a] != s2[b] by {
        if a == i {
            assert(s2[a] == s[s.len() - 1]);
        }
        if b == i {
            assert(s2[b] == s[s.len() - 1]);
        }
    }
    assert forall|p: T|
        #[trigger] s2.contains(p) == (s.contains(p) && p != s[i]) by {
        if s2.contains(p) {
            let a = choose|a: int| 0 <= a < s2.len() && s2[a] == p;
            if a == i {
                assert(s[s.len() - 1] == p);
            } else {
                assert(s[a] == p);
            }
            if p == s[i] {
                if a == i {
                    assert(s[s.len() - 1] == s[i]);
                    assert(i < s.len() - 1);
                    assert(false);
                } else {
                    assert(s[a] == s[i] && a != i);
                    assert(false);
                }
            }
        }
        if s.contains(p) && p != s[i] {
            let a = choose|a: int| 0 <= a < s.len() && s[a] == p;
            if a == s.len() - 1 {
                if i < s.len() - 1 {
                    assert(s2[i] == p);
                }
            } else {
                assert(s2[a] == p);
            }
        }
    }
}

/// The first remaining target whose resolved form no remaining
/// operation still reads from; when there is none, every remaining
/// target is still read from by some remaining operation.
fn select_writable(
    rename_map: &RenameMap,
    fs: &FsView,
    pending: &Vec<FsPath>,
    sources: &Vec<FsPath>,
) -> (r: Option<usize>)
    requires
        sources.deep_view().len() == pending.deep_view().len(),
        forall|j: int|
            0 <= j < pending.deep_view().len() ==> #[trigger] sources.deep_view()[j] == resolve(
                fs@.resolved,
                lookup_source(rename_map@, pending.deep_view()[j]),
            ),
    ensures
        match r {
            Some(idx) => idx < pending.deep_view().len() && forall|j: int|
                0 <= j < pending.deep_view().len() ==> resolve(
                    fs@.resolved,
                    lookup_source(rename_map@, #[trigger] pending.deep_view()[j]),
                ) != resolve(fs@.resolved, pending.deep_view()[idx as int]),
            None => forall|j: int|
                0 <= j < pending.deep_view().len() ==> still_read_from(
                    rename_map@,
                    fs@,
                    pending.deep_view(),
                    #[trigger] pending.deep_view()[j],
                ),
        },
{
    let mut k: usize = 0;
    while k < pending.len()
        invariant
            k <= pending.len(),
            sources.deep_view().len() == pending.deep_view().len(),
            forall|j: int|
                0 <= j < pending.deep_view().len() ==> #[trigger] sources.deep_view()[j] == resolve(
                    fs@.resolved,
                    lookup_source(rename_map@, pending.deep_view()[j]),
                ),
            forall|j: int|
                0 <= j < k ==> still_read_from(
                    rename_map@,
                    fs@,
                    pending.deep_view(),
                    #[trigger] pending.deep_view()[j],
                ),
        decreases pending.len() - k,
    {
        let abs_target = resolve_path(fs, &pending[k]);
        if !path_list_contains(sources, &abs_target) {
            proof {
                assert forall|j: int| 0 <= j < pending.deep_view().len() implies resolve(
                    fs@.resolved,
                    lookup_source(rename_map@, #[trigger] pending.deep_view()[j]),
                ) != resolve(fs@.resolved, pending.deep_view()[k as int]) by {
                    if sources.deep_view()[j] == abs_target@ {
                        assert(sources.deep_view().contains(abs_target@));
                    }
                }
            }
            return Some(k);
        }
        proof {
            let w = choose|w: int|
                0 <= w < sources.deep_view().len() && sources.deep_view()[w] == abs_target@;
            assert(resolve(fs@.resolved, pending.deep_view()[k as int]) == resolve(
                fs@.resolved,
                lookup_source(rename_map@, pending.deep_view()[w]),
            ));
            assert(still_read_from(
                rename_map@,
                fs@,
                pending.deep_view(),
                pending.deep_view()[k as int],
            ));
        }
        k += 1;
    }
    None
}

/// Orders the retained occupied targets by repeated selection of one
/// whose resolved source no other remaining operation still reads from;
/// a non-empty remainder with no such target is an unsolvable cycle.
pub fn sort_existing_target(rename_map: &RenameMap, fs: &FsView, existing_target: Vec<FsPath>) -> (r:
    Result<Vec<FsPath>, Error>)
    requires
        distinct_paths(existing_target.deep_view()),
    ensures
        match r {
            Ok(out) => {
                &&& forall|p: Seq<Seq<char>>|
                    #[trigger] out.deep_view().contains(p) == existing_target.deep_view().contains(
                        p,
                    )
                &&& distinct_paths(out.deep_view())
                &&& forall|a: int, b: int|
                    0 <= a < b < out.deep_view().len() ==> resolve(
                        fs@.resolved,
                        lookup_source(rename_map@, #[trigger] out.deep_view()[b]),
                    ) != resolve(fs@.resolved, #[trigger] out.deep_view()[a])
            },
            Err(e) => e.kind == ErrorKind::SolveOrder && e.value is None
                && existing_target.deep_view().len() > 0 && exists|ts: Seq<Seq<Seq<char>>>|
                (forall|i: int|
                    0 <= i < ts.len() ==> existing_target.deep_view().contains(#[trigger] ts[i]))
                    && #[trigger] cycle_among(rename_map@, fs@, ts),
        },
{
    let ghost orig = existing_target.deep_view();
    let mut pending = existing_target;
    let mut out: Vec<FsPath> = Vec::new();
    while pending.len() > 0
        invariant
            orig == existing_target.deep_view(),
            forall|p: Seq<Seq<char>>|
                (out.deep_view().contains(p) || pending.deep_view().contains(p)) == #[trigger] orig.contains(
                    p,
                ),
            distinct_paths(out.deep_view()),
            distinct_paths(pending.deep_view()),
            forall|p: Seq<Seq<char>>|
                #[trigger] pending.deep_view().contains(p) ==> !out.deep_view().contains(p),
            forall|a: int, b: int|
                0 <= a < b < out.deep_view().len() ==> resolve(
                    fs@.resolved,
                    lookup_source(rename_map@, #[trigger] out.deep_view()[b]),
                ) != resolve(fs@.resolved, #[trigger] out.deep_view()[a]),
            forall|a: int, q: int|
                0 <= a < out.deep_view().len() && 0 <= q < pending.deep_view().len() ==> resolve(
                    fs@.resolved,
                    lookup_source(rename_map@, #[trigger] pending.deep_view()[q]),
                ) != resolve(fs@.resolved, #[trigger] out.deep_view()[a]),
            orig.len() > 0 ==> orig.contains(orig[0]),
        decreases pending.len(),
    {
        // the resolved sources every remaining target still reads from
        let mut sources: Vec<FsPath> = Vec::new();
        let mut i: usize = 0;
        while i < pending.len()
            invariant
                i <= pending.len(),
                sources.deep_view().len() == i as int,
                forall|j: int|
                    0 <= j < i ==> #[trigger] sources.deep_view()[j] == resolve(
                        fs@.resolved,
                        lookup_source(rename_map@, pending.deep_view()[j]),
                    ),
            decreases pending.len() - i,
        {
            let ghost pre = sources.deep_view();
            let src = rename_map.source_of(&pending[i]);
            let abs = resolve_path(fs, &src);
            sources.push(abs);
            proof {
                assert(sources.deep_view() =~= pre.push(abs@));
            }
            i += 1;
        }
        // select a target nothing still reads from
        let selected = select_writable(rename_map, fs, &pending, &sources);
        match selected {
            Some(idx) => {
                let ghost pre_pending = pending.deep_view();
                let ghost pre_out = out.deep_view();
                let ghost chosen = pre_pending[idx as int];
                let t = pending.swap_remove(idx);
                out.push(t);
                proof {
                    assert(t@ == chosen);
                    assert(out.deep_view() =~= pre_out.push(chosen));
                    assert(pending.deep_view() =~= pre_pending.update(
                        idx as int,
                        pre_pending.last(),
                    ).drop_last());
                    lemma_swap_remove_distinct(pre_pending, idx as int);
                    assert(pre_pending.contains(chosen)) by {
                        assert(pre_pending[idx as int] == chosen);
                    }
                    assert(!pre_out.contains(chosen));
                    assert forall|a: int, b: int|
                        0 <= a < b < out.deep_view().len() implies out.deep_view()[a]
                        != out.deep_view()[b] by {
                        if b == out.deep_view().len() - 1 {
                            if pre_out[a] == chosen {
                                assert(pre_out.contains(chosen));
                            }
                        } else {
                            assert(pre_out[a] == out.deep_view()[a]);
                            assert(pre_out[b] == out.deep_view()[b]);
                        }
                    }
                    assert forall|p: Seq<Seq<char>>|
                        (out.deep_view().contains(p) || pending.deep_view().contains(p))
                            == #[trigger] orig.contains(p) by {
                        assert(pre_pending.contains(chosen)) by {
                            assert(pre_pending[idx as int] == chosen);
                        }
                        if out.deep_view().contains(p) {
                            let a = choose|a: int|
                                0 <= a < out.deep_view().len() && out.deep_view()[a] == p;
                            if a < pre_out.len() {
                                assert(pre_out[a] == p);
                            }
                        }
                        if pre_out.contains(p) {
                            let a = choose|a: int| 0 <= a < pre_out.len() && pre_out[a] == p;
                            assert(out.deep_view()[a] == p);
                        }
                        if p == chosen {
                            assert(out.deep_view()[pre_out.len() as int] == p);
                        }
                    }
                    assert forall|a: int, b: int| 0 <= a < b < out.deep_view().len() implies resolve(
                        fs@.resolved,
                        lookup_source(rename_map@, #[trigger] out.deep_view()[b]),
                    ) != resolve(fs@.resolved, #[trigger] out.deep_view()[a]) by {
                        if b == out.deep_view().len() - 1 {
                            assert(out.deep_view()[b] == chosen);
                            assert(pre_pending.contains(chosen)) by {
                                assert(pre_pending[idx as int] == chosen);
                            }
                            let q = choose|q: int|
                                0 <= q < pre_pending.len() && pre_pending[q] == chosen;
                            assert(resolve(
                                fs@.resolved,
                                lookup_source(rename_map@, pre_pending[q]),
                            ) != resolve(fs@.resolved, pre_out[a]));
                        } else {
                            assert(pre_out[a] == out.deep_view()[a]);
                            assert(pre_out[b] == out.deep_view()[b]);
                        }
                    }
                    assert forall|a: int, q: int|
                        0 <= a < out.deep_view().len() && 0 <= q < pending.deep_view().len()
                            implies resolve(
                            fs@.resolved,
                            lookup_source(rename_map@, #[trigger] pending.deep_view()[q]),
                        ) != resolve(fs@.resolved, #[trigger] out.deep_view()[a]) by {
                        let p = pending.deep_view()[q];
                        assert(pending.deep_view().contains(p));
                        assert(pre_pending.contains(p));
                        let qq = choose|qq: int|
                            0 <= qq < pre_pending.len() && pre_pending[qq] == p;
                        if a < pre_out.len() {
                            assert(resolve(
                                fs@.resolved,
                                lookup_source(rename_map@, pre_pending[qq]),
                            ) != resolve(fs@.resolved, pre_out[a]));
                        } else {
                            assert(out.deep_view()[a] == chosen);
                        }
                    }
                }
            },
            None => {
                proof {
                    assert(pending.deep_view().contains(pending.deep_view()[0]));
                    assert(orig.contains(pending.deep_view()[0]));
                    assert(orig.len() > 0);
                    assert(cycle_among(rename_map@, fs@, pending.deep_view()));
                    assert forall|i: int|
                        0 <= i < pending.deep_view().len() implies orig.contains(
                        #[trigger] pending.deep_view()[i],
                    ) by {
                        assert(pending.deep_view().contains(pending.deep_view()[i]));
                    }
                }
                return Err(Error { kind: ErrorKind::SolveOrder, value: None });
            },
        }
    }
    proof {
        assert forall|p: Seq<Seq<char>>|
            #[trigger] out.deep_view().contains(p) == orig.contains(p) by {
            if pending.deep_view().contains(p) {
                let q = choose|q: int|
                    0 <= q < pending.deep_view().len() && pending.deep_view()[q] == p;
                assert(false);
            }
        }
    }
    Ok(out)
}

/// The targets of the mapping's entries at one depth, in entry order.
pub open spec fn targets_at(m: Seq<OpView>, lvl: nat) -> Seq<Seq<Seq<char>>>
    decreases m.len(),
{
    if m.len() == 0 {
        Seq::empty()
    } else {
        let rest = targets_at(m.drop_last(), lvl);
        if m.last().target.len() == lvl {
            rest.push(m.last().target)
        } else {
            rest
        }
    }
}

/// Membership in the targets of one depth.
proof fn lemma_targets_at_contains(m: Seq<OpView>, lvl: nat, p: Seq<Seq<char>>)
    ensures
        targets_at(m, lvl).contains(p) == exists|i: int|
            0 <= i < m.len() && (#[trigger] m[i]).target == p && p.len() == lvl,
    decreases m.len(),
{
    if m.len() == 0 {
    } else {
        lemma_targets_at_contains(m.drop_last(), lvl, p);
        assert((exists|i: int|
            0 <= i < m.drop_last().len() && (#[trigger] m.drop_last()[i]).target == p && p.len()
                == lvl) == exists|i: int|
            0 <= i < m.len() - 1 && (#[trigger] m[i]).target == p && p.len() == lvl) by {
            if exists|i: int|
                0 <= i < m.drop_last().len() && (#[trigger] m.drop_last()[i]).target == p && p.len()
                    == lvl {
                let i = choose|i: int|
                    0 <= i < m.drop_last().len() && (#[trigger] m.drop_last()[i]).target == p
                        && p.len() == lvl;
                assert(m[i].target == p);
            }
            if exists|i: int| 0 <= i < m.len() - 1 && (#[trigger] m[i]).target == p && p.len() == lvl {
                let i = choose|i: int|
                    0 <= i < m.len() - 1 && (#[trigger] m[i]).target == p && p.len() == lvl;
                assert(m.drop_last()[i].target == p);
            }
        }
        let rest = targets_at(m.drop_last(), lvl);
        if m.last().target.len() == lvl {
            assert(rest.push(m.last().target).contains(p) == (rest.contains(p) || m.last().target
                == p)) by {
                if rest.contains(p) {
                    let i = choose|i: int| 0 <= i < rest.len() && rest[i] == p;
                    assert(rest.push(m.last().target)[i] == p);
                }
                if m.last().target == p {
                    assert(rest.push(m.last().target)[rest.len() as int] == p);
                }
                if rest.push(m.last().target).contains(p) {
                    let i = choose|i: int|
                        0 <= i < rest.len() + 1 && rest.push(m.last().target)[i] == p;
                    if i < rest.len() {
                        assert(rest[i] == p);
                    }
                }
            }
            if m.last().target == p {
                assert(m[m.len() - 1].target == p);
            }
        } else {
            if exists|i: int| 0 <= i < m.len() && (#[trigger] m[i]).target == p && p.len() == lvl {
                let i = choose|i: int|
                    0 <= i < m.len() && (#[trigger] m[i]).target == p && p.len() == lvl;
                assert(i < m.len() - 1);
            }
        }
    }
}

/// With unique targets, the targets of one depth are distinct.
proof fn lemma_targets_at_distinct(m: Seq<OpView>, lvl: nat)
    requires
        forall|a: int, b: int| 0 <= a < b < m.len() ==> m[a].target != m[b].target,
    ensures
        distinct_paths(targets_at(m, lvl)),
    decreases m.len(),
{
    if m.len() == 0 {
    } else {
        assert(forall|a: int, b: int|
            0 <= a < b < m.drop_last().len() ==> m.drop_last()[a] == m[a] && m.drop_last()[b]
                == m[b]);
        lemma_targets_at_distinct(m.drop_last(), lvl);
        let rest = targets_at(m.drop_last(), lvl);
        if m.last().target.len() == lvl {
            assert(!rest.contains(m.last().target)) by {
                lemma_targets_at_contains(m.drop_last(), lvl, m.last().target);
                if rest.contains(m.last().target) {
                    let i = choose|i: int|
                        0 <= i < m.drop_last().len() && (#[trigger] m.drop_last()[i]).target
                            == m.last().target && m.last().target.len() == lvl;
                    assert(m[i].target == m[m.len() - 1].target);
                    assert(false);
                }
            }
            assert forall|a: int, b: int|
                0 <= a < b < rest.push(m.last().target).len() implies rest.push(m.last().target)[a]
                != rest.push(m.last().target)[b] by {
                if b < rest.len() {
                    assert(rest[a] != rest[b]);
                } else {
                    if rest[a] == m.last().target {
                        assert(rest.contains(m.last().target));
                    }
                }
            }
        }
    }
}

/// The targets of a list that the screening left free, in list order.
pub open spec fn free_of(
    ts: Seq<Seq<Seq<char>>>,
    m: Seq<OpView>,
    fs: FsVView,
) -> Seq<Seq<Seq<char>>>
    decreases ts.len(),
{
    if ts.len() == 0 {
        Seq::empty()
    } else {
        let rest = free_of(ts.drop_last(), m, fs);
        if !(fs.existing.contains(ts.last()) && is_source(m, ts.last())) {
            rest.push(ts.last())
        } else {
            rest
        }
    }
}

/// Membership in the free targets.
proof fn lemma_free_contains(
    ts: Seq<Seq<Seq<char>>>,
    m: Seq<OpView>,
    fs: FsVView,
    p: Seq<Seq<char>>,
)
    ensures
        free_of(ts, m, fs).contains(p) == (ts.contains(p) && !(fs.existing.contains(p) && is_source(
            m,
            p,
        ))),
    decreases ts.len(),
{
    if ts.len() == 0 {
    } else {
        lemma_free_contains(ts.drop_last(), m, fs, p);
        assert(ts.contains(p) == (ts.drop_last().contains(p) || ts.last() == p)) by {
            if ts.contains(p) {
                let i = choose|i: int| 0 <= i < ts.len() && ts[i] == p;
                if i < ts.len() - 1 {
                    assert(ts.drop_last()[i] == p);
                }
            }
            if ts.drop_last().contains(p) {
                let i = choose|i: int| 0 <= i < ts.drop_last().len() && ts.drop_last()[i] == p;
                assert(ts[i] == p);
            }
        }
        let rest = free_of(ts.drop_last(), m, fs);
        if !(fs.existing.contains(ts.last()) && is_source(m, ts.last())) {
            assert(rest.push(ts.last()).contains(p) == (rest.contains(p) || ts.last() == p)) by {
                if rest.contains(p) {
                    let i = choose|i: int| 0 <= i < rest.len() && rest[i] == p;
                    assert(rest.push(ts.last())[i] == p);
                }
                if ts.last() == p {
                    assert(rest.push(ts.last())[rest.len() as int] == p);
                }
                if rest.push(ts.last()).contains(p) {
                    let i = choose|i: int| 0 <= i < rest.len() + 1 && rest.push(ts.last())[i] == p;
                    if i < rest.len() {
                        assert(rest[i] == p);
                    }
                }
            }
        }
    }
}

/// Whether a list of depths holds one equal to `x`.
fn usize_contains(v: &Vec<usize>, x: usize) -> (r: bool)
    ensures
        r == v@.contains(x),
{
    let mut i: usize = 0;
    while i < v.len()
        invariant
            i <= v.len(),
            forall|j: int| 0 <= j < i ==> v@[j] != x,
        decreases v.len() - i,
    {
        if v[i] == x {
            return true;
        }
        i += 1;
    }
    proof {
        if v@.contains(x) {
            let j = choose|j: int| 0 <= j < v@.len() && v@[j] == x;
            assert(false);
        }
    }
    false
}

/// Sorts distinct depths into strictly decreasing order, keeping
/// membership.
fn sort_desc(v: Vec<usize>) -> (r: Vec<usize>)
    requires
        forall|a: int, b: int| 0 <= a < b < v@.len() ==> v@[a] != v@[b],
    ensures
        forall|x: usize| #[trigger] r@.contains(x) == v@.contains(x),
        forall|a: int, b: int| 0 <= a < b < r@.len() ==> r@[a] > r@[b],
    decreases v.len(),
{
    let ghost orig = v@;
    let mut pending = v;
    let mut out: Vec<usize> = Vec::new();
    while pending.len() > 0
        invariant
            forall|x: usize| (out@.contains(x) || pending@.contains(x)) == #[trigger] orig.contains(x),
            forall|a: int, b: int| 0 <= a < b < pending@.len() ==> pending@[a] != pending@[b],
            forall|a: int, b: int| 0 <= a < b < out@.len() ==> out@[a] > out@[b],
            forall|a: int, q: int|
                0 <= a < out@.len() && 0 <= q < pending@.len() ==> out@[a] > pending@[q],
        decreases pending.len(),
    {
        let mut mi: usize = 0;
        let mut k: usize = 1;
        while k < pending.len()
            invariant
                (mi as int) < pending@.len(),
                1 <= k <= pending@.len(),
                forall|j: int| 0 <= j < k ==> pending@[j] <= pending@[mi as int],
            decreases pending.len() - k,
        {
            if pending[k] > pending[mi] {
                mi = k;
            }
            k += 1;
        }
        let ghost pre_pending = pending@;
        let ghost pre_out = out@;
        let ghost chosen = pre_pending[mi as int];
        let x = pending.swap_remove(mi);
        out.push(x);
        proof {
            lemma_swap_remove_distinct(pre_pending, mi as int);
            assert(pending@ =~= pre_pending.update(mi as int, pre_pending.last()).drop_last());
            assert(out@ =~= pre_out.push(chosen));
            assert(pre_pending.contains(chosen)) by {
                assert(pre_pending[mi as int] == chosen);
            }
            assert forall|x2: usize|
                (out@.contains(x2) || pending@.contains(x2)) == #[trigger] orig.contains(x2) by {
                if out@.contains(x2) {
                    let a = choose|a: int| 0 <= a < out@.len() && out@[a] == x2;
                    if a < pre_out.len() {
                        assert(pre_out[a] == x2);
                    }
                }
                if pre_out.contains(x2) {
                    let a = choose|a: int| 0 <= a < pre_out.len() && pre_out[a] == x2;
                    assert(out@[a] == x2);
                }
                if x2 == chosen {
                    assert(out@[pre_out.len() as int] == x2);
                }
            }
            assert forall|a: int, q: int|
                0 <= a < out@.len() && 0 <= q < pending@.len() implies out@[a] > pending@[q] by {
                let y = pending@[q];
                assert(pending@.contains(y));
                assert(pre_pending.contains(y) && y != chosen);
                let qq = choose|qq: int| 0 <= qq < pre_pending.len() && pre_pending[qq] == y;
                assert(y <= chosen);
                if a < pre_out.len() {
                    assert(pre_out[a] > chosen);
                } else {
                    assert(out@[a] == chosen);
                }
            }
            assert forall|a: int, b: int| 0 <= a < b < out@.len() implies out@[a] > out@[b] by {
                if b == out@.len() - 1 {
                    assert(pre_out[a] > chosen) by {
                        assert(pre_pending[mi as int] == chosen);
                    }
                } else {
                    assert(pre_out[a] > pre_out[b]);
                }
            }
        }
    }
    proof {
        assert forall|x: usize| #[trigger] out@.contains(x) == orig.contains(x) by {
            if pending@.contains(x) {
                let q = choose|q: int| 0 <= q < pending@.len() && pending@[q] == x;
                assert(false);
            }
        }
    }
    out
}

/// Whether a depth is listed among the first `n` levels.
pub open spec fn depth_in_prefix(levels: Seq<usize>, n: int, d: nat) -> bool {
    exists|a: int| 0 <= a < n && a < levels.len() && (#[trigger] levels[a]) as nat == d
}

/// What a successfully solved order guarantees: every operation is a
/// mapping entry and every entry appears; targets are distinct and
/// ordered by non-increasing depth; and within one depth no operation
/// reads from a resolved path that an earlier occupied target was
/// renamed onto.
pub open spec fn solved_ok(m: Seq<OpView>, fs: FsVView, ops: Seq<OpView>) -> bool {
    &&& forall|k: int| 0 <= k < ops.len() ==> m.contains(#[trigger] ops[k])
    &&& forall|e: OpView| #[trigger] m.contains(e) ==> ops.contains(e)
    &&& forall|a: int, b: int|
        0 <= a < b < ops.len() ==> (#[trigger] ops[a]).target != (#[trigger] ops[b]).target
    &&& forall|a: int, b: int|
        0 <= a <= b < ops.len() ==> (#[trigger] ops[b]).target.len() <= (
        #[trigger] ops[a]).target.len()
    &&& forall|a: int, b: int|
        0 <= a < b < ops.len() && fs.existing.contains((#[trigger] ops[a]).target) && is_source(
            m,
            ops[a].target,
        ) && (#[trigger] ops[b]).target.len() == ops[a].target.len() ==> resolve(
            fs.resolved,
            ops[b].source,
        ) != resolve(fs.resolved, ops[a].target)
    &&& forall|a: int, b: int|
        0 <= a < b < ops.len() && (#[trigger] ops[b]).target.len() == (
        #[trigger] ops[a]).target.len() && fs.existing.contains(ops[a].target) && is_source(
            m,
            ops[a].target,
        ) ==> fs.existing.contains(ops[b].target) && is_source(m, ops[b].target)
}

/// With distinct targets, the kept targets are distinct.
proof fn lemma_kept_distinct(ts: Seq<Seq<Seq<char>>>, m: Seq<OpView>, fs: FsVView)
    requires
        distinct_paths(ts),
    ensures
        distinct_paths(kept_targets(ts, m, fs)),
    decreases ts.len(),
{
    if ts.len() == 0 {
    } else {
        assert(forall|a: int, b: int|
            0 <= a < b < ts.drop_last().len() ==> ts.drop_last()[a] == ts[a] && ts.drop_last()[b]
                == ts[b]);
        lemma_kept_distinct(ts.drop_last(), m, fs);
        let rest = kept_targets(ts.drop_last(), m, fs);
        if fs.existing.contains(ts.last()) && is_source(m, ts.last()) {
            assert(!rest.contains(ts.last())) by {
                lemma_kept_contains(ts.drop_last(), m, fs, ts.last());
                if ts.drop_last().contains(ts.last()) {
                    let i = choose|i: int|
                        0 <= i < ts.drop_last().len() && ts.drop_last()[i] == ts.last();
                    assert(ts[i] == ts[ts.len() - 1]);
                    assert(false);
                }
            }
            assert forall|a: int, b: int|
                0 <= a < b < rest.push(ts.last()).len() implies rest.push(ts.last())[a]
                != rest.push(ts.last())[b] by {
                if b < rest.len() {
                    assert(rest[a] != rest[b]);
                } else {
                    if rest[a] == ts.last() {
                        assert(rest.contains(ts.last()));
                    }
                }
            }
        }
    }
}

/// With distinct targets, the free targets are distinct.
proof fn lemma_free_distinct(ts: Seq<Seq<Seq<char>>>, m: Seq<OpView>, fs: FsVView)
    requires
        distinct_paths(ts),
    ensures
        distinct_paths(free_of(ts, m, fs)),
    decreases ts.len(),
{
    if ts.len() == 0 {
    } else {
        assert(forall|a: int, b: int|
            0 <= a < b < ts.drop_last().len() ==> ts.drop_last()[a] == ts[a] && ts.drop_last()[b]
                == ts[b]);
        lemma_free_distinct(ts.drop_last(), m, fs);
        let rest = free_of(ts.drop_last(), m, fs);
        if !(fs.existing.contains(ts.last()) && is_source(m, ts.last())) {
            assert(!rest.contains(ts.last())) by {
                lemma_free_contains(ts.drop_last(), m, fs, ts.last());
                if ts.drop_last().contains(ts.last()) {
                    let i = choose|i: int|
                        0 <= i < ts.drop_last().len() && ts.drop_last()[i] == ts.last();
                    assert(ts[i] == ts[ts.len() - 1]);
                    assert(false);
                }
            }
            assert forall|a: int, b: int|
                0 <= a < b < rest.push(ts.last()).len() implies rest.push(ts.last())[a]
                != rest.push(ts.last())[b] by {
                if b < rest.len() {
                    assert(rest[a] != rest[b]);
                } else {
                    if rest[a] == ts.last() {
                        assert(rest.contains(ts.last()));
                    }
                }
            }
        }
    }
}

/// An emitted order that keeps every solver guarantee so far: each
/// element a mapping target, all distinct, depths non-increasing, and
/// within one depth no later operation reads from an occupied target
/// already renamed onto.
pub open spec fn order_wf(m: Seq<OpView>, fs: FsVView, ord: Seq<Seq<Seq<char>>>) -> bool {
    &&& forall|k: int| 0 <= k < ord.len() ==> is_target(m, #[trigger] ord[k]) && wf_path(ord[k])
    &&& distinct_paths(ord)
    &&& forall|a: int, b: int|
        0 <= a <= b < ord.len() ==> (#[trigger] ord[b]).len() <= (#[trigger] ord[a]).len()
    &&& forall|a: int, b: int|
        0 <= a < b < ord.len() && fs.existing.contains(#[trigger] ord[a]) && is_source(m, ord[a])
            && (#[trigger] ord[b]).len() == ord[a].len() ==> resolve(
            fs.resolved,
            lookup_source(m, ord[b]),
        ) != resolve(fs.resolved, ord[a])
    &&& forall|a: int, b: int|
        0 <= a < b < ord.len() && (#[trigger] ord[b]).len() == (#[trigger] ord[a]).len()
            && fs.existing.contains(ord[a]) && is_source(m, ord[a]) ==> fs.existing.contains(
            ord[b],
        ) && is_source(m, ord[b])
}

/// Solves the rename order: depths from deepest to shallowest; within a
/// depth, free targets first, then retained occupied targets ordered so
/// each is written only after the operation that vacates it; a leftover
/// cycle or an unrelated occupant is a reported failure.
#[verifier::rlimit(100)]
pub fn solve_rename_order(rename_map: &RenameMap, fs: &FsView) -> (r: Result<Operations, Error>)
    requires
        wf_map(rename_map@),
        wf_map_paths(rename_map@),
    ensures
        match r {
            Ok(ops) => solved_ok(rename_map@, fs@, ops.deep_view()) && !existing_conflict(
                rename_map@,
                fs@,
            ) && forall|k: int|
                0 <= k < ops.deep_view().len() ==> wf_path((#[trigger] ops.deep_view()[k]).source)
                    && wf_path(ops.deep_view()[k].target),
            Err(e) => {
                &&& (e.kind == ErrorKind::ExistingPath || e.kind == ErrorKind::SolveOrder)
                &&& e.kind == ErrorKind::ExistingPath ==> existing_conflict(rename_map@, fs@)
                    && e.value is Some && exists|i: int|
                    0 <= i < rename_map@.len() && conflict_at(
                        rename_map@,
                        fs@,
                        (#[trigger] rename_map@[i]).target,
                    ) && (e.value->Some_0)@ == path_to_string_spec(
                        lookup_source(rename_map@, rename_map@[i].target),
                    ) + " -> "@ + path_to_string_spec(rename_map@[i].target)
                &&& e.kind == ErrorKind::SolveOrder ==> exists|ts: Seq<Seq<Seq<char>>>|
                    (forall|i: int| 0 <= i < ts.len() ==> is_target(rename_map@, #[trigger] ts[i]))
                        && #[trigger] cycle_among(rename_map@, fs@, ts)
            },
        },
        (forall|k: int|
            0 <= k < rename_map@.len() ==> !fs@.existing.contains(
                (#[trigger] rename_map@[k]).target,
            )) ==> r is Ok,
{
    let ghost m = rename_map@;
    // the distinct depths among the targets
    let mut depths: Vec<usize> = Vec::new();
    let mut i: usize = 0;
    while i < rename_map.entries.len()
        invariant
            m == rename_map@,
            i <= rename_map.entries.len(),
            forall|j: int|
                0 <= j < i ==> depth_in_prefix(
                    depths@,
                    depths@.len() as int,
                    (#[trigger] m[j]).target.len(),
                ),
            forall|a: int, b: int| 0 <= a < b < depths@.len() ==> depths@[a] != depths@[b],
        decreases rename_map.entries.len() - i,
    {
        let d = rename_map.entries[i].target.depth();
        proof {
            assert(m[i as int].target == rename_map.entries.deep_view()[i as int].target);
        }
        if !usize_contains(&depths, d) {
            let ghost pre = depths@;
            depths.push(d);
            proof {
                assert(depths@ =~= pre.push(d));
                assert forall|j: int|
                    0 <= j < i + 1 implies depth_in_prefix(
                    depths@,
                    depths@.len() as int,
                    (#[trigger] m[j]).target.len(),
                ) by {
                    if j < i {
                        let a = choose|a: int|
                            0 <= a < pre.len() && (#[trigger] pre[a]) as nat == m[j].target.len();
                        assert(depths@[a] as nat == m[j].target.len());
                    } else {
                        assert(depths@[pre.len() as int] as nat == m[j].target.len());
                    }
                }
            }
        } else {
            proof {
                let a = choose|a: int| 0 <= a < depths@.len() && depths@[a] == d;
                assert((#[trigger] depths@[a]) as nat == m[i as int].target.len());
            }
        }
        i += 1;
    }
    let ghost pre_sort = depths@;
    let levels = sort_desc(depths);
    proof {
        assert forall|j: int|
            0 <= j < m.len() implies depth_in_prefix(
            levels@,
            levels@.len() as int,
            (#[trigger] m[j]).target.len(),
        ) by {
            let a = choose|a: int|
                0 <= a < pre_sort.len() && (#[trigger] pre_sort[a]) as nat == m[j].target.len();
            assert(pre_sort.contains(pre_sort[a]));
            assert(levels@.contains(pre_sort[a]));
            let b = choose|b: int| 0 <= b < levels@.len() && levels@[b] == pre_sort[a];
            assert((#[trigger] levels@[b]) as nat == m[j].target.len());
        }
    }
    // emit levels deepest first
    let mut order: Vec<FsPath> = Vec::new();
    let mut li: usize = 0;
    while li < levels.len()
        invariant
            m == rename_map@,
            wf_map(m),
            wf_map_paths(m),
            li <= levels.len(),
            forall|a: int, b: int| 0 <= a < b < levels@.len() ==> levels@[a] > levels@[b],
            forall|j: int|
                0 <= j < m.len() ==> depth_in_prefix(
                    levels@,
                    levels@.len() as int,
                    (#[trigger] m[j]).target.len(),
                ),
            order_wf(m, fs@, order.deep_view()),
            forall|k: int|
                0 <= k < order.deep_view().len() && (li as int) < levels@.len() ==> (
                #[trigger] order.deep_view()[k]).len() > levels@[li as int] as nat,
            forall|j: int|
                0 <= j < m.len() && depth_in_prefix(
                    levels@,
                    li as int,
                    (#[trigger] m[j]).target.len(),
                ) ==> order.deep_view().contains(m[j].target),
            forall|j: int|
                0 <= j < m.len() && depth_in_prefix(
                    levels@,
                    li as int,
                    (#[trigger] m[j]).target.len(),
                ) ==> !conflict_at(m, fs@, m[j].target),
        decreases levels.len() - li,
    {
        let lvl = levels[li];
        // this level's targets, in entry order
        let mut level_targets: Vec<FsPath> = Vec::new();
        let mut j: usize = 0;
        proof {
            assert(m.take(0) =~= Seq::<OpView>::empty());
        }
        while j < rename_map.entries.len()
            invariant
                m == rename_map@,
                wf_map_paths(m),
                j <= rename_map.entries.len(),
                level_targets.deep_view() == targets_at(m.take(j as int), lvl as nat),
            decreases rename_map.entries.len() - j,
        {
            let ghost pre = level_targets.deep_view();
            proof {
                assert(m.take(j as int + 1).drop_last() =~= m.take(j as int));
                assert(m.take(j as int + 1).last() == m[j as int]);
            }
            if rename_map.entries[j].target.depth() == lvl {
                level_targets.push(rename_map.entries[j].target.clone());
                proof {
                    assert(level_targets.deep_view() =~= pre.push(m[j as int].target));
                }
            }
            j += 1;
        }
        proof {
            assert(m.take(m.len() as int) =~= m);
        }
        let ghost lts = level_targets.deep_view();
        proof {
            lemma_targets_at_distinct(m, lvl as nat);
            assert forall|k: int|
                0 <= k < lts.len() implies is_target(m, #[trigger] lts[k]) && lts[k].len()
                == lvl as nat && wf_path(lts[k]) by {
                assert(lts.contains(lts[k]));
                lemma_targets_at_contains(m, lvl as nat, lts[k]);
                let e = choose|e: int|
                    0 <= e < m.len() && (#[trigger] m[e]).target == lts[k] && lts[k].len()
                        == lvl as nat;
                assert(m[e].target == lts[k]);
            }
        }
        // screen occupied targets
        let existing_res = match get_existing_targets(&level_targets, rename_map, fs) {
            Ok(v) => v,
            Err(e) => {
                proof {
                    let k = choose|k: int|
                        0 <= k < lts.len() && conflict_at(m, fs@, #[trigger] lts[k]) && (
                        e.value->Some_0)@ == path_to_string_spec(lookup_source(m, lts[k]))
                            + " -> "@ + path_to_string_spec(lts[k]);
                    lemma_targets_at_contains(m, lvl as nat, lts[k]);
                    assert(lts.contains(lts[k]));
                    let ei = choose|ei: int|
                        0 <= ei < m.len() && (#[trigger] m[ei]).target == lts[k] && lts[k].len()
                            == lvl as nat;
                    assert(conflict_at(m, fs@, m[ei].target));
                    assert(existing_conflict(m, fs@));
                    assert(fs@.existing.contains(m[ei].target));
                    assert((e.value->Some_0)@ == path_to_string_spec(
                        lookup_source(m, m[ei].target),
                    ) + " -> "@ + path_to_string_spec(m[ei].target));
                }
                return Err(e);
            },
        };
        let ghost kept = existing_res.deep_view();
        // free targets of this level go first
        let mut batch: Vec<FsPath> = Vec::new();
        let mut j2: usize = 0;
        proof {
            assert(lts.take(0) =~= Seq::<Seq<Seq<char>>>::empty());
        }
        while j2 < level_targets.len()
            invariant
                m == rename_map@,
                j2 <= level_targets.len(),
                lts == level_targets.deep_view(),
                kept == kept_targets(lts, m, fs@),
                kept == existing_res.deep_view(),
                batch.deep_view() == free_of(lts.take(j2 as int), m, fs@),
            decreases level_targets.len() - j2,
        {
            let ghost pre = batch.deep_view();
            proof {
                assert(lts.take(j2 as int + 1).drop_last() =~= lts.take(j2 as int));
                assert(lts.take(j2 as int + 1).last() == lts[j2 as int]);
            }
            let t = &level_targets[j2];
            proof {
                assert(t@ == lts[j2 as int]);
            }
            if !path_list_contains(&existing_res, t) {
                batch.push(t.clone());
                proof {
                    lemma_kept_contains(lts, m, fs@, lts[j2 as int]);
                    assert(lts.contains(lts[j2 as int]));
                    assert(!(fs@.existing.contains(lts[j2 as int]) && is_source(
                        m,
                        lts[j2 as int],
                    )));
                    assert(batch.deep_view() =~= pre.push(lts[j2 as int]));
                }
            } else {
                proof {
                    lemma_kept_contains(lts, m, fs@, lts[j2 as int]);
                }
            }
            j2 += 1;
        }
        proof {
            assert(lts.take(lts.len() as int) =~= lts);
        }
        let ghost frees = batch.deep_view();
        // then the retained occupied targets, in a safe order
        proof {
            lemma_kept_distinct(lts, m, fs@);
        }
        let sorted = match sort_existing_target(rename_map, fs, existing_res) {
            Ok(v) => v,
            Err(e) => {
                proof {
                    assert(kept.len() > 0);
                    assert(kept.contains(kept[0]));
                    lemma_kept_contains(lts, m, fs@, kept[0]);
                    assert(fs@.existing.contains(kept[0]));
                    lemma_targets_at_contains(m, lvl as nat, kept[0]);
                    let ei = choose|ei: int|
                        0 <= ei < m.len() && (#[trigger] m[ei]).target == kept[0] && kept[0].len()
                            == lvl as nat;
                    assert(fs@.existing.contains(m[ei].target));
                    let ts = choose|ts: Seq<Seq<Seq<char>>>|
                        (forall|i: int| 0 <= i < ts.len() ==> kept.contains(#[trigger] ts[i]))
                            && #[trigger] cycle_among(m, fs@, ts);
                    assert forall|i: int| 0 <= i < ts.len() implies is_target(
                        m,
                        #[trigger] ts[i],
                    ) by {
                        lemma_kept_contains(lts, m, fs@, ts[i]);
                        assert(lts.contains(ts[i]));
                        let x = choose|x: int| 0 <= x < lts.len() && lts[x] == ts[i];
                        assert(is_target(m, lts[x]));
                    }
                }
                return Err(e);
            },
        };
        let ghost sortedv = sorted.deep_view();
        // append free, then sorted, to the batch
        let mut j3: usize = 0;
        while j3 < sorted.len()
            invariant
                j3 <= sorted.len(),
                sortedv == sorted.deep_view(),
                frees == free_of(lts, m, fs@),
                batch.deep_view() == frees + sortedv.take(j3 as int),
            decreases sorted.len() - j3,
        {
            let ghost pre = batch.deep_view();
            batch.push(sorted[j3].clone());
            proof {
                assert(sortedv.take(j3 as int + 1) =~= sortedv.take(j3 as int).push(
                    sortedv[j3 as int],
                ));
                assert(batch.deep_view() =~= pre.push(sortedv[j3 as int]));
                assert(batch.deep_view() =~= frees + sortedv.take(j3 as int + 1));
            }
            j3 += 1;
        }
        proof {
            assert(sortedv.take(sortedv.len() as int) =~= sortedv);
        }
        let ghost batchv = batch.deep_view();
        proof {
            assert(batchv == frees + sortedv);
            // batch facts
            assert forall|k: int|
                0 <= k < batchv.len() implies lts.contains(#[trigger] batchv[k]) by {
                if k < frees.len() {
                    assert(frees.contains(frees[k]));
                    lemma_free_contains(lts, m, fs@, frees[k]);
                } else {
                    assert(sortedv.contains(sortedv[k - frees.len()]));
                    lemma_kept_contains(lts, m, fs@, sortedv[k - frees.len()]);
                }
            }
            assert forall|k: int|
                0 <= k < batchv.len() implies is_target(m, #[trigger] batchv[k]) && (
            #[trigger] batchv[k]).len() == lvl as nat && wf_path(batchv[k]) by {
                assert(lts.contains(batchv[k]));
                let x = choose|x: int| 0 <= x < lts.len() && lts[x] == batchv[k];
                assert(lts[x].len() == lvl as nat);
            }
            // distinctness of the batch
            lemma_free_distinct(lts, m, fs@);
            assert forall|a: int, b: int|
                0 <= a < b < batchv.len() implies batchv[a] != batchv[b] by {
                if a < frees.len() && b < frees.len() {
                    assert(frees[a] != frees[b]);
                } else if a >= frees.len() && b >= frees.len() {
                    assert(sortedv[a - frees.len()] != sortedv[b - frees.len()]);
                } else {
                    assert(frees.contains(frees[a]));
                    lemma_free_contains(lts, m, fs@, batchv[a]);
                    assert(sortedv.contains(sortedv[b - frees.len()]));
                    lemma_kept_contains(lts, m, fs@, batchv[b]);
                }
            }
            // ordering property inside the batch
            assert forall|a: int, b: int|
                0 <= a < b < batchv.len() && fs@.existing.contains(#[trigger] batchv[a])
                    && is_source(m, batchv[a]) && (#[trigger] batchv[b]).len() == batchv[a].len()
                    implies resolve(fs@.resolved, lookup_source(m, batchv[b])) != resolve(
                fs@.resolved,
                batchv[a],
            ) by {
                if a < frees.len() {
                    assert(frees.contains(frees[a]));
                    lemma_free_contains(lts, m, fs@, batchv[a]);
                    assert(false);
                } else {
                    assert(sortedv[a - frees.len()] == batchv[a]);
                    assert(sortedv[b - frees.len()] == batchv[b]);
                }
            }
            // membership: every level target is in the batch
            assert forall|p: Seq<Seq<char>>| lts.contains(p) implies batchv.contains(p) by {
                lemma_free_contains(lts, m, fs@, p);
                lemma_kept_contains(lts, m, fs@, p);
                if fs@.existing.contains(p) && is_source(m, p) {
                    assert(kept.contains(p));
                    assert(sortedv.contains(p));
                    let x = choose|x: int| 0 <= x < sortedv.len() && sortedv[x] == p;
                    assert(batchv[frees.len() + x] == p);
                } else {
                    assert(frees.contains(p));
                    let x = choose|x: int| 0 <= x < frees.len() && frees[x] == p;
                    assert(batchv[x] == p);
                }
            }
        }
        // append the batch to the running order
        let ghost pre_order = order.deep_view();
        let mut j4: usize = 0;
        while j4 < batch.len()
            invariant
                j4 <= batch.len(),
                batchv == batch.deep_view(),
                order.deep_view() == pre_order + batchv.take(j4 as int),
            decreases batch.len() - j4,
        {
            let ghost pre = order.deep_view();
            order.push(batch[j4].clone());
            proof {
                assert(batchv.take(j4 as int + 1) =~= batchv.take(j4 as int).push(
                    batchv[j4 as int],
                ));
                assert(order.deep_view() =~= pre.push(batchv[j4 as int]));
                assert(order.deep_view() =~= pre_order + batchv.take(j4 as int + 1));
            }
            j4 += 1;
        }
        proof {
            assert(batchv.take(batchv.len() as int) =~= batchv);
            assert(order.deep_view() == pre_order + batchv);
            let ord = order.deep_view();
            // previously emitted targets are strictly deeper
            assert forall|k: int|
                0 <= k < pre_order.len() implies (#[trigger] pre_order[k]).len() > lvl as nat by {}
            // the combined order keeps every solver guarantee
            assert forall|a: int, b: int|
                0 <= a < b < ord.len() implies ord[a] != ord[b] by {
                if a < pre_order.len() && b >= pre_order.len() {
                    assert(pre_order[a].len() > lvl as nat);
                    assert(batchv[b - pre_order.len()].len() == lvl as nat);
                } else if a >= pre_order.len() {
                    assert(batchv[a - pre_order.len()] != batchv[b - pre_order.len()]);
                }
            }
            assert forall|a: int, b: int|
                0 <= a <= b < ord.len() implies (#[trigger] ord[b]).len() <= (
            #[trigger] ord[a]).len() by {
                if a < pre_order.len() && b >= pre_order.len() {
                    assert(pre_order[a].len() > lvl as nat);
                    assert(batchv[b - pre_order.len()].len() == lvl as nat);
                }
            }
            assert forall|a: int, b: int|
                0 <= a < b < ord.len() && fs@.existing.contains(#[trigger] ord[a]) && is_source(
                    m,
                    ord[a],
                ) && (#[trigger] ord[b]).len() == ord[a].len() implies resolve(
                fs@.resolved,
                lookup_source(m, ord[b]),
            ) != resolve(fs@.resolved, ord[a]) by {
                if a < pre_order.len() && b < pre_order.len() {
                } else if a < pre_order.len() && b >= pre_order.len() {
                    assert(pre_order[a].len() > lvl as nat);
                    assert(batchv[b - pre_order.len()].len() == lvl as nat);
                    assert(false);
                } else {
                    assert(batchv[a - pre_order.len()] == ord[a]);
                    assert(batchv[b - pre_order.len()] == ord[b]);
                }
            }
            assert forall|a: int, b: int|
                0 <= a < b < batchv.len() && (#[trigger] batchv[b]).len() == (
            #[trigger] batchv[a]).len() && fs@.existing.contains(batchv[a]) && is_source(
                m,
                batchv[a],
            ) implies fs@.existing.contains(batchv[b]) && is_source(m, batchv[b]) by {
                if a < frees.len() {
                    assert(frees.contains(frees[a]));
                    lemma_free_contains(lts, m, fs@, batchv[a]);
                    assert(false);
                } else {
                    assert(sortedv.contains(sortedv[b - frees.len()]));
                    lemma_kept_contains(lts, m, fs@, batchv[b]);
                }
            }
            assert forall|a: int, b: int|
                0 <= a < b < ord.len() && (#[trigger] ord[b]).len() == (#[trigger] ord[a]).len()
                    && fs@.existing.contains(ord[a]) && is_source(m, ord[a]) implies fs@.existing.contains(
                ord[b],
            ) && is_source(m, ord[b]) by {
                if b < pre_order.len() {
                } else if a < pre_order.len() {
                    assert(pre_order[a].len() > lvl as nat);
                    assert(batchv[b - pre_order.len()].len() == lvl as nat);
                    assert(false);
                } else {
                    assert(batchv[a - pre_order.len()] == ord[a]);
                    assert(batchv[b - pre_order.len()] == ord[b]);
                }
            }
            assert(order_wf(m, fs@, ord));
            // completeness and absence of conflicts for processed levels
            assert forall|jj: int|
                0 <= jj < m.len() && depth_in_prefix(
                    levels@,
                    li as int + 1,
                    (#[trigger] m[jj]).target.len(),
                ) implies ord.contains(m[jj].target) && !conflict_at(m, fs@, m[jj].target) by {
                let a = choose|a: int|
                    0 <= a < li as int + 1 && a < levels@.len() && (#[trigger] levels@[a]) as nat
                        == m[jj].target.len();
                if a < li as int {
                    assert(depth_in_prefix(levels@, li as int, m[jj].target.len()));
                    assert(pre_order.contains(m[jj].target));
                    let x = choose|x: int| 0 <= x < pre_order.len() && pre_order[x] == m[jj].target;
                    assert(ord[x] == m[jj].target);
                } else {
                    assert(m[jj].target.len() == lvl as nat);
                    lemma_targets_at_contains(m, lvl as nat, m[jj].target);
                    assert(lts.contains(m[jj].target));
                    assert(batchv.contains(m[jj].target));
                    let x = choose|x: int| 0 <= x < batchv.len() && batchv[x] == m[jj].target;
                    assert(ord[pre_order.len() + x] == m[jj].target);
                    assert(lts[choose|y: int| 0 <= y < lts.len() && lts[y] == m[jj].target]
                        == m[jj].target);
                }
            }
            // the depth bound for the next level
            if li as int + 1 < levels@.len() {
                assert(levels@[li as int] > levels@[li as int + 1]);
                assert forall|k: int|
                    0 <= k < ord.len() implies (#[trigger] ord[k]).len() > levels@[li as int
                    + 1] as nat by {
                    if k < pre_order.len() {
                        assert(pre_order[k].len() > lvl as nat);
                    } else {
                        assert(batchv[k - pre_order.len()].len() == lvl as nat);
                    }
                }
            }
        }
        li += 1;
    }
    // emit the operations, mapping each ordered target back to its source
    let mut ops: Vec<Operation> = Vec::new();
    let mut oi: usize = 0;
    let ghost ordv = order.deep_view();
    while oi < order.len()
        invariant
            m == rename_map@,
            oi <= order.len(),
            ordv == order.deep_view(),
            ops.deep_view().len() == oi as int,
            forall|k: int|
                0 <= k < oi ==> (#[trigger] ops.deep_view()[k]).target == ordv[k]
                    && ops.deep_view()[k].source == lookup_source(m, ordv[k]),
        decreases order.len() - oi,
    {
        let ghost pre = ops.deep_view();
        let src = rename_map.source_of(&order[oi]);
        let t = order[oi].clone();
        ops.push(Operation { source: src, target: t });
        proof {
            assert(ops.deep_view() =~= pre.push(
                OpView { source: lookup_source(m, ordv[oi as int]), target: ordv[oi as int] },
            ));
        }
        oi += 1;
    }
    proof {
        let opsv = ops.deep_view();
        assert forall|k: int| 0 <= k < opsv.len() implies m.contains(#[trigger] opsv[k]) && wf_path(
            opsv[k].source,
        ) && wf_path(opsv[k].target) by {
            assert(is_target(m, ordv[k]));
            let e = choose|e: int| 0 <= e < m.len() && (#[trigger] m[e]).target == ordv[k];
            lemma_lookup_unique(m, e);
            assert(opsv[k] == m[e]);
        }
        assert forall|e: OpView| #[trigger] m.contains(e) implies opsv.contains(e) by {
            let j = choose|j: int| 0 <= j < m.len() && m[j] == e;
            assert(depth_in_prefix(levels@, levels@.len() as int, m[j].target.len()));
            assert(ordv.contains(m[j].target));
            let k = choose|k: int| 0 <= k < ordv.len() && ordv[k] == m[j].target;
            lemma_lookup_unique(m, j);
            assert(opsv[k] == e);
        }
        assert forall|e: int| 0 <= e < m.len() implies !conflict_at(
            m,
            fs@,
            (#[trigger] m[e]).target,
        ) by {
            assert(depth_in_prefix(levels@, levels@.len() as int, m[e].target.len()));
        }
        assert(!existing_conflict(m, fs@));
        assert(solved_ok(m, fs@, ops.deep_view()));
    }
    Ok(ops)
}

/// The inverse of a solved sequence, for undo: source and target of
/// each operation swapped, and the overall order reversed, so that
/// applying it restores the prior state.
pub fn revert_operations(operations: &Vec<Operation>) -> (r: Result<Operations, Error>)
    ensures
        match r {
            Ok(inv) => {
                &&& inv.deep_view().len() == operations.deep_view().len()
                &&& forall|i: int|
                    0 <= i < inv.deep_view().len() ==> (#[trigger] inv.deep_view()[i]).source
                        == operations.deep_view()[operations.deep_view().len() - 1 - i].target
                        && inv.deep_view()[i].target == operations.deep_view()[operations.deep_view().len()
                        - 1 - i].source
            },
            Err(_) => false,
        },
{
    let n = operations.len();
    let mut inv: Vec<Operation> = Vec::new();
    let mut i: usize = 0;
    while i < n
        invariant
            n == operations.deep_view().len(),
            i <= n,
            inv.deep_view().len() == i as int,
            forall|k: int|
                0 <= k < i ==> (#[trigger] inv.deep_view()[k]).source == operations.deep_view()[n
                    - 1 - k].target && inv.deep_view()[k].target == operations.deep_view()[n - 1
                    - k].source,
        decreases n - i,
    {
        let ghost pre = inv.deep_view();
        let op = &operations[n - 1 - i];
        inv.push(Operation { source: op.target.clone(), target: op.source.clone() });
        proof {
            assert(inv.deep_view() =~= pre.push(
                OpView {
                    source: operations.deep_view()[n - 1 - i as int].target,
                    target: operations.deep_view()[n - 1 - i as int].source,
                },
            ));
        }
        i += 1;
    }
    Ok(inv)
}

/// Law: in a solved order for a mapping whose renames stay at one depth
/// (each source as deep as its target) and whose occupied targets are
/// all themselves scheduled to move, every operation onto an occupied
/// target comes after the operation that vacates it; and since targets
/// are unique, nothing between them re-occupies it.
pub proof fn lemma_solved_order_safe(m: Seq<OpView>, fs: FsVView, ops: Seq<OpView>)
    requires
        wf_map(m),
        solved_ok(m, fs, ops),
        forall|i: int| 0 <= i < m.len() ==> (#[trigger] m[i]).source.len() == m[i].target.len(),
        forall|i: int|
            0 <= i < m.len() && fs.existing.contains((#[trigger] m[i]).target) ==> is_source(
                m,
                m[i].target,
            ),
    ensures
        forall|i: int|
            0 <= i < ops.len() && fs.existing.contains((#[trigger] ops[i]).target) ==> exists|
                j: int,
            |
                0 <= j < i && resolve(fs.resolved, (#[trigger] ops[j]).source) == resolve(
                    fs.resolved,
                    ops[i].target,
                ),
{
    assert forall|i: int|
        0 <= i < ops.len() && fs.existing.contains((#[trigger] ops[i]).target) implies exists|
        j: int,
    |
        0 <= j < i && resolve(fs.resolved, (#[trigger] ops[j]).source) == resolve(
            fs.resolved,
            ops[i].target,
        ) by {
        let t = ops[i].target;
        assert(m.contains(ops[i]));
        let ei = choose|ei: int| 0 <= ei < m.len() && m[ei] == ops[i];
        assert(fs.existing.contains(m[ei].target));
        assert(is_source(m, t));
        let es = choose|es: int| 0 <= es < m.len() && (#[trigger] m[es]).source == t;
        assert(m.contains(m[es]));
        assert(ops.contains(m[es]));
        let k = choose|k: int| 0 <= k < ops.len() && ops[k] == m[es];
        if k == i {
            assert(m[ei].target == m[ei].source);
            assert(false);
        }
        assert(ops[k].target.len() == t.len());
        if k > i {
            assert(resolve(fs.resolved, ops[k].source) != resolve(fs.resolved, ops[i].target));
            assert(false);
        }
        assert(0 <= k < i && resolve(fs.resolved, ops[k].source) == resolve(
            fs.resolved,
            ops[i].target,
        ));
    }
}

/// Law: a two-entry swap of equal-depth paths that both already exist
/// cannot be ordered: the solver reports an unsolvable ordering, never
/// a success and never an existing-path conflict.
pub proof fn lemma_swap_unsolvable(
    m: Seq<OpView>,
    fs: FsVView,
    r: Result<Operations, Error>,
    a: Seq<Seq<char>>,
    b: Seq<Seq<char>>,
)
    requires
        m.len() == 2,
        m[0] == (OpView { source: a, target: b }),
        m[1] == (OpView { source: b, target: a }),
        a != b,
        a.len() == b.len(),
        fs.existing.contains(a),
        fs.existing.contains(b),
        match r {
            Ok(ops) => solved_ok(m, fs, ops.deep_view()),
            Err(e) => (e.kind == ErrorKind::ExistingPath || e.kind == ErrorKind::SolveOrder) && (
            e.kind == ErrorKind::ExistingPath ==> existing_conflict(m, fs)),
        },
    ensures
        r is Err,
        match r {
            Err(e) => e.kind == ErrorKind::SolveOrder,
            Ok(_) => false,
        },
{
    assert(is_source(m, a)) by {
        assert(m[0].source == a);
    }
    assert(is_source(m, b)) by {
        assert(m[1].source == b);
    }
    assert(!existing_conflict(m, fs)) by {
        if existing_conflict(m, fs) {
            let i = choose|i: int| 0 <= i < m.len() && conflict_at(m, fs, (#[trigger] m[i]).target);
            assert(i == 0 || i == 1);
            assert(false);
        }
    }
    match r {
        Ok(ops) => {
            let opsv = ops.deep_view();
            assert(m.contains(m[0]));
            assert(m.contains(m[1]));
            assert(opsv.contains(m[0]));
            assert(opsv.contains(m[1]));
            let k0 = choose|k: int| 0 <= k < opsv.len() && opsv[k] == m[0];
            let k1 = choose|k: int| 0 <= k < opsv.len() && opsv[k] == m[1];
            assert(m[0] != m[1]);
            if k0 < k1 {
                assert(fs.existing.contains(opsv[k0].target));
                assert(is_source(m, opsv[k0].target));
                assert(opsv[k1].target.len() == opsv[k0].target.len());
                assert(resolve(fs.resolved, opsv[k1].source) != resolve(
                    fs.resolved,
                    opsv[k0].target,
                ));
                assert(opsv[k1].source == b && opsv[k0].target == b);
                assert(false);
            } else {
                assert(k1 < k0);
                assert(fs.existing.contains(opsv[k1].target));
                assert(is_source(m, opsv[k1].target));
                assert(opsv[k0].target.len() == opsv[k1].target.len());
                assert(resolve(fs.resolved, opsv[k0].source) != resolve(
                    fs.resolved,
                    opsv[k1].target,
                ));
                assert(opsv[k0].source == a && opsv[k1].target == a);
                assert(false);
            }
        },
        Err(e) => {
            assert(e.kind != ErrorKind::ExistingPath);
        },
    }
}

/// When every candidate already equals its transformed name, the
/// planned renames are empty.
proof fn lemma_planned_noop(cands: Seq<Seq<Seq<char>>>, mode: &ReplaceMode)
    requires
        forall|i: int| 0 <= i < cands.len() ==> target_of(mode, #[trigger] cands[i]) == cands[i],
    ensures
        planned(cands, mode) == Seq::<OpView>::empty(),
    decreases cands.len(),
{
    if cands.len() == 0 {
    } else {
        assert(forall|i: int|
            0 <= i < cands.drop_last().len() ==> cands.drop_last()[i] == #[trigger] cands[i]);
        lemma_planned_noop(cands.drop_last(), mode);
        assert(cands.last() == cands[cands.len() - 1]);
    }
}

/// Law: solving a mapping built from candidates that already equal
/// their transformed names yields an empty operation sequence.
pub proof fn lemma_solve_idempotent(
    cands: Seq<Seq<Seq<char>>>,
    mode: &ReplaceMode,
    m: Seq<OpView>,
    fs: FsVView,
    ops: Seq<OpView>,
)
    requires
        forall|i: int| 0 <= i < cands.len() ==> target_of(mode, #[trigger] cands[i]) == cands[i],
        m == planned(cands, mode),
        solved_ok(m, fs, ops),
    ensures
        ops.len() == 0,
{
    lemma_planned_noop(cands, mode);
    if ops.len() > 0 {
        assert(m.contains(ops[0]));
        let i = choose|i: int| 0 <= i < m.len() && m[i] == ops[0];
        assert(false);
    }
}

/// Law: a deeper target's operation stands before a shallower target's
/// operation in a solved order; solved_ok guarantees both appear.
pub proof fn lemma_depth_ordering(
    m: Seq<OpView>,
    fs: FsVView,
    ops: Seq<OpView>,
    i: int,
    j: int,
    ki: int,
    kj: int,
)
    requires
        solved_ok(m, fs, ops),
        0 <= i < m.len(),
        0 <= j < m.len(),
        m[i].target.len() > m[j].target.len(),
        0 <= ki < ops.len(),
        0 <= kj < ops.len(),
        ops[ki] == m[i],
        ops[kj] == m[j],
    ensures
        ki < kj,
{
    if kj <= ki {
        assert(ops[ki].target.len() <= ops[kj].target.len());
        assert(false);
    }
}
} // verus!
