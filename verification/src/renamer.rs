//! Building the target -> source mapping from candidate paths and the
//! configured name transformation.

use vstd::prelude::*;
use vstd::string::StrSliceExecFns;
use vstd::string::StringExecFns;
use crate::config::ReplaceMode;
use crate::dumpfile::{Operation, OpView};
use crate::error::{Error, ErrorKind};
use crate::path::{
    FsPath, has_file_name, join_paths, join_spec, lemma_join_wf, parse_path, parse_path_spec,
    path_eq, path_to_string, path_to_string_spec, file_name_of, parent_of, wf_path,
};
use crate::strutil::push_char;

verus! {

/// The transliteration any_ascii computes for a string; it depends on
/// the input characters alone.
pub uninterp spec fn ascii_of(s: Seq<char>) -> Seq<char>;

/// Whether regex::Regex::new accepts a pattern; it depends on the
/// pattern alone.
pub uninterp spec fn regex_ok(pattern: Seq<char>) -> bool;

/// The string regex::Regex::replacen yields for a pattern, a haystack,
/// a match limit and a replacement; it depends on these alone.
pub uninterp spec fn replacen_of(
    pattern: Seq<char>,
    haystack: Seq<char>,
    limit: int,
    replacement: Seq<char>,
) -> Seq<char>;

/// Relies on any_ascii::any_ascii: a pure transliteration of the input.
#[verifier::external_body]
fn to_ascii(name: &str) -> (r: String)
    ensures
        r@ == ascii_of(name@),
{
    any_ascii::any_ascii(name)
}

/// Relies on regex::Regex::new: whether the pattern compiles depends on
/// the pattern alone.
#[verifier::external_body]
fn regex_is_valid(pattern: &str) -> (r: bool)
    ensures
        r == regex_ok(pattern@),
{
    regex::Regex::new(pattern).is_ok()
}

/// Relies on regex::Regex::new and regex::Regex::replacen: compilation
/// succeeds exactly when the pattern is accepted, and the replacement
/// result is a function of pattern, haystack, limit and replacement.
#[verifier::external_body]
fn regex_replacen(pattern: &str, haystack: &str, limit: usize, replacement: &str) -> (r: Option<
    String,
>)
    ensures
        r is Some <==> regex_ok(pattern@),
        r is Some ==> (r->Some_0)@ == replacen_of(pattern@, haystack@, limit as int, replacement@),
{
    match regex::Regex::new(pattern) {
        Ok(re) => Some(re.replacen(haystack, limit, replacement).to_string()),
        Err(_) => None,
    }
}

/// Whether the configured transformation can run: a substitution needs
/// an accepted pattern.
pub open spec fn mode_ok(mode: &ReplaceMode) -> bool {
    match mode {
        ReplaceMode::RegExp { expression, .. } => regex_ok(expression@),
        ReplaceMode::ToASCII => true,
    }
}

/// Whether the configured transformation can run.
pub fn mode_is_valid(mode: &ReplaceMode) -> (r: bool)
    ensures
        r == mode_ok(mode),
{
    match mode {
        ReplaceMode::RegExp { expression, .. } => regex_is_valid(expression.as_str()),
        ReplaceMode::ToASCII => true,
    }
}

/// The base name the transformation yields for an original base name; a
/// substitution whose pattern is refused leaves the name unchanged.
pub open spec fn transform_name_spec(mode: &ReplaceMode, name: Seq<char>) -> Seq<char> {
    match mode {
        ReplaceMode::RegExp { expression, replacement, limit } => {
            if regex_ok(expression@) {
                replacen_of(expression@, name, *limit as int, replacement@)
            } else {
                name
            }
        },
        ReplaceMode::ToASCII => ascii_of(name),
    }
}

/// The transformed base name for an original base name.
pub fn transform_name(mode: &ReplaceMode, name: &str) -> (r: String)
    ensures
        r@ == transform_name_spec(mode, name@),
{
    match mode {
        ReplaceMode::RegExp { expression, replacement, limit } => {
            match regex_replacen(expression.as_str(), name, *limit, replacement.as_str()) {
                Some(t) => t,
                None => name.to_owned(),
            }
        },
        ReplaceMode::ToASCII => to_ascii(name),
    }
}

/// The target path of a candidate: its transformed base name, parsed
/// and joined back onto the candidate's parent.
pub open spec fn target_of(mode: &ReplaceMode, p: Seq<Seq<char>>) -> Seq<Seq<char>> {
    join_spec(p.drop_last(), parse_path_spec(transform_name_spec(mode, p.last())))
}

/// The target path the transformation gives a candidate.
pub fn replace_match(mode: &ReplaceMode, path: &FsPath) -> (r: FsPath)
    requires
        wf_path(path@),
        has_file_name(path@),
    ensures
        r@ == target_of(mode, path@),
        wf_path(r@),
{
    let name = file_name_of(path);
    let target_name = transform_name(mode, name.as_str());
    let sub = parse_path(target_name.as_str());
    let parent = parent_of(path);
    proof {
        assert(wf_path(path@.drop_last())) by {
            if path@.len() > 1 {
                assert(forall|i: int|
                    1 <= i < path@.drop_last().len() ==> #[trigger] path@.drop_last()[i] == path@[i]);
            }
        }
        lemma_join_wf(path@.drop_last(), sub@);
    }
    join_paths(&parent, &sub)
}

/// All planned renames for a candidate list, in order: each candidate
/// whose transformed name differs from it, paired with its target.
pub open spec fn planned(cands: Seq<Seq<Seq<char>>>, mode: &ReplaceMode) -> Seq<OpView>
    decreases cands.len(),
{
    if cands.len() == 0 {
        Seq::empty()
    } else {
        let rest = planned(cands.drop_last(), mode);
        let c = cands.last();
        if target_of(mode, c) == c {
            rest
        } else {
            rest + seq![OpView { source: c, target: target_of(mode, c) }]
        }
    }
}

/// The first index whose entry targets `t`.
pub open spec fn target_index(es: Seq<OpView>, t: Seq<Seq<char>>) -> int
    decreases es.len(),
{
    if es.len() == 0 {
        0
    } else if es[0].target == t {
        0
    } else {
        1 + target_index(es.skip(1), t)
    }
}

/// The first index whose entry targets `t` is in range, hits `t`, and
/// nothing before it does.
proof fn lemma_target_index(es: Seq<OpView>, t: Seq<Seq<char>>)
    requires
        is_target(es, t),
    ensures
        0 <= target_index(es, t) < es.len(),
        es[target_index(es, t)].target == t,
        forall|j: int| 0 <= j < target_index(es, t) ==> es[j].target != t,
    decreases es.len(),
{
    if es.len() == 0 {
    } else if es[0].target == t {
    } else {
        let w = choose|w: int| 0 <= w < es.len() && (#[trigger] es[w]).target == t;
        assert(w >= 1);
        assert(es.skip(1)[w - 1].target == t);
        assert(is_target(es.skip(1), t));
        lemma_target_index(es.skip(1), t);
        assert(es[target_index(es, t)] == es.skip(1)[target_index(es.skip(1), t)]);
        assert forall|j: int| 0 <= j < target_index(es, t) implies es[j].target != t by {
            if j >= 1 {
                assert(es[j] == es.skip(1)[j - 1]);
                assert(es.skip(1)[j - 1].target != t);
            }
        }
    }
}

/// One recorded collision: the displaced source and the new source,
/// each with the shared target.
pub open spec fn collision_line(
    old_source: Seq<Seq<char>>,
    new_source: Seq<Seq<char>>,
    target: Seq<Seq<char>>,
) -> Seq<char> {
    seq!['\n'] + path_to_string_spec(old_source) + "->"@ + path_to_string_spec(target)
        + seq!['\n'] + path_to_string_spec(new_source) + "->"@ + path_to_string_spec(target)
        + seq!['\n']
}

/// The mapping and the aggregated collision report one pass over the
/// candidates produces: no-op renames dropped, a colliding source
/// displacing the previous claim of its target (as a map insert would)
/// while the collision is appended to the report.
pub open spec fn build_state(cands: Seq<Seq<Seq<char>>>, mode: &ReplaceMode) -> (
    Seq<OpView>,
    Seq<char>,
)
    decreases cands.len(),
{
    if cands.len() == 0 {
        (Seq::empty(), Seq::empty())
    } else {
        let (es, txt) = build_state(cands.drop_last(), mode);
        let c = cands.last();
        let t = target_of(mode, c);
        if t == c {
            (es, txt)
        } else if is_target(es, t) {
            let i = target_index(es, t);
            (
                es.update(i, es.last()).drop_last().push(OpView { source: c, target: t }),
                txt + collision_line(es[i].source, c, t),
            )
        } else {
            (es.push(OpView { source: c, target: t }), txt)
        }
    }
}

/// Whether two planned renames collide on one target.
pub open spec fn has_collision(ps: Seq<OpView>) -> bool {
    exists|i: int, j: int|
        0 <= i < j < ps.len() && (#[trigger] ps[i]).target == (#[trigger] ps[j]).target
}

/// The target -> source mapping of one planning pass.
pub struct RenameMap {
    pub entries: Vec<Operation>,
}

impl View for RenameMap {
    type V = Seq<OpView>;

    open spec fn view(&self) -> Seq<OpView> {
        self.entries.deep_view()
    }
}

/// Map well-formedness: targets are unique, and no entry renames a path
/// onto itself.
pub open spec fn wf_map(m: Seq<OpView>) -> bool {
    &&& forall|i: int, j: int| 0 <= i < j < m.len() ==> m[i].target != m[j].target
    &&& forall|i: int| 0 <= i < m.len() ==> (#[trigger] m[i]).target != m[i].source
}

/// Every path mentioned by the map is well-formed.
pub open spec fn wf_map_paths(m: Seq<OpView>) -> bool {
    forall|i: int|
        0 <= i < m.len() ==> wf_path((#[trigger] m[i]).target) && wf_path(m[i].source)
}

/// The index of the first entry whose target equals `t`.
pub fn find_target(entries: &Vec<Operation>, t: &FsPath) -> (r: Option<usize>)
    ensures
        match r {
            Some(i) => i < entries@.len() && entries.deep_view()[i as int].target == t@ && forall|
                j: int,
            | 0 <= j < i ==> (#[trigger] entries.deep_view()[j]).target != t@,
            None => forall|i: int|
                0 <= i < entries@.len() ==> (#[trigger] entries.deep_view()[i]).target != t@,
        },
{
    let mut i: usize = 0;
    while i < entries.len()
        invariant
            i <= entries.len(),
            forall|j: int| 0 <= j < i ==> (#[trigger] entries.deep_view()[j]).target != t@,
        decreases entries.len() - i,
    {
        if path_eq(&entries[i].target, t) {
            return Some(i);
        }
        i += 1;
    }
    None
}

/// Builds the target -> source mapping: drops no-op renames, and
/// aggregates every collision of two sources on one target into a
/// single failure reported after the full pass.
pub fn build_rename_map(candidates: &Vec<FsPath>, mode: &ReplaceMode) -> (r: Result<
    RenameMap,
    Error,
>)
    requires
        forall|i: int|
            0 <= i < candidates@.len() ==> wf_path(#[trigger] candidates.deep_view()[i])
                && has_file_name(candidates.deep_view()[i]),
    ensures
        match r {
            Ok(m) => m@ == planned(candidates.deep_view(), mode) && !has_collision(m@) && wf_map(m@)
                && wf_map_paths(m@),
            Err(e) => e.kind == ErrorKind::SameFilename && e.value is Some && (
            e.value->Some_0)@ == build_state(candidates.deep_view(), mode).1 && has_collision(
                planned(candidates.deep_view(), mode),
            ),
        },
{
    let ghost cands = candidates.deep_view();
    let mut entries: Vec<Operation> = Vec::new();
    let mut error_text = String::new();
    let mut collided: bool = false;
    let mut i: usize = 0;
    proof {
        assert(cands.take(0) =~= Seq::<Seq<Seq<char>>>::empty());
    }
    while i < candidates.len()
        invariant
            i <= candidates.len(),
            cands == candidates.deep_view(),
            forall|k: int|
                0 <= k < cands.len() ==> wf_path(#[trigger] cands[k]) && has_file_name(cands[k]),
            collided == has_collision(planned(cands.take(i as int), mode)),
            !collided ==> entries.deep_view() == planned(cands.take(i as int), mode),
            entries.deep_view() == build_state(cands.take(i as int), mode).0,
            error_text@ == build_state(cands.take(i as int), mode).1,
            forall|a: int, b: int|
                0 <= a < b < entries.deep_view().len() ==> (#[trigger] entries.deep_view()[a]).target
                    != (#[trigger] entries.deep_view()[b]).target,
            forall|t: Seq<Seq<char>>|
                is_target(entries.deep_view(), t) == is_target(
                    planned(cands.take(i as int), mode),
                    t,
                ),
            forall|k: int|
                0 <= k < entries.deep_view().len() ==> wf_path(
                    (#[trigger] entries.deep_view()[k]).target,
                ) && wf_path(entries.deep_view()[k].source) && entries.deep_view()[k].target
                    != entries.deep_view()[k].source,
        decreases candidates.len() - i,
    {
        let ghost pre_entries = entries.deep_view();
        let ghost prefix = cands.take(i as int);
        proof {
            assert(cands.take(i as int + 1).drop_last() =~= prefix);
            assert(cands.take(i as int + 1).last() == cands[i as int]);
            assert(candidates.deep_view()[i as int] == candidates@[i as int]@);
        }
        let cand = &candidates[i];
        let target = replace_match(mode, cand);
        if !path_eq(&target, cand) {
            let ghost op = OpView { source: cands[i as int], target: target_of(mode, cands[i as int]) };
            match find_target(&entries, &target) {
                Some(idx) => {
                    // a second source claims this target: record the
                    // collision and keep the newest source, as a map
                    // insert would
                    let old_entry = entries.swap_remove(idx);
                    collision_text(&mut error_text, &old_entry.source, cand, &target);
                    entries.push(Operation { source: cand.clone(), target });
                    collided = true;
                    proof {
                        assert(pre_entries[idx as int].target == op.target);
                        assert(is_target(pre_entries, op.target));
                        lemma_target_index(pre_entries, op.target);
                        assert(idx as int == target_index(pre_entries, op.target)) by {
                            let ti = target_index(pre_entries, op.target);
                            if ti < idx {
                                assert(pre_entries[ti].target != op.target);
                            } else if (idx as int) < ti {
                                assert(pre_entries[idx as int].target != op.target);
                            }
                        }
                        assert(build_state(cands.take(i as int + 1), mode).0 == pre_entries.update(
                            idx as int,
                            pre_entries.last(),
                        ).drop_last().push(op));
                        assert(build_state(cands.take(i as int + 1), mode).1 == build_state(
                            prefix,
                            mode,
                        ).1 + collision_line(
                            pre_entries[idx as int].source,
                            cands[i as int],
                            op.target,
                        ));
                        assert(old_entry@ == pre_entries[idx as int]);
                        assert(is_target(planned(prefix, mode), op.target));
                        assert(planned(cands.take(i as int + 1), mode) == planned(prefix, mode)
                            + seq![op]);
                        assert(planned(prefix, mode).push(op) =~= planned(
                            cands.take(i as int + 1),
                            mode,
                        ));
                        let w = choose|w: int|
                            0 <= w < planned(prefix, mode).len() && (#[trigger] planned(
                                prefix,
                                mode,
                            )[w]).target == op.target;
                        assert(planned(cands.take(i as int + 1), mode)[w].target == op.target);
                        assert(planned(cands.take(i as int + 1), mode)[planned(
                            prefix,
                            mode,
                        ).len() as int] == op);
                        assert(has_collision(planned(cands.take(i as int + 1), mode)));
                        assert(entries.deep_view() =~= pre_entries.update(
                            idx as int,
                            pre_entries.last(),
                        ).drop_last().push(op));
                        assert forall|t: Seq<Seq<char>>|
                            is_target(entries.deep_view(), t) == is_target(
                                planned(cands.take(i as int + 1), mode),
                                t,
                            ) by {
                            lemma_swap_replace_targets(
                                pre_entries,
                                idx as int,
                                op,
                                entries.deep_view(),
                                t,
                            );
                            lemma_push_targets(planned(prefix, mode), op, t);
                        }
                    }
                },
                None => {
                    entries.push(Operation { source: cand.clone(), target });
                    proof {
                        assert(entries.deep_view() =~= pre_entries.push(op));
                        assert(planned(cands.take(i as int + 1), mode) == planned(prefix, mode)
                            + seq![op]);
                        if !collided {
                            assert(entries.deep_view() =~= planned(prefix, mode) + seq![op]);
                        }
                        assert(!is_target(pre_entries, op.target));
                        if collided {
                            let (x, y) = choose|x: int, y: int|
                                0 <= x < y < planned(prefix, mode).len() && (#[trigger] planned(
                                    prefix,
                                    mode,
                                )[x]).target == (#[trigger] planned(prefix, mode)[y]).target;
                            assert(planned(cands.take(i as int + 1), mode)[x].target == planned(
                                cands.take(i as int + 1),
                                mode,
                            )[y].target);
                        }
                        if has_collision(planned(cands.take(i as int + 1), mode)) {
                            let (x, y) = choose|x: int, y: int|
                                0 <= x < y < planned(cands.take(i as int + 1), mode).len()
                                    && (#[trigger] planned(cands.take(i as int + 1), mode)[x]).target
                                    == (#[trigger] planned(cands.take(i as int + 1), mode)[y]).target;
                            if y < planned(prefix, mode).len() {
                                assert(has_collision(planned(prefix, mode)));
                            } else {
                                assert(planned(prefix, mode)[x].target == op.target);
                                assert(is_target(planned(prefix, mode), op.target));
                            }
                        }
                        assert forall|t: Seq<Seq<char>>|
                            is_target(entries.deep_view(), t) == is_target(
                                planned(cands.take(i as int + 1), mode),
                                t,
                            ) by {
                            lemma_push_targets(pre_entries, op, t);
                            lemma_push_targets(planned(prefix, mode), op, t);
                            assert(planned(prefix, mode).push(op) =~= planned(
                                cands.take(i as int + 1),
                                mode,
                            ));
                        }
                    }
                },
            }
        } else {
            proof {
                assert(planned(cands.take(i as int + 1), mode) == planned(prefix, mode));
            }
        }
        i += 1;
    }
    proof {
        assert(cands.take(cands.len() as int) =~= cands);
    }
    if collided {
        Err(Error { kind: ErrorKind::SameFilename, value: Some(error_text) })
    } else {
        Ok(RenameMap { entries })
    }
}

/// Whether some entry has `t` as its target.
pub open spec fn is_target(m: Seq<OpView>, t: Seq<Seq<char>>) -> bool {
    exists|i: int| 0 <= i < m.len() && (#[trigger] m[i]).target == t
}

/// Whether some entry has `s` as its source.
pub open spec fn is_source(m: Seq<OpView>, s: Seq<Seq<char>>) -> bool {
    exists|i: int| 0 <= i < m.len() && (#[trigger] m[i]).source == s
}

/// Pushing an entry extends the targets by exactly that entry's target.
proof fn lemma_push_targets(m: Seq<OpView>, op: OpView, t: Seq<Seq<char>>)
    ensures
        is_target(m.push(op), t) == (is_target(m, t) || op.target == t),
{
    if is_target(m, t) {
        let i = choose|i: int| 0 <= i < m.len() && m[i].target == t;
        assert(m.push(op)[i].target == t);
    }
    if op.target == t {
        assert(m.push(op)[m.len() as int].target == t);
    }
    if is_target(m.push(op), t) {
        let i = choose|i: int| 0 <= i < m.push(op).len() && m.push(op)[i].target == t;
        if i < m.len() {
            assert(m[i].target == t);
        }
    }
}

/// Replacing the entry at `idx` by one with the same target keeps the
/// target set.
proof fn lemma_swap_replace_targets(
    m: Seq<OpView>,
    idx: int,
    op: OpView,
    m2: Seq<OpView>,
    t: Seq<Seq<char>>,
)
    requires
        0 <= idx < m.len(),
        m[idx].target == op.target,
        m2 == m.update(idx, m.last()).drop_last().push(op),
    ensures
        is_target(m2, t) == is_target(m, t),
{
    if is_target(m, t) {
        let i = choose|i: int| 0 <= i < m.len() && m[i].target == t;
        if i == idx {
            assert(m2[m2.len() - 1].target == t);
        } else if i == m.len() - 1 {
            if idx < m.len() - 1 {
                assert(m2[idx].target == t);
            } else {
                assert(m2[m2.len() - 1].target == t);
            }
        } else {
            assert(m2[i].target == t);
        }
    }
    if is_target(m2, t) {
        let i = choose|i: int| 0 <= i < m2.len() && m2[i].target == t;
        if i == m2.len() - 1 {
            assert(m[idx].target == t);
        } else if i == idx {
            assert(m[m.len() - 1].target == t);
        } else {
            assert(m[i].target == t);
        }
    }
}

/// Appends one collision line pair: both sources and the shared target.
fn collision_text(text: &mut String, old_source: &FsPath, new_source: &FsPath, target: &FsPath)
    ensures
        final(text)@ == old(text)@ + collision_line(old_source@, new_source@, target@),
{
    push_char(text, '\n');
    let olds = path_to_string(old_source);
    let news = path_to_string(new_source);
    let targets = path_to_string(target);
    text.append(olds.as_str());
    text.append("->");
    text.append(targets.as_str());
    push_char(text, '\n');
    text.append(news.as_str());
    text.append("->");
    text.append(targets.as_str());
    push_char(text, '\n');
    proof {
        assert(text@ =~= old(text)@ + collision_line(old_source@, new_source@, target@));
    }
}


/// The source recorded for a target, scanning entries forward.
pub open spec fn lookup_source(m: Seq<OpView>, t: Seq<Seq<char>>) -> Seq<Seq<char>>
    decreases m.len(),
{
    if m.len() == 0 {
        t
    } else if m[0].target == t {
        m[0].source
    } else {
        lookup_source(m.skip(1), t)
    }
}

/// With unique targets, the lookup for an entry's target gives that
/// entry's source.
pub proof fn lemma_lookup_unique(m: Seq<OpView>, i: int)
    requires
        forall|a: int, b: int| 0 <= a < b < m.len() ==> m[a].target != m[b].target,
        0 <= i < m.len(),
    ensures
        lookup_source(m, m[i].target) == m[i].source,
    decreases m.len(),
{
    if i == 0 {
    } else {
        assert(m[0].target != m[i].target);
        assert(forall|a: int, b: int|
            0 <= a < b < m.skip(1).len() ==> m.skip(1)[a] == m[a + 1] && m.skip(1)[b] == m[b + 1]);
        lemma_lookup_unique(m.skip(1), i - 1);
        assert(m.skip(1)[i - 1] == m[i]);
    }
}

impl RenameMap {
    /// The source recorded for a target path.
    pub fn source_of(&self, t: &FsPath) -> (r: FsPath)
        ensures
            r@ == lookup_source(self@, t@),
    {
        let mut i: usize = 0;
        let ghost m = self@;
        proof {
            assert(m.skip(0) =~= m);
        }
        while i < self.entries.len()
            invariant
                m == self@,
                i <= self.entries.len(),
                lookup_source(m, t@) == lookup_source(m.skip(i as int), t@),
            decreases self.entries.len() - i,
        {
            proof {
                assert(m.skip(i as int)[0] == m[i as int]);
                assert(m.skip(i as int).skip(1) =~= m.skip(i as int + 1));
            }
            if path_eq(&self.entries[i].target, t) {
                return self.entries[i].source.clone();
            }
            i += 1;
        }
        proof {
            assert(m.skip(m.len() as int) =~= Seq::<OpView>::empty());
        }
        t.clone()
    }

    /// Whether some entry has `p` as its source.
    pub fn has_source(&self, p: &FsPath) -> (r: bool)
        ensures
            r == is_source(self@, p@),
    {
        let mut i: usize = 0;
        while i < self.entries.len()
            invariant
                i <= self.entries.len(),
                forall|j: int| 0 <= j < i ==> (#[trigger] self@[j]).source != p@,
            decreases self.entries.len() - i,
        {
            if path_eq(&self.entries[i].source, p) {
                assert(self@[i as int].source == p@);
                return true;
            }
            i += 1;
        }
        proof {
            if is_source(self@, p@) {
                let j = choose|j: int| 0 <= j < self@.len() && (#[trigger] self@[j]).source == p@;
                assert(false);
            }
        }
        false
    }

    /// Whether some entry has `t` as its target.
    pub fn has_target(&self, t: &FsPath) -> (r: bool)
        ensures
            r == is_target(self@, t@),
    {
        let r = find_target(&self.entries, t);
        proof {
            if r is Some {
                assert(self@[r->Some_0 as int].target == t@);
            } else {
                if is_target(self@, t@) {
                    let j = choose|j: int|
                        0 <= j < self@.len() && (#[trigger] self@[j]).target == t@;
                    assert(false);
                }
            }
        }
        r.is_some()
    }
}
} // verus!
