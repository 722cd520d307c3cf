//! Paths as component sequences.
//!
//! A path is kept as the sequence of components that std's path parsing
//! yields: an absolute path starts with the root marker "/", a relative
//! path may start with ".", and every other component is a plain
//! non-empty name without separators.

use vstd::prelude::*;
use vstd::string::StrSliceExecFns;
use vstd::string::StringExecFns;
use crate::strutil::{push_char, str_to_chars};

verus! {

/// The component sequence standing for "." at the head of a relative path.
pub open spec fn dot_comp() -> Seq<char> {
    seq!['.']
}

/// The component standing for the root of an absolute path.
pub open spec fn root_comp() -> Seq<char> {
    seq!['/']
}

/// A filesystem path as its parsed components.
pub struct FsPath {
    pub comps: Vec<String>,
}

impl View for FsPath {
    type V = Seq<Seq<char>>;

    open spec fn view(&self) -> Seq<Seq<char>> {
        self.comps.deep_view()
    }
}

impl DeepView for FsPath {
    type V = Seq<Seq<char>>;

    open spec fn deep_view(&self) -> Seq<Seq<char>> {
        self@
    }
}

/// A plain path component: non-empty, no separator, not ".".
pub open spec fn plain_comp(c: Seq<char>) -> bool {
    c.len() > 0 && !c.contains('/') && c != dot_comp()
}

/// A well-formed component sequence: "/" or "." may stand first,
/// every other component is plain.
pub open spec fn wf_path(p: Seq<Seq<char>>) -> bool {
    &&& (p.len() > 0 ==> (p[0] == root_comp() || p[0] == dot_comp() || plain_comp(p[0])))
    &&& (forall|i: int| 1 <= i < p.len() ==> plain_comp(#[trigger] p[i]))
}

/// Splitting a character sequence at '/' separators, accumulating the
/// current segment; empty segments are dropped.
pub open spec fn split_acc(s: Seq<char>, cur: Seq<char>) -> Seq<Seq<char>>
    decreases s.len(),
{
    if s.len() == 0 {
        if cur.len() == 0 {
            Seq::empty()
        } else {
            seq![cur]
        }
    } else if s[0] == '/' {
        if cur.len() == 0 {
            split_acc(s.skip(1), Seq::empty())
        } else {
            seq![cur] + split_acc(s.skip(1), Seq::empty())
        }
    } else {
        split_acc(s.skip(1), cur.push(s[0]))
    }
}

/// The non-empty '/'-separated segments of a string.
pub open spec fn split_segs(s: Seq<char>) -> Seq<Seq<char>> {
    split_acc(s, Seq::empty())
}

/// Dropping "." segments, keeping one only as the first component of a
/// relative path.
pub open spec fn norm_segs(segs: Seq<Seq<char>>, first: bool) -> Seq<Seq<char>>
    decreases segs.len(),
{
    if segs.len() == 0 {
        Seq::empty()
    } else if segs[0] == dot_comp() {
        if first {
            seq![dot_comp()] + norm_segs(segs.skip(1), false)
        } else {
            norm_segs(segs.skip(1), false)
        }
    } else {
        seq![segs[0]] + norm_segs(segs.skip(1), false)
    }
}

/// The components std's path parsing yields for a string.
pub open spec fn parse_path_spec(s: Seq<char>) -> Seq<Seq<char>> {
    if s.len() > 0 && s[0] == '/' {
        seq![root_comp()] + norm_segs(split_segs(s), false)
    } else {
        norm_segs(split_segs(s), true)
    }
}

/// Components joined with '/' separators.
pub open spec fn join_comps(ps: Seq<Seq<char>>) -> Seq<char>
    decreases ps.len(),
{
    if ps.len() == 0 {
        Seq::empty()
    } else if ps.len() == 1 {
        ps[0]
    } else {
        ps[0] + seq!['/'] + join_comps(ps.skip(1))
    }
}

/// The textual form of a path.
pub open spec fn path_to_string_spec(p: Seq<Seq<char>>) -> Seq<char> {
    if p.len() > 0 && p[0] == root_comp() {
        seq!['/'] + join_comps(p.skip(1))
    } else {
        join_comps(p)
    }
}

impl FsPath {
    /// The number of components; the depth key the solver batches by.
    pub fn depth(&self) -> (r: usize)
        ensures
            r == self@.len(),
    {
        self.comps.len()
    }

    /// An empty path, parent of a single-component relative path.
    pub fn empty() -> (r: FsPath)
        ensures
            r@ == Seq::<Seq<char>>::empty(),
    {
        let r = FsPath { comps: Vec::new() };
        proof {
            assert(r@ =~= Seq::<Seq<char>>::empty());
        }
        r
    }
}

impl Clone for FsPath {
    /// An equal-viewed copy of the path.
    fn clone(&self) -> (r: Self)
        ensures
            r@ == self@,
    {
        let mut comps: Vec<String> = Vec::new();
        let mut i: usize = 0;
        while i < self.comps.len()
            invariant
                i <= self.comps.len(),
                comps.deep_view() == self.comps.deep_view().take(i as int),
            decreases self.comps.len() - i,
        {
            let ghost pre = comps.deep_view();
            comps.push(self.comps[i].clone());
            proof {
                assert(comps.deep_view() =~= pre.push(self.comps.deep_view()[i as int]));
                assert(comps.deep_view() =~= self.comps.deep_view().take(i as int + 1));
            }
            i += 1;
        }
        proof {
            assert(self.comps.deep_view().take(self.comps@.len() as int) =~= self.comps.deep_view());
        }
        FsPath { comps }
    }
}

/// Whether two paths hold the same components.
pub fn path_eq(a: &FsPath, b: &FsPath) -> (r: bool)
    ensures
        r == (a@ == b@),
{
    if a.comps.len() != b.comps.len() {
        proof {
            assert(a@.len() == a.comps@.len());
            assert(b@.len() == b.comps@.len());
        }
        return false;
    }
    let n = a.comps.len();
    let mut i: usize = 0;
    while i < n
        invariant
            n == a.comps.len() && n == b.comps.len(),
            i <= n,
            forall|j: int| 0 <= j < i ==> a@[j] == b@[j],
        decreases n - i,
    {
        if !(a.comps[i] == b.comps[i]) {
            assert(a@[i as int] != b@[i as int]);
            return false;
        }
        i += 1;
    }
    proof {
        assert(a@ =~= b@);
    }
    true
}

/// Whether a sequence of paths holds one equal to `p`.
pub fn path_list_contains(list: &Vec<FsPath>, p: &FsPath) -> (r: bool)
    ensures
        r == list.deep_view().contains(p@),
{
    let mut i: usize = 0;
    while i < list.len()
        invariant
            i <= list.len(),
            forall|j: int| 0 <= j < i ==> list.deep_view()[j] != p@,
        decreases list.len() - i,
    {
        if path_eq(&list[i], p) {
            assert(list.deep_view()[i as int] == p@);
            return true;
        }
        i += 1;
    }
    proof {
        if list.deep_view().contains(p@) {
            let j = choose|j: int| 0 <= j < list.deep_view().len() && list.deep_view()[j] == p@;
            assert(list.deep_view()[j] != p@);
        }
    }
    false
}

/// The textual form of a path: components joined with '/', with the
/// root marker collapsed into a leading '/'.
pub fn path_to_string(p: &FsPath) -> (r: String)
    ensures
        r@ == path_to_string_spec(p@),
{
    if p.comps.len() > 0 && is_root_comp(&p.comps[0]) {
        let rest = join_from(&p.comps, 1);
        let mut r = String::new();
        push_char(&mut r, '/');
        let r2 = r.concat(rest.as_str());
        proof {
            assert(r2@ =~= seq!['/'] + join_comps(p@.skip(1)));
        }
        r2
    } else {
        let r = join_from(&p.comps, 0);
        proof {
            assert(p@.skip(0) =~= p@);
        }
        r
    }
}

/// Whether a component is the root marker "/".
fn is_root_comp(c: &String) -> (r: bool)
    ensures
        r == (c@ == root_comp()),
{
    let cs = c.as_str();
    if cs.unicode_len() == 1 && cs.get_char(0) == '/' {
        proof {
            assert(c@ =~= root_comp());
        }
        true
    } else {
        proof {
            if c@ == root_comp() {
                assert(c@.len() == 1 && c@[0] == '/');
            }
        }
        false
    }
}

/// Whether a component is ".".
fn is_dot_comp(c: &String) -> (r: bool)
    ensures
        r == (c@ == dot_comp()),
{
    let cs = c.as_str();
    if cs.unicode_len() == 1 && cs.get_char(0) == '.' {
        proof {
            assert(c@ =~= dot_comp());
        }
        true
    } else {
        proof {
            if c@ == dot_comp() {
                assert(c@.len() == 1 && c@[0] == '.');
            }
        }
        false
    }
}

/// Components from index `k` on, joined with '/'.
fn join_from(comps: &Vec<String>, k: usize) -> (r: String)
    requires
        k <= comps.len(),
    ensures
        r@ == join_comps(comps.deep_view().skip(k as int)),
    decreases comps.len() - k,
{
    if k >= comps.len() {
        proof {
            assert(comps.deep_view().skip(k as int) =~= Seq::<Seq<char>>::empty());
        }
        String::new()
    } else if k == comps.len() - 1 {
        let r = comps[k].clone();
        proof {
            assert(comps.deep_view().skip(k as int).len() == 1);
            assert(comps.deep_view().skip(k as int)[0] == comps.deep_view()[k as int]);
        }
        r
    } else {
        let mut s = comps[k].clone();
        push_char(&mut s, '/');
        let rest = join_from(comps, k + 1);
        let r = s.concat(rest.as_str());
        proof {
            let v = comps.deep_view().skip(k as int);
            assert(v.skip(1) =~= comps.deep_view().skip(k as int + 1));
            assert(v[0] == comps.deep_view()[k as int]);
            assert(r@ =~= v[0] + seq!['/'] + join_comps(v.skip(1)));
        }
        r
    }
}

/// Parsing a string into path components, as std's path parsing would.
pub fn parse_path(s: &str) -> (r: FsPath)
    ensures
        r@ == parse_path_spec(s@),
        wf_path(r@),
{
    let cs = str_to_chars(s);
    let absolute = cs.len() > 0 && cs[0] == '/';
    let segs = split_exec(&cs);
    let mut comps: Vec<String> = Vec::new();
    let mut first: bool = true;
    if absolute {
        let mut root = String::new();
        push_char(&mut root, '/');
        proof {
            assert(root@ =~= root_comp());
        }
        comps.push(root);
        first = false;
        proof {
            assert(comps.deep_view() =~= seq![root_comp()]);
        }
    }
    let ghost segs_view = segs.deep_view();
    let mut k: usize = 0;
    proof {
        assert(segs_view.skip(0) =~= segs_view);
        assert(parse_path_spec(s@) =~= comps.deep_view() + norm_segs(segs_view, first));
    }
    while k < segs.len()
        invariant
            k <= segs.len(),
            segs_view == segs.deep_view(),
            parse_path_spec(s@) == comps.deep_view() + norm_segs(segs_view.skip(k as int), first),
            wf_path(comps.deep_view()),
            comps.deep_view().len() > 0 ==> !first,
            forall|i: int|
                0 <= i < segs_view.len() ==> #[trigger] segs_view[i].len() > 0
                    && !segs_view[i].contains('/'),
        decreases segs.len() - k,
    {
        let ghost pre = comps.deep_view();
        let ghost rem = segs_view.skip(k as int);
        proof {
            assert(rem.skip(1) =~= segs_view.skip(k as int + 1));
            assert(rem[0] == segs_view[k as int]);
        }
        let seg_is_dot = is_dot_comp(&segs[k]);
        if seg_is_dot {
            if first {
                comps.push(segs[k].clone());
                proof {
                    assert(comps.deep_view() =~= pre.push(dot_comp()));
                    assert(pre.len() == 0);
                    assert(norm_segs(rem, true) == seq![dot_comp()] + norm_segs(rem.skip(1), false));
                    assert(pre + norm_segs(rem, true) =~= comps.deep_view() + norm_segs(
                        segs_view.skip(k as int + 1),
                        false,
                    ));
                }
            } else {
                proof {
                    assert(norm_segs(rem, false) == norm_segs(rem.skip(1), false));
                }
            }
        } else {
            comps.push(segs[k].clone());
            proof {
                assert(plain_comp(segs_view[k as int]));
                assert(comps.deep_view() =~= pre.push(segs_view[k as int]));
                assert(norm_segs(rem, first) == seq![rem[0]] + norm_segs(rem.skip(1), false));
                assert(pre + norm_segs(rem, first) =~= comps.deep_view() + norm_segs(
                    segs_view.skip(k as int + 1),
                    false,
                ));
                assert forall|j: int| 1 <= j < comps.deep_view().len() implies plain_comp(
                    #[trigger] comps.deep_view()[j],
                ) by {
                    if j < pre.len() {
                        assert(plain_comp(pre[j]));
                    }
                }
            }
        }
        first = false;
        k += 1;
    }
    proof {
        assert(segs_view.skip(k as int) =~= Seq::<Seq<char>>::empty());
        assert(norm_segs(Seq::empty(), first) =~= Seq::<Seq<char>>::empty());
        assert(comps.deep_view() + Seq::<Seq<char>>::empty() =~= comps.deep_view());
    }
    FsPath { comps }
}

/// The '/'-separated segments of a character vector.
fn split_exec(cs: &Vec<char>) -> (r: Vec<String>)
    ensures
        r.deep_view() == split_segs(cs@),
        forall|i: int|
            0 <= i < r.deep_view().len() ==> #[trigger] r.deep_view()[i].len() > 0
                && !r.deep_view()[i].contains('/'),
{
    let mut segs: Vec<String> = Vec::new();
    let mut cur = String::new();
    let mut i: usize = 0;
    proof {
        assert(cs@.skip(0) =~= cs@);
    }
    while i < cs.len()
        invariant
            i <= cs.len(),
            split_segs(cs@) == segs.deep_view() + split_acc(cs@.skip(i as int), cur@),
            !cur@.contains('/'),
            forall|j: int|
                0 <= j < segs.deep_view().len() ==> #[trigger] segs.deep_view()[j].len() > 0
                    && !segs.deep_view()[j].contains('/'),
        decreases cs.len() - i,
    {
        let ghost pre_segs = segs.deep_view();
        let ghost pre_cur = cur@;
        let ghost rem = cs@.skip(i as int);
        proof {
            assert(rem.skip(1) =~= cs@.skip(i as int + 1));
            assert(rem[0] == cs@[i as int]);
        }
        let c = cs[i];
        if c == '/' {
            if cur.as_str().unicode_len() > 0 {
                segs.push(cur);
                cur = String::new();
                proof {
                    assert(segs.deep_view() =~= pre_segs.push(pre_cur));
                    assert(split_acc(rem, pre_cur) == seq![pre_cur] + split_acc(
                        rem.skip(1),
                        Seq::<char>::empty(),
                    ));
                    assert(pre_segs + split_acc(rem, pre_cur) =~= segs.deep_view() + split_acc(
                        cs@.skip(i as int + 1),
                        cur@,
                    ));
                }
            } else {
                proof {
                    assert(pre_cur.len() == 0);
                    assert(split_acc(rem, pre_cur) == split_acc(rem.skip(1), Seq::<char>::empty()));
                    assert(cur@ =~= Seq::<char>::empty());
                }
            }
        } else {
            push_char(&mut cur, c);
            proof {
                assert(cur@ == pre_cur.push(c));
                assert(split_acc(rem, pre_cur) == split_acc(rem.skip(1), pre_cur.push(rem[0])));
                assert forall|x: int| 0 <= x < cur@.len() implies cur@[x] != '/' by {
                    if x < pre_cur.len() {
                        if pre_cur[x] == '/' {
                            assert(pre_cur.contains('/'));
                        }
                    }
                }
                assert(!cur@.contains('/'));
            }
        }
        i += 1;
    }
    proof {
        assert(cs@.skip(cs@.len() as int) =~= Seq::<char>::empty());
    }
    if cur.as_str().unicode_len() > 0 {
        let ghost pre_segs = segs.deep_view();
        let ghost pre_cur = cur@;
        segs.push(cur);
        proof {
            assert(segs.deep_view() =~= pre_segs.push(pre_cur));
            assert(split_acc(Seq::<char>::empty(), pre_cur) == seq![pre_cur]);
            assert(pre_segs + seq![pre_cur] =~= segs.deep_view());
        }
    } else {
        proof {
            assert(split_acc(Seq::<char>::empty(), cur@) =~= Seq::<Seq<char>>::empty());
            assert(segs.deep_view() + Seq::<Seq<char>>::empty() =~= segs.deep_view());
        }
    }
    segs
}


/// The component sequence standing for "..".
pub open spec fn dotdot_comp() -> Seq<char> {
    seq!['.', '.']
}

/// Whether a path carries a final plain name that a rename may replace.
pub open spec fn has_file_name(p: Seq<Seq<char>>) -> bool {
    p.len() > 0 && plain_comp(p.last()) && p.last() != dotdot_comp()
}

/// Whether the path carries a final plain name.
pub fn path_has_file_name(p: &FsPath) -> (r: bool)
    ensures
        r == has_file_name(p@),
{
    if p.comps.len() == 0 {
        return false;
    }
    let last = &p.comps[p.comps.len() - 1];
    proof {
        assert(p@.last() == last@);
    }
    let cs = str_to_chars(last.as_str());
    if cs.len() == 0 {
        return false;
    }
    let mut i: usize = 0;
    while i < cs.len()
        invariant
            i <= cs.len(),
            cs@ == last@,
            p@.last() == last@,
            forall|j: int| 0 <= j < i ==> cs@[j] != '/',
        decreases cs.len() - i,
    {
        if cs[i] == '/' {
            proof {
                assert(last@.contains('/'));
            }
            return false;
        }
        i += 1;
    }
    proof {
        if last@.contains('/') {
            let j = choose|j: int| 0 <= j < last@.len() && last@[j] == '/';
            assert(false);
        }
    }
    if cs.len() == 1 && cs[0] == '.' {
        proof {
            assert(last@ =~= dot_comp());
        }
        return false;
    }
    if cs.len() == 2 && cs[0] == '.' && cs[1] == '.' {
        proof {
            assert(last@ =~= dotdot_comp());
        }
        return false;
    }
    proof {
        if last@ == dot_comp() {
            assert(last@.len() == 1 && last@[0] == '.');
        }
        if last@ == dotdot_comp() {
            assert(last@.len() == 2 && last@[0] == '.' && last@[1] == '.');
        }
    }
    true
}

/// The final component of a path that has one.
pub fn file_name_of(p: &FsPath) -> (r: String)
    requires
        has_file_name(p@),
    ensures
        r@ == p@.last(),
{
    let r = p.comps[p.comps.len() - 1].clone();
    proof {
        assert(p@.last() == p.comps.deep_view()[p.comps@.len() - 1]);
    }
    r
}

/// The path without its final component.
pub fn parent_of(p: &FsPath) -> (r: FsPath)
    requires
        p@.len() > 0,
    ensures
        r@ == p@.drop_last(),
{
    let mut comps: Vec<String> = Vec::new();
    let mut i: usize = 0;
    while i < p.comps.len() - 1
        invariant
            p.comps.len() > 0,
            i <= p.comps.len() - 1,
            comps.deep_view() == p@.take(i as int),
        decreases p.comps.len() - 1 - i,
    {
        let ghost pre = comps.deep_view();
        comps.push(p.comps[i].clone());
        proof {
            assert(comps.deep_view() =~= pre.push(p@[i as int]));
            assert(comps.deep_view() =~= p@.take(i as int + 1));
        }
        i += 1;
    }
    proof {
        assert(p@.take(p@.len() - 1) =~= p@.drop_last());
    }
    FsPath { comps }
}

/// How std's join combines a base path with a (relative or absolute) suffix.
pub open spec fn join_spec(a: Seq<Seq<char>>, b: Seq<Seq<char>>) -> Seq<Seq<char>> {
    if b.len() > 0 && b[0] == root_comp() {
        b
    } else if a.len() > 0 && b.len() > 0 && b[0] == dot_comp() {
        a + b.skip(1)
    } else {
        a + b
    }
}

/// Joining two paths: an absolute suffix replaces the base, a leading "."
/// of the suffix collapses into a non-empty base.
pub fn join_paths(a: &FsPath, b: &FsPath) -> (r: FsPath)
    ensures
        r@ == join_spec(a@, b@),
{
    if b.comps.len() > 0 && is_root_comp(&b.comps[0]) {
        proof {
            assert(b@[0] == b.comps.deep_view()[0]);
        }
        return b.clone();
    }
    let mut comps: Vec<String> = Vec::new();
    let mut i: usize = 0;
    while i < a.comps.len()
        invariant
            i <= a.comps.len(),
            comps.deep_view() == a@.take(i as int),
        decreases a.comps.len() - i,
    {
        let ghost pre = comps.deep_view();
        comps.push(a.comps[i].clone());
        proof {
            assert(comps.deep_view() =~= pre.push(a@[i as int]));
            assert(comps.deep_view() =~= a@.take(i as int + 1));
        }
        i += 1;
    }
    proof {
        assert(a@.take(a@.len() as int) =~= a@);
    }
    let skip_dot = a.comps.len() > 0 && b.comps.len() > 0 && is_dot_comp(&b.comps[0]);
    let mut j: usize = if skip_dot { 1 } else { 0 };
    let ghost j0 = j as int;
    proof {
        assert(comps.deep_view() + b@.skip(j0).take(0) =~= comps.deep_view());
    }
    let ghost base = comps.deep_view();
    while j < b.comps.len()
        invariant
            0 <= j0 <= j as int,
            j as int <= b.comps@.len(),
            j0 <= b.comps@.len(),
            b@.len() == b.comps@.len(),
            base == a@,
            comps.deep_view() == base + b@.skip(j0).take(j - j0),
        decreases b.comps.len() - j,
    {
        let ghost pre = comps.deep_view();
        comps.push(b.comps[j].clone());
        proof {
            assert(b@.len() == b.comps@.len());
            assert(b@.skip(j0).len() == b@.len() - j0);
            assert(comps.deep_view() =~= pre.push(b@[j as int]));
            assert(b@.skip(j0).take(j - j0 + 1) =~= b@.skip(j0).take(j - j0).push(b@[j as int]));
            assert(comps.deep_view() =~= base + b@.skip(j0).take(j - j0 + 1));
        }
        j += 1;
    }
    proof {
        assert(b@.skip(j0).take(b.comps@.len() - j0) =~= b@.skip(j0));
        if j0 == 0 {
            assert(b@.skip(0) =~= b@);
        } else {
            assert(b@[0] == b.comps.deep_view()[0]);
        }
    }
    FsPath { comps }
}

/// A well-formed base joined with a well-formed suffix is well-formed.
pub proof fn lemma_join_wf(a: Seq<Seq<char>>, b: Seq<Seq<char>>)
    requires
        wf_path(a),
        wf_path(b),
    ensures
        wf_path(join_spec(a, b)),
{
    if b.len() > 0 && b[0] == root_comp() {
    } else if a.len() > 0 && b.len() > 0 && b[0] == dot_comp() {
        assert forall|i: int| 1 <= i < (a + b.skip(1)).len() implies plain_comp(
            #[trigger] (a + b.skip(1))[i],
        ) by {
            if i < a.len() {
                assert(plain_comp(a[i]));
            } else {
                assert((a + b.skip(1))[i] == b[i - a.len() + 1]);
                assert(plain_comp(b[i - a.len() + 1]));
            }
        }
    } else {
        assert forall|i: int| 1 <= i < (a + b).len() implies plain_comp(#[trigger] (a + b)[i]) by {
            if i < a.len() {
                assert(plain_comp(a[i]));
            } else if i > a.len() {
                assert((a + b)[i] == b[i - a.len()]);
                assert(plain_comp(b[i - a.len()]));
            } else {
                assert((a + b)[i] == b[0]);
                if a.len() == 0 {
                } else {
                    assert(b[0] != root_comp() && b[0] != dot_comp());
                    assert(plain_comp(b[0]));
                }
            }
        }
        if a.len() == 0 && b.len() > 0 {
            assert((a + b)[0] == b[0]);
        }
    }
}


/// Splitting a run without separators shifts it into the accumulator.
proof fn lemma_split_acc_run(c: Seq<char>, t: Seq<char>, cur: Seq<char>)
    requires
        !c.contains('/'),
    ensures
        split_acc(c + t, cur) == split_acc(t, cur + c),
    decreases c.len(),
{
    if c.len() == 0 {
        assert(c + t =~= t);
        assert(cur + c =~= cur);
    } else {
        assert(c[0] != '/') by {
            if c[0] == '/' {
                assert(c.contains('/'));
            }
        }
        let s = c + t;
        assert(s[0] == c[0]);
        assert(s.skip(1) =~= c.skip(1) + t);
        assert(cur.push(s[0]) =~= cur + seq![c[0]]);
        assert(!c.skip(1).contains('/')) by {
            if c.skip(1).contains('/') {
                let j = choose|j: int| 0 <= j < c.skip(1).len() && c.skip(1)[j] == '/';
                assert(c[j + 1] == '/');
                assert(c.contains('/'));
            }
        }
        lemma_split_acc_run(c.skip(1), t, cur + seq![c[0]]);
        assert((cur + seq![c[0]]) + c.skip(1) =~= cur + c);
    }
}

/// Splitting the joined form of non-empty separator-free components
/// gives the components back.
proof fn lemma_split_join(ps: Seq<Seq<char>>)
    requires
        forall|i: int| 0 <= i < ps.len() ==> (#[trigger] ps[i]).len() > 0 && !ps[i].contains('/'),
    ensures
        split_segs(join_comps(ps)) == ps,
    decreases ps.len(),
{
    if ps.len() == 0 {
    } else if ps.len() == 1 {
        assert(ps[0] + Seq::<char>::empty() =~= ps[0]);
        lemma_split_acc_run(ps[0], Seq::empty(), Seq::empty());
        assert(Seq::<char>::empty() + ps[0] =~= ps[0]);
        assert(split_acc(Seq::<char>::empty(), ps[0]) == seq![ps[0]]);
        assert(seq![ps[0]] =~= ps);
    } else {
        let rest = ps.skip(1);
        let t = seq!['/'] + join_comps(rest);
        assert(join_comps(ps) == ps[0] + seq!['/'] + join_comps(rest));
        assert(ps[0] + t =~= ps[0] + seq!['/'] + join_comps(rest));
        lemma_split_acc_run(ps[0], t, Seq::empty());
        assert(Seq::<char>::empty() + ps[0] =~= ps[0]);
        assert(t[0] == '/');
        assert(ps[0].len() > 0);
        assert(t.skip(1) =~= join_comps(rest));
        assert(split_acc(t, ps[0]) == seq![ps[0]] + split_acc(join_comps(rest), Seq::empty()));
        assert(forall|i: int|
            0 <= i < rest.len() ==> (#[trigger] rest[i]).len() > 0 && !rest[i].contains('/'))
            by {
            assert(forall|i: int| 0 <= i < rest.len() ==> rest[i] == #[trigger] ps[i + 1]);
        }
        lemma_split_join(rest);
        assert(seq![ps[0]] + rest =~= ps);
    }
}

/// Normalizing segments without "." leaves them unchanged.
proof fn lemma_norm_plain(ps: Seq<Seq<char>>, first: bool)
    requires
        forall|i: int| 0 <= i < ps.len() ==> #[trigger] ps[i] != dot_comp(),
    ensures
        norm_segs(ps, first) == ps,
    decreases ps.len(),
{
    if ps.len() == 0 {
    } else {
        assert(forall|i: int|
            0 <= i < ps.skip(1).len() ==> #[trigger] ps.skip(1)[i] != dot_comp()) by {
            assert(forall|i: int| 0 <= i < ps.skip(1).len() ==> ps.skip(1)[i] == #[trigger] ps[i + 1]);
        }
        lemma_norm_plain(ps.skip(1), false);
        assert(seq![ps[0]] + ps.skip(1) =~= ps);
    }
}

/// Parsing the textual form of a well-formed path gives the path back.
pub proof fn lemma_path_round_trip(p: Seq<Seq<char>>)
    requires
        wf_path(p),
    ensures
        parse_path_spec(path_to_string_spec(p)) == p,
{
    assert(!dot_comp().contains('/')) by {
        if dot_comp().contains('/') {
            let j = choose|j: int| 0 <= j < dot_comp().len() && dot_comp()[j] == '/';
            assert(false);
        }
    }
    if p.len() == 0 {
        assert(path_to_string_spec(p) == Seq::<char>::empty());
    } else if p[0] == root_comp() {
        let rest = p.skip(1);
        let s = seq!['/'] + join_comps(rest);
        assert(s[0] == '/');
        assert(s.skip(1) =~= join_comps(rest));
        assert(forall|i: int|
            0 <= i < rest.len() ==> (#[trigger] rest[i]).len() > 0 && !rest[i].contains('/')
                && rest[i] != dot_comp()) by {
            assert(forall|i: int|
                0 <= i < rest.len() ==> rest[i] == #[trigger] p[i + 1] && plain_comp(p[i + 1]));
        }
        lemma_split_join(rest);
        assert(split_segs(s) == split_acc(s.skip(1), Seq::empty()));
        lemma_norm_plain(rest, false);
        assert(seq![root_comp()] + rest =~= p);
    } else {
        let s = join_comps(p);
        assert(p[0].len() > 0 && !p[0].contains('/')) by {
            if p[0] == dot_comp() {
            } else {
                assert(plain_comp(p[0]));
            }
        }
        assert(forall|i: int|
            0 <= i < p.len() ==> (#[trigger] p[i]).len() > 0 && !p[i].contains('/')) by {
            assert(forall|i: int| 1 <= i < p.len() ==> plain_comp(#[trigger] p[i]));
        }
        assert(s.len() > 0 && s[0] == p[0][0]) by {
            if p.len() == 1 {
                assert(s == p[0]);
            } else {
                assert(s == p[0] + seq!['/'] + join_comps(p.skip(1)));
            }
        }
        assert(s[0] != '/') by {
            if p[0][0] == '/' {
                assert(p[0].contains('/'));
            }
        }
        lemma_split_join(p);
        if p[0] == dot_comp() {
            assert(forall|i: int|
                0 <= i < p.skip(1).len() ==> #[trigger] p.skip(1)[i] != dot_comp()) by {
                assert(forall|i: int|
                    0 <= i < p.skip(1).len() ==> p.skip(1)[i] == #[trigger] p[i + 1] && plain_comp(
                        p[i + 1],
                    ));
            }
            lemma_norm_plain(p.skip(1), false);
            assert(norm_segs(p, true) == seq![dot_comp()] + norm_segs(p.skip(1), false));
            assert(seq![dot_comp()] + p.skip(1) =~= p);
        } else {
            assert(forall|i: int| 0 <= i < p.len() ==> #[trigger] p[i] != dot_comp()) by {
                assert(forall|i: int| 1 <= i < p.len() ==> plain_comp(#[trigger] p[i]));
            }
            lemma_norm_plain(p, true);
        }
    }
}

} // verus!
