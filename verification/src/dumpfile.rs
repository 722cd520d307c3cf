//! The rename operation record and the persisted operation log format.

use vstd::prelude::*;
use vstd::string::StrSliceExecFns;
use vstd::string::StringExecFns;
use crate::path::{FsPath, parse_path, parse_path_spec, path_to_string, path_to_string_spec, wf_path, lemma_path_round_trip};
use crate::error::{Error, ErrorKind};
use crate::strutil::{chars_to_string, push_char, str_to_chars};

verus! {

/// One planned rename: a source path moving to a target path.
pub struct Operation {
    pub source: FsPath,
    pub target: FsPath,
}

/// The mathematical content of an operation: its two component sequences.
pub ghost struct OpView {
    pub source: Seq<Seq<char>>,
    pub target: Seq<Seq<char>>,
}

impl View for Operation {
    type V = OpView;

    open spec fn view(&self) -> OpView {
        OpView { source: self.source@, target: self.target@ }
    }
}

impl DeepView for Operation {
    type V = OpView;

    open spec fn deep_view(&self) -> OpView {
        self@
    }
}

impl Clone for Operation {
    /// An equal-viewed copy of the operation.
    fn clone(&self) -> (r: Self)
        ensures
            r@ == self@,
    {
        Operation { source: self.source.clone(), target: self.target.clone() }
    }
}

/// An ordered list of renames, the unit that is solved, persisted and
/// applied.
pub type Operations = Vec<Operation>;


/// A wall-clock timestamp, split into calendar fields.
pub struct Timestamp {
    pub year: i32,
    pub month: u32,
    pub day: u32,
    pub hour: u32,
    pub minute: u32,
    pub second: u32,
}

/// The field ranges a calendar timestamp obeys.
pub open spec fn wf_timestamp(t: Timestamp) -> bool {
    &&& 1 <= t.month <= 12
    &&& 1 <= t.day <= 31
    &&& t.hour <= 23
    &&& t.minute <= 59
    &&& t.second <= 59
}

/// Relies on chrono::Local::now and chrono's Datelike and Timelike
/// accessors: month ranges over 1..=12, day over 1..=31, hour over
/// 0..=23, minute and second over 0..=59.
#[verifier::external_body]
pub fn now_timestamp() -> (r: Timestamp)
    ensures
        wf_timestamp(r),
{
    let n = chrono::Local::now();
    Timestamp {
        year: chrono::Datelike::year(&n),
        month: chrono::Datelike::month(&n),
        day: chrono::Datelike::day(&n),
        hour: chrono::Timelike::hour(&n),
        minute: chrono::Timelike::minute(&n),
        second: chrono::Timelike::second(&n),
    }
}

/// The character for one decimal digit.
pub open spec fn digit_char(d: int) -> char {
    if d == 0 {
        '0'
    } else if d == 1 {
        '1'
    } else if d == 2 {
        '2'
    } else if d == 3 {
        '3'
    } else if d == 4 {
        '4'
    } else if d == 5 {
        '5'
    } else if d == 6 {
        '6'
    } else if d == 7 {
        '7'
    } else if d == 8 {
        '8'
    } else {
        '9'
    }
}

/// The decimal digits of a number.
pub open spec fn dec_str(n: nat) -> Seq<char>
    decreases n,
{
    if n < 10 {
        seq![digit_char(n as int)]
    } else {
        dec_str(n / 10).push(digit_char((n % 10) as int))
    }
}

/// A run of zero characters.
pub open spec fn zeros(k: int) -> Seq<char>
    decreases k,
{
    if k <= 0 {
        Seq::empty()
    } else {
        seq!['0'] + zeros(k - 1)
    }
}

/// The decimal digits of a number, left-padded with zeros to a width.
pub open spec fn padded(n: nat, w: int) -> Seq<char> {
    zeros(w - dec_str(n).len()) + dec_str(n)
}

/// The year, zero-padded to four digits, signed when negative.
pub open spec fn year_str(y: int) -> Seq<char> {
    if y < 0 {
        seq!['-'] + padded((-y) as nat, 4)
    } else {
        padded(y as nat, 4)
    }
}

/// The display form of a timestamp: YYYY-MM-DD HH:MM:SS.
pub open spec fn date_display(t: Timestamp) -> Seq<char> {
    year_str(t.year as int) + seq!['-'] + padded(t.month as nat, 2) + seq!['-'] + padded(
        t.day as nat,
        2,
    ) + seq![' '] + padded(t.hour as nat, 2) + seq![':'] + padded(t.minute as nat, 2) + seq![':']
        + padded(t.second as nat, 2)
}

/// The name of a new log file: a fixed prefix, the timestamp, and the
/// format's extension.
pub open spec fn log_filename_spec(t: Timestamp) -> Seq<char> {
    seq!['r', 'x', '-'] + year_str(t.year as int) + seq!['-'] + padded(t.month as nat, 2)
        + seq!['-'] + padded(t.day as nat, 2) + seq!['_'] + padded(t.hour as nat, 2) + padded(
        t.minute as nat,
        2,
    ) + padded(t.second as nat, 2) + seq!['.', 'j', 's', 'o', 'n']
}

/// Text free of the two characters the string syntax escapes.
pub open spec fn ok_text(s: Seq<char>) -> bool {
    forall|i: int| 0 <= i < s.len() ==> s[i] != '"' && s[i] != '\\'
}

/// The escaped form of string contents: quote and backslash get a
/// backslash prefix.
pub open spec fn esc(s: Seq<char>) -> Seq<char>
    decreases s.len(),
{
    if s.len() == 0 {
        Seq::empty()
    } else {
        let e = if s[0] == '"' {
            seq!['\\', '"']
        } else if s[0] == '\\' {
            seq!['\\', '\\']
        } else {
            seq![s[0]]
        };
        e + esc(s.skip(1))
    }
}

/// A quoted, escaped string.
pub open spec fn quoted(s: Seq<char>) -> Seq<char> {
    seq!['"'] + esc(s) + seq!['"']
}

/// The key naming an operation's source.
pub open spec fn source_key() -> Seq<char> {
    seq!['s', 'o', 'u', 'r', 'c', 'e']
}

/// The key naming an operation's target.
pub open spec fn target_key() -> Seq<char> {
    seq!['t', 'a', 'r', 'g', 'e', 't']
}

/// The key naming the record's date.
pub open spec fn date_key() -> Seq<char> {
    seq!['d', 'a', 't', 'e']
}

/// The key naming the record's operation list.
pub open spec fn operations_key() -> Seq<char> {
    seq!['o', 'p', 'e', 'r', 'a', 't', 'i', 'o', 'n', 's']
}

/// One operation as an object with its two path strings.
pub open spec fn encode_op(o: OpView) -> Seq<char> {
    seq!['{'] + quoted(source_key()) + seq![':'] + quoted(path_to_string_spec(o.source))
        + seq![','] + quoted(target_key()) + seq![':'] + quoted(path_to_string_spec(o.target))
        + seq!['}']
}

/// The comma-led continuation of an operation list.
pub open spec fn ops_tail_text(ops: Seq<OpView>) -> Seq<char>
    decreases ops.len(),
{
    if ops.len() == 0 {
        Seq::empty()
    } else {
        seq![','] + encode_op(ops[0]) + ops_tail_text(ops.skip(1))
    }
}

/// An operation list without its brackets.
pub open spec fn encode_ops(ops: Seq<OpView>) -> Seq<char> {
    if ops.len() == 0 {
        Seq::empty()
    } else {
        encode_op(ops[0]) + ops_tail_text(ops.skip(1))
    }
}

/// The persisted record: its date and its ordered operation list.
pub open spec fn encode_record(date: Seq<char>, ops: Seq<OpView>) -> Seq<char> {
    seq!['{'] + quoted(date_key()) + seq![':'] + quoted(date) + seq![','] + quoted(
        operations_key(),
    ) + seq![':', '['] + encode_ops(ops) + seq![']', '}']
}

/// Whitespace between tokens.
pub open spec fn is_ws(c: char) -> bool {
    c == ' ' || c == '\n' || c == '\t' || c == '\r'
}

/// The suffix after leading whitespace.
pub open spec fn skip_ws(s: Seq<char>) -> Seq<char>
    decreases s.len(),
{
    if s.len() > 0 && is_ws(s[0]) {
        skip_ws(s.skip(1))
    } else {
        s
    }
}

/// The suffix after an expected punctuation character, allowing
/// leading whitespace.
pub open spec fn expect(s: Seq<char>, c: char) -> Option<Seq<char>> {
    let t = skip_ws(s);
    if t.len() > 0 && t[0] == c {
        Some(t.skip(1))
    } else {
        None
    }
}

/// The contents of a string up to its closing quote, with the suffix
/// after it.
pub open spec fn parse_str_body(s: Seq<char>) -> Option<(Seq<char>, Seq<char>)>
    decreases s.len(),
{
    if s.len() == 0 {
        None
    } else if s[0] == '"' {
        Some((Seq::empty(), s.skip(1)))
    } else if s[0] == '\\' {
        if s.len() >= 2 && (s[1] == '"' || s[1] == '\\') {
            match parse_str_body(s.skip(2)) {
                Some((c, r)) => Some((seq![s[1]] + c, r)),
                None => None,
            }
        } else {
            None
        }
    } else {
        match parse_str_body(s.skip(1)) {
            Some((c, r)) => Some((seq![s[0]] + c, r)),
            None => None,
        }
    }
}

/// A quoted string, allowing leading whitespace.
pub open spec fn parse_string(s: Seq<char>) -> Option<(Seq<char>, Seq<char>)> {
    match expect(s, '"') {
        Some(t) => parse_str_body(t),
        None => None,
    }
}

/// A given quoted key followed by a colon.
pub open spec fn parse_key(s: Seq<char>, key: Seq<char>) -> Option<Seq<char>> {
    match parse_string(s) {
        Some((k, r)) => if k == key {
            expect(r, ':')
        } else {
            None
        },
        None => None,
    }
}

/// One operation object.
pub open spec fn parse_op(s: Seq<char>) -> Option<(OpView, Seq<char>)> {
    match expect(s, '{') {
        Some(r1) => match parse_key(r1, source_key()) {
            Some(r2) => match parse_string(r2) {
                Some((src, r3)) => match expect(r3, ',') {
                    Some(r4) => match parse_key(r4, target_key()) {
                        Some(r5) => match parse_string(r5) {
                            Some((tgt, r6)) => match expect(r6, '}') {
                                Some(r7) => Some(
                                    (
                                        OpView {
                                            source: parse_path_spec(src),
                                            target: parse_path_spec(tgt),
                                        },
                                        r7,
                                    ),
                                ),
                                None => None,
                            },
                            None => None,
                        },
                        None => None,
                    },
                    None => None,
                },
                None => None,
            },
            None => None,
        },
        None => None,
    }
}

/// The rest of an operation list: comma-led operations up to the
/// closing bracket.
pub open spec fn parse_ops_rest(s: Seq<char>) -> Option<(Seq<OpView>, Seq<char>)>
    decreases s.len(),
{
    match expect(s, ']') {
        Some(r) => Some((Seq::empty(), r)),
        None => match expect(s, ',') {
            Some(r1) => match parse_op(r1) {
                Some((op, r2)) => if r2.len() < s.len() {
                    match parse_ops_rest(r2) {
                        Some((ops, r3)) => Some((seq![op] + ops, r3)),
                        None => None,
                    }
                } else {
                    None
                },
                None => None,
            },
            None => None,
        },
    }
}

/// A full operation list after its opening bracket.
pub open spec fn parse_ops_list(s: Seq<char>) -> Option<(Seq<OpView>, Seq<char>)> {
    match expect(s, ']') {
        Some(r) => Some((Seq::empty(), r)),
        None => match parse_op(s) {
            Some((op, r)) => if r.len() < s.len() + 1 {
                match parse_ops_rest(r) {
                    Some((ops, r2)) => Some((seq![op] + ops, r2)),
                    None => None,
                }
            } else {
                None
            },
            None => None,
        },
    }
}

/// A whole persisted record: its date string and its operations, with
/// nothing but whitespace after it.
pub open spec fn parse_record(s: Seq<char>) -> Option<(Seq<char>, Seq<OpView>)> {
    match expect(s, '{') {
        Some(r1) => match parse_key(r1, date_key()) {
            Some(r2) => match parse_string(r2) {
                Some((date, r3)) => match expect(r3, ',') {
                    Some(r4) => match parse_key(r4, operations_key()) {
                        Some(r5) => match expect(r5, '[') {
                            Some(r6) => match parse_ops_list(r6) {
                                Some((ops, r7)) => match expect(r7, '}') {
                                    Some(r8) => if skip_ws(r8).len() == 0 {
                                        Some((date, ops))
                                    } else {
                                        None
                                    },
                                    None => None,
                                },
                                None => None,
                            },
                            None => None,
                        },
                        None => None,
                    },
                    None => None,
                },
                None => None,
            },
            None => None,
        },
        None => None,
    }
}

/// Skipping whitespace never lengthens the text.
proof fn lemma_skip_ws_len(s: Seq<char>)
    ensures
        skip_ws(s).len() <= s.len(),
    decreases s.len(),
{
    if s.len() > 0 && is_ws(s[0]) {
        lemma_skip_ws_len(s.skip(1));
    }
}

/// A matched punctuation character consumes at least itself.
proof fn lemma_expect_len(s: Seq<char>, c: char)
    ensures
        expect(s, c) is Some ==> (expect(s, c)->Some_0).len() < s.len(),
{
    lemma_skip_ws_len(s);
}

/// A parsed string consumes at least its closing quote.
proof fn lemma_str_body_len(s: Seq<char>)
    ensures
        parse_str_body(s) is Some ==> (parse_str_body(s)->Some_0).1.len() < s.len(),
    decreases s.len(),
{
    if s.len() == 0 {
    } else if s[0] == '"' {
    } else if s[0] == '\\' {
        if s.len() >= 2 && (s[1] == '"' || s[1] == '\\') {
            lemma_str_body_len(s.skip(2));
        }
    } else {
        lemma_str_body_len(s.skip(1));
    }
}

/// A parsed quoted string consumes text.
proof fn lemma_parse_string_len(s: Seq<char>)
    ensures
        parse_string(s) is Some ==> (parse_string(s)->Some_0).1.len() < s.len(),
{
    lemma_expect_len(s, '"');
    if expect(s, '"') is Some {
        lemma_str_body_len(expect(s, '"')->Some_0);
    }
}

/// A parsed key consumes text.
proof fn lemma_parse_key_len(s: Seq<char>, key: Seq<char>)
    ensures
        parse_key(s, key) is Some ==> (parse_key(s, key)->Some_0).len() < s.len(),
{
    lemma_parse_string_len(s);
    if parse_string(s) is Some {
        let (k, r) = parse_string(s)->Some_0;
        lemma_expect_len(r, ':');
    }
}

/// A parsed operation consumes text.
proof fn lemma_parse_op_len(s: Seq<char>)
    ensures
        parse_op(s) is Some ==> (parse_op(s)->Some_0).1.len() < s.len(),
{
    lemma_expect_len(s, '{');
    if expect(s, '{') is Some {
        let r1 = expect(s, '{')->Some_0;
        lemma_parse_key_len(r1, source_key());
        if parse_key(r1, source_key()) is Some {
            let r2 = parse_key(r1, source_key())->Some_0;
            lemma_parse_string_len(r2);
            if parse_string(r2) is Some {
                let r3 = (parse_string(r2)->Some_0).1;
                lemma_expect_len(r3, ',');
                if expect(r3, ',') is Some {
                    let r4 = expect(r3, ',')->Some_0;
                    lemma_parse_key_len(r4, target_key());
                    if parse_key(r4, target_key()) is Some {
                        let r5 = parse_key(r4, target_key())->Some_0;
                        lemma_parse_string_len(r5);
                        if parse_string(r5) is Some {
                            let r6 = (parse_string(r5)->Some_0).1;
                            lemma_expect_len(r6, '}');
                        }
                    }
                }
            }
        }
    }
}

/// Text that starts with a non-whitespace character loses nothing to
/// whitespace skipping.
proof fn lemma_skip_ws_clean(s: Seq<char>)
    requires
        s.len() == 0 || !is_ws(s[0]),
    ensures
        skip_ws(s) == s,
{
}

/// An expected character at the head of the text is consumed exactly.
proof fn lemma_expect_exact(c: char, rest: Seq<char>)
    requires
        !is_ws(c),
    ensures
        expect(seq![c] + rest, c) == Some(rest),
{
    let s = seq![c] + rest;
    assert(s[0] == c);
    lemma_skip_ws_clean(s);
    assert(s.skip(1) =~= rest);
}

/// Escaping text free of quote and backslash leaves it unchanged.
proof fn lemma_esc_ok(s: Seq<char>)
    requires
        ok_text(s),
    ensures
        esc(s) == s,
    decreases s.len(),
{
    if s.len() == 0 {
        assert(esc(s) =~= s);
    } else {
        assert(s[0] != '"' && s[0] != '\\');
        assert(forall|i: int| 0 <= i < s.skip(1).len() ==> s.skip(1)[i] == #[trigger] s[i + 1]);
        lemma_esc_ok(s.skip(1));
        assert(esc(s) =~= seq![s[0]] + s.skip(1));
        assert(seq![s[0]] + s.skip(1) =~= s);
    }
}

/// Parsing an escaped body up to its closing quote restores the text.
proof fn lemma_str_body_round(x: Seq<char>, rest: Seq<char>)
    ensures
        parse_str_body(esc(x) + seq!['"'] + rest) == Some((x, rest)),
    decreases x.len(),
{
    let s = esc(x) + seq!['"'] + rest;
    if x.len() == 0 {
        assert(esc(x) =~= Seq::<char>::empty());
        assert(s =~= seq!['"'] + rest);
        assert(s[0] == '"');
        assert(s.skip(1) =~= rest);
    } else {
        let c = x[0];
        let x2 = x.skip(1);
        lemma_str_body_round(x2, rest);
        if c == '"' {
            assert(esc(x) == seq!['\\', '"'] + esc(x2));
            assert(s =~= seq!['\\', '"'] + (esc(x2) + seq!['"'] + rest));
            assert(s[0] == '\\' && s[1] == '"');
            assert(s.skip(2) =~= esc(x2) + seq!['"'] + rest);
            assert(seq![s[1]] + x2 =~= x);
        } else if c == '\\' {
            assert(esc(x) == seq!['\\', '\\'] + esc(x2));
            assert(s =~= seq!['\\', '\\'] + (esc(x2) + seq!['"'] + rest));
            assert(s[0] == '\\' && s[1] == '\\');
            assert(s.skip(2) =~= esc(x2) + seq!['"'] + rest);
            assert(seq![s[1]] + x2 =~= x);
        } else {
            assert(esc(x) == seq![c] + esc(x2));
            assert(s =~= seq![c] + (esc(x2) + seq!['"'] + rest));
            assert(s[0] == c);
            assert(s.skip(1) =~= esc(x2) + seq!['"'] + rest);
            assert(seq![s[0]] + x2 =~= x);
        }
    }
}

/// Parsing a quoted string restores the text.
proof fn lemma_string_round(x: Seq<char>, rest: Seq<char>)
    ensures
        parse_string(quoted(x) + rest) == Some((x, rest)),
{
    let s = quoted(x) + rest;
    assert(s =~= seq!['"'] + (esc(x) + seq!['"'] + rest));
    lemma_expect_exact('"', esc(x) + seq!['"'] + rest);
    lemma_str_body_round(x, rest);
}

/// Parsing a rendered key and colon succeeds.
proof fn lemma_key_round(key: Seq<char>, rest: Seq<char>)
    requires
        ok_text(key),
    ensures
        parse_key(quoted(key) + seq![':'] + rest, key) == Some(rest),
{
    let s = quoted(key) + seq![':'] + rest;
    assert(s =~= quoted(key) + (seq![':'] + rest));
    lemma_string_round(key, seq![':'] + rest);
    lemma_expect_exact(':', rest);
}

/// Parsing a rendered operation restores it, given well-formed paths.
proof fn lemma_op_round(o: OpView, rest: Seq<char>)
    requires
        wf_path(o.source),
        wf_path(o.target),
    ensures
        parse_op(encode_op(o) + rest) == Some((o, rest)),
{
    let s = encode_op(o) + rest;
    let srcs = path_to_string_spec(o.source);
    let tgts = path_to_string_spec(o.target);
    let t1 = quoted(source_key()) + seq![':'] + (quoted(srcs) + (seq![','] + (quoted(target_key())
        + seq![':'] + (quoted(tgts) + (seq!['}'] + rest)))));
    assert(s =~= seq!['{'] + t1);
    lemma_expect_exact('{', t1);
    assert(ok_text(source_key()));
    lemma_key_round(source_key(), quoted(srcs) + (seq![','] + (quoted(target_key()) + seq![':'] + (
    quoted(tgts) + (seq!['}'] + rest)))));
    lemma_string_round(srcs, seq![','] + (quoted(target_key()) + seq![':'] + (quoted(tgts) + (
    seq!['}'] + rest))));
    lemma_expect_exact(',', quoted(target_key()) + seq![':'] + (quoted(tgts) + (seq!['}'] + rest)));
    assert(quoted(target_key()) + seq![':'] + (quoted(tgts) + (seq!['}'] + rest)) =~= (quoted(
        target_key(),
    ) + seq![':']) + (quoted(tgts) + (seq!['}'] + rest)));
    assert(ok_text(target_key()));
    lemma_key_round(target_key(), quoted(tgts) + (seq!['}'] + rest));
    lemma_string_round(tgts, seq!['}'] + rest);
    lemma_expect_exact('}', rest);
    lemma_path_round_trip(o.source);
    lemma_path_round_trip(o.target);
}

/// Parsing the rendered continuation of a list restores it.
proof fn lemma_ops_rest_round(ops: Seq<OpView>, rest: Seq<char>)
    requires
        forall|i: int|
            0 <= i < ops.len() ==> wf_path((#[trigger] ops[i]).source) && wf_path(ops[i].target),
    ensures
        parse_ops_rest(ops_tail_text(ops) + seq![']'] + rest) == Some((ops, rest)),
    decreases ops.len(),
{
    let s = ops_tail_text(ops) + seq![']'] + rest;
    if ops.len() == 0 {
        assert(ops_tail_text(ops) =~= Seq::<char>::empty());
        assert(s =~= seq![']'] + rest);
        lemma_expect_exact(']', rest);
        assert(Seq::<OpView>::empty() =~= ops);
    } else {
        let tail = ops_tail_text(ops.skip(1)) + seq![']'] + rest;
        assert(s =~= seq![','] + (encode_op(ops[0]) + tail));
        assert(s[0] == ',');
        lemma_skip_ws_clean(s);
        lemma_expect_exact(',', encode_op(ops[0]) + tail);
        lemma_op_round(ops[0], tail);
        lemma_parse_op_len(encode_op(ops[0]) + tail);
        assert(forall|i: int|
            0 <= i < ops.skip(1).len() ==> ops.skip(1)[i] == #[trigger] ops[i + 1]);
        lemma_ops_rest_round(ops.skip(1), rest);
        assert(seq![ops[0]] + ops.skip(1) =~= ops);
    }
}

/// Parsing a rendered list restores it.
proof fn lemma_ops_list_round(ops: Seq<OpView>, rest: Seq<char>)
    requires
        forall|i: int|
            0 <= i < ops.len() ==> wf_path((#[trigger] ops[i]).source) && wf_path(ops[i].target),
    ensures
        parse_ops_list(encode_ops(ops) + seq![']'] + rest) == Some((ops, rest)),
{
    let s = encode_ops(ops) + seq![']'] + rest;
    if ops.len() == 0 {
        assert(encode_ops(ops) =~= Seq::<char>::empty());
        assert(s =~= seq![']'] + rest);
        lemma_expect_exact(']', rest);
        assert(Seq::<OpView>::empty() =~= ops);
    } else {
        let tail = ops_tail_text(ops.skip(1)) + seq![']'] + rest;
        assert(s =~= encode_op(ops[0]) + tail);
        assert(encode_op(ops[0]).len() > 0);
        assert(s[0] == '{');
        lemma_skip_ws_clean(s);
        lemma_op_round(ops[0], tail);
        lemma_parse_op_len(s);
        assert(forall|i: int|
            0 <= i < ops.skip(1).len() ==> ops.skip(1)[i] == #[trigger] ops[i + 1]);
        lemma_ops_rest_round(ops.skip(1), rest);
        assert(seq![ops[0]] + ops.skip(1) =~= ops);
    }
}

/// Law: loading a rendered record restores its date and, element for
/// element and in order, its operation sequence.
#[verifier::rlimit(100)]
pub proof fn lemma_record_round_trip(date: Seq<char>, ops: Seq<OpView>)
    requires
        ok_text(date),
        forall|i: int|
            0 <= i < ops.len() ==> wf_path((#[trigger] ops[i]).source) && wf_path(ops[i].target),
    ensures
        parse_record(encode_record(date, ops)) == Some((date, ops)),
{
    let s = encode_record(date, ops);
    let t1 = quoted(date_key()) + seq![':'] + (quoted(date) + (seq![','] + (quoted(operations_key())
        + seq![':'] + (seq!['['] + (encode_ops(ops) + (seq![']'] + (seq!['}']
        + Seq::<char>::empty())))))));
    assert(s =~= seq!['{'] + t1);
    lemma_expect_exact('{', t1);
    assert(ok_text(date_key()));
    lemma_key_round(date_key(), quoted(date) + (seq![','] + (quoted(operations_key()) + seq![':'] + (
    seq!['['] + (encode_ops(ops) + (seq![']'] + (seq!['}'] + Seq::<char>::empty())))))));
    lemma_string_round(date, seq![','] + (quoted(operations_key()) + seq![':'] + (seq!['['] + (
    encode_ops(ops) + (seq![']'] + (seq!['}'] + Seq::<char>::empty()))))));
    lemma_expect_exact(',', quoted(operations_key()) + seq![':'] + (seq!['['] + (encode_ops(ops) + (
    seq![']'] + (seq!['}'] + Seq::<char>::empty())))));
    assert(quoted(operations_key()) + seq![':'] + (seq!['['] + (encode_ops(ops) + (seq![']'] + (
    seq!['}'] + Seq::<char>::empty())))) =~= (quoted(operations_key()) + seq![':']) + (seq!['['] + (
    encode_ops(ops) + (seq![']'] + (seq!['}'] + Seq::<char>::empty())))));
    assert(ok_text(operations_key()));
    lemma_key_round(operations_key(), seq!['['] + (encode_ops(ops) + (seq![']'] + (seq!['}']
        + Seq::<char>::empty()))));
    lemma_expect_exact('[', encode_ops(ops) + (seq![']'] + (seq!['}'] + Seq::<char>::empty())));
    assert(encode_ops(ops) + (seq![']'] + (seq!['}'] + Seq::<char>::empty())) =~= encode_ops(ops)
        + seq![']'] + (seq!['}'] + Seq::<char>::empty()));
    lemma_ops_list_round(ops, seq!['}'] + Seq::<char>::empty());
    lemma_expect_exact('}', Seq::<char>::empty());
    assert(skip_ws(Seq::<char>::empty()).len() == 0);
}

/// Digits never need escaping.
proof fn lemma_dec_ok(n: nat)
    ensures
        ok_text(dec_str(n)),
        dec_str(n).len() > 0,
    decreases n,
{
    if n < 10 {
    } else {
        lemma_dec_ok(n / 10);
        assert forall|i: int| 0 <= i < dec_str(n).len() implies dec_str(n)[i] != '"' && dec_str(n)[i]
            != '\\' by {
            if i < dec_str(n / 10).len() {
                assert(dec_str(n)[i] == dec_str(n / 10)[i]);
            }
        }
    }
}

/// Zero padding never needs escaping.
proof fn lemma_zeros_ok(k: int)
    ensures
        ok_text(zeros(k)),
        zeros(k).len() == if k <= 0 { 0int } else { k },
    decreases k,
{
    if k > 0 {
        lemma_zeros_ok(k - 1);
        assert forall|i: int| 0 <= i < zeros(k).len() implies zeros(k)[i] != '"' && zeros(k)[i]
            != '\\' by {
            if i >= 1 {
                assert(zeros(k)[i] == zeros(k - 1)[i - 1]);
            }
        }
    }
}

/// Text free of escapes stays so under concatenation.
proof fn lemma_ok_concat(a: Seq<char>, b: Seq<char>)
    requires
        ok_text(a),
        ok_text(b),
    ensures
        ok_text(a + b),
{
    assert forall|i: int| 0 <= i < (a + b).len() implies (a + b)[i] != '"' && (a + b)[i] != '\\' by {
        if i < a.len() {
            assert((a + b)[i] == a[i]);
        } else {
            assert((a + b)[i] == b[i - a.len()]);
        }
    }
}

/// A rendered date never needs escaping.
pub proof fn lemma_date_ok(t: Timestamp)
    ensures
        ok_text(date_display(t)),
{
    lemma_dec_ok(t.month as nat);
    lemma_dec_ok(t.day as nat);
    lemma_dec_ok(t.hour as nat);
    lemma_dec_ok(t.minute as nat);
    lemma_dec_ok(t.second as nat);
    lemma_zeros_ok(2 - dec_str(t.month as nat).len());
    lemma_zeros_ok(2 - dec_str(t.day as nat).len());
    lemma_zeros_ok(2 - dec_str(t.hour as nat).len());
    lemma_zeros_ok(2 - dec_str(t.minute as nat).len());
    lemma_zeros_ok(2 - dec_str(t.second as nat).len());
    assert(ok_text(year_str(t.year as int))) by {
        if t.year < 0 {
            lemma_dec_ok((-(t.year as int)) as nat);
            lemma_zeros_ok(4 - dec_str((-(t.year as int)) as nat).len());
            lemma_ok_concat(
                zeros(4 - dec_str((-(t.year as int)) as nat).len()),
                dec_str((-(t.year as int)) as nat),
            );
            lemma_ok_concat(seq!['-'], padded((-(t.year as int)) as nat, 4));
        } else {
            lemma_dec_ok(t.year as nat);
            lemma_zeros_ok(4 - dec_str(t.year as nat).len());
            lemma_ok_concat(zeros(4 - dec_str(t.year as nat).len()), dec_str(t.year as nat));
        }
    }
    lemma_ok_concat(zeros(2 - dec_str(t.month as nat).len()), dec_str(t.month as nat));
    lemma_ok_concat(zeros(2 - dec_str(t.day as nat).len()), dec_str(t.day as nat));
    lemma_ok_concat(zeros(2 - dec_str(t.hour as nat).len()), dec_str(t.hour as nat));
    lemma_ok_concat(zeros(2 - dec_str(t.minute as nat).len()), dec_str(t.minute as nat));
    lemma_ok_concat(zeros(2 - dec_str(t.second as nat).len()), dec_str(t.second as nat));
    lemma_ok_concat(year_str(t.year as int), seq!['-']);
    lemma_ok_concat(year_str(t.year as int) + seq!['-'], padded(t.month as nat, 2));
    lemma_ok_concat(year_str(t.year as int) + seq!['-'] + padded(t.month as nat, 2), seq!['-']);
    lemma_ok_concat(
        year_str(t.year as int) + seq!['-'] + padded(t.month as nat, 2) + seq!['-'],
        padded(t.day as nat, 2),
    );
    lemma_ok_concat(
        year_str(t.year as int) + seq!['-'] + padded(t.month as nat, 2) + seq!['-'] + padded(
            t.day as nat,
            2,
        ),
        seq![' '],
    );
    lemma_ok_concat(
        year_str(t.year as int) + seq!['-'] + padded(t.month as nat, 2) + seq!['-'] + padded(
            t.day as nat,
            2,
        ) + seq![' '],
        padded(t.hour as nat, 2),
    );
    lemma_ok_concat(
        year_str(t.year as int) + seq!['-'] + padded(t.month as nat, 2) + seq!['-'] + padded(
            t.day as nat,
            2,
        ) + seq![' '] + padded(t.hour as nat, 2),
        seq![':'],
    );
    lemma_ok_concat(
        year_str(t.year as int) + seq!['-'] + padded(t.month as nat, 2) + seq!['-'] + padded(
            t.day as nat,
            2,
        ) + seq![' '] + padded(t.hour as nat, 2) + seq![':'],
        padded(t.minute as nat, 2),
    );
    lemma_ok_concat(
        year_str(t.year as int) + seq!['-'] + padded(t.month as nat, 2) + seq!['-'] + padded(
            t.day as nat,
            2,
        ) + seq![' '] + padded(t.hour as nat, 2) + seq![':'] + padded(t.minute as nat, 2),
        seq![':'],
    );
    lemma_ok_concat(
        year_str(t.year as int) + seq!['-'] + padded(t.month as nat, 2) + seq!['-'] + padded(
            t.day as nat,
            2,
        ) + seq![' '] + padded(t.hour as nat, 2) + seq![':'] + padded(t.minute as nat, 2)
            + seq![':'],
        padded(t.second as nat, 2),
    );
}

/// Law: loading a rendered, timestamped record gives back exactly the
/// operation sequence that was persisted.
pub proof fn lemma_dump_round_trip(t: Timestamp, ops: Seq<OpView>)
    requires
        forall|i: int|
            0 <= i < ops.len() ==> wf_path((#[trigger] ops[i]).source) && wf_path(ops[i].target),
    ensures
        parse_record(encode_record(date_display(t), ops)) == Some((date_display(t), ops)),
{
    lemma_date_ok(t);
    lemma_record_round_trip(date_display(t), ops);
}

/// The character of one decimal digit.
fn digit_exec(d: u64) -> (c: char)
    requires
        d < 10,
    ensures
        c == digit_char(d as int),
{
    if d == 0 {
        '0'
    } else if d == 1 {
        '1'
    } else if d == 2 {
        '2'
    } else if d == 3 {
        '3'
    } else if d == 4 {
        '4'
    } else if d == 5 {
        '5'
    } else if d == 6 {
        '6'
    } else if d == 7 {
        '7'
    } else if d == 8 {
        '8'
    } else {
        '9'
    }
}

/// The decimal form of a number.
pub(crate) fn dec_exec(n: u64) -> (r: String)
    ensures
        r@ == dec_str(n as nat),
    decreases n,
{
    if n < 10 {
        let mut r = String::new();
        push_char(&mut r, digit_exec(n));
        proof {
            assert(r@ =~= dec_str(n as nat));
        }
        r
    } else {
        let mut r = dec_exec(n / 10);
        push_char(&mut r, digit_exec(n % 10));
        r
    }
}

/// The decimal form, left-padded with zeros to a width.
fn padded_exec(n: u64, w: usize) -> (r: String)
    ensures
        r@ == padded(n as nat, w as int),
{
    let d = dec_exec(n);
    let dn = d.as_str().unicode_len();
    let mut z = String::new();
    let mut i: usize = 0;
    let k: usize = if dn < w {
        w - dn
    } else {
        0
    };
    proof {
        lemma_zeros_ok(k as int);
        lemma_zeros_ok(w - dec_str(n as nat).len());
    }
    while i < k
        invariant
            i <= k,
            z@.len() == i as int,
            forall|j: int| 0 <= j < i ==> z@[j] == '0',
        decreases k - i,
    {
        push_char(&mut z, '0');
        i += 1;
    }
    proof {
        assert forall|j: int| 0 <= j < zeros(k as int).len() implies zeros(k as int)[j] == '0' by {
            lemma_zeros_all(k as int, j);
        }
        assert(z@ =~= zeros(k as int));
        assert(k as int == if w - dec_str(n as nat).len() <= 0 {
            0int
        } else {
            w - dec_str(n as nat).len()
        });
        assert(zeros(k as int) =~= zeros(w - dec_str(n as nat).len()));
    }
    z.concat(d.as_str())
}

/// Every padding character is a zero.
proof fn lemma_zeros_all(k: int, j: int)
    requires
        0 <= j < zeros(k).len(),
    ensures
        zeros(k)[j] == '0',
    decreases k,
{
    if j >= 1 {
        lemma_zeros_all(k - 1, j - 1);
    }
}

/// The signed, four-digit-padded year.
fn year_exec(y: i32) -> (r: String)
    ensures
        r@ == year_str(y as int),
{
    if y < 0 {
        let a: u64 = (-(y as i64)) as u64;
        let mut r = String::new();
        push_char(&mut r, '-');
        proof {
            assert(a as nat == (-(y as int)) as nat);
        }
        let p = padded_exec(a, 4);
        let out = r.concat(p.as_str());
        proof {
            assert(out@ =~= seq!['-'] + padded((-(y as int)) as nat, 4));
        }
        out
    } else {
        let p = padded_exec(y as u64, 4);
        proof {
            assert((y as u64) as nat == (y as int) as nat);
        }
        p
    }
}

/// The display form of a timestamp: YYYY-MM-DD HH:MM:SS.
pub fn format_date(t: &Timestamp) -> (r: String)
    ensures
        r@ == date_display(*t),
{
    let mut r = year_exec(t.year);
    push_char(&mut r, '-');
    r.append(padded_exec(t.month as u64, 2).as_str());
    push_char(&mut r, '-');
    r.append(padded_exec(t.day as u64, 2).as_str());
    push_char(&mut r, ' ');
    r.append(padded_exec(t.hour as u64, 2).as_str());
    push_char(&mut r, ':');
    r.append(padded_exec(t.minute as u64, 2).as_str());
    push_char(&mut r, ':');
    r.append(padded_exec(t.second as u64, 2).as_str());
    proof {
        assert(r@ =~= date_display(*t));
    }
    r
}

/// The name a new log file gets: prefix, timestamp, extension.
pub fn log_filename(t: &Timestamp) -> (r: String)
    ensures
        r@ == log_filename_spec(*t),
{
    let mut r = String::new();
    push_char(&mut r, 'r');
    push_char(&mut r, 'x');
    push_char(&mut r, '-');
    r.append(year_exec(t.year).as_str());
    push_char(&mut r, '-');
    r.append(padded_exec(t.month as u64, 2).as_str());
    push_char(&mut r, '-');
    r.append(padded_exec(t.day as u64, 2).as_str());
    push_char(&mut r, '_');
    r.append(padded_exec(t.hour as u64, 2).as_str());
    r.append(padded_exec(t.minute as u64, 2).as_str());
    r.append(padded_exec(t.second as u64, 2).as_str());
    push_char(&mut r, '.');
    push_char(&mut r, 'j');
    push_char(&mut r, 's');
    push_char(&mut r, 'o');
    push_char(&mut r, 'n');
    proof {
        assert(r@ =~= log_filename_spec(*t));
    }
    r
}

/// The quoted, escaped form of a string.
fn quote_exec(s: &str) -> (r: String)
    ensures
        r@ == quoted(s@),
{
    let cs = str_to_chars(s);
    let body = esc_exec(&cs, 0);
    let mut r = String::new();
    push_char(&mut r, '"');
    let mut r = r.concat(body.as_str());
    push_char(&mut r, '"');
    proof {
        assert(cs@.skip(0) =~= cs@);
        assert(r@ =~= quoted(s@));
    }
    r
}

/// The escaped characters from index `i` on.
fn esc_exec(cs: &Vec<char>, i: usize) -> (r: String)
    requires
        i <= cs.len(),
    ensures
        r@ == esc(cs@.skip(i as int)),
    decreases cs.len() - i,
{
    if i >= cs.len() {
        proof {
            assert(cs@.skip(i as int) =~= Seq::<char>::empty());
        }
        String::new()
    } else {
        let c = cs[i];
        let rest = esc_exec(cs, i + 1);
        let mut r = String::new();
        if c == '"' {
            push_char(&mut r, '\\');
            push_char(&mut r, '"');
        } else if c == '\\' {
            push_char(&mut r, '\\');
            push_char(&mut r, '\\');
        } else {
            push_char(&mut r, c);
        }
        let out = r.concat(rest.as_str());
        proof {
            let v = cs@.skip(i as int);
            assert(v[0] == cs@[i as int]);
            assert(v.skip(1) =~= cs@.skip(i as int + 1));
            assert(out@ =~= esc(v));
        }
        out
    }
}

/// One operation as an object with its two path strings.
fn render_op(o: &Operation) -> (r: String)
    ensures
        r@ == encode_op(o@),
{
    let mut r = String::new();
    push_char(&mut r, '{');
    r.append(quote_exec("source").as_str());
    push_char(&mut r, ':');
    r.append(quote_exec(path_to_string(&o.source).as_str()).as_str());
    push_char(&mut r, ',');
    r.append(quote_exec("target").as_str());
    push_char(&mut r, ':');
    r.append(quote_exec(path_to_string(&o.target).as_str()).as_str());
    push_char(&mut r, '}');
    proof {
        reveal_strlit("source");
        reveal_strlit("target");
        assert("source"@ =~= source_key());
        assert("target"@ =~= target_key());
        assert(r@ =~= encode_op(o@));
    }
    r
}

/// The comma-led continuation of the list from index `k` on.
fn render_ops_tail(ops: &Vec<Operation>, k: usize) -> (r: String)
    requires
        k <= ops.len(),
    ensures
        r@ == ops_tail_text(ops.deep_view().skip(k as int)),
    decreases ops.len() - k,
{
    if k >= ops.len() {
        proof {
            assert(ops.deep_view().skip(k as int) =~= Seq::<OpView>::empty());
        }
        String::new()
    } else {
        let rest = render_ops_tail(ops, k + 1);
        let mut r = String::new();
        push_char(&mut r, ',');
        r.append(render_op(&ops[k]).as_str());
        r.append(rest.as_str());
        proof {
            let v = ops.deep_view().skip(k as int);
            assert(v[0] == ops.deep_view()[k as int]);
            assert(v.skip(1) =~= ops.deep_view().skip(k as int + 1));
            assert(r@ =~= ops_tail_text(v));
        }
        r
    }
}

/// The rendered record for an operation sequence and a timestamp.
pub fn render_dump(operations: &Vec<Operation>, stamp: &Timestamp) -> (r: String)
    ensures
        r@ == encode_record(date_display(*stamp), operations.deep_view()),
{
    let date = format_date(stamp);
    let mut r = String::new();
    push_char(&mut r, '{');
    r.append(quote_exec("date").as_str());
    push_char(&mut r, ':');
    r.append(quote_exec(date.as_str()).as_str());
    push_char(&mut r, ',');
    r.append(quote_exec("operations").as_str());
    push_char(&mut r, ':');
    push_char(&mut r, '[');
    if operations.len() > 0 {
        r.append(render_op(&operations[0]).as_str());
        r.append(render_ops_tail(operations, 1).as_str());
    }
    push_char(&mut r, ']');
    push_char(&mut r, '}');
    proof {
        reveal_strlit("date");
        reveal_strlit("operations");
        assert("date"@ =~= date_key());
        assert("operations"@ =~= operations_key());
        if operations.deep_view().len() > 0 {
            assert(operations.deep_view().skip(0)[0] == operations.deep_view()[0]);
            assert(operations.deep_view().skip(1) =~= operations.deep_view().skip(0).skip(1));
        }
        assert(r@ =~= encode_record(date_display(*stamp), operations.deep_view()));
    }
    r
}

/// Whether a character is whitespace between tokens.
fn is_ws_exec(c: char) -> (r: bool)
    ensures
        r == is_ws(c),
{
    c == ' ' || c == '\n' || c == '\t' || c == '\r'
}

/// The position after leading whitespace.
fn skip_ws_exec(cs: &Vec<char>, i: usize) -> (j: usize)
    requires
        i <= cs.len(),
    ensures
        i <= j <= cs.len(),
        cs@.skip(j as int) == skip_ws(cs@.skip(i as int)),
    decreases cs.len() - i,
{
    if i < cs.len() {
        proof {
            assert(cs@.skip(i as int)[0] == cs@[i as int]);
            assert(cs@.skip(i as int).skip(1) =~= cs@.skip(i as int + 1));
        }
        if is_ws_exec(cs[i]) {
            skip_ws_exec(cs, i + 1)
        } else {
            i
        }
    } else {
        proof {
            assert(cs@.skip(i as int) =~= Seq::<char>::empty());
        }
        i
    }
}

/// The position after an expected punctuation character.
fn expect_exec(cs: &Vec<char>, i: usize, c: char) -> (r: Option<usize>)
    requires
        i <= cs.len(),
    ensures
        match r {
            Some(j) => i <= j <= cs.len() && expect(cs@.skip(i as int), c) == Some(
                cs@.skip(j as int),
            ),
            None => expect(cs@.skip(i as int), c) is None,
        },
{
    let j = skip_ws_exec(cs, i);
    if j < cs.len() && cs[j] == c {
        proof {
            assert(cs@.skip(j as int)[0] == cs@[j as int]);
            assert(cs@.skip(j as int).skip(1) =~= cs@.skip(j as int + 1));
        }
        Some(j + 1)
    } else {
        proof {
            if j < cs.len() {
                assert(cs@.skip(j as int)[0] == cs@[j as int]);
            } else {
                assert(cs@.skip(j as int) =~= Seq::<char>::empty());
            }
        }
        None
    }
}

/// The contents of a string up to its closing quote.
fn parse_str_body_exec(cs: &Vec<char>, i: usize) -> (r: Option<(Vec<char>, usize)>)
    requires
        i <= cs.len(),
    ensures
        match r {
            Some(p) => p.1 <= cs.len() && parse_str_body(cs@.skip(i as int)) == Some(
                (p.0@, cs@.skip(p.1 as int)),
            ),
            None => parse_str_body(cs@.skip(i as int)) is None,
        },
    decreases cs.len() - i,
{
    if i >= cs.len() {
        proof {
            assert(cs@.skip(i as int) =~= Seq::<char>::empty());
        }
        return None;
    }
    proof {
        assert(cs@.skip(i as int)[0] == cs@[i as int]);
        assert(cs@.skip(i as int).skip(1) =~= cs@.skip(i as int + 1));
    }
    let c = cs[i];
    if c == '"' {
        let v: Vec<char> = Vec::new();
        proof {
            assert(v@ =~= Seq::<char>::empty());
        }
        Some((v, i + 1))
    } else if c == '\\' {
        if i + 1 < cs.len() && (cs[i + 1] == '"' || cs[i + 1] == '\\') {
            proof {
                assert(cs@.skip(i as int)[1] == cs@[i as int + 1]);
                assert(cs@.skip(i as int).skip(2) =~= cs@.skip(i as int + 2));
            }
            match parse_str_body_exec(cs, i + 2) {
                Some(p) => {
                    let (mut v, j) = p;
                    v.insert(0, cs[i + 1]);
                    proof {
                        assert(v@ =~= seq![cs@[i as int + 1]] + v@.skip(1));
                    }
                    Some((v, j))
                },
                None => None,
            }
        } else {
            proof {
                if i + 1 < cs.len() {
                    assert(cs@.skip(i as int)[1] == cs@[i as int + 1]);
                }
            }
            None
        }
    } else {
        match parse_str_body_exec(cs, i + 1) {
            Some(p) => {
                let (mut v, j) = p;
                v.insert(0, c);
                proof {
                    assert(v@ =~= seq![cs@[i as int]] + v@.skip(1));
                }
                Some((v, j))
            },
            None => None,
        }
    }
}

/// A quoted string.
fn parse_string_exec(cs: &Vec<char>, i: usize) -> (r: Option<(Vec<char>, usize)>)
    requires
        i <= cs.len(),
    ensures
        match r {
            Some(p) => p.1 <= cs.len() && parse_string(cs@.skip(i as int)) == Some(
                (p.0@, cs@.skip(p.1 as int)),
            ),
            None => parse_string(cs@.skip(i as int)) is None,
        },
{
    match expect_exec(cs, i, '"') {
        Some(j) => parse_str_body_exec(cs, j),
        None => None,
    }
}

/// Whether two character vectors hold the same characters.
fn chars_eq(a: &Vec<char>, b: &Vec<char>) -> (r: bool)
    ensures
        r == (a@ == b@),
{
    if a.len() != b.len() {
        return false;
    }
    let mut i: usize = 0;
    while i < a.len()
        invariant
            a.len() == b.len(),
            i <= a.len(),
            forall|j: int| 0 <= j < i ==> a@[j] == b@[j],
        decreases a.len() - i,
    {
        if a[i] != b[i] {
            return false;
        }
        i += 1;
    }
    proof {
        assert(a@ =~= b@);
    }
    true
}

/// A given quoted key followed by a colon.
fn parse_key_exec(cs: &Vec<char>, i: usize, key: &Vec<char>) -> (r: Option<usize>)
    requires
        i <= cs.len(),
    ensures
        match r {
            Some(j) => j <= cs.len() && parse_key(cs@.skip(i as int), key@) == Some(
                cs@.skip(j as int),
            ),
            None => parse_key(cs@.skip(i as int), key@) is None,
        },
{
    match parse_string_exec(cs, i) {
        Some(p) => {
            let (k, j) = p;
            if chars_eq(&k, key) {
                expect_exec(cs, j, ':')
            } else {
                None
            }
        },
        None => None,
    }
}

/// One operation object.
fn parse_op_exec(cs: &Vec<char>, i: usize) -> (r: Option<(Operation, usize)>)
    requires
        i <= cs.len(),
    ensures
        match r {
            Some(p) => p.1 <= cs.len() && parse_op(cs@.skip(i as int)) == Some(
                (p.0@, cs@.skip(p.1 as int)),
            ) && wf_path(p.0.source@) && wf_path(p.0.target@),
            None => parse_op(cs@.skip(i as int)) is None,
        },
{
    let source_key_chars = str_to_chars("source");
    let target_key_chars = str_to_chars("target");
    proof {
        reveal_strlit("source");
        reveal_strlit("target");
        assert(source_key_chars@ =~= source_key());
        assert(target_key_chars@ =~= target_key());
    }
    let r1 = match expect_exec(cs, i, '{') {
        Some(j) => j,
        None => {
            return None;
        },
    };
    let r2 = match parse_key_exec(cs, r1, &source_key_chars) {
        Some(j) => j,
        None => {
            return None;
        },
    };
    let (src, r3) = match parse_string_exec(cs, r2) {
        Some(p) => p,
        None => {
            return None;
        },
    };
    let r4 = match expect_exec(cs, r3, ',') {
        Some(j) => j,
        None => {
            return None;
        },
    };
    let r5 = match parse_key_exec(cs, r4, &target_key_chars) {
        Some(j) => j,
        None => {
            return None;
        },
    };
    let (tgt, r6) = match parse_string_exec(cs, r5) {
        Some(p) => p,
        None => {
            return None;
        },
    };
    let r7 = match expect_exec(cs, r6, '}') {
        Some(j) => j,
        None => {
            return None;
        },
    };
    let source = parse_path(chars_to_string(&src).as_str());
    let target = parse_path(chars_to_string(&tgt).as_str());
    Some((Operation { source, target }, r7))
}

/// The rest of the operation list, after the first operation.
fn parse_ops_rest_exec(cs: &Vec<char>, i: usize) -> (r: Option<(Vec<Operation>, usize)>)
    requires
        i <= cs.len(),
    ensures
        match r {
            Some(p) => p.1 <= cs.len() && parse_ops_rest(cs@.skip(i as int)) == Some(
                (p.0.deep_view(), cs@.skip(p.1 as int)),
            ) && forall|k: int|
                0 <= k < p.0.deep_view().len() ==> wf_path(
                    (#[trigger] p.0.deep_view()[k]).source,
                ) && wf_path(p.0.deep_view()[k].target),
            None => parse_ops_rest(cs@.skip(i as int)) is None,
        },
    decreases cs.len() - i,
{
    match expect_exec(cs, i, ']') {
        Some(j) => {
            let v: Vec<Operation> = Vec::new();
            proof {
                assert(v.deep_view() =~= Seq::<OpView>::empty());
            }
            Some((v, j))
        },
        None => {
            let r1 = match expect_exec(cs, i, ',') {
                Some(j) => j,
                None => {
                    return None;
                },
            };
            let (op, r2) = match parse_op_exec(cs, r1) {
                Some(p) => p,
                None => {
                    return None;
                },
            };
            proof {
                lemma_expect_len(cs@.skip(i as int), ',');
                lemma_parse_op_len(cs@.skip(r1 as int));
                assert(cs@.skip(r2 as int).len() < cs@.skip(i as int).len());
                assert(r2 > i);
            }
            match parse_ops_rest_exec(cs, r2) {
                Some(p) => {
                    let (mut ops, r3) = p;
                    let ghost prev = ops.deep_view();
                    ops.insert(0, op);
                    proof {
                        assert(ops.deep_view() =~= seq![op@] + prev);
                        assert forall|k: int|
                            0 <= k < ops.deep_view().len() implies wf_path(
                            (#[trigger] ops.deep_view()[k]).source,
                        ) && wf_path(ops.deep_view()[k].target) by {
                            if k >= 1 {
                                assert(ops.deep_view()[k] == prev[k - 1]);
                            }
                        }
                    }
                    Some((ops, r3))
                },
                None => None,
            }
        },
    }
}

/// The whole operation list after its opening bracket.
fn parse_ops_list_exec(cs: &Vec<char>, i: usize) -> (r: Option<(Vec<Operation>, usize)>)
    requires
        i <= cs.len(),
    ensures
        match r {
            Some(p) => p.1 <= cs.len() && parse_ops_list(cs@.skip(i as int)) == Some(
                (p.0.deep_view(), cs@.skip(p.1 as int)),
            ) && forall|k: int|
                0 <= k < p.0.deep_view().len() ==> wf_path(
                    (#[trigger] p.0.deep_view()[k]).source,
                ) && wf_path(p.0.deep_view()[k].target),
            None => parse_ops_list(cs@.skip(i as int)) is None,
        },
{
    match expect_exec(cs, i, ']') {
        Some(j) => {
            let v: Vec<Operation> = Vec::new();
            proof {
                assert(v.deep_view() =~= Seq::<OpView>::empty());
            }
            Some((v, j))
        },
        None => {
            let (op, r1) = match parse_op_exec(cs, i) {
                Some(p) => p,
                None => {
                    return None;
                },
            };
            proof {
                lemma_parse_op_len(cs@.skip(i as int));
            }
            match parse_ops_rest_exec(cs, r1) {
                Some(p) => {
                    let (mut ops, r2) = p;
                    let ghost prev = ops.deep_view();
                    ops.insert(0, op);
                    proof {
                        assert(ops.deep_view() =~= seq![op@] + prev);
                        assert forall|k: int|
                            0 <= k < ops.deep_view().len() implies wf_path(
                            (#[trigger] ops.deep_view()[k]).source,
                        ) && wf_path(ops.deep_view()[k].target) by {
                            if k >= 1 {
                                assert(ops.deep_view()[k] == prev[k - 1]);
                            }
                        }
                    }
                    Some((ops, r2))
                },
                None => None,
            }
        },
    }
}

/// Deserializes a persisted record's text; the whole text must be one
/// record, and a malformed text is a parse failure.
pub fn read_operations(text: &str) -> (r: Result<Operations, Error>)
    ensures
        match r {
            Ok(out) => parse_record(text@) is Some && out.deep_view() == (parse_record(
                text@,
            )->Some_0).1 && forall|k: int|
                0 <= k < out.deep_view().len() ==> wf_path((#[trigger] out.deep_view()[k]).source)
                    && wf_path(out.deep_view()[k].target),
            Err(e) => parse_record(text@) is None && e.kind == ErrorKind::JsonParse && e.value
                is None,
        },
{
    let cs = str_to_chars(text);
    proof {
        assert(cs@.skip(0) =~= cs@);
    }
    let date_key_chars = str_to_chars("date");
    let operations_key_chars = str_to_chars("operations");
    proof {
        reveal_strlit("date");
        reveal_strlit("operations");
        assert(date_key_chars@ =~= date_key());
        assert(operations_key_chars@ =~= operations_key());
    }
    let err = Error { kind: ErrorKind::JsonParse, value: None };
    let r1 = match expect_exec(&cs, 0, '{') {
        Some(j) => j,
        None => {
            return Err(err);
        },
    };
    let r2 = match parse_key_exec(&cs, r1, &date_key_chars) {
        Some(j) => j,
        None => {
            return Err(err);
        },
    };
    let r3 = match parse_string_exec(&cs, r2) {
        Some(p) => p.1,
        None => {
            return Err(err);
        },
    };
    let r4 = match expect_exec(&cs, r3, ',') {
        Some(j) => j,
        None => {
            return Err(err);
        },
    };
    let r5 = match parse_key_exec(&cs, r4, &operations_key_chars) {
        Some(j) => j,
        None => {
            return Err(err);
        },
    };
    let r6 = match expect_exec(&cs, r5, '[') {
        Some(j) => j,
        None => {
            return Err(err);
        },
    };
    let (ops, r7) = match parse_ops_list_exec(&cs, r6) {
        Some(p) => p,
        None => {
            return Err(err);
        },
    };
    let r8 = match expect_exec(&cs, r7, '}') {
        Some(j) => j,
        None => {
            return Err(err);
        },
    };
    let r9 = skip_ws_exec(&cs, r8);
    if r9 < cs.len() {
        proof {
            assert(skip_ws(cs@.skip(r8 as int)).len() > 0);
        }
        return Err(err);
    }
    proof {
        assert(cs@.skip(r9 as int) =~= Seq::<char>::empty());
    }
    Ok(ops)
}
} // verus!
