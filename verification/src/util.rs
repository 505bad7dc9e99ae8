//! Small resolved decisions around the engine: splitting the search path,
//! accepting a binary candidate, and parsing the stream-selection switch.

use vstd::prelude::*;

verus! {

/// The byte `':'`: separates search-path entries.
pub const COLON: u8 = 58;

/// The byte `','`: separates stream-selection tokens.
pub const COMMA: u8 = 44;

/// The byte `'/'`: the path separator.
pub const SLASH: u8 = 47;

/// Executable permission bits, owner, group and other (octal `111`).
pub const EXEC_BITS: u32 = 73;

/// Whether byte `b` occurs in `s`.
pub open spec fn has_byte(s: Seq<u8>, b: u8) -> bool {
    exists|i: int| 0 <= i < s.len() && s[i] == b
}

/// The index of the first occurrence of `b` in `s`, or `s.len()` when it
/// does not occur.
pub open spec fn first_at(s: Seq<u8>, b: u8) -> int
    decreases s.len(),
{
    if s.len() == 0 {
        0
    } else if s.first() == b {
        0
    } else {
        1 + first_at(s.drop_first(), b)
    }
}

/// Where the first `b` of `s` sits: a valid index pointing at a `b` with
/// none before it, or `s.len()` when `s` has none.
pub proof fn lemma_first_at(s: Seq<u8>, b: u8)
    ensures
        0 <= first_at(s, b) <= s.len(),
        first_at(s, b) < s.len() <==> has_byte(s, b),
        first_at(s, b) < s.len() ==> s[first_at(s, b)] == b,
        forall|j: int| 0 <= j < first_at(s, b) ==> s[j] != b,
    decreases s.len(),
{
    if s.len() == 0 {
        assert(!has_byte(s, b));
    } else if s.first() == b {
        assert(has_byte(s, b));
    } else {
        let d = s.drop_first();
        lemma_first_at(d, b);
        assert(forall|j: int| 0 <= j < d.len() ==> d[j] == s[j + 1]);
        if has_byte(s, b) {
            let i = choose|i: int| 0 <= i < s.len() && s[i] == b;
            assert(i != 0);
            assert(d[i - 1] == b);
            assert(has_byte(d, b));
        }
        if has_byte(d, b) {
            let i = choose|i: int| 0 <= i < d.len() && d[i] == b;
            assert(s[i + 1] == b);
            assert(has_byte(s, b));
        }
        assert forall|j: int| 0 <= j < first_at(s, b) implies s[j] != b by {
            if j > 0 {
                assert(d[j - 1] != b);
            }
        }
    }
}

/// If `i` points at a `b` and none precedes it, then `i` is the first one.
pub proof fn lemma_first_at_is(s: Seq<u8>, b: u8, i: int)
    requires
        0 <= i < s.len(),
        s[i] == b,
        forall|j: int| 0 <= j < i ==> s[j] != b,
    ensures
        first_at(s, b) == i,
    decreases s.len(),
{
    if i == 0 {
    } else {
        let d = s.drop_first();
        assert(forall|j: int| 0 <= j < d.len() ==> d[j] == s[j + 1]);
        assert forall|j: int| 0 <= j < i - 1 implies d[j] != b by {
            assert(s[j + 1] != b);
        }
        lemma_first_at_is(d, b, i - 1);
    }
}

/// `s` split on `sep`: the separators themselves are dropped, and `n`
/// separators yield `n + 1` (possibly empty) segments.
pub open spec fn split_on(s: Seq<u8>, sep: u8) -> Seq<Seq<u8>>
    decreases s.len(),
{
    let i = first_at(s, sep);
    if 0 <= i < s.len() {
        seq![s.take(i)] + split_on(s.skip(i + 1), sep)
    } else {
        seq![s]
    }
}

/// Splitting a segment known to be separator-free off the front.
pub proof fn lemma_split_step(cur: Seq<u8>, tail: Seq<u8>, sep: u8)
    requires
        !has_byte(cur, sep),
    ensures
        split_on(cur + seq![sep] + tail, sep) == seq![cur] + split_on(tail, sep),
{
    let u = cur + seq![sep] + tail;
    assert(u[cur.len() as int] == sep);
    assert forall|j: int| 0 <= j < cur.len() implies u[j] != sep by {
        assert(u[j] == cur[j]);
    }
    lemma_first_at_is(u, sep, cur.len() as int);
    assert(u.take(cur.len() as int) =~= cur);
    assert(u.skip(cur.len() as int + 1) =~= tail);
}

/// A separator-free string splits into itself alone.
pub proof fn lemma_split_last(cur: Seq<u8>, sep: u8)
    requires
        !has_byte(cur, sep),
    ensures
        split_on(cur, sep) == seq![cur],
{
    lemma_first_at(cur, sep);
}

/// `s` split on `sep`, as byte vectors.
pub fn split_bytes(s: &Vec<u8>, sep: u8) -> (r: Vec<Vec<u8>>)
    ensures
        r.deep_view() == split_on(s@, sep),
{
    let mut parts: Vec<Vec<u8>> = Vec::new();
    let mut cur: Vec<u8> = Vec::new();
    let mut i: usize = 0;
    proof {
        assert(cur@ + s@.skip(0) =~= s@);
    }
    while i < s.len()
        invariant
            0 <= i <= s@.len(),
            !has_byte(cur@, sep),
            split_on(s@, sep) == parts.deep_view() + split_on(cur@ + s@.skip(i as int), sep),
        decreases s@.len() - i,
    {
        let b = s[i];
        let ghost rem = cur@ + s@.skip(i as int);
        proof {
            assert(s@.skip(i as int)[0] == s@[i as int]);
        }
        if b == sep {
            let ghost parts0 = parts.deep_view();
            let ghost cur0 = cur@;
            proof {
                assert(rem =~= cur0 + seq![sep] + s@.skip(i + 1));
                lemma_split_step(cur0, s@.skip(i + 1), sep);
            }
            parts.push(cur);
            cur = Vec::new();
            proof {
                assert(parts.deep_view() =~~= parts0.push(cur0));
                assert(parts0.push(cur0) + split_on(s@.skip(i + 1), sep) =~= parts0 + (seq![cur0]
                    + split_on(s@.skip(i + 1), sep)));
                assert(cur@ + s@.skip(i + 1) =~= s@.skip(i + 1));
            }
        } else {
            cur.push(b);
            proof {
                assert(cur@ + s@.skip(i + 1) =~= rem);
            }
        }
        i = i + 1;
    }
    let ghost parts0 = parts.deep_view();
    let ghost cur0 = cur@;
    proof {
        assert(cur0 + s@.skip(s@.len() as int) =~= cur0);
        lemma_split_last(cur0, sep);
    }
    parts.push(cur);
    proof {
        assert(parts.deep_view() =~~= parts0.push(cur0));
        assert(parts0.push(cur0) =~= parts0 + seq![cur0]);
    }
    parts
}

/// The search path split into its directory entries (empty entries kept,
/// as the OS search does).
pub fn split_search_path(path: &Vec<u8>) -> (r: Vec<Vec<u8>>)
    ensures
        r.deep_view() == split_on(path@, COLON),
{
    split_bytes(path, COLON)
}

/// `dir` and `name` joined with a single `/`.
pub fn join_path(dir: &Vec<u8>, name: &Vec<u8>) -> (r: Vec<u8>)
    ensures
        r@ == dir@ + seq![SLASH] + name@,
{
    let mut r = dir.clone();
    proof {
        assert(r@ =~= dir@);
    }
    r.push(SLASH);
    let mut n = name.clone();
    proof {
        assert(n@ =~= name@);
    }
    r.append(&mut n);
    proof {
        assert(r@ =~= dir@ + seq![SLASH] + name@);
    }
    r
}

/// Whether a search-path candidate is accepted as the resolved binary: it
/// must not be the supervisor's own binary, must be a regular file, and
/// must carry at least one execute permission bit.
pub fn candidate_accepts(is_self: bool, is_file: bool, mode: u32) -> (r: bool)
    ensures
        r == (!is_self && is_file && (mode & EXEC_BITS) != 0),
{
    !is_self && is_file && (mode & EXEC_BITS) != 0
}

/// A token selecting stdout capture: `1`, `stdout` or `STDOUT`.
pub open spec fn tok_stdout(t: Seq<u8>) -> bool {
    ||| t == seq![49u8]
    ||| t == seq![115u8, 116u8, 100u8, 111u8, 117u8, 116u8]
    ||| t == seq![83u8, 84u8, 68u8, 79u8, 85u8, 84u8]
}

/// A token selecting stderr capture: `2`, `stderr` or `STDERR`.
pub open spec fn tok_stderr(t: Seq<u8>) -> bool {
    ||| t == seq![50u8]
    ||| t == seq![115u8, 116u8, 100u8, 101u8, 114u8, 114u8]
    ||| t == seq![83u8, 84u8, 68u8, 69u8, 82u8, 82u8]
}

fn eq_bytes(t: &Vec<u8>, b0: u8, b1: u8, b2: u8, b3: u8, b4: u8, b5: u8) -> (r: bool)
    ensures
        r == (t@ == seq![b0, b1, b2, b3, b4, b5]),
{
    let r = t.len() == 6 && t[0] == b0 && t[1] == b1 && t[2] == b2 && t[3] == b3 && t[4] == b4
        && t[5] == b5;
    proof {
        if r {
            assert(t@ =~= seq![b0, b1, b2, b3, b4, b5]);
        }
        if t@ == seq![b0, b1, b2, b3, b4, b5] {
            assert(t@.len() == 6);
            assert(t@[0] == b0 && t@[1] == b1 && t@[2] == b2 && t@[3] == b3 && t@[4] == b4
                && t@[5] == b5);
        }
    }
    r
}

fn is_stdout_token(t: &Vec<u8>) -> (r: bool)
    ensures
        r == tok_stdout(t@),
{
    let one = t.len() == 1 && t[0] == 49;
    proof {
        if one {
            assert(t@ =~= seq![49u8]);
        }
        if t@ == seq![49u8] {
            assert(t@.len() == 1 && t@[0] == 49);
        }
    }
    one || eq_bytes(t, 115, 116, 100, 111, 117, 116) || eq_bytes(t, 83, 84, 68, 79, 85, 84)
}

fn is_stderr_token(t: &Vec<u8>) -> (r: bool)
    ensures
        r == tok_stderr(t@),
{
    let two = t.len() == 1 && t[0] == 50;
    proof {
        if two {
            assert(t@ =~= seq![50u8]);
        }
        if t@ == seq![50u8] {
            assert(t@.len() == 1 && t@[0] == 50);
        }
    }
    two || eq_bytes(t, 115, 116, 100, 101, 114, 114) || eq_bytes(t, 83, 84, 68, 69, 82, 82)
}

/// Whether any token of the selection names stdout.
pub open spec fn selection_stdout(toks: Seq<Seq<u8>>) -> bool {
    exists|i: int| 0 <= i < toks.len() && tok_stdout(toks[i])
}

/// Whether any token of the selection names stderr.
pub open spec fn selection_stderr(toks: Seq<Seq<u8>>) -> bool {
    exists|i: int| 0 <= i < toks.len() && tok_stderr(toks[i])
}

/// The unrecognized tokens of a selection, in order.
pub open spec fn invalid_of(toks: Seq<Seq<u8>>) -> Seq<Seq<u8>>
    decreases toks.len(),
{
    if toks.len() == 0 {
        Seq::empty()
    } else {
        let rest = invalid_of(toks.drop_last());
        if !tok_stdout(toks.last()) && !tok_stderr(toks.last()) {
            rest.push(toks.last())
        } else {
            rest
        }
    }
}

/// The parsed per-stream capture selection.
pub struct StreamSelection {
    /// Capture the wrapped command's stdout.
    pub stdout: bool,
    /// Capture the wrapped command's stderr.
    pub stderr: bool,
    /// Tokens that named neither stream (reported as warnings).
    pub invalid: Vec<Vec<u8>>,
}

/// Parse the comma-separated stream-selection value: a stream is captured
/// exactly when one of the tokens names it; unrecognized tokens are
/// collected for warning.
pub fn parse_stream_selection(s: &Vec<u8>) -> (r: StreamSelection)
    ensures
        r.stdout == selection_stdout(split_on(s@, COMMA)),
        r.stderr == selection_stderr(split_on(s@, COMMA)),
        r.invalid.deep_view() == invalid_of(split_on(s@, COMMA)),
{
    let toks = split_bytes(s, COMMA);
    let ghost tv = toks.deep_view();
    let mut sel = StreamSelection { stdout: false, stderr: false, invalid: Vec::new() };
    let mut i: usize = 0;
    proof {
        assert(tv.take(0) =~= Seq::<Seq<u8>>::empty());
        assert(sel.invalid.deep_view() =~= invalid_of(tv.take(0)));
    }
    while i < toks.len()
        invariant
            0 <= i <= toks@.len(),
            tv == toks.deep_view(),
            tv.len() == toks@.len(),
            tv == split_on(s@, COMMA),
            sel.stdout == (exists|k: int| 0 <= k < i && tok_stdout(tv[k])),
            sel.stderr == (exists|k: int| 0 <= k < i && tok_stderr(tv[k])),
            sel.invalid.deep_view() == invalid_of(tv.take(i as int)),
        decreases toks@.len() - i,
    {
        let t = &toks[i];
        proof {
            assert(tv[i as int] == t@);
        }
        let so = is_stdout_token(t);
        let se = is_stderr_token(t);
        if so {
            sel.stdout = true;
            proof {
                assert(tok_stdout(tv[i as int]));
            }
        }
        if se {
            sel.stderr = true;
            proof {
                assert(tok_stderr(tv[i as int]));
            }
        }
        let ghost inv0 = sel.invalid.deep_view();
        if !so && !se {
            let c = t.clone();
            proof {
                assert(c@ =~= t@);
            }
            sel.invalid.push(c);
            proof {
                assert(sel.invalid.deep_view() =~~= inv0.push(t@));
            }
        }
        proof {
            assert(tv.take(i + 1).drop_last() =~= tv.take(i as int));
            assert(tv.take(i + 1).last() == tv[i as int]);
        }
        i = i + 1;
    }
    proof {
        assert(tv.take(tv.len() as int) =~= tv);
    }
    sel
}

/// Whether the disable switch is set: any value other than `0` disables
/// wrapping and logging entirely.
pub fn logging_disabled(v: Option<&Vec<u8>>) -> (r: bool)
    ensures
        r == match v {
            Some(s) => s@ != seq![48u8],
            None => false,
        },
{
    match v {
        Some(s) => {
            let zero = s.len() == 1 && s[0] == 48;
            proof {
                if zero {
                    assert(s@ =~= seq![48u8]);
                }
                if s@ == seq![48u8] {
                    assert(s@.len() == 1 && s@[0] == 48);
                }
            }
            !zero
        },
        None => false,
    }
}

} // verus!

