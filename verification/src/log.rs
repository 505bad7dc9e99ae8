//! The log identity resolver: flattens a command line, applies the optional
//! pattern-file truncation gate, builds the sanitized file-name prefix, and
//! names the numbered log files.
//!
//! Arguments and names are byte strings (`Vec<u8>`); the surrounding binary
//! converts between them and OS strings.

use vstd::prelude::*;

verus! {

/// The byte `' '`: arguments are joined with single spaces.
pub const SPACE: u8 = 32;

/// The byte `'-'`: the joiner and the sanitization replacement.
pub const DASH: u8 = 45;

/// The byte `'#'`: starts a comment line in the pattern file.
pub const HASH: u8 = 35;

/// All invocation arguments joined with a single space, no escaping.
pub open spec fn joined(args: Seq<Seq<u8>>) -> Seq<u8>
    decreases args.len(),
{
    if args.len() == 0 {
        Seq::empty()
    } else if args.len() == 1 {
        args[0]
    } else {
        joined(args.drop_last()) + seq![SPACE] + args.last()
    }
}

/// The flattened command string: every argument, joined by single spaces.
pub fn flatten_args(args: &Vec<Vec<u8>>) -> (r: Vec<u8>)
    requires
        args@.len() >= 1,
    ensures
        r@ == joined(args.deep_view()),
{
    let mut r = args[0].clone();
    proof {
        assert(r@ =~= args.deep_view()[0]);
        assert(args.deep_view().take(1) =~= seq![args.deep_view()[0]]);
        assert(joined(args.deep_view().take(1)) == args.deep_view()[0]);
    }
    let mut i: usize = 1;
    while i < args.len()
        invariant
            1 <= i <= args@.len(),
            args.deep_view().len() == args@.len(),
            r@ == joined(args.deep_view().take(i as int)),
        decreases args@.len() - i,
    {
        r.push(SPACE);
        let mut j: usize = 0;
        let arg = &args[i];
        while j < arg.len()
            invariant
                0 <= j <= arg@.len(),
                arg == args@[i as int],
                i < args@.len(),
                args.deep_view().len() == args@.len(),
                r@ == joined(args.deep_view().take(i as int)) + seq![SPACE] + arg@.take(
                    j as int,
                ),
            decreases arg@.len() - j,
        {
            r.push(arg[j]);
            proof {
                assert(arg@.take(j + 1) =~= arg@.take(j as int) + seq![arg@[j as int]]);
                assert(r@ =~= joined(args.deep_view().take(i as int)) + seq![SPACE] + arg@.take(
                    j + 1,
                ));
            }
            j = j + 1;
        }
        proof {
            let dv = args.deep_view();
            assert(arg@.take(arg@.len() as int) =~= dv[i as int]);
            assert(dv.take(i + 1).drop_last() =~= dv.take(i as int));
            assert(dv.take(i + 1).last() == dv[i as int]);
            assert(joined(dv.take(i + 1)) == joined(dv.take(i as int)) + seq![SPACE] + dv[i as int]);
        }
        i = i + 1;
    }
    proof {
        assert(args.deep_view().take(args@.len() as int) =~= args.deep_view());
    }
    r
}

/// `s` with every leading `-` byte removed.
pub open spec fn drop_leading_dashes(s: Seq<u8>) -> Seq<u8>
    decreases s.len(),
{
    if s.len() > 0 && s.first() == DASH {
        drop_leading_dashes(s.drop_first())
    } else {
        s
    }
}

/// `s` with every trailing `-` byte removed.
pub open spec fn drop_trailing_dashes(s: Seq<u8>) -> Seq<u8>
    decreases s.len(),
{
    if s.len() > 0 && s.last() == DASH {
        drop_trailing_dashes(s.drop_last())
    } else {
        s
    }
}

/// `s` stripped of leading and trailing `-` bytes.
pub open spec fn trimmed_dashes(s: Seq<u8>) -> Seq<u8> {
    drop_trailing_dashes(drop_leading_dashes(s))
}

/// An argument stripped of any leading or trailing dash bytes, as it is
/// appended to the prefix.
pub fn trim_dashes(s: &Vec<u8>) -> (r: Vec<u8>)
    ensures
        r@ == trimmed_dashes(s@),
{
    let mut start: usize = 0;
    proof {
        assert(s@.skip(0) =~= s@);
    }
    while start < s.len() && s[start] == DASH
        invariant
            0 <= start <= s@.len(),
            drop_leading_dashes(s@) == drop_leading_dashes(s@.skip(start as int)),
        decreases s@.len() - start,
    {
        proof {
            assert(s@.skip(start as int).first() == s@[start as int]);
            assert(s@.skip(start as int).drop_first() =~= s@.skip(start + 1));
        }
        start = start + 1;
    }
    proof {
        let sk = s@.skip(start as int);
        if start < s@.len() {
            assert(sk.first() == s@[start as int]);
        }
        assert(drop_leading_dashes(sk) == sk);
    }
    let mut end: usize = s.len();
    while end > start && s[end - 1] == DASH
        invariant
            start <= end <= s@.len(),
            drop_leading_dashes(s@) == s@.skip(start as int),
            drop_trailing_dashes(s@.subrange(start as int, s@.len() as int))
                == drop_trailing_dashes(s@.subrange(start as int, end as int)),
        decreases end,
    {
        proof {
            let cur = s@.subrange(start as int, end as int);
            assert(cur.last() == s@[end - 1]);
            assert(cur.drop_last() =~= s@.subrange(start as int, end - 1));
        }
        end = end - 1;
    }
    proof {
        let cur = s@.subrange(start as int, end as int);
        if end > start {
            assert(cur.last() == s@[end - 1]);
        }
        assert(drop_trailing_dashes(cur) == cur);
        assert(s@.skip(start as int) =~= s@.subrange(start as int, s@.len() as int));
    }
    let mut r: Vec<u8> = Vec::new();
    let mut k: usize = start;
    while k < end
        invariant
            start <= k <= end <= s@.len(),
            r@ == s@.subrange(start as int, k as int),
        decreases end - k,
    {
        r.push(s[k]);
        proof {
            assert(s@.subrange(start as int, k + 1) =~= s@.subrange(start as int, k as int)
                + seq![s@[k as int]]);
        }
        k = k + 1;
    }
    r
}

/// Whether a byte is unsafe in a file name: the fixed set of shell, glob and
/// filesystem metacharacters (plus whitespace) that sanitization replaces.
pub open spec fn unsafe_byte(b: u8) -> bool {
    ||| b == 9
    ||| b == 10
    ||| b == 32
    ||| b == 33
    ||| b == 34
    ||| b == 35
    ||| b == 36
    ||| b == 38
    ||| b == 39
    ||| b == 40
    ||| b == 41
    ||| b == 42
    ||| b == 59
    ||| b == 60
    ||| b == 61
    ||| b == 62
    ||| b == 63
    ||| b == 91
    ||| b == 92
    ||| b == 93
    ||| b == 94
    ||| b == 96
    ||| b == 123
    ||| b == 124
    ||| b == 125
}

/// `s` with every unsafe byte replaced by `-`.
pub open spec fn sanitized(s: Seq<u8>) -> Seq<u8> {
    s.map_values(|b: u8| if unsafe_byte(b) { DASH } else { b })
}

fn is_unsafe_byte(b: u8) -> (r: bool)
    ensures
        r == unsafe_byte(b),
{
    match b {
        9 | 10 | 32 | 33 | 34 | 35 | 36 | 38 | 39 | 40 | 41 | 42 | 59 | 60 | 61 | 62 | 63 | 91
            | 92 | 93 | 94 | 96 | 123 | 124 | 125 => true,
        _ => false,
    }
}

/// The prefix made filesystem-safe: every shell, glob or whitespace byte
/// becomes a dash.
pub fn sanitize(s: &Vec<u8>) -> (r: Vec<u8>)
    ensures
        r@ == sanitized(s@),
{
    let mut r: Vec<u8> = Vec::new();
    let mut i: usize = 0;
    while i < s.len()
        invariant
            0 <= i <= s@.len(),
            r@ == sanitized(s@.take(i as int)),
        decreases s@.len() - i,
    {
        let b = s[i];
        if is_unsafe_byte(b) {
            r.push(DASH);
        } else {
            r.push(b);
        }
        proof {
            assert(r@ =~= sanitized(s@.take(i + 1)));
        }
        i = i + 1;
    }
    proof {
        assert(s@.take(s@.len() as int) =~= s@);
    }
    r
}

/// Sanitization is total and byte-local: the result has the same length,
/// every unsafe byte (a space, an `&`, any of the fixed set) comes out as a
/// dash, every other byte survives unchanged — so no unsafe byte ever
/// reaches a file name.
pub proof fn lemma_sanitize_safe(s: Seq<u8>)
    ensures
        sanitized(s).len() == s.len(),
        forall|i: int|
            0 <= i < s.len() ==> sanitized(s)[i] == (if unsafe_byte(s[i]) {
                DASH
            } else {
                s[i]
            }),
        forall|i: int| 0 <= i < s.len() ==> !unsafe_byte(#[trigger] sanitized(s)[i]),
{
}

/// Whether an argument is appended to the prefix: either the prefix built
/// so far is still shorter than the truncation length, or the raw argument
/// does not look like an option (no leading dash) and names an existing
/// path (`ex`).
pub open spec fn keeps_arg(acc_len: int, name_len: int, arg: Seq<u8>, ex: bool) -> bool {
    acc_len < name_len || (!(arg.len() > 0 && arg[0] == DASH) && ex)
}

pub open spec fn prefix_from(acc: Seq<u8>, args: Seq<Seq<u8>>, ex: Seq<bool>, name_len: int) -> Seq<
    u8,
>
    decreases args.len(),
{
    if args.len() == 0 {
        acc
    } else {
        let acc2 = if keeps_arg(acc.len() as int, name_len, args.first(), ex.first()) {
            acc + seq![DASH] + trimmed_dashes(args.first())
        } else {
            acc
        };
        prefix_from(acc2, args.drop_first(), ex.drop_first(), name_len)
    }
}

/// The raw (unsanitized) prefix: argument 0, then every later argument that
/// [`keeps_arg`] admits, dash-joined and stripped of its own dashes.
/// `ex[i]` answers whether argument `i` names an existing path.
pub open spec fn prefix_spec(args: Seq<Seq<u8>>, name_len: int, ex: Seq<bool>) -> Seq<u8>
    recommends
        args.len() >= 1,
        ex.len() == args.len(),
{
    prefix_from(args[0], args.drop_first(), ex.drop_first(), name_len)
}

/// The raw prefix, with the path-existence answers given by the caller.
pub fn build_prefix(args: &Vec<Vec<u8>>, name_len: usize, ex: &Vec<bool>) -> (r: Vec<u8>)
    requires
        args@.len() >= 1,
        ex@.len() == args@.len(),
    ensures
        r@ == prefix_spec(args.deep_view(), name_len as int, ex@),
{
    let ghost dv = args.deep_view();
    let mut acc = args[0].clone();
    proof {
        assert(acc@ =~= dv[0]);
        assert(dv.drop_first() =~= dv.skip(1));
        assert(ex@.drop_first() =~= ex@.skip(1));
    }
    let mut i: usize = 1;
    while i < args.len()
        invariant
            1 <= i <= dv.len(),
            dv == args.deep_view(),
            dv.len() == args@.len(),
            ex@.len() == args@.len(),
            prefix_from(acc@, dv.skip(i as int), ex@.skip(i as int), name_len as int)
                == prefix_spec(dv, name_len as int, ex@),
        decreases dv.len() - i,
    {
        let arg = &args[i];
        proof {
            assert(dv.skip(i as int).first() == dv[i as int]);
            assert(ex@.skip(i as int).first() == ex@[i as int]);
            assert(dv.skip(i as int).drop_first() =~= dv.skip(i + 1));
            assert(ex@.skip(i as int).drop_first() =~= ex@.skip(i + 1));
            assert(dv[i as int] == arg@);
        }
        let ghost acc0 = acc@;
        let keep = acc.len() < name_len || (!(arg.len() > 0 && arg[0] == DASH) && ex[i]);
        proof {
            assert(keep == keeps_arg(
                acc0.len() as int,
                name_len as int,
                dv[i as int],
                ex@[i as int],
            ));
        }
        if keep {
            acc.push(DASH);
            let mut t = trim_dashes(arg);
            acc.append(&mut t);
            proof {
                assert(acc@ =~= acc0 + seq![DASH] + trimmed_dashes(dv[i as int]));
            }
        }
        i = i + 1;
    }
    proof {
        assert(dv.skip(dv.len() as int) =~= Seq::<Seq<u8>>::empty());
    }
    acc
}

/// Relies on std::path::Path::exists: whether the bytes, read as a path,
/// name an existing filesystem entry. The answer depends on the state of
/// the filesystem, so nothing is promised of it.
#[verifier::external_body]
fn path_exists(p: &Vec<u8>) -> bool {
    match std::str::from_utf8(p.as_slice()) {
        Ok(s) => std::path::Path::new(s).exists(),
        Err(_) => false,
    }
}

/// The raw prefix, with the path-existence lookups performed here: whatever
/// the filesystem answers, the result is the prefix those answers dictate.
pub fn compute_prefix(args: &Vec<Vec<u8>>, name_len: usize) -> (r: Vec<u8>)
    requires
        args@.len() >= 1,
    ensures
        exists|ex: Seq<bool>|
            ex.len() == args@.len() && r@ == prefix_spec(
                args.deep_view(),
                name_len as int,
                ex,
            ),
{
    let mut ex: Vec<bool> = Vec::new();
    let mut i: usize = 0;
    while i < args.len()
        invariant
            0 <= i <= args@.len(),
            ex@.len() == i,
        decreases args@.len() - i,
    {
        ex.push(path_exists(&args[i]));
        i = i + 1;
    }
    let r = build_prefix(args, name_len, &ex);
    proof {
        assert(ex@.len() == args@.len() && r@ == prefix_spec(
            args.deep_view(),
            name_len as int,
            ex@,
        ));
    }
    r
}

/// Whether these pattern bytes compile as a regex; a function of the bytes
/// alone, named here and fixed by the trusted regex calls below.
pub uninterp spec fn regex_ok(pattern: Seq<u8>) -> bool;

/// Where the leftmost match of the pattern in the haystack ends, if it
/// matches at all; a function of the two byte strings alone.
pub uninterp spec fn regex_match_end(pattern: Seq<u8>, haystack: Seq<u8>) -> Option<int>;

/// Relies on regex::Regex::new and regex::Regex::find: whether a pattern
/// compiles, and where the leftmost match ends, depend on the pattern and
/// haystack bytes alone; a match's end offset never exceeds the haystack's
/// length. The `Err` text is the regex engine's own message.
#[verifier::external_body]
fn pattern_match_end(pattern: &Vec<u8>, haystack: &Vec<u8>) -> (r: Result<Option<usize>, String>)
    ensures
        r is Ok <==> regex_ok(pattern@),
        (r matches Ok(m) ==> (m is Some <==> regex_match_end(pattern@, haystack@) is Some)),
        (r matches Ok(m) ==> (m matches Some(u) ==> Some(u as int) == regex_match_end(
            pattern@,
            haystack@,
        ) && u <= haystack@.len())),
{
    let p = match std::str::from_utf8(pattern.as_slice()) {
        Ok(p) => p,
        Err(e) => return Err(e.to_string()),
    };
    let h = std::str::from_utf8(haystack.as_slice()).unwrap_or("");
    match regex::Regex::new(p) {
        Ok(re) => Ok(re.find(h).map(|m| m.end())),
        Err(e) => Err(e.to_string()),
    }
}

/// A config line that is neither blank nor a `#` comment is a pattern.
pub open spec fn is_pattern_line(line: Seq<u8>) -> bool {
    line.len() > 0 && line[0] != HASH
}

/// The truncation decision the pattern file yields for one invocation.
pub enum NameLen {
    /// A pattern failed to compile: a fatal configuration error. Holds the
    /// pattern and the regex engine's message.
    BadPattern { pattern: Vec<u8>, message: String },
    /// The first matching pattern ends its match here (never zero).
    Truncate { len: usize },
    /// No pattern matched, or one matched emptily: do not log at all.
    Bypass,
}

/// Spec-level mirror of [`NameLen`], over mathematical values.
pub enum NameLenSpec {
    BadPattern { pattern: Seq<u8> },
    Truncate { len: int },
    Bypass,
}

/// The decision the config lines yield against the flattened command:
/// pattern lines are tried in file order; the first that fails to compile
/// is fatal; otherwise the first whose regex matches decides — a positive
/// match end truncates there, an empty match bypasses; so does no match at
/// all.
pub open spec fn resolve_spec(lines: Seq<Seq<u8>>, hay: Seq<u8>) -> NameLenSpec
    decreases lines.len(),
{
    if lines.len() == 0 {
        NameLenSpec::Bypass
    } else {
        let line = lines.first();
        if !is_pattern_line(line) {
            resolve_spec(lines.drop_first(), hay)
        } else if !regex_ok(line) {
            NameLenSpec::BadPattern { pattern: line }
        } else {
            match regex_match_end(line, hay) {
                Some(e) => if e > 0 {
                    NameLenSpec::Truncate { len: e }
                } else {
                    NameLenSpec::Bypass
                },
                None => resolve_spec(lines.drop_first(), hay),
            }
        }
    }
}

/// Try each pattern line of the config, in file order, against the
/// flattened command; the first match fixes the truncation length.
pub fn config_name_len(lines: &Vec<Vec<u8>>, args_str: &Vec<u8>) -> (r: NameLen)
    ensures
        match resolve_spec(lines.deep_view(), args_str@) {
            NameLenSpec::BadPattern { pattern } => r matches NameLen::BadPattern {
                pattern: p,
                message: _,
            } && p@ == pattern,
            NameLenSpec::Truncate { len } => r matches NameLen::Truncate { len: l } && l as int
                == len && 0 < len <= args_str@.len(),
            NameLenSpec::Bypass => r is Bypass,
        },
{
    let ghost dv = lines.deep_view();
    let mut i: usize = 0;
    proof {
        assert(dv.skip(0) =~= dv);
    }
    while i < lines.len()
        invariant
            0 <= i <= dv.len(),
            dv == lines.deep_view(),
            dv.len() == lines@.len(),
            resolve_spec(dv.skip(i as int), args_str@) == resolve_spec(dv, args_str@),
        decreases dv.len() - i,
    {
        let line = &lines[i];
        proof {
            assert(dv.skip(i as int).first() == dv[i as int]);
            assert(dv.skip(i as int).drop_first() =~= dv.skip(i + 1));
            assert(dv[i as int] == line@);
        }
        if line.len() > 0 && line[0] != HASH {
            match pattern_match_end(line, args_str) {
                Err(message) => {
                    let pattern = line.clone();
                    proof {
                        assert(pattern@ =~= line@);
                    }
                    return NameLen::BadPattern { pattern, message };
                },
                Ok(Some(e)) => {
                    if e > 0 {
                        return NameLen::Truncate { len: e };
                    } else {
                        return NameLen::Bypass;
                    }
                },
                Ok(None) => {},
            }
        }
        i = i + 1;
    }
    proof {
        assert(dv.skip(dv.len() as int) =~= Seq::<Seq<u8>>::empty());
    }
    NameLen::Bypass
}

/// The fixed config search order over the two existence answers: the user
/// file wins over the system file; neither existing means no config.
pub fn pick_config(
    user_exists: bool,
    system_exists: bool,
    user_path: Vec<u8>,
    system_path: Vec<u8>,
) -> (r: Option<Vec<u8>>)
    ensures
        r == (if user_exists {
            Some(user_path)
        } else if system_exists {
            Some(system_path)
        } else {
            None
        }),
{
    if user_exists {
        Some(user_path)
    } else if system_exists {
        Some(system_path)
    } else {
        None
    }
}

/// What the fixed search order yields for given existence answers: the
/// user file when it exists, else the system file when that exists, else
/// no config at all.
pub open spec fn picked_config(u: bool, s: bool, user_path: Seq<u8>, system_path: Seq<u8>) -> Option<
    Seq<u8>,
> {
    if u {
        Some(user_path)
    } else if s {
        Some(system_path)
    } else {
        None
    }
}

/// The byte strings behind an optional path.
pub open spec fn opt_bytes(r: Option<Vec<u8>>) -> Option<Seq<u8>> {
    match r {
        Some(p) => Some(p@),
        None => None,
    }
}

/// The pattern file in effect. The two existence answers come from the
/// filesystem; whatever they are, the result is exactly what
/// [`pick_config`] decides for them: user file before system file, none
/// when neither exists.
pub fn config_path(user_path: Vec<u8>, system_path: Vec<u8>) -> (r: Option<Vec<u8>>)
    ensures
        exists|u: bool, s: bool|
            opt_bytes(r) == #[trigger] picked_config(u, s, user_path@, system_path@),
{
    let u = path_exists(&user_path);
    let s = path_exists(&system_path);
    let ghost gu = u;
    let ghost gs = s;
    let r = pick_config(u, s, user_path, system_path);
    proof {
        assert(opt_bytes(r) == picked_config(gu, gs, user_path@, system_path@));
    }
    r
}

/// The computed log identity of one invocation.
pub enum LogIdentity {
    /// Wrap and log, announcing this flattened command string and naming
    /// the log file after this sanitized prefix.
    Log { args_str: Vec<u8>, prefix: Vec<u8> },
    /// A config exists and no pattern admitted the command: run it
    /// unwrapped, with no log.
    Bypass,
    /// A config pattern failed to compile: fatal.
    BadPattern { pattern: Vec<u8>, message: String },
}

/// What a correct `Log` identity holds: the flattened command string, and
/// the sanitized prefix that some filesystem answers dictate under
/// truncation length `name_len`.
pub open spec fn identity_ok(r: LogIdentity, args: Seq<Seq<u8>>, name_len: int) -> bool {
    r matches LogIdentity::Log { args_str, prefix } && args_str@ == joined(args) && exists|
        ex: Seq<bool>,
    | ex.len() == args.len() && prefix@ == sanitized(prefix_spec(args, name_len, ex))
}

/// The flattened command string and the sanitized name prefix for an
/// invocation. With no config, the truncation length is the program name's
/// own length; with config lines, the pattern decision applies (and may
/// reject the pattern or bypass logging entirely).
pub fn args_str_and_prefix(args: &Vec<Vec<u8>>, config_lines: Option<&Vec<Vec<u8>>>) -> (r:
    LogIdentity)
    requires
        args@.len() >= 1,
    ensures
        match config_lines {
            None => identity_ok(r, args.deep_view(), args@[0]@.len() as int),
            Some(lines) => match resolve_spec(lines.deep_view(), joined(args.deep_view())) {
                NameLenSpec::BadPattern { pattern } => r matches LogIdentity::BadPattern {
                    pattern: p,
                    message: _,
                } && p@ == pattern,
                NameLenSpec::Truncate { len } => identity_ok(r, args.deep_view(), len),
                NameLenSpec::Bypass => r is Bypass,
            },
        },
{
    let args_str = flatten_args(args);
    let name_len: usize;
    match config_lines {
        None => {
            name_len = args[0].len();
            proof {
                assert(args.deep_view()[0] == args@[0]@);
            }
        },
        Some(lines) => {
            match config_name_len(lines, &args_str) {
                NameLen::BadPattern { pattern, message } => {
                    return LogIdentity::BadPattern { pattern, message };
                },
                NameLen::Truncate { len } => {
                    name_len = len;
                },
                NameLen::Bypass => {
                    return LogIdentity::Bypass;
                },
            }
        },
    }
    let raw = compute_prefix(args, name_len);
    let prefix = sanitize(&raw);
    proof {
        let ex = choose|ex: Seq<bool>|
            ex.len() == args@.len() && raw@ == prefix_spec(
                args.deep_view(),
                name_len as int,
                ex,
            );
        assert(prefix@ == sanitized(prefix_spec(args.deep_view(), name_len as int, ex)));
        assert(args.deep_view().len() == args@.len());
    }
    LogIdentity::Log { args_str, prefix }
}

/// The decimal digits of `n`, most significant first.
pub open spec fn dec_digits(n: int) -> Seq<u8>
    recommends
        n >= 0,
    decreases n,
{
    if n < 10 {
        seq![(48 + n) as u8]
    } else {
        dec_digits(n / 10) + seq![(48 + n % 10) as u8]
    }
}

fn push_dec(out: &mut Vec<u8>, n: u64)
    ensures
        final(out)@ == old(out)@ + dec_digits(n as int),
    decreases n,
{
    if n >= 10 {
        push_dec(out, n / 10);
    }
    out.push(48 + (n % 10) as u8);
    proof {
        assert(final(out)@ =~= old(out)@ + dec_digits(n as int));
    }
}

/// `<prefix>-<n>.log`, as bytes (the trailing bytes are `.log`).
pub open spec fn log_name_spec(prefix: Seq<u8>, n: int) -> Seq<u8> {
    prefix + seq![DASH] + dec_digits(n) + seq![46u8, 108u8, 111u8, 103u8]
}

/// The file name for the `n`-th log of this prefix: `<prefix>-<n>.log`.
pub fn log_file_name(prefix: &Vec<u8>, n: u64) -> (r: Vec<u8>)
    ensures
        r@ == log_name_spec(prefix@, n as int),
{
    let mut r = prefix.clone();
    proof {
        assert(r@ =~= prefix@);
    }
    r.push(DASH);
    push_dec(&mut r, n);
    r.push(46);
    r.push(108);
    r.push(111);
    r.push(103);
    proof {
        assert(r@ =~= log_name_spec(prefix@, n as int));
    }
    r
}

/// Distinct non-negative numbers have distinct decimal digit strings.
pub proof fn lemma_dec_digits_injective(m: int, n: int)
    requires
        0 <= m,
        0 <= n,
        m != n,
    ensures
        dec_digits(m) != dec_digits(n),
    decreases m + n,
{
    if m < 10 && n < 10 {
        assert(dec_digits(m)[0] == (48 + m) as u8);
        assert(dec_digits(n)[0] == (48 + n) as u8);
    } else if m < 10 {
        assert(dec_digits(m).len() == 1);
        assert(dec_digits(n).len() == dec_digits(n / 10).len() + 1);
        assert(dec_digits(n / 10).len() >= 1) by {
            lemma_dec_digits_nonempty(n / 10);
        }
    } else if n < 10 {
        assert(dec_digits(n).len() == 1);
        assert(dec_digits(m).len() == dec_digits(m / 10).len() + 1);
        assert(dec_digits(m / 10).len() >= 1) by {
            lemma_dec_digits_nonempty(m / 10);
        }
    } else {
        if m % 10 != n % 10 {
            assert(dec_digits(m).last() == (48 + m % 10) as u8);
            assert(dec_digits(n).last() == (48 + n % 10) as u8);
        } else {
            assert(m / 10 != n / 10);
            lemma_dec_digits_injective(m / 10, n / 10);
            if dec_digits(m) == dec_digits(n) {
                assert(dec_digits(m).drop_last() =~= dec_digits(m / 10));
                assert(dec_digits(n).drop_last() =~= dec_digits(n / 10));
            }
        }
    }
}

/// Every number has at least one digit.
pub proof fn lemma_dec_digits_nonempty(n: int)
    ensures
        dec_digits(n).len() >= 1,
    decreases n,
{
}

/// Collision-free naming: distinct suffixes give distinct file names for
/// the same prefix, so the retry-on-exists loop never reuses a name it has
/// already tried, and two sequential runs that find the same prefix produce
/// `<prefix>-0.log` and then `<prefix>-1.log` without touching the first.
pub proof fn lemma_log_names_distinct(prefix: Seq<u8>, m: int, n: int)
    requires
        0 <= m,
        0 <= n,
        m != n,
    ensures
        log_name_spec(prefix, m) != log_name_spec(prefix, n),
{
    lemma_dec_digits_injective(m, n);
    let a = log_name_spec(prefix, m);
    let b = log_name_spec(prefix, n);
    if a == b {
        let dm = dec_digits(m);
        let dn = dec_digits(n);
        assert(a.len() == prefix.len() + 1 + dm.len() + 4);
        assert(b.len() == prefix.len() + 1 + dn.len() + 4);
        assert(dm.len() == dn.len());
        assert forall|i: int| 0 <= i < dm.len() implies dm[i] == dn[i] by {
            assert(a[prefix.len() + 1 + i] == dm[i]);
            assert(b[prefix.len() + 1 + i] == dn[i]);
        }
        assert(dm =~= dn);
    }
}

/// What one exclusive log-file creation attempt reported.
pub enum CreateOutcome {
    /// The file was created exclusively.
    Created,
    /// The parent directory does not exist yet.
    MissingDir,
    /// A file of that name already exists.
    AlreadyExists,
    /// Any other failure.
    Fatal,
}

/// The next move of the open-log loop.
pub enum LogStep {
    /// Keep the file just created.
    UseThis,
    /// Create the log directory tree, then retry the same suffix.
    MakeDirThenRetry { n: u64 },
    /// The name was taken: retry with the next suffix.
    Retry { n: u64 },
    /// Give up.
    Fail,
}

/// The decision step of exclusive log-file creation: keep a created file;
/// on a missing parent directory, create it and retry the same suffix; on a
/// name collision, move to the next suffix (never overwriting); anything
/// else is fatal.
pub fn open_log_step(n: u64, outcome: CreateOutcome) -> (r: LogStep)
    requires
        n < u64::MAX,
    ensures
        r == match outcome {
            CreateOutcome::Created => LogStep::UseThis,
            CreateOutcome::MissingDir => LogStep::MakeDirThenRetry { n },
            CreateOutcome::AlreadyExists => LogStep::Retry { n: (n + 1) as u64 },
            CreateOutcome::Fatal => LogStep::Fail,
        },
{
    match outcome {
        CreateOutcome::Created => LogStep::UseThis,
        CreateOutcome::MissingDir => LogStep::MakeDirThenRetry { n },
        CreateOutcome::AlreadyExists => LogStep::Retry { n: n + 1 },
        CreateOutcome::Fatal => LogStep::Fail,
    }
}

} // verus!
