//! The file-name filter of the `pdfl watch` command (`*` wildcards) and the
//! verdict it records for a file whose analysis ran past the deadline.

use vstd::prelude::*;
use crate::escape::{char_vecs_view, split_char, split_on};
use crate::report::{count_severity, spec_fingerprint, Diagnostic, Report, Severity, SCHEMA_VERSION};
use crate::text::{nat_text, push_str, push_u64, string_of};

verus! {

/// The first position at or after `k` where `p` occurs in `s`
/// (`str::find`, from `k`).
pub open spec fn find_from(s: Seq<char>, p: Seq<char>, k: int) -> Option<int>
    decreases s.len() + 1 - k,
{
    if k < 0 || k + p.len() > s.len() {
        None
    } else if s.subrange(k, k + p.len()) == p {
        Some(k)
    } else {
        find_from(s, p, k + 1)
    }
}

/// Whether the pieces of a pattern from the `i`-th on match `rest`: the
/// first piece is a prefix, the last a suffix, and each piece in between
/// is found, in order, after the one before; empty pieces match anything.
pub open spec fn pieces_match(parts: Seq<Seq<char>>, i: int, rest: Seq<char>) -> bool
    decreases parts.len() - i,
{
    if i >= parts.len() {
        true
    } else if parts[i].len() == 0 {
        pieces_match(parts, i + 1, rest)
    } else if i == 0 {
        if parts[0].len() <= rest.len() && rest.take(parts[0].len() as int) == parts[0] {
            pieces_match(parts, 1, rest.skip(parts[0].len() as int))
        } else {
            false
        }
    } else if i == parts.len() - 1 {
        parts[i].len() <= rest.len() && rest.skip(rest.len() - parts[i].len()) == parts[i]
    } else {
        match find_from(rest, parts[i], 0) {
            Some(pos) => pieces_match(parts, i + 1, rest.skip(pos + parts[i].len())),
            None => false,
        }
    }
}

/// `*` matches any run of characters (the empty one too); a pattern without
/// `*` matches only itself.
pub open spec fn spec_wildcard_match(pattern: Seq<char>, name: Seq<char>) -> bool {
    let parts = split_char(pattern, '*');
    if parts.len() == 1 {
        pattern == name
    } else {
        pieces_match(parts, 0, name)
    }
}

/// Whether `p` occurs in `s` at `k`.
fn occurs_at(s: &Vec<char>, p: &Vec<char>, k: usize) -> (r: bool)
    requires
        k + p@.len() <= s@.len(),
        s@.len() < usize::MAX,
    ensures
        r == (s@.subrange(k as int, k + p@.len()) == p@),
{
    let mut j: usize = 0;
    while j < p.len()
        invariant
            j <= p@.len(),
            k + p@.len() <= s@.len(),
            s@.len() < usize::MAX,
            s@.subrange(k as int, k + j) == p@.take(j as int),
        decreases p@.len() - j,
    {
        if s[k + j] != p[j] {
            assert(s@.subrange(k as int, k + p@.len())[j as int] != p@[j as int]);
            return false;
        }
        assert(s@.subrange(k as int, k + j + 1) =~= s@.subrange(k as int, k + j).push(s@[k + j]));
        assert(p@.take(j + 1) =~= p@.take(j as int).push(p@[j as int]));
        j = j + 1;
    }
    assert(p@.take(p@.len() as int) =~= p@);
    true
}

/// The first occurrence of `p` in `s` at or after `from`.
pub(crate) fn find(s: &Vec<char>, p: &Vec<char>, from: usize) -> (r: Option<usize>)
    requires
        from <= s@.len(),
        s@.len() < usize::MAX,
    ensures
        r matches Some(k) ==> find_from(s@, p@, from as int) == Some(k as int) && from <= k
            && k + p@.len() <= s@.len(),
        r is None ==> find_from(s@, p@, from as int) is None,
{
    if p.len() > s.len() {
        return None;
    }
    let mut k: usize = from;
    while k <= s.len() - p.len()
        invariant
            from <= k,
            k <= s@.len() + 1,
            p@.len() <= s@.len() < usize::MAX,
            find_from(s@, p@, from as int) == find_from(s@, p@, k as int),
        decreases s@.len() + 1 - k,
    {
        if occurs_at(s, p, k) {
            return Some(k);
        }
        k = k + 1;
    }
    None
}

/// Simple `*` wildcard matching (enough for `*.pdf`, `draft_*.pdf`).
pub fn wildcard_match(pattern: &str, name: &str) -> (r: bool)
    ensures
        r == spec_wildcard_match(pattern@, name@),
{
    let pat = crate::text::chars_of(pattern);
    let nm = crate::text::chars_of(name);
    let parts = split_on(&pat, '*');
    let ghost ps = char_vecs_view(parts@);
    if parts.len() == 1 {
        return crate::text::chars_eq(&pat, &nm);
    }
    let mut start: usize = 0;
    let mut i: usize = 0;
    assert(nm@.skip(0) =~= nm@);
    while i < parts.len()
        invariant
            ps == char_vecs_view(parts@),
            ps == split_char(pattern@, '*'),
            nm@ == name@,
            nm@.len() < usize::MAX / 4,
            parts@.len() != 1,
            i <= parts@.len(),
            start <= nm@.len(),
            spec_wildcard_match(pattern@, name@) == pieces_match(ps, i as int, nm@.skip(start as int)),
            i == 0 ==> start == 0,
        decreases parts@.len() - i,
    {
        let part = &parts[i];
        let ghost rest = nm@.skip(start as int);
        assert(ps[i as int] == part@);
        if part.len() == 0 {
            i = i + 1;
        } else if i == 0 {
            if part.len() <= nm.len() && occurs_at(&nm, part, 0) {
                assert(nm@.subrange(0, part@.len() as int) =~= rest.take(part@.len() as int));
                assert(nm@.skip(part@.len() as int) =~= rest.skip(part@.len() as int));
                start = part.len();
                i = 1;
            } else {
                assert(part@.len() <= nm@.len() ==> nm@.subrange(0, part@.len() as int)
                    =~= rest.take(part@.len() as int));
                return false;
            }
        } else if i == parts.len() - 1 {
            let len = nm.len() - start;
            if part.len() <= len {
                let k = nm.len() - part.len();
                let ok = occurs_at(&nm, part, k);
                assert(nm@.subrange(k as int, k + part@.len()) =~= rest.skip(
                    rest.len() - part@.len(),
                ));
                return ok;
            }
            return false;
        } else {
            match find(&nm, part, start) {
                Some(pos) => {
                    proof {
                        lemma_find_shift(nm@, part@, start as int, 0);
                    }
                    assert(nm@.skip(pos + part@.len()) =~= rest.skip(
                        (pos - start) + part@.len(),
                    ));
                    start = pos + part.len();
                    i = i + 1;
                },
                None => {
                    proof {
                        lemma_find_shift(nm@, part@, start as int, 0);
                    }
                    return false;
                },
            }
        }
    }
    true
}

/// Searching from `start + k` in `s` finds what searching from `k` in the
/// rest of `s` after `start` finds, moved by `start`.
proof fn lemma_find_shift(s: Seq<char>, p: Seq<char>, start: int, k: int)
    requires
        0 <= start <= s.len(),
        0 <= k,
    ensures
        find_from(s, p, start + k) == (match find_from(s.skip(start), p, k) {
            Some(x) => Some(x + start),
            None => None,
        }),
    decreases s.len() + 1 - (start + k),
{
    let t = s.skip(start);
    if start + k + p.len() > s.len() {
    } else {
        assert(s.subrange(start + k, start + k + p.len()) =~= t.subrange(k, k + p.len()));
        if s.subrange(start + k, start + k + p.len()) != p {
            lemma_find_shift(s, p, start, k + 1);
        }
    }
}

/// The message of the finding for an analysis killed after `secs` seconds.
pub open spec fn timeout_message(secs: u64) -> Seq<char> {
    "analysis did not finish within "@ + nat_text(secs as nat) + "s and was killed"@
}

/// The report for a file whose analysis ran past its deadline of `secs`
/// seconds and was killed: shaped like the report of a file that cannot be
/// opened, with one error finding of the check `timeout`, so it fails the
/// batch like any other rejection.
pub fn timeout_report(script_name: String, file: String, secs: u64) -> (r: Report)
    ensures
        r.schema_version == SCHEMA_VERSION,
        r.script_name@ == script_name@,
        r.input_file@ == file@,
        r.profile is None,
        r.total_pages_analyzed == 0,
        r.diagnostics@.len() == 1,
        r.diagnostics@[0].id@ == spec_fingerprint("timeout"@, timeout_message(secs), 1),
        r.diagnostics@[0].severity == Severity::Error,
        r.diagnostics@[0].check_name@ == "timeout"@,
        r.diagnostics@[0].message@ == timeout_message(secs),
        r.diagnostics@[0].line is None,
        r.error_count == 1,
        r.warning_count == 0,
        r.info_count == 0,
        r.status@ == "FAIL"@,
        r.checks_run@.len() == 0,
        r.fixes@.len() == 0,
        r.similarity is None,
{
    let mut text: Vec<char> = Vec::new();
    push_str(&mut text, "analysis did not finish within ");
    push_u64(&mut text, secs);
    push_str(&mut text, "s and was killed");
    let message = string_of(&text);
    let id = crate::report::fingerprint("timeout", message.as_str(), 1);
    let diag = Diagnostic {
        id,
        severity: Severity::Error,
        check_name: crate::text::owned("timeout"),
        message,
        line: None,
    };
    let mut diagnostics: Vec<Diagnostic> = Vec::new();
    diagnostics.push(diag);
    proof {
        let ds = diagnostics@;
        assert(ds.drop_last() =~= Seq::<Diagnostic>::empty());
        assert(count_severity(ds.drop_last(), Severity::Error) == 0);
        assert(count_severity(ds.drop_last(), Severity::Warning) == 0);
        assert(count_severity(ds.drop_last(), Severity::Info) == 0);
        assert(ds.last().severity == Severity::Error);
        assert(count_severity(ds, Severity::Error) == 1);
        assert(count_severity(ds, Severity::Warning) == 0);
        assert(count_severity(ds, Severity::Info) == 0);
    }
    Report::new(script_name, file, None, 0, diagnostics)
}

/// What `watch` does with a file it sees on a pass.
#[derive(Debug, PartialEq, Eq, Structural)]
pub enum Gate {
    /// Not one of the files watched, or already processed as it is.
    Skip,
    /// Still being written: it settles after this many nanoseconds.
    Settling { remaining_ns: u128 },
    /// To be validated (unless the journal already judged it).
    Ready,
}

/// The nanoseconds in `ms` milliseconds.
pub open spec fn ms_ns(ms: u64) -> int {
    ms * 1_000_000
}

/// The decision on a file named `name`: it must match `pattern` and not
/// `exclude`, must have changed since it was last processed, and — unless
/// this is a single pass — must be older than the settle time.
pub open spec fn spec_file_gate(
    name: Seq<char>,
    pattern: Seq<char>,
    exclude: Option<Seq<char>>,
    unchanged: bool,
    once: bool,
    age_ns: u128,
    debounce_ms: u64,
) -> Gate {
    if !spec_wildcard_match(pattern, name) {
        Gate::Skip
    } else if exclude matches Some(e) && spec_wildcard_match(e, name) {
        Gate::Skip
    } else if unchanged {
        Gate::Skip
    } else if !once && age_ns < ms_ns(debounce_ms) {
        Gate::Settling { remaining_ns: (ms_ns(debounce_ms) - age_ns) as u128 }
    } else {
        Gate::Ready
    }
}

/// The decision on a file seen by `watch` (see `spec_file_gate`).
pub fn file_gate(
    name: &str,
    pattern: &str,
    exclude: Option<&str>,
    unchanged: bool,
    once: bool,
    age_ns: u128,
    debounce_ms: u64,
) -> (r: Gate)
    ensures
        r == spec_file_gate(
            name@,
            pattern@,
            match exclude {
                Some(e) => Some(e@),
                None => None,
            },
            unchanged,
            once,
            age_ns,
            debounce_ms,
        ),
{
    if !wildcard_match(pattern, name) {
        return Gate::Skip;
    }
    match exclude {
        Some(e) => {
            if wildcard_match(e, name) {
                return Gate::Skip;
            }
        },
        None => {},
    }
    if unchanged {
        return Gate::Skip;
    }
    let settle: u128 = debounce_ms as u128 * 1_000_000;
    if !once && age_ns < settle {
        return Gate::Settling { remaining_ns: settle - age_ns };
    }
    Gate::Ready
}

/// How long `watch` waits before the next pass, in nanoseconds: the settle
/// time (at least 200 ms) when nothing is settling, else until the first
/// file settles, within 20 ms and that idle time.
pub open spec fn spec_next_wait(debounce_ms: u64, settles_in_ns: Option<u128>) -> int {
    let idle = if debounce_ms >= 200 {
        ms_ns(debounce_ms)
    } else {
        ms_ns(200)
    };
    match settles_in_ns {
        None => idle,
        Some(s) => {
            let shorter = if s <= idle {
                s as int
            } else {
                idle
            };
            if shorter >= ms_ns(20) {
                shorter
            } else {
                ms_ns(20)
            }
        },
    }
}

/// How long `watch` waits before the next pass, in nanoseconds.
pub fn next_wait(debounce_ms: u64, settles_in_ns: Option<u128>) -> (r: u128)
    ensures
        r == spec_next_wait(debounce_ms, settles_in_ns),
{
    let idle: u128 = if debounce_ms >= 200 { debounce_ms as u128 * 1_000_000 } else { 200_000_000 };
    match settles_in_ns {
        None => idle,
        Some(s) => {
            let shorter = if s <= idle { s } else { idle };
            if shorter >= 20_000_000 { shorter } else { 20_000_000 }
        },
    }
}


// ---------------------------------------------------------------------------
// What the file-name patterns match.
// ---------------------------------------------------------------------------

proof fn lemma_split_plain(t: Seq<char>, cur: Seq<char>)
    requires
        !t.contains('*'),
    ensures
        crate::escape::split_from(t, '*', cur) == seq![cur + t],
    decreases t.len(),
{
    if t.len() == 0 {
        assert(cur + t =~= cur);
    } else {
        assert(t[0] != '*') by {
            if t[0] == '*' {
                assert(t.contains('*'));
            }
        }
        assert(!t.drop_first().contains('*')) by {
            if t.drop_first().contains('*') {
                let k = choose|k: int| 0 <= k < t.drop_first().len() && t.drop_first()[k] == '*';
                assert(t[k + 1] == '*');
            }
        }
        lemma_split_plain(t.drop_first(), cur.push(t[0]));
        assert(cur.push(t[0]) + t.drop_first() =~= cur + t);
    }
}

proof fn lemma_split_one_star(a: Seq<char>, b: Seq<char>)
    requires
        !a.contains('*'),
        !b.contains('*'),
    ensures
        crate::escape::split_char(a + seq!['*'] + b, '*') == seq![a, b],
    decreases a.len(),
{
    lemma_split_star_from(a, b, Seq::empty());
    assert(Seq::<char>::empty() + a =~= a);
}

proof fn lemma_split_star_from(a: Seq<char>, b: Seq<char>, cur: Seq<char>)
    requires
        !a.contains('*'),
        !b.contains('*'),
    ensures
        crate::escape::split_from(a + seq!['*'] + b, '*', cur) == seq![cur + a, b],
    decreases a.len(),
{
    let s = a + seq!['*'] + b;
    if a.len() == 0 {
        assert(s[0] == '*');
        assert(s.drop_first() =~= b);
        lemma_split_plain(b, Seq::empty());
        assert(Seq::<char>::empty() + b =~= b);
        assert(cur + a =~= cur);
        assert(seq![cur] + seq![b] =~= seq![cur + a, b]);
    } else {
        assert(a[0] != '*') by {
            if a[0] == '*' {
                assert(a.contains('*'));
            }
        }
        assert(!a.drop_first().contains('*')) by {
            if a.drop_first().contains('*') {
                let k = choose|k: int| 0 <= k < a.drop_first().len() && a.drop_first()[k] == '*';
                assert(a[k + 1] == '*');
            }
        }
        assert(s[0] == a[0]);
        assert(s.drop_first() =~= a.drop_first() + seq!['*'] + b);
        lemma_split_star_from(a.drop_first(), b, cur.push(a[0]));
        assert(cur.push(a[0]) + a.drop_first() =~= cur + a);
    }
}

/// What a file-name pattern matches: a pattern without `*` matches only
/// the name it spells; `*` followed by a suffix matches exactly the names
/// ending with that suffix (`*.pdf`), and a prefix followed by `*` exactly
/// the names starting with it (`draft_*`), so a lone `*` matches every name.
pub proof fn lemma_wildcard_patterns(fixed: Seq<char>, name: Seq<char>)
    requires
        !fixed.contains('*'),
    ensures
        spec_wildcard_match(fixed, name) <==> name == fixed,
        spec_wildcard_match(seq!['*'] + fixed, name) <==> (fixed.len() <= name.len() && name.skip(
            name.len() - fixed.len(),
        ) == fixed),
        spec_wildcard_match(fixed + seq!['*'], name) <==> (fixed.len() <= name.len() && name.take(
            fixed.len() as int,
        ) == fixed),
{
    lemma_split_plain(fixed, Seq::empty());
    assert(Seq::<char>::empty() + fixed =~= fixed);
    let e = Seq::<char>::empty();
    assert(!e.contains('*'));
    lemma_split_one_star(e, fixed);
    assert(e + seq!['*'] + fixed =~= seq!['*'] + fixed);
    lemma_split_one_star(fixed, e);
    assert(fixed + seq!['*'] + e =~= fixed + seq!['*']);
    let suffix_parts = seq![e, fixed];
    let prefix_parts = seq![fixed, e];
    if fixed.len() == 0 {
        assert(pieces_match(suffix_parts, 2, name));
        assert(pieces_match(suffix_parts, 1, name));
        assert(name.skip(name.len() - 0) =~= fixed);
        assert(name.take(0) =~= fixed);
    } else {
        assert(pieces_match(suffix_parts, 0, name) == pieces_match(suffix_parts, 1, name));
    }
    assert(pieces_match(prefix_parts, 2, name.skip(fixed.len() as int)));
    assert(pieces_match(prefix_parts, 1, name.skip(fixed.len() as int)));
}

} // verus!
