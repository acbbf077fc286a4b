//! The rules of the command line that are not I/O: page ranges, `--var`
//! assignments, the output formats, and the occurrence count that keeps two
//! identical findings apart.

use vstd::prelude::*;
use crate::escape::{char_vecs_view, split_char, split_on};
use crate::text::{digit_value, is_digit, trim};
use crate::ast::strings_view;

verus! {

/// The report formats.
#[derive(Debug, Clone, Copy, PartialEq, Eq, Structural)]
pub enum OutputFormat {
    Json,
    Csv,
    Html,
    Pdf,
    /// SARIF 2.1.0, for GitHub code scanning.
    Sarif,
    /// JUnit XML, for the test panel of any CI.
    Junit,
}

/// The value of a run of decimal digits.
pub open spec fn decimal_value(s: Seq<char>) -> nat
    decreases s.len(),
{
    if s.len() == 0 {
        0
    } else {
        decimal_value(s.drop_last()) * 10 + digit_value(s.last())
    }
}

/// Every character is an ASCII digit.
pub open spec fn all_digits(s: Seq<char>) -> bool {
    forall|i: int| 0 <= i < s.len() ==> is_digit(#[trigger] s[i])
}

/// `i64::from_str`: an optional sign, then one or more digits and nothing
/// else, whose value fits.
pub open spec fn parse_i64(s: Seq<char>) -> Option<int> {
    let neg = s.len() > 0 && s[0] == '-';
    let body = if s.len() > 0 && (s[0] == '-' || s[0] == '+') {
        s.drop_first()
    } else {
        s
    };
    if body.len() == 0 || !all_digits(body) {
        None
    } else {
        let v: int = if neg {
            -decimal_value(body)
        } else {
            decimal_value(body) as int
        };
        if i64::MIN <= v <= i64::MAX {
            Some(v)
        } else {
            None
        }
    }
}

/// One more than the largest magnitude an `i64` has.
spec fn cap() -> nat {
    0x8000_0000_0000_0001
}

#[verifier::spinoff_prover]
pub(crate) fn parse_int(s: &Vec<char>) -> (r: Option<i64>)
    ensures
        r matches Some(v) ==> parse_i64(s@) == Some(v as int),
        r is None ==> parse_i64(s@) is None,
{
    let n = s.len();
    let neg = n > 0 && s[0] == '-';
    let start: usize = if n > 0 && (s[0] == '-' || s[0] == '+') { 1 } else { 0 };
    let ghost body = if n > 0 && (s@[0] == '-' || s@[0] == '+') {
        s@.drop_first()
    } else {
        s@
    };
    assert(body =~= s@.subrange(start as int, n as int));
    if start == n {
        return None;
    }
    let mut acc: u128 = 0;
    let mut i: usize = start;
    while i < n
        invariant
            start <= i <= n == s@.len(),
            start < n,
            body == (if s@.len() > 0 && (s@[0] == '-' || s@[0] == '+') {
                s@.drop_first()
            } else {
                s@
            }),
            neg == (s@.len() > 0 && s@[0] == '-'),
            body == s@.subrange(start as int, n as int),
            all_digits(s@.subrange(start as int, i as int)),
            acc as nat == (if decimal_value(s@.subrange(start as int, i as int)) < cap() {
                decimal_value(s@.subrange(start as int, i as int))
            } else {
                cap()
            }),
        decreases n - i,
    {
        let c = s[i];
        if c < '0' || c > '9' {
            assert(body[i - start] == c);
            assert(!is_digit(body[i - start]));
            return None;
        }
        let d: u128 = ((c as u32) - ('0' as u32)) as u128;
        let ghost prefix = s@.subrange(start as int, i as int);
        assert(s@.subrange(start as int, i + 1).drop_last() =~= prefix);
        assert(s@.subrange(start as int, i + 1).last() == c);
        let next = acc * 10 + d;
        acc = if next < 0x8000_0000_0000_0001u128 { next } else { 0x8000_0000_0000_0001u128 };
        i = i + 1;
    }
    assert(s@.subrange(start as int, n as int) == body);
    if neg {
        if acc <= 0x8000_0000_0000_0000u128 {
            if acc == 0x8000_0000_0000_0000u128 {
                Some(i64::MIN)
            } else {
                let v = acc as i64;
                Some(-v)
            }
        } else {
            None
        }
    } else {
        if acc <= 0x7fff_ffff_ffff_ffffu128 {
            Some(acc as i64)
        } else {
            None
        }
    }
}

/// The first position of `c` in `s`.
pub open spec fn first_index(s: Seq<char>, c: char) -> Option<int>
    decreases s.len(),
{
    if s.len() == 0 {
        None
    } else {
        match first_index(s.drop_last(), c) {
            Some(i) => Some(i),
            None => if s.last() == c {
                Some(s.len() - 1)
            } else {
                None
            },
        }
    }
}

fn find_char(s: &Vec<char>, c: char) -> (r: Option<usize>)
    ensures
        r is Some ==> first_index(s@, c) == Some(r->0 as int),
        r is Some ==> r->0 < s@.len() && s@[r->0 as int] == c,
        r is None ==> first_index(s@, c) is None,
{
    let mut i: usize = 0;
    while i < s.len()
        invariant
            i <= s@.len(),
            first_index(s@.take(i as int), c) is None,
        decreases s@.len() - i,
    {
        assert(s@.take(i + 1).drop_last() =~= s@.take(i as int));
        if s[i] == c {
            proof {
                lemma_first_index_extend(s@, c, i + 1);
            }
            return Some(i);
        }
        i = i + 1;
    }
    assert(s@.take(s@.len() as int) =~= s@);
    None
}

/// A position found in a prefix is the first position in the whole.
proof fn lemma_first_index_extend(s: Seq<char>, c: char, k: int)
    requires
        0 <= k <= s.len(),
        first_index(s.take(k), c) is Some,
    ensures
        first_index(s, c) == first_index(s.take(k), c),
    decreases s.len() - k,
{
    if k < s.len() {
        assert(s.take(k + 1).drop_last() =~= s.take(k));
        lemma_first_index_extend(s, c, k + 1);
    } else {
        assert(s.take(k) =~= s);
    }
}

/// The pieces between commas, trimmed, the empty ones dropped.
pub open spec fn page_parts(ps: Seq<Seq<char>>) -> Seq<Seq<char>>
    decreases ps.len(),
{
    if ps.len() == 0 {
        Seq::empty()
    } else {
        let rest = page_parts(ps.drop_last());
        let t = trim(ps.last());
        if t.len() > 0 {
            rest.push(t)
        } else {
            rest
        }
    }
}

/// The pages one part names: `n` (at least 1), or `a-b` with `1 <= a <= b`
/// (each side trimmed); `None` when the part is malformed.
pub open spec fn part_pages(part: Seq<char>) -> Option<Set<int>> {
    match first_index(part, '-') {
        Some(p) => match (
            parse_i64(trim(part.take(p))),
            parse_i64(trim(part.skip(p + 1))),
        ) {
            (Some(a), Some(b)) => if a < 1 || b < a {
                None
            } else {
                Some(Set::new(|x: int| a <= x <= b))
            },
            _ => None,
        },
        None => match parse_i64(part) {
            Some(n) => if n >= 1 {
                Some(set![n])
            } else {
                None
            },
            None => None,
        },
    }
}

/// The pages of all the parts, or the first part that is malformed.
pub open spec fn range_pages(parts: Seq<Seq<char>>) -> Result<Set<int>, Seq<char>>
    decreases parts.len(),
{
    if parts.len() == 0 {
        Ok(Set::empty())
    } else {
        match range_pages(parts.drop_last()) {
            Err(e) => Err(e),
            Ok(before) => match part_pages(parts.last()) {
                Some(here) => Ok(before.union(here)),
                None => Err(parts.last()),
            },
        }
    }
}

/// The pages of a range text: `1-10` or `1,3,7-12`.
pub open spec fn spec_page_range(text: Seq<char>) -> Result<Set<int>, Seq<char>> {
    range_pages(page_parts(split_char(text, ',')))
}

/// Strictly increasing.
pub open spec fn strictly_increasing(v: Seq<i64>) -> bool {
    forall|i: int, j: int| 0 <= i < j < v.len() ==> v[i] < v[j]
}

fn insert_sorted(v: &mut Vec<i64>, x: i64)
    requires
        strictly_increasing(old(v)@),
    ensures
        strictly_increasing(final(v)@),
        forall|y: i64| final(v)@.contains(y) <==> (old(v)@.contains(y) || y == x),
{
    let n = v.len();
    if n == 0 || v[n - 1] < x {
        let ghost old_v = v@;
        assert(old_v == old(v)@);
        v.push(x);
        proof {
            assert(v@ == old_v.push(x));
            assert forall|i: int, j: int| 0 <= i < j < v@.len() implies v@[i] < v@[j] by {
                if j == n {
                    if i < n - 1 {
                        assert(old_v[i] < old_v[n - 1]);
                    }
                } else {
                    assert(old_v[i] < old_v[j]);
                }
            }
            assert forall|y: i64| v@.contains(y) <==> (old_v.contains(y) || y == x) by {
                if v@.contains(y) {
                    let k = choose|k: int| 0 <= k < v@.len() && v@[k] == y;
                    if k < n {
                        assert(old_v[k] == y);
                    }
                }
                if old_v.contains(y) {
                    let k = choose|k: int| 0 <= k < old_v.len() && old_v[k] == y;
                    assert(v@[k] == y);
                }
                if y == x {
                    assert(v@[n as int] == y);
                }
            }
            assert(forall|y: i64| v@.contains(y) <==> (old(v)@.contains(y) || y == x));
        }
    } else {
        insert_sorted_slow(v, x);
    }
}

#[verifier::spinoff_prover]
fn insert_sorted_slow(v: &mut Vec<i64>, x: i64)
    requires
        strictly_increasing(old(v)@),
        old(v)@.len() > 0,
        old(v)@[old(v)@.len() - 1] >= x,
    ensures
        strictly_increasing(final(v)@),
        forall|y: i64| final(v)@.contains(y) <==> (old(v)@.contains(y) || y == x),
{
    let n = v.len();
    let mut lo: usize = 0;
    let mut hi: usize = n - 1;
    while lo < hi
        invariant
            v@ == old(v)@,
            lo <= hi < n == v@.len(),
            strictly_increasing(v@),
            v@[hi as int] >= x,
            forall|k: int| 0 <= k < lo ==> v@[k] < x,
        decreases hi - lo,
    {
        let mid = lo + (hi - lo) / 2;
        if v[mid] < x {
            lo = mid + 1;
        } else {
            hi = mid;
        }
    }
    if v[lo] == x {
        assert forall|y: i64| v@.contains(y) <==> (v@.contains(y) || y == x) by {
            if y == x {
                assert(v@[lo as int] == y);
            }
        }
        return;
    }
    let ghost old_v = v@;
    v.insert(lo, x);
    proof {
        old_v.insert_ensures(lo as int, x);
        assert forall|i: int, j: int| 0 <= i < j < v@.len() implies v@[i] < v@[j] by {
            if j < lo {
            } else if j == lo {
                assert(old_v[i] < x);
            } else if i < lo {
                assert(old_v[i] < x);
                assert(old_v[j - 1] >= old_v[lo as int]);
            } else if i == lo {
                assert(old_v[j - 1] >= old_v[lo as int]);
            } else {
                assert(old_v[i - 1] < old_v[j - 1]);
            }
        }
        assert forall|y: i64| v@.contains(y) <==> (old_v.contains(y) || y == x) by {
            if v@.contains(y) {
                let k = choose|k: int| 0 <= k < v@.len() && v@[k] == y;
                if k < lo {
                    assert(old_v[k] == y);
                } else if k > lo {
                    assert(old_v[k - 1] == y);
                }
            }
            if old_v.contains(y) {
                let k = choose|k: int| 0 <= k < old_v.len() && old_v[k] == y;
                if k < lo {
                    assert(v@[k] == y);
                } else {
                    assert(v@[k + 1] == y);
                }
            }
            if y == x {
                assert(v@[lo as int] == y);
            }
        }
    }
}

fn insert_range(v: &mut Vec<i64>, a: i64, b: i64)
    requires
        strictly_increasing(old(v)@),
        a <= b,
    ensures
        strictly_increasing(final(v)@),
        forall|y: i64| final(v)@.contains(y) <==> (old(v)@.contains(y) || (a <= y <= b)),
{
    let mut x = a;
    loop
        invariant
            a <= x <= b,
            strictly_increasing(v@),
            forall|y: i64| v@.contains(y) <==> (old(v)@.contains(y) || (a <= y < x)),
        decreases b - x,
    {
        insert_sorted(v, x);
        if x == b {
            return;
        }
        x = x + 1;
    }
}

/// The pages of one part, added to `pages`; `false` when it is malformed.
fn add_part(pages: &mut Vec<i64>, part: &Vec<char>) -> (ok: bool)
    requires
        strictly_increasing(old(pages)@),
    ensures
        strictly_increasing(final(pages)@),
        ok == part_pages(part@) is Some,
        ok ==> forall|y: i64| final(pages)@.contains(y) <==> (old(pages)@.contains(y) || part_pages(part@)->0.contains(y as int)),
{
    match find_char(part, '-') {
        Some(p) => {
            let len = part.len();
            assert(p < len);
            let from = crate::text::trim_range(part, 0, p);
            let to = crate::text::trim_range(part, p + 1, part.len());
            assert(part@.subrange(0, p as int) =~= part@.take(p as int));
            assert(part@.subrange(p + 1, part@.len() as int) =~= part@.skip(p + 1));
            match (parse_int(&from), parse_int(&to)) {
                (Some(a), Some(b)) => {
                    if a < 1 || b < a {
                        return false;
                    }
                    insert_range(pages, a, b);
                    true
                },
                _ => false,
            }
        },
        None => match parse_int(part) {
            Some(n) => {
                if n >= 1 {
                    insert_sorted(pages, n);
                    true
                } else {
                    false
                }
            },
            None => false,
        },
    }
}

/// `1-10` or `1,3,7-12` into a sorted list of page numbers, each once; on
/// bad input, the offending fragment (trimmed) instead of a guess.
#[verifier::spinoff_prover]
pub fn parse_page_range(spec: &str) -> (r: Result<Vec<i64>, String>)
    ensures
        match r {
            Ok(v) => spec_page_range(spec@) is Ok && strictly_increasing(v@) && forall|y: i64|
                v@.contains(y) <==> spec_page_range(spec@)->Ok_0.contains(y as int),
            Err(e) => spec_page_range(spec@) == Err::<Set<int>, Seq<char>>(e@),
        },
{
    let chars = crate::text::chars_of(spec);
    let pieces = split_on(&chars, ',');
    let ghost ps = char_vecs_view(pieces@);
    let mut pages: Vec<i64> = Vec::new();
    let mut i: usize = 0;
    while i < pieces.len()
        invariant
            i <= pieces@.len(),
            ps == char_vecs_view(pieces@),
            ps == split_char(spec@, ','),
            strictly_increasing(pages@),
            range_pages(page_parts(ps.take(i as int))) is Ok,
            forall|y: i64| pages@.contains(y) <==> range_pages(page_parts(ps.take(i as int)))->Ok_0.contains(y as int),
        decreases pieces@.len() - i,
    {
        assert(ps.take(i + 1).drop_last() =~= ps.take(i as int));
        assert(ps.take(i + 1).last() == pieces@[i as int]@);
        let piece = &pieces[i];
        let part = crate::text::trim_range(piece, 0, piece.len());
        assert(piece@.subrange(0, piece@.len() as int) =~= piece@);
        if part.len() > 0 {
            let ghost before = page_parts(ps.take(i as int));
            assert(page_parts(ps.take(i + 1)) == before.push(part@));
            assert(before.push(part@).drop_last() =~= before);
            let ok = add_part(&mut pages, &part);
            if !ok {
                proof {
                    lemma_range_pages_prefix_fails(ps, (i + 1) as int, part@);
                }
                return Err(crate::text::string_of(&part));
            }
        }
        i = i + 1;
    }
    assert(ps.take(pieces@.len() as int) =~= ps);
    Ok(pages)
}

/// Once a part fails, every longer list of parts fails with it.
proof fn lemma_range_pages_prefix_fails(ps: Seq<Seq<char>>, k: int, part: Seq<char>)
    requires
        0 <= k <= ps.len(),
        range_pages(page_parts(ps.take(k))) == Err::<Set<int>, Seq<char>>(part),
    ensures
        range_pages(page_parts(ps)) == Err::<Set<int>, Seq<char>>(part),
    decreases ps.len() - k,
{
    if k < ps.len() {
        assert(ps.take(k + 1).drop_last() =~= ps.take(k));
        assert(ps.take(k + 1).last() == ps[k]);
        let pp = page_parts(ps.take(k));
        assert(pp.push(trim(ps[k])).drop_last() =~= pp);
        lemma_range_pages_prefix_fails(ps, k + 1, part);
    } else {
        assert(ps.take(k) =~= ps);
    }
}

/// One `--var` assignment: split on the first `=`, the name not empty.
pub open spec fn var_pair(s: Seq<char>) -> Option<(Seq<char>, Seq<char>)> {
    match first_index(s, '=') {
        Some(p) => if p > 0 {
            Some((s.take(p), s.skip(p + 1)))
        } else {
            None
        },
        None => None,
    }
}

/// The assignments in order, or the first that is malformed.
pub open spec fn spec_parse_vars(raw: Seq<Seq<char>>) -> Result<Seq<(Seq<char>, Seq<char>)>, Seq<char>>
    decreases raw.len(),
{
    if raw.len() == 0 {
        Ok(Seq::empty())
    } else {
        match spec_parse_vars(raw.drop_last()) {
            Err(e) => Err(e),
            Ok(before) => match var_pair(raw.last()) {
                Some(p) => Ok(before.push(p)),
                None => Err(raw.last()),
            },
        }
    }
}

/// The views of name–value pairs.
pub open spec fn pairs_view(v: Seq<(String, String)>) -> Seq<(Seq<char>, Seq<char>)> {
    v.map_values(|p: (String, String)| (p.0@, p.1@))
}

/// `--var NAME=VALUE`, split on the first `=` so a value may contain more.
/// The assignments keep their order (a later one for the same name wins);
/// an assignment without `=` or without a name is the error.
pub fn parse_vars(raw: &Vec<String>) -> (r: Result<Vec<(String, String)>, String>)
    ensures
        match r {
            Ok(v) => spec_parse_vars(strings_view(raw@)) == Ok::<
                Seq<(Seq<char>, Seq<char>)>,
                Seq<char>,
            >(pairs_view(v@)),
            Err(e) => spec_parse_vars(strings_view(raw@)) == Err::<
                Seq<(Seq<char>, Seq<char>)>,
                Seq<char>,
            >(e@),
        },
{
    let ghost rv = strings_view(raw@);
    let mut out: Vec<(String, String)> = Vec::new();
    let mut i: usize = 0;
    assert(rv.take(0) =~= Seq::<Seq<char>>::empty());
    assert(pairs_view(out@) =~= Seq::<(Seq<char>, Seq<char>)>::empty());
    while i < raw.len()
        invariant
            i <= raw@.len(),
            rv == strings_view(raw@),
            spec_parse_vars(rv.take(i as int)) == Ok::<Seq<(Seq<char>, Seq<char>)>, Seq<char>>(
                pairs_view(out@),
            ),
        decreases raw@.len() - i,
    {
        assert(rv.take(i + 1).drop_last() =~= rv.take(i as int));
        assert(rv.take(i + 1).last() == raw@[i as int]@);
        let s = crate::text::chars_of(raw[i].as_str());
        match find_char(&s, '=') {
            Some(p) => {
                if p == 0 {
                    proof {
                        lemma_parse_vars_prefix_fails(rv, (i + 1) as int, s@);
                    }
                    return Err(crate::text::string_of(&s));
                }
                let k = crate::text::slice_chars(&s, 0, p);
                let v = crate::text::slice_chars(&s, p + 1, s.len());
                assert(k@ =~= s@.take(p as int));
                assert(v@ =~= s@.skip(p + 1));
                let ghost before = pairs_view(out@);
                let pair = (crate::text::string_of(&k), crate::text::string_of(&v));
                out.push(pair);
                assert(pairs_view(out@) =~= before.push((k@, v@)));
            },
            None => {
                proof {
                    lemma_parse_vars_prefix_fails(rv, (i + 1) as int, s@);
                }
                return Err(crate::text::string_of(&s));
            },
        }
        i = i + 1;
    }
    assert(rv.take(raw@.len() as int) =~= rv);
    Ok(out)
}

/// Once an assignment fails, every longer list fails with it.
proof fn lemma_parse_vars_prefix_fails(raw: Seq<Seq<char>>, k: int, bad: Seq<char>)
    requires
        0 <= k <= raw.len(),
        spec_parse_vars(raw.take(k)) == Err::<Seq<(Seq<char>, Seq<char>)>, Seq<char>>(bad),
    ensures
        spec_parse_vars(raw) == Err::<Seq<(Seq<char>, Seq<char>)>, Seq<char>>(bad),
    decreases raw.len() - k,
{
    if k < raw.len() {
        assert(raw.take(k + 1).drop_last() =~= raw.take(k));
        lemma_parse_vars_prefix_fails(raw, k + 1, bad);
    } else {
        assert(raw.take(k) =~= raw);
    }
}

/// How many times each message has been produced so far.
pub struct Occurrences {
    seen: Vec<(String, u32)>,
}

impl Occurrences {
    /// Each message at most once in the list.
    pub closed spec fn wf(&self) -> bool {
        forall|i: int, j: int|
            0 <= i < j < self.seen@.len() ==> self.seen@[i].0@ != self.seen@[j].0@
    }

    /// The count of each message produced so far (absent: never).
    pub closed spec fn counts(&self) -> Map<Seq<char>, nat> {
        Map::new(
            |m: Seq<char>| exists|i: int| 0 <= i < self.seen@.len() && self.seen@[i].0@ == m,
            |m: Seq<char>|
                self.seen@[choose|i: int| 0 <= i < self.seen@.len() && self.seen@[i].0@ == m].1 as nat,
        )
    }

    /// No message produced yet.
    pub fn new() -> (o: Occurrences)
        ensures
            o.wf(),
            o.counts() == Map::<Seq<char>, nat>::empty(),
    {
        let o = Occurrences { seen: Vec::new() };
        assert(o.counts() =~= Map::<Seq<char>, nat>::empty());
        o
    }

    /// How many times `message` has been produced so far.
    pub fn count(&self, message: &str) -> (n: u32)
        requires
            self.wf(),
        ensures
            self.counts().dom().contains(message@) ==> n == self.counts()[message@],
            !self.counts().dom().contains(message@) ==> n == 0,
    {
        let mut i: usize = 0;
        while i < self.seen.len()
            invariant
                i <= self.seen@.len(),
                self.wf(),
                forall|k: int| 0 <= k < i ==> self.seen@[k].0@ != message@,
            decreases self.seen@.len() - i,
        {
            if crate::text::chars_eq_str(&crate::text::chars_of(self.seen[i].0.as_str()), message) {
                proof {
                    assert(self.seen@[i as int].0@ == message@);
                    assert(self.counts().dom().contains(message@));
                    let c = choose|k: int| 0 <= k < self.seen@.len() && self.seen@[k].0@ == message@;
                    assert(c == i);
                }
                return self.seen[i].1;
            }
            i = i + 1;
        }
        0
    }

    /// How many times this exact message has now been produced, this time
    /// included: the occurrence that keeps two identical findings from
    /// sharing an identifier.
    #[verifier::spinoff_prover]
    pub fn bump(&mut self, message: &str) -> (n: u32)
        requires
            old(self).wf(),
            !old(self).counts().dom().contains(message@) || old(self).counts()[message@] < u32::MAX,
        ensures
            final(self).wf(),
            n == (if old(self).counts().dom().contains(message@) {
                old(self).counts()[message@] + 1
            } else {
                1
            }),
            final(self).counts() == old(self).counts().insert(message@, n as nat),
    {
        let ghost old_seen = self.seen@;
        let mut i: usize = 0;
        while i < self.seen.len()
            invariant
                i <= self.seen@.len(),
                self.seen@ == old_seen,
                old_seen == old(self).seen@,
                !old(self).counts().dom().contains(message@) || old(self).counts()[message@]
                    < u32::MAX,
                self.wf(),
                forall|k: int| 0 <= k < i ==> self.seen@[k].0@ != message@,
            decreases self.seen@.len() - i,
        {
            if crate::text::chars_eq_str(&crate::text::chars_of(self.seen[i].0.as_str()), message) {
                proof {
                    assert(self.seen@[i as int].0@ == message@);
                    assert(self.counts() =~= old(self).counts());
                    assert(self.counts().dom().contains(message@));
                    let c = choose|k: int| 0 <= k < self.seen@.len() && self.seen@[k].0@ == message@;
                    assert(c == i);
                    assert(self.counts()[message@] == self.seen@[i as int].1);
                }
                let n = self.seen[i].1 + 1;
                let name = crate::text::owned(message);
                let ghost before = self.seen@;
                self.seen.set(i, (name, n));
                proof {
                    assert(self.wf()) by {
                        assert forall|a: int, b: int| 0 <= a < b < self.seen@.len() implies self.seen@[a].0@ != self.seen@[b].0@ by {
                            assert(before[a].0@ != before[b].0@);
                        }
                    }
                    assert(before == old_seen);
                    assert(self.seen@[i as int].0@ == message@);
                    assert forall|m: Seq<char>| #[trigger] self.counts().dom().contains(m) <==> old(self).counts().insert(message@, n as nat).dom().contains(m) by {
                        if old(self).counts().dom().contains(m) {
                            let k = choose|k: int| 0 <= k < old_seen.len() && old_seen[k].0@ == m;
                            if k == i {
                                assert(self.seen@[k].0@ == m);
                            } else {
                                assert(self.seen@[k] == old_seen[k]);
                                assert(self.seen@[k].0@ == m);
                            }
                        }
                        if self.counts().dom().contains(m) {
                            let k = choose|k: int| 0 <= k < self.seen@.len() && self.seen@[k].0@ == m;
                            if k != i {
                                assert(old_seen[k].0@ == m);
                            }
                        }
                    }
                    assert forall|m: Seq<char>| #[trigger] self.counts().dom().contains(m) implies self.counts()[m] == old(self).counts().insert(message@, n as nat)[m] by {
                        let k = choose|k: int| 0 <= k < self.seen@.len() && self.seen@[k].0@ == m;
                        if m != message@ {
                            let k2 = choose|k: int| 0 <= k < old_seen.len() && old_seen[k].0@ == m;
                            assert(k == k2);
                        }
                    }
                    assert(self.counts() =~= old(self).counts().insert(message@, n as nat));
                }
                return n;
            }
            i = i + 1;
        }
        let name = crate::text::owned(message);
        self.seen.push((name, 1));
        proof {
            assert(self.seen@ == old_seen.push(self.seen@[old_seen.len() as int]));
            assert(!old(self).counts().dom().contains(message@));
            assert(self.wf()) by {
                assert forall|a: int, b: int| 0 <= a < b < self.seen@.len() implies self.seen@[a].0@ != self.seen@[b].0@ by {
                    if b < old_seen.len() {
                        assert(old_seen[a].0@ != old_seen[b].0@);
                    }
                }
            }
            assert forall|m: Seq<char>| #[trigger] self.counts().dom().contains(m) <==> old(self).counts().insert(message@, 1nat).dom().contains(m) by {
                if old(self).counts().dom().contains(m) {
                    let k = choose|k: int| 0 <= k < old_seen.len() && old_seen[k].0@ == m;
                    assert(self.seen@[k].0@ == m);
                }
                if m == message@ {
                    assert(self.seen@[old_seen.len() as int].0@ == m);
                }
            }
            assert forall|m: Seq<char>| #[trigger] self.counts().dom().contains(m) implies self.counts()[m] == old(self).counts().insert(message@, 1nat)[m] by {
                let k = choose|k: int| 0 <= k < self.seen@.len() && self.seen@[k].0@ == m;
                if m != message@ {
                    let k2 = choose|k: int| 0 <= k < old_seen.len() && old_seen[k].0@ == m;
                    assert(self.seen@[k2].0@ == m);
                    assert(k == k2);
                } else {
                    assert(self.seen@[old_seen.len() as int].0@ == m);
                    assert(k == old_seen.len());
                }
            }
            assert(self.counts() =~= old(self).counts().insert(message@, 1nat));
        }
        1
    }
}

/// The final component of a path (`Path::file_name`), or nothing when the
/// path has none (it ends in `..`, or is a root).
pub uninterp spec fn path_file_name(p: Seq<char>) -> Seq<char>;

/// Calls `Path::file_name` on `p`: the last component of the path, or the
/// empty string when there is none.
#[verifier::external_body]
fn last_component(p: &str) -> (r: String)
    ensures
        r@ == path_file_name(p@),
{
    std::path::Path::new(p).file_name().map(|n| n.to_string_lossy().into_owned()).unwrap_or_default()
}

/// The name a report gives a script or a document: the last component of
/// its path.
pub fn file_name(p: &str) -> (r: String)
    ensures
        r@ == path_file_name(p@),
{
    last_component(p)
}


// ---------------------------------------------------------------------------
// What a page range names.
// ---------------------------------------------------------------------------

/// Every page a valid range names is a page number, 1 or more.
pub proof fn lemma_page_range_pages_are_positive(text: Seq<char>)
    ensures
        spec_page_range(text) matches Ok(pages) ==> forall|x: int| pages.contains(x) ==> x >= 1,
{
    lemma_range_pages_positive(page_parts(split_char(text, ',')));
}

proof fn lemma_range_pages_positive(parts: Seq<Seq<char>>)
    ensures
        range_pages(parts) matches Ok(pages) ==> forall|x: int| pages.contains(x) ==> x >= 1,
    decreases parts.len(),
{
    if parts.len() > 0 {
        lemma_range_pages_positive(parts.drop_last());
    }
}

proof fn lemma_digits_trimmed(t: Seq<char>)
    requires
        all_digits(t),
    ensures
        trim(t) == t,
{
    if t.len() > 0 {
        assert(is_digit(t[0]) && is_digit(t.last()));
        assert(crate::text::trim_start(t) == t);
        assert(crate::text::trim_end(t) == t);
    } else {
        assert(crate::text::trim_start(t) == t);
        assert(crate::text::trim_end(t) == t);
    }
}

proof fn lemma_split_without(t: Seq<char>, c: char, cur: Seq<char>)
    requires
        forall|i: int| 0 <= i < t.len() ==> t[i] != c,
    ensures
        crate::escape::split_from(t, c, cur) == seq![cur + t],
    decreases t.len(),
{
    if t.len() == 0 {
        assert(cur + t =~= cur);
    } else {
        assert(t[0] != c);
        lemma_split_without(t.drop_first(), c, cur.push(t[0]));
        assert(cur.push(t[0]) + t.drop_first() =~= cur + t);
    }
}

proof fn lemma_first_dash(a: Seq<char>, b: Seq<char>, k: int)
    requires
        all_digits(a),
        0 <= k <= a.len(),
    ensures
        first_index((a + seq!['-'] + b).take(k), '-') is None,
    decreases k,
{
    let t = a + seq!['-'] + b;
    if k > 0 {
        lemma_first_dash(a, b, k - 1);
        assert(t.take(k).drop_last() =~= t.take(k - 1));
        assert(t.take(k).last() == a[k - 1]);
        assert(is_digit(a[k - 1]));
    }
}

proof fn lemma_digits_parse(a: Seq<char>)
    requires
        all_digits(a),
        a.len() > 0,
        decimal_value(a) <= i64::MAX,
    ensures
        parse_i64(a) == Some(decimal_value(a) as int),
{
    assert(is_digit(a[0]));
}

/// A range `a-b` of two page numbers names exactly the pages from `a` to
/// `b` when `1 <= a <= b`, and is refused, naming itself, otherwise.
pub proof fn lemma_page_range_span(a: Seq<char>, b: Seq<char>)
    requires
        all_digits(a),
        all_digits(b),
        a.len() > 0,
        b.len() > 0,
        decimal_value(a) <= i64::MAX,
        decimal_value(b) <= i64::MAX,
    ensures
        ({
            let text = a + seq!['-'] + b;
            let x = decimal_value(a) as int;
            let y = decimal_value(b) as int;
            &&& 1 <= x <= y ==> spec_page_range(text) == Ok::<Set<int>, Seq<char>>(Set::new(|n: int| x <= n <= y))
            &&& !(1 <= x <= y) ==> spec_page_range(text) == Err::<Set<int>, Seq<char>>(text)
        }),
{
    let text = a + seq!['-'] + b;
    let x = decimal_value(a) as int;
    let y = decimal_value(b) as int;
    assert forall|i: int| 0 <= i < text.len() implies text[i] != ',' by {
        if i < a.len() {
            assert(is_digit(a[i]));
        } else if i > a.len() {
            assert(text[i] == b[i - a.len() - 1]);
            assert(is_digit(b[i - a.len() - 1]));
        }
    }
    lemma_split_without(text, ',', Seq::empty());
    assert(Seq::<char>::empty() + text =~= text);
    let ps = seq![text];
    assert(ps.drop_last() =~= Seq::<Seq<char>>::empty());
    // The text has no white space at either end.
    assert(!crate::text::is_ws(text[0])) by {
        assert(is_digit(a[0]));
    }
    assert(!crate::text::is_ws(text.last())) by {
        assert(text.last() == b.last());
        assert(is_digit(b[b.len() - 1]));
    }
    assert(crate::text::trim_start(text) == text);
    assert(crate::text::trim_end(text) == text);
    assert(trim(text) == text);
    assert(page_parts(ps.drop_last()) == Seq::<Seq<char>>::empty());
    assert(Seq::<Seq<char>>::empty().push(text) =~= seq![text]);
    assert(page_parts(ps) == seq![text]);
    // The dash splits it into the two numbers.
    lemma_first_dash(a, b, a.len() as int);
    assert(text.take(a.len() as int + 1).drop_last() =~= text.take(a.len() as int));
    assert(text.take(a.len() as int + 1).last() == '-');
    assert(first_index(text.take(a.len() as int + 1), '-') == Some(a.len() as int));
    lemma_first_index_extend(text, '-', a.len() as int + 1);
    assert(text.take(a.len() as int) =~= a);
    assert(text.skip(a.len() as int + 1) =~= b);
    lemma_digits_trimmed(a);
    lemma_digits_trimmed(b);
    lemma_digits_parse(a);
    lemma_digits_parse(b);
    let parts = seq![text];
    assert(parts.drop_last() =~= Seq::<Seq<char>>::empty());
    assert(split_char(text, ',') == ps);
    assert(parse_i64(trim(text.take(a.len() as int))) == Some(x));
    assert(parse_i64(trim(text.skip(a.len() as int + 1))) == Some(y));
    assert(range_pages(Seq::<Seq<char>>::empty()) == Ok::<Set<int>, Seq<char>>(Set::empty()));
    if 1 <= x <= y {
        assert(part_pages(text) == Some(Set::new(|n: int| x <= n <= y)));
        assert(Set::<int>::empty().union(Set::new(|n: int| x <= n <= y)) =~= Set::new(|n: int| x <= n <= y));
    } else {
        assert(part_pages(text) is None);
    }
    assert(parts.last() == text);
}

} // verus!
