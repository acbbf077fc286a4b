//! The rules of the `struct::` functions: PDF dates made readable, lists
//! kept free of repeats, and the analysis of a PDF's object table — which
//! objects the trailer reaches, which are left over, and what the
//! dictionaries declare.

use vstd::prelude::*;
use crate::ast::strings_view;
use crate::escape::char_vecs_view;
use crate::lint::{sort_lines, sorted_lines};
use crate::text::{chars_eq_str, chars_of, nat_text, push_str, push_u64, string_of};
use crate::watch::find_from;

verus! {

/// `s` without a leading `D:`.
pub open spec fn strip_date_prefix(s: Seq<char>) -> Seq<char> {
    if s.len() >= 2 && s[0] == 'D' && s[1] == ':' {
        s.skip(2)
    } else {
        s
    }
}

/// The bytes `from..to` of `b` are ASCII digits.
pub open spec fn digit_bytes(b: Seq<u8>, from: int, to: int) -> bool {
    forall|i: int| from <= i < to ==> 48 <= #[trigger] b[i] && b[i] <= 57
}

/// The bytes `from..to` of `b` as characters.
pub open spec fn byte_chars(b: Seq<u8>, from: int, to: int) -> Seq<char> {
    Seq::new((to - from) as nat, |k: int| b[from + k] as char)
}

/// Two digits at byte `i` when both are there and are digits, else `00`.
pub open spec fn date_part(b: Seq<u8>, i: int) -> Seq<char> {
    if i + 2 <= b.len() && digit_bytes(b, i, i + 2) {
        byte_chars(b, i, i + 2)
    } else {
        "00"@
    }
}

/// The bytes of the date after its `D:`.
pub open spec fn date_bytes(raw: Seq<char>) -> Seq<u8> {
    vstd::utf8::encode_utf8(strip_date_prefix(raw))
}

/// `D:YYYYMMDDhhmmss…` as `YYYY-MM-DD hh:mm:ss`, a missing or malformed
/// time read as `00`; anything that does not start with eight digits is
/// returned as it is.
pub open spec fn spec_format_pdf_date(raw: Seq<char>) -> Seq<char> {
    let b = date_bytes(raw);
    if b.len() < 8 || !digit_bytes(b, 0, 8) {
        raw
    } else {
        byte_chars(b, 0, 4) + seq!['-'] + byte_chars(b, 4, 6) + seq!['-'] + byte_chars(b, 6, 8)
            + seq![' '] + date_part(b, 8) + seq![':'] + date_part(b, 10) + seq![':'] + date_part(
            b,
            12,
        )
    }
}

fn all_digit_bytes(b: &Vec<u8>, from: usize, to: usize) -> (r: bool)
    requires
        from <= to <= b@.len(),
    ensures
        r == digit_bytes(b@, from as int, to as int),
{
    let mut i = from;
    while i < to
        invariant
            from <= i <= to <= b@.len(),
            digit_bytes(b@, from as int, i as int),
        decreases to - i,
    {
        if b[i] < 48 || b[i] > 57 {
            return false;
        }
        i = i + 1;
    }
    true
}

fn push_byte_chars(out: &mut Vec<char>, b: &Vec<u8>, from: usize, to: usize)
    requires
        from <= to <= b@.len(),
    ensures
        final(out)@ == old(out)@ + byte_chars(b@, from as int, to as int),
{
    let mut i = from;
    while i < to
        invariant
            from <= i <= to <= b@.len(),
            out@ == old(out)@ + byte_chars(b@, from as int, i as int),
        decreases to - i,
    {
        out.push(b[i] as char);
        i = i + 1;
        assert(out@ =~= old(out)@ + byte_chars(b@, from as int, i as int));
    }
}

fn push_date_part(out: &mut Vec<char>, b: &Vec<u8>, i: usize)
    requires
        i <= 12,
    ensures
        final(out)@ == old(out)@ + date_part(b@, i as int),
{
    if i + 2 <= b.len() && all_digit_bytes(b, i, i + 2) {
        push_byte_chars(out, b, i, i + 2);
    } else {
        crate::text::push_str(out, "00");
    }
}

/// Converts the PDF date `D:20260802173622-03'00'` into
/// `2026-08-02 17:36:22`. If the format is unexpected, returns the value
/// unchanged.
pub fn format_pdf_date(raw: &str) -> (r: String)
    ensures
        r@ == spec_format_pdf_date(raw@),
{
    let chars = crate::text::chars_of(raw);
    let rest = if chars.len() >= 2 && chars[0] == 'D' && chars[1] == ':' {
        crate::text::slice_chars(&chars, 2, chars.len())
    } else {
        crate::text::clone_chars(&chars)
    };
    assert(rest@ =~= strip_date_prefix(raw@));
    let rest = crate::text::string_of(&rest);
    let b = rest.as_str().as_bytes_vec();
    if b.len() < 8 || !all_digit_bytes(&b, 0, 8) {
        return crate::text::owned(raw);
    }
    let mut out: Vec<char> = Vec::new();
    push_byte_chars(&mut out, &b, 0, 4);
    out.push('-');
    push_byte_chars(&mut out, &b, 4, 6);
    out.push('-');
    push_byte_chars(&mut out, &b, 6, 8);
    out.push(' ');
    push_date_part(&mut out, &b, 8);
    out.push(':');
    push_date_part(&mut out, &b, 10);
    out.push(':');
    push_date_part(&mut out, &b, 12);
    assert(out@ =~= spec_format_pdf_date(raw@));
    crate::text::string_of(&out)
}

/// Adds `s` to `v` unless it is there already.
pub fn push_unique(v: &mut Vec<String>, s: String)
    ensures
        strings_view(final(v)@) == if strings_view(old(v)@).contains(s@) {
            strings_view(old(v)@)
        } else {
            strings_view(old(v)@).push(s@)
        },
{
    let ghost view = strings_view(v@);
    let mut i: usize = 0;
    while i < v.len()
        invariant
            i <= v@.len(),
            view == strings_view(v@),
            forall|j: int| 0 <= j < i ==> view[j] != s@,
        decreases v@.len() - i,
    {
        if crate::text::chars_eq_str(&crate::text::chars_of(v[i].as_str()), s.as_str()) {
            assert(view[i as int] == s@);
            return;
        }
        i = i + 1;
    }
    v.push(s);
    assert(strings_view(v@) =~= view.push(s@));
}

/// What the object-table analysis reads of one object of a PDF.
pub struct ObjectFacts {
    /// Object number and generation.
    pub id: (u32, u16),
    /// What the object is: its `/Type` (with the `/Subtype` of a stream), or
    /// its kind.
    pub desc: String,
    /// The length of a stream's content, or of the object's debug text.
    pub size: i64,
    /// Every object it refers to, inside nested arrays and dictionaries too.
    pub refs: Vec<(u32, u16)>,
    /// A dictionary (or stream dictionary) with a `/JS` entry.
    pub js_key: bool,
    /// The `/S` name of a dictionary (an action's type), if it has one.
    pub action: Option<String>,
    /// A dictionary whose `/FT` is `/Sig`.
    pub signature_field: bool,
}

/// The object table of a PDF as the analysis reads it.
pub struct StructFacts {
    /// The objects the trailer refers to.
    pub trailer_refs: Vec<(u32, u16)>,
    /// The objects, in increasing order of number and then generation.
    pub objects: Vec<ObjectFacts>,
    /// The XMP metadata packet of the catalog, as text (empty when none).
    pub xmp: String,
    /// The trailer has an `/Encrypt` entry.
    pub encrypted: bool,
}

/// `a` comes before `b`: by number, then by generation.
pub open spec fn id_lt(a: (u32, u16), b: (u32, u16)) -> bool {
    a.0 < b.0 || (a.0 == b.0 && a.1 < b.1)
}

/// The objects are in increasing order of identifier (so none repeats).
pub open spec fn ids_sorted(objs: Seq<ObjectFacts>) -> bool {
    forall|i: int, j: int| 0 <= i < j < objs.len() ==> id_lt(#[trigger] objs[i].id, #[trigger] objs[j].id)
}

/// `p` lists positions of objects, each referring to the next, the first
/// named by the trailer.
pub open spec fn is_chain(trailer: Seq<(u32, u16)>, objs: Seq<ObjectFacts>, p: Seq<int>) -> bool {
    &&& p.len() > 0
    &&& forall|i: int| 0 <= i < p.len() ==> 0 <= #[trigger] p[i] < objs.len()
    &&& trailer.contains(objs[p[0]].id)
    &&& forall|i: int, j: int|
        0 <= i < p.len() && j == i + 1 && j < p.len() ==> objs[#[trigger] p[i]].refs@.contains(objs[#[trigger] p[j]].id)
}

/// `x` is reached from the trailer, following references from object to
/// object: the trailer names it, or the last object of a chain refers to
/// it.
pub open spec fn reachable(trailer: Seq<(u32, u16)>, objs: Seq<ObjectFacts>, x: (u32, u16)) -> bool {
    trailer.contains(x) || exists|p: Seq<int>| #[trigger] is_chain(trailer, objs, p) && objs[p.last()].refs@.contains(x)
}

/// What a reached object refers to is reached.
proof fn lemma_step(trailer: Seq<(u32, u16)>, objs: Seq<ObjectFacts>, k: int, x: (u32, u16))
    requires
        0 <= k < objs.len(),
        reachable(trailer, objs, objs[k].id),
        objs[k].refs@.contains(x),
    ensures
        reachable(trailer, objs, x),
{
    if trailer.contains(objs[k].id) {
        let p = seq![k];
        assert(is_chain(trailer, objs, p));
    } else {
        let p = choose|p: Seq<int>| #[trigger] is_chain(trailer, objs, p) && objs[p.last()].refs@.contains(objs[k].id);
        let q = p.push(k);
        assert forall|i: int, j: int|
            0 <= i < q.len() && j == i + 1 && j < q.len() implies objs[#[trigger] q[i]].refs@.contains(
            objs[#[trigger] q[j]].id,
        ) by {
            if j < p.len() {
                assert(q[i] == p[i] && q[j] == p[j]);
            }
        }
        assert forall|i: int| 0 <= i < q.len() implies 0 <= #[trigger] q[i] < objs.len() by {
            if i < p.len() {
                assert(q[i] == p[i]);
            }
        }
        assert(q[0] == p[0]);
        assert(is_chain(trailer, objs, q));
    }
}

/// How many entries are `true`.
pub open spec fn count_true(s: Seq<bool>) -> nat
    decreases s.len(),
{
    if s.len() == 0 {
        0
    } else {
        count_true(s.drop_last()) + if s.last() {
            1nat
        } else {
            0nat
        }
    }
}

proof fn lemma_count_true_bound(s: Seq<bool>)
    ensures
        count_true(s) <= s.len(),
    decreases s.len(),
{
    if s.len() > 0 {
        lemma_count_true_bound(s.drop_last());
    }
}

proof fn lemma_count_none(s: Seq<bool>)
    requires
        forall|m: int| 0 <= m < s.len() ==> !s[m],
    ensures
        count_true(s) == 0,
    decreases s.len(),
{
    if s.len() > 0 {
        lemma_count_none(s.drop_last());
    }
}

proof fn lemma_count_true_set(s: Seq<bool>, m: int)
    requires
        0 <= m < s.len(),
        !s[m],
    ensures
        count_true(s.update(m, true)) == count_true(s) + 1,
    decreases s.len(),
{
    let t = s.update(m, true);
    if m == s.len() - 1 {
        assert(t.drop_last() =~= s.drop_last());
    } else {
        assert(t.drop_last() =~= s.drop_last().update(m, true));
        lemma_count_true_set(s.drop_last(), m);
    }
}

/// The position of the object `target`, by binary search.
fn index_of(objs: &Vec<ObjectFacts>, target: (u32, u16)) -> (r: Option<usize>)
    requires
        ids_sorted(objs@),
    ensures
        r matches Some(k) ==> k < objs@.len() && objs@[k as int].id == target,
        r is None ==> forall|k: int| 0 <= k < objs@.len() ==> objs@[k].id != target,
{
    let mut lo: usize = 0;
    let mut hi: usize = objs.len();
    while lo < hi
        invariant
            lo <= hi <= objs@.len(),
            ids_sorted(objs@),
            forall|k: int| 0 <= k < lo ==> id_lt(#[trigger] objs@[k].id, target),
            forall|k: int| hi <= k < objs@.len() ==> id_lt(target, #[trigger] objs@[k].id),
        decreases hi - lo,
    {
        let mid = lo + (hi - lo) / 2;
        let id = objs[mid].id;
        if id.0 == target.0 && id.1 == target.1 {
            return Some(mid);
        }
        if id.0 < target.0 || (id.0 == target.0 && id.1 < target.1) {
            assert forall|k: int| 0 <= k < mid + 1 implies id_lt(#[trigger] objs@[k].id, target) by {
                if k < mid {
                    assert(id_lt(objs@[k].id, objs@[mid as int].id));
                }
            }
            lo = mid + 1;
        } else {
            assert forall|k: int| mid <= k < objs@.len() implies id_lt(target, #[trigger] objs@[k].id) by {
                if k > mid {
                    assert(id_lt(objs@[mid as int].id, objs@[k].id));
                }
            }
            hi = mid;
        }
    }
    None
}

/// Marks the object `r` refers to, if the table has it and it is not marked
/// yet, and queues it.
fn mark(
    objs: &Vec<ObjectFacts>,
    marked: &mut Vec<bool>,
    work: &mut Vec<usize>,
    count: &mut usize,
    r: (u32, u16),
)
    requires
        ids_sorted(objs@),
        old(marked)@.len() == objs@.len(),
        *old(count) == count_true(old(marked)@),
    ensures
        final(marked)@.len() == objs@.len(),
        *final(count) == count_true(final(marked)@),
        forall|m: int| 0 <= m < objs@.len() && objs@[m].id == r ==> final(marked)@[m],
        forall|m: int| 0 <= m < objs@.len() && old(marked)@[m] ==> final(marked)@[m],
        forall|m: int|
            0 <= m < objs@.len() && final(marked)@[m] && !old(marked)@[m] ==> objs@[m].id == r,
        final(work)@ == old(work)@ || (exists|m: usize|
            final(work)@ == old(work)@.push(m) && m < objs@.len() && !old(marked)@[m as int]
                && final(marked)@ == old(marked)@.update(m as int, true)),
        final(work)@ == old(work)@ ==> final(marked)@ == old(marked)@ && *final(count) == *old(count),
        final(work)@ != old(work)@ ==> *final(count) == *old(count) + 1 && final(work)@.len() == old(work)@.len()
            + 1,
{
    proof {
        lemma_count_true_bound(marked@);
    }
    match index_of(objs, r) {
        Some(m) => {
            if !marked[m] {
                let ghost before = marked@;
                proof {
                    lemma_count_true_set(before, m as int);
                    lemma_count_true_bound(before.update(m as int, true));
                    assert(before.len() == marked.len());
                }
                marked.set(m, true);
                work.push(m);
                *count = *count + 1;
                assert(work@.len() == old(work)@.len() + 1);
            }
        },
        None => {},
    }
}

/// For each object, whether the trailer reaches it.
#[verifier::spinoff_prover]
#[verifier::rlimit(40)]
pub fn reached(facts: &StructFacts) -> (r: Vec<bool>)
    requires
        ids_sorted(facts.objects@),
    ensures
        r@.len() == facts.objects@.len(),
        forall|m: int|
            0 <= m < r@.len() ==> (r@[m] <==> reachable(facts.trailer_refs@, facts.objects@, #[trigger] facts.objects@[m].id)),
{
    let objs = &facts.objects;
    let ghost trailer = facts.trailer_refs@;
    let n = objs.len();
    let mut marked: Vec<bool> = Vec::new();
    let mut i: usize = 0;
    while i < n
        invariant
            i <= n == objs@.len(),
            marked@.len() == i,
            forall|m: int| 0 <= m < i ==> !marked@[m],
        decreases n - i,
    {
        marked.push(false);
        i = i + 1;
    }
    proof {
        lemma_count_none(marked@);
    }
    let mut count: usize = 0;
    let mut work: Vec<usize> = Vec::new();
    let mut t: usize = 0;
    while t < facts.trailer_refs.len()
        invariant
            objs == &facts.objects,
            trailer == facts.trailer_refs@,
            ids_sorted(objs@),
            n == objs@.len(),
            t <= trailer.len(),
            marked@.len() == n,
            count == count_true(marked@),
            forall|w: int| 0 <= w < work@.len() ==> work@[w] < n && marked@[work@[w] as int],
            forall|j: int| 0 <= j < n && marked@[j] ==> work@.contains(j as usize),
            forall|j: int| 0 <= j < n && marked@[j] ==> reachable(trailer, objs@, #[trigger] objs@[j].id),
            forall|a: int, m: int|
                0 <= a < t && 0 <= m < n && #[trigger] trailer[a] == #[trigger] objs@[m].id ==> marked@[m],
        decreases trailer.len() - t,
    {
        let r = facts.trailer_refs[t];
        let ghost before = marked@;
        let ghost wbefore = work@;
        mark(objs, &mut marked, &mut work, &mut count, r);
        proof {
            assert(trailer[t as int] == r);
            assert forall|j: int| 0 <= j < n && marked@[j] implies reachable(trailer, objs@, #[trigger] objs@[j].id) by {
                if !before[j] {
                    assert(objs@[j].id == r);
                    assert(trailer.contains(objs@[j].id));
                }
            }
            assert forall|j: int| 0 <= j < n && marked@[j] implies work@.contains(j as usize) by {
                if before[j] {
                    let w = choose|w: int| 0 <= w < wbefore.len() && wbefore[w] == j as usize;
                    if work@ != wbefore {
                        let m = choose|m: usize| work@ == wbefore.push(m) && m < objs@.len() && !before[m as int]
                            && marked@ == before.update(m as int, true);
                        assert(work@[w] == j as usize);
                    }
                } else {
                    let m = choose|m: usize| work@ == wbefore.push(m) && m < objs@.len() && !before[m as int]
                        && marked@ == before.update(m as int, true);
                    assert(m == j as usize);
                    assert(work@[wbefore.len() as int] == j as usize);
                }
            }
            assert forall|w: int| 0 <= w < work@.len() implies work@[w] < n && marked@[work@[w] as int] by {
                if w < wbefore.len() {
                    if work@ != wbefore {
                        let m = choose|m: usize| work@ == wbefore.push(m) && m < objs@.len() && !before[m as int]
                            && marked@ == before.update(m as int, true);
                        assert(work@[w] == wbefore[w]);
                    }
                } else {
                    let m = choose|m: usize| work@ == wbefore.push(m) && m < objs@.len() && !before[m as int]
                        && marked@ == before.update(m as int, true);
                    assert(work@[w] == m);
                }
            }
        }
        t = t + 1;
    }
    proof {
        lemma_count_true_bound(marked@);
    }
    while work.len() > 0
        invariant
            objs == &facts.objects,
            trailer == facts.trailer_refs@,
            ids_sorted(objs@),
            n == objs@.len(),
            marked@.len() == n,
            count == count_true(marked@),
            count <= n,
            forall|w: int| 0 <= w < work@.len() ==> work@[w] < n && marked@[work@[w] as int],
            forall|j: int| 0 <= j < n && marked@[j] ==> reachable(trailer, objs@, #[trigger] objs@[j].id),
            forall|a: int, m: int|
                0 <= a < trailer.len() && 0 <= m < n && #[trigger] trailer[a] == #[trigger] objs@[m].id ==> marked@[m],
            forall|j: int, m: int|
                0 <= j < n && 0 <= m < n && marked@[j] && !work@.contains(j as usize) && #[trigger] objs@[j].refs@.contains(objs@[m].id) ==> marked@[m],
        decreases 2 * (n - count) + work@.len(),
    {
        let ghost w0 = work@;
        let ghost c0 = count;
        let k = match work.pop() {
            Some(k) => k,
            None => { return marked; },
        };
        assert(w0 == work@.push(k));
        assert(w0[w0.len() - 1] == k);
        let refs = &objs[k].refs;
        let mut i: usize = 0;
        while i < refs.len()
            invariant
                objs == &facts.objects,
                trailer == facts.trailer_refs@,
                ids_sorted(objs@),
                n == objs@.len(),
                k < n,
                refs == &objs@[k as int].refs,
                reachable(trailer, objs@, objs@[k as int].id),
                marked@[k as int],
                i <= refs@.len(),
                marked@.len() == n,
                count == count_true(marked@),
                count <= n,
                2 * (n - count) + work@.len() < 2 * (n - c0) + w0.len(),
                forall|w: int| 0 <= w < work@.len() ==> work@[w] < n && marked@[work@[w] as int],
                forall|j: int| 0 <= j < n && marked@[j] ==> reachable(trailer, objs@, #[trigger] objs@[j].id),
                forall|a: int, m: int|
                    0 <= a < trailer.len() && 0 <= m < n && #[trigger] trailer[a] == #[trigger] objs@[m].id ==> marked@[m],
                forall|j: int, m: int|
                    0 <= j < n && 0 <= m < n && j != k && marked@[j] && !work@.contains(j as usize)
                        && #[trigger] objs@[j].refs@.contains(objs@[m].id) ==> marked@[m],
                forall|a: int, m: int|
                    0 <= a < i && 0 <= m < n && #[trigger] refs@[a] == #[trigger] objs@[m].id ==> marked@[m],
            decreases refs.len() - i,
        {
            let r = refs[i];
            let ghost before = marked@;
            let ghost wbefore = work@;
            proof {
                lemma_count_true_bound(marked@);
            }
            mark(objs, &mut marked, &mut work, &mut count, r);
            proof {
                lemma_count_true_bound(marked@);
                assert(objs@[k as int].refs@.contains(r)) by {
                    assert(objs@[k as int].refs@[i as int] == r);
                }
                lemma_step(trailer, objs@, k as int, r);
                assert forall|j: int| 0 <= j < n && marked@[j] implies reachable(trailer, objs@, #[trigger] objs@[j].id) by {
                    if !before[j] {
                        assert(objs@[j].id == r);
                    }
                }
                if work@ != wbefore {
                    let m = choose|m: usize| work@ == wbefore.push(m) && m < objs@.len() && !before[m as int]
                        && marked@ == before.update(m as int, true);
                    assert forall|w: int| 0 <= w < work@.len() implies work@[w] < n && marked@[work@[w] as int] by {
                        if w < wbefore.len() {
                            assert(work@[w] == wbefore[w]);
                        }
                    }
                    assert forall|j: int, mm: int|
                        0 <= j < n && 0 <= mm < n && j != k && marked@[j] && !work@.contains(j as usize)
                            && #[trigger] objs@[j].refs@.contains(objs@[mm].id) implies marked@[mm] by {
                        if before[j] {
                            if wbefore.contains(j as usize) {
                                let w = choose|w: int| 0 <= w < wbefore.len() && wbefore[w] == j as usize;
                                assert(work@[w] == j as usize);
                            }
                        } else {
                            assert(j == m as int);
                            assert(work@[wbefore.len() as int] == m);
                        }
                    }
                }
            }
            i = i + 1;
        }
        proof {
            assert forall|j: int, m: int|
                0 <= j < n && 0 <= m < n && marked@[j] && !work@.contains(j as usize) && #[trigger] objs@[j].refs@.contains(objs@[m].id) implies marked@[m] by {
                if j == k {
                    let a = choose|a: int| 0 <= a < refs@.len() && refs@[a] == objs@[m].id;
                }
            }
        }
    }
    proof {
        assert(work@.len() == 0);
        assert forall|m: int| 0 <= m < n && reachable(trailer, objs@, #[trigger] objs@[m].id) implies marked@[m] by {
            lemma_closed_covers(trailer, objs@, marked@, m);
        }
    }
    marked
}

/// A set of marks that holds the objects the trailer names and is closed
/// under references holds every object on a chain.
proof fn lemma_chain_marked(trailer: Seq<(u32, u16)>, objs: Seq<ObjectFacts>, marked: Seq<bool>, p: Seq<int>, i: int)
    requires
        marked.len() == objs.len(),
        is_chain(trailer, objs, p),
        0 <= i < p.len(),
        forall|a: int, mm: int|
            0 <= a < trailer.len() && 0 <= mm < objs.len() && #[trigger] trailer[a] == #[trigger] objs[mm].id
                ==> marked[mm],
        forall|j: int, mm: int|
            0 <= j < objs.len() && 0 <= mm < objs.len() && marked[j] && #[trigger] objs[j].refs@.contains(objs[mm].id)
                ==> marked[mm],
    ensures
        marked[p[i]],
    decreases i,
{
    assert(0 <= p[i] < objs.len());
    if i == 0 {
        let a = choose|a: int| 0 <= a < trailer.len() && trailer[a] == objs[p[0]].id;
        assert(trailer[a] == objs[p[0]].id);
    } else {
        lemma_chain_marked(trailer, objs, marked, p, i - 1);
        assert(0 <= p[i - 1] < objs.len());
        assert(objs[p[i - 1]].refs@.contains(objs[p[i]].id));
    }
}

/// Every object the trailer reaches is marked, when the marks hold what the
/// trailer names and are closed under references.
proof fn lemma_closed_covers(trailer: Seq<(u32, u16)>, objs: Seq<ObjectFacts>, marked: Seq<bool>, m: int)
    requires
        marked.len() == objs.len(),
        0 <= m < objs.len(),
        reachable(trailer, objs, objs[m].id),
        forall|a: int, mm: int|
            0 <= a < trailer.len() && 0 <= mm < objs.len() && #[trigger] trailer[a] == #[trigger] objs[mm].id
                ==> marked[mm],
        forall|j: int, mm: int|
            0 <= j < objs.len() && 0 <= mm < objs.len() && marked[j] && #[trigger] objs[j].refs@.contains(objs[mm].id)
                ==> marked[mm],
    ensures
        marked[m],
{
    if trailer.contains(objs[m].id) {
        let a = choose|a: int| 0 <= a < trailer.len() && trailer[a] == objs[m].id;
        assert(trailer[a] == objs[m].id);
    } else {
        let p = choose|p: Seq<int>| #[trigger] is_chain(trailer, objs, p) && objs[p.last()].refs@.contains(objs[m].id);
        lemma_chain_marked(trailer, objs, marked, p, p.len() - 1);
        assert(0 <= p[p.len() - 1] < objs.len());
        assert(objs[p.last()].refs@.contains(objs[m].id));
    }
}

/// What the object-table analysis finds.
#[derive(Debug)]
pub struct StructInfo {
    /// Each object's number and description, in table order.
    pub objects: Vec<(u32, String)>,
    /// Each object's number and size, in table order.
    pub sizes: Vec<(u32, i64)>,
    /// `number: description` of each object the trailer does not reach
    /// (cross-reference and object streams aside).
    pub unreferenced: Vec<String>,
    /// Those of them that are fonts, images or other XObjects.
    pub orphaned: Vec<String>,
    /// Some dictionary carries JavaScript.
    pub has_javascript: bool,
    /// `Action (objeto N)` for each suspicious action, once each, sorted.
    pub suspicious_actions: Vec<String>,
    /// Some field is a signature field.
    pub has_signature_fields: bool,
    /// The XMP metadata packet, as text (empty when none).
    pub xmp: String,
    /// The document is encrypted.
    pub encrypted: bool,
}

/// `p` occurs in `s`.
pub open spec fn contains_text(s: Seq<char>, p: Seq<char>) -> bool {
    find_from(s, p, 0) is Some
}

/// The cross-reference machinery, which nothing refers to by design.
pub open spec fn is_infra(desc: Seq<char>) -> bool {
    desc == "ObjStm"@ || desc == "XRef"@
}

/// A font, an image or another XObject.
pub open spec fn is_resource(desc: Seq<char>) -> bool {
    contains_text(desc, "Font"@) || contains_text(desc, "/Image"@) || contains_text(desc, "XObject"@)
        || contains_text(desc, "/Form"@)
}

/// `number: description`.
pub open spec fn entry_text(o: ObjectFacts) -> Seq<char> {
    nat_text(o.id.0 as nat) + ": "@ + o.desc@
}

/// The `k`-th object is left over: the trailer does not reach it, and it is
/// not cross-reference machinery.
pub open spec fn left_over(trailer: Seq<(u32, u16)>, objs: Seq<ObjectFacts>, k: int) -> bool {
    !reachable(trailer, objs, objs[k].id) && !is_infra(objs[k].desc@)
}

/// The entries of the left-over objects among the first `n`.
pub open spec fn unreferenced_upto(trailer: Seq<(u32, u16)>, objs: Seq<ObjectFacts>, n: nat) -> Seq<Seq<char>>
    decreases n,
{
    if n == 0 || n > objs.len() {
        Seq::empty()
    } else {
        unreferenced_upto(trailer, objs, (n - 1) as nat) + if left_over(trailer, objs, n - 1) {
            seq![entry_text(objs[n - 1])]
        } else {
            Seq::empty()
        }
    }
}

/// The entries of the left-over resources among the first `n`.
pub open spec fn orphaned_upto(trailer: Seq<(u32, u16)>, objs: Seq<ObjectFacts>, n: nat) -> Seq<Seq<char>>
    decreases n,
{
    if n == 0 || n > objs.len() {
        Seq::empty()
    } else {
        orphaned_upto(trailer, objs, (n - 1) as nat) + if left_over(trailer, objs, n - 1) && is_resource(
            objs[n - 1].desc@,
        ) {
            seq![entry_text(objs[n - 1])]
        } else {
            Seq::empty()
        }
    }
}

/// An action type that runs code, opens something or sends data away.
pub open spec fn suspicious_kind(a: Seq<char>) -> bool {
    a == "JavaScript"@ || a == "Launch"@ || a == "URI"@ || a == "SubmitForm"@ || a == "ImportData"@ || a
        == "GoToR"@
}

/// `Action (objeto N)` for an object whose action is suspicious.
pub open spec fn action_text(o: ObjectFacts) -> Option<Seq<char>> {
    match o.action {
        Some(a) => if suspicious_kind(a@) {
            Some(a@ + " (objeto "@ + nat_text(o.id.0 as nat) + ")"@)
        } else {
            None
        },
        None => None,
    }
}

/// The suspicious actions among the first `n` objects, each once, in the
/// order they first appear.
pub open spec fn unique_actions_upto(objs: Seq<ObjectFacts>, n: nat) -> Seq<Seq<char>>
    decreases n,
{
    if n == 0 || n > objs.len() {
        Seq::empty()
    } else {
        let prev = unique_actions_upto(objs, (n - 1) as nat);
        match action_text(objs[n - 1]) {
            Some(t) => if prev.contains(t) {
                prev
            } else {
                prev.push(t)
            },
            None => prev,
        }
    }
}

/// The object's dictionary carries JavaScript: a `/JS` entry, or a
/// JavaScript action.
pub open spec fn runs_javascript(o: ObjectFacts) -> bool {
    o.js_key || (o.action matches Some(a) && a@ == "JavaScript"@)
}

/// `p` occurs in the text `s`.
pub(crate) fn text_contains(s: &Vec<char>, p: &str) -> (r: bool)
    requires
        s@.len() < usize::MAX,
    ensures
        r == contains_text(s@, p@),
{
    let pv = chars_of(p);
    crate::watch::find(s, &pv, 0).is_some()
}

/// The suspicious action text of an object, if it has one.
fn action_of(o: &ObjectFacts) -> (r: Option<String>)
    ensures
        r matches Some(t) ==> action_text(*o) == Some(t@),
        r is None ==> action_text(*o) is None,
{
    match &o.action {
        Some(a) => {
            let av = chars_of(a.as_str());
            if chars_eq_str(&av, "JavaScript") || chars_eq_str(&av, "Launch") || chars_eq_str(&av, "URI")
                || chars_eq_str(&av, "SubmitForm") || chars_eq_str(&av, "ImportData") || chars_eq_str(
                &av,
                "GoToR",
            ) {
                let mut t = av;
                push_str(&mut t, " (objeto ");
                push_u64(&mut t, o.id.0 as u64);
                push_str(&mut t, ")");
                Some(string_of(&t))
            } else {
                None
            }
        },
        None => None,
    }
}

/// Sorts strings (by `lex_lt`).
pub(crate) fn sort_strings(v: Vec<String>) -> (r: Vec<String>)
    ensures
        sorted_lines(strings_view(r@)),
        strings_view(r@).to_multiset() == strings_view(v@).to_multiset(),
{
    let mut cv: Vec<Vec<char>> = Vec::new();
    let mut i: usize = 0;
    while i < v.len()
        invariant
            i <= v@.len(),
            char_vecs_view(cv@) == strings_view(v@).take(i as int),
        decreases v.len() - i,
    {
        let ghost before = cv@;
        cv.push(chars_of(v[i].as_str()));
        assert(char_vecs_view(cv@) =~= char_vecs_view(before).push(v@[i as int]@));
        assert(strings_view(v@).take(i + 1) =~= strings_view(v@).take(i as int).push(v@[i as int]@));
        i = i + 1;
    }
    assert(strings_view(v@).take(v@.len() as int) =~= strings_view(v@));
    let sorted = sort_lines(cv);
    let mut out: Vec<String> = Vec::new();
    let mut j: usize = 0;
    while j < sorted.len()
        invariant
            j <= sorted@.len(),
            strings_view(out@) == char_vecs_view(sorted@).take(j as int),
        decreases sorted.len() - j,
    {
        let ghost before = out@;
        out.push(string_of(&sorted[j]));
        assert(strings_view(out@) =~= strings_view(before).push(sorted@[j as int]@));
        assert(char_vecs_view(sorted@).take(j + 1) =~= char_vecs_view(sorted@).take(j as int).push(
            sorted@[j as int]@,
        ));
        j = j + 1;
    }
    assert(char_vecs_view(sorted@).take(sorted@.len() as int) =~= char_vecs_view(sorted@));
    out
}

/// The analysis of a PDF's object table: each object with its description
/// and size; the objects the trailer does not reach (cross-reference and
/// object streams aside), and those of them that are resources; whether
/// any dictionary carries JavaScript or is a signature field; and the
/// suspicious actions, each once, sorted.
#[verifier::spinoff_prover]
#[verifier::rlimit(40)]
pub fn analyze_objects(facts: &StructFacts) -> (r: StructInfo)
    requires
        ids_sorted(facts.objects@),
    ensures
        r.objects@.len() == facts.objects@.len(),
        r.sizes@.len() == facts.objects@.len(),
        forall|k: int|
            0 <= k < facts.objects@.len() ==> #[trigger] r.objects@[k].0 == facts.objects@[k].id.0
                && r.objects@[k].1@ == facts.objects@[k].desc@,
        forall|k: int|
            0 <= k < facts.objects@.len() ==> #[trigger] r.sizes@[k] == (facts.objects@[k].id.0, facts.objects@[k].size),
        strings_view(r.unreferenced@) == unreferenced_upto(
            facts.trailer_refs@,
            facts.objects@,
            facts.objects@.len(),
        ),
        strings_view(r.orphaned@) == orphaned_upto(facts.trailer_refs@, facts.objects@, facts.objects@.len()),
        r.has_javascript == exists|k: int|
            0 <= k < facts.objects@.len() && runs_javascript(#[trigger] facts.objects@[k]),
        r.has_signature_fields == exists|k: int|
            0 <= k < facts.objects@.len() && (#[trigger] facts.objects@[k]).signature_field,
        sorted_lines(strings_view(r.suspicious_actions@)),
        strings_view(r.suspicious_actions@).to_multiset() == unique_actions_upto(
            facts.objects@,
            facts.objects@.len(),
        ).to_multiset(),
        r.xmp@ == facts.xmp@,
        r.encrypted == facts.encrypted,
{
    let marked = reached(facts);
    let objs = &facts.objects;
    let ghost trailer = facts.trailer_refs@;
    let mut objects: Vec<(u32, String)> = Vec::new();
    let mut sizes: Vec<(u32, i64)> = Vec::new();
    let mut unreferenced: Vec<String> = Vec::new();
    let mut orphaned: Vec<String> = Vec::new();
    let mut has_javascript = false;
    let mut suspicious: Vec<String> = Vec::new();
    let mut has_signature_fields = false;
    let mut k: usize = 0;
    while k < objs.len()
        invariant
            objs == &facts.objects,
            trailer == facts.trailer_refs@,
            k <= objs@.len(),
            marked@.len() == objs@.len(),
            forall|m: int|
                0 <= m < marked@.len() ==> (marked@[m] <==> reachable(trailer, objs@, #[trigger] objs@[m].id)),
            objects@.len() == k,
            sizes@.len() == k,
            forall|m: int| 0 <= m < k ==> #[trigger] objects@[m].0 == objs@[m].id.0 && objects@[m].1@ == objs@[m].desc@,
            forall|m: int| 0 <= m < k ==> #[trigger] sizes@[m] == (objs@[m].id.0, objs@[m].size),
            strings_view(unreferenced@) == unreferenced_upto(trailer, objs@, k as nat),
            strings_view(orphaned@) == orphaned_upto(trailer, objs@, k as nat),
            has_javascript == exists|m: int| 0 <= m < k && runs_javascript(#[trigger] objs@[m]),
            has_signature_fields == exists|m: int| 0 <= m < k && (#[trigger] objs@[m]).signature_field,
            strings_view(suspicious@) == unique_actions_upto(objs@, k as nat),
        decreases objs.len() - k,
    {
        let o = &objs[k];
        let desc = chars_of(o.desc.as_str());
        objects.push((o.id.0, string_of(&desc)));
        sizes.push((o.id.0, o.size));
        let infra = chars_eq_str(&desc, "ObjStm") || chars_eq_str(&desc, "XRef");
        proof {
            assert(infra == is_infra(objs@[k as int].desc@));
        }
        let ghost u0 = unreferenced@;
        let ghost o0 = orphaned@;
        if !marked[k] && !infra {
            let mut entry: Vec<char> = Vec::new();
            push_u64(&mut entry, o.id.0 as u64);
            push_str(&mut entry, ": ");
            crate::text::push_all(&mut entry, &desc);
            assert(entry@ == entry_text(objs@[k as int]));
            unreferenced.push(string_of(&entry));
            let resource = text_contains(&desc, "Font") || text_contains(&desc, "/Image") || text_contains(
                &desc,
                "XObject",
            ) || text_contains(&desc, "/Form");
            if resource {
                orphaned.push(string_of(&entry));
            }
            proof {
                assert(strings_view(unreferenced@) =~= strings_view(u0).push(entry@));
                if resource {
                    assert(strings_view(orphaned@) =~= strings_view(o0).push(entry@));
                }
            }
        }
        proof {
            assert(marked@[k as int] <==> reachable(trailer, objs@, objs@[k as int].id));
            assert(left_over(trailer, objs@, k as int) == (!marked@[k as int] && !infra));
            assert(strings_view(unreferenced@) =~= unreferenced_upto(trailer, objs@, (k + 1) as nat));
            assert(strings_view(orphaned@) =~= orphaned_upto(trailer, objs@, (k + 1) as nat));
        }
        let runs_js = o.js_key || match &o.action {
            Some(a) => chars_eq_str(&chars_of(a.as_str()), "JavaScript"),
            None => false,
        };
        proof {
            assert(runs_js == runs_javascript(objs@[k as int]));
        }
        if runs_js {
            has_javascript = true;
        }
        if o.signature_field {
            has_signature_fields = true;
        }
        let ghost s0 = suspicious@;
        match action_of(o) {
            Some(t) => {
                crate::structns::push_unique(&mut suspicious, t);
            },
            None => {},
        }
        proof {
            assert(strings_view(suspicious@) == unique_actions_upto(objs@, (k + 1) as nat));
        }
        k = k + 1;
    }
    let suspicious_actions = sort_strings(suspicious);
    StructInfo {
        objects,
        sizes,
        unreferenced,
        orphaned,
        has_javascript,
        suspicious_actions,
        has_signature_fields,
        xmp: facts.xmp.clone(),
        encrypted: facts.encrypted,
    }
}

/// The size recorded for object number `n`: that of its last generation in
/// `sizes`, or `None` when no object has that number.
pub open spec fn size_of_object(sizes: Seq<(u32, i64)>, n: u32) -> Option<i64>
    decreases sizes.len(),
{
    if sizes.len() == 0 {
        None
    } else if sizes.last().0 == n {
        Some(sizes.last().1)
    } else {
        size_of_object(sizes.drop_last(), n)
    }
}

impl StructInfo {
    /// The size of object number `n`, as `struct::measure_object_size` reports
    /// it: that of the object's last generation.
    pub fn object_size(&self, n: u32) -> (r: Option<i64>)
        ensures
            r == size_of_object(self.sizes@, n),
    {
        let mut k: usize = self.sizes.len();
        assert(self.sizes@.subrange(0, k as int) =~= self.sizes@);
        while k > 0
            invariant
                k <= self.sizes@.len(),
                size_of_object(self.sizes@, n) == size_of_object(self.sizes@.subrange(0, k as int), n),
            decreases k,
        {
            let (id, size) = self.sizes[k - 1];
            assert(self.sizes@.subrange(0, k - 1) =~= self.sizes@.subrange(0, k as int).drop_last());
            if id == n {
                return Some(size);
            }
            k = k - 1;
        }
        None
    }
}

} // verus!
