//! Line-level differences between two texts: the `text::diff` function and
//! the sample of changed lines that `pdfl compare` shows.

use vstd::prelude::*;
use crate::ast::strings_view;
use crate::escape::{char_vecs_view, split_char, split_on};
use crate::text::{chars_of, push_str, string_of, trim, trim_range};

verus! {

/// The lines of `t` with white space trimmed at both ends, blank ones left
/// out, in order.
pub open spec fn significant(pieces: Seq<Seq<char>>) -> Seq<Seq<char>>
    decreases pieces.len(),
{
    if pieces.len() == 0 {
        Seq::empty()
    } else {
        let t = trim(pieces.last());
        significant(pieces.drop_last()) + if t.len() > 0 {
            seq![t]
        } else {
            Seq::empty()
        }
    }
}

/// The trimmed, non-blank lines of a text.
pub open spec fn text_lines(t: Seq<char>) -> Seq<Seq<char>> {
    significant(split_char(t, '\n'))
}

/// The lines of `from` that `other` lacks, in order.
pub open spec fn absent(from: Seq<Seq<char>>, other: Seq<Seq<char>>) -> Seq<Seq<char>>
    decreases from.len(),
{
    if from.len() == 0 {
        Seq::empty()
    } else {
        absent(from.drop_last(), other) + if other.contains(from.last()) {
            Seq::empty()
        } else {
            seq![from.last()]
        }
    }
}

/// Each line with `prefix` in front.
pub open spec fn prefixed(lines: Seq<Seq<char>>, prefix: Seq<char>) -> Seq<Seq<char>> {
    lines.map_values(|l: Seq<char>| prefix + l)
}

/// `-line` for each line of `a` that `b` lacks, then `+line` for each line
/// of `b` that `a` lacks.
pub open spec fn spec_text_diff(a: Seq<char>, b: Seq<char>) -> Seq<Seq<char>> {
    let la = text_lines(a);
    let lb = text_lines(b);
    prefixed(absent(la, lb), "-"@) + prefixed(absent(lb, la), "+"@)
}

/// The lines joined, each behind `sep`.
pub open spec fn joined(lines: Seq<Seq<char>>, sep: Seq<char>) -> Seq<char>
    decreases lines.len(),
{
    if lines.len() == 0 {
        Seq::empty()
    } else {
        joined(lines.drop_last(), sep) + sep + lines.last()
    }
}

/// At most three removed lines (` | -line`) and three added ones
/// (` | +line`), as the comparison report shows them.
pub open spec fn spec_diff_sample(a: Seq<char>, b: Seq<char>) -> Seq<char> {
    let la = text_lines(a);
    let lb = text_lines(b);
    let removed = absent(la, lb);
    let added = absent(lb, la);
    joined(removed.take(if removed.len() < 3 { removed.len() as int } else { 3 }), " | -"@) + joined(
        added.take(if added.len() < 3 { added.len() as int } else { 3 }),
        " | +"@,
    )
}

/// The trimmed, non-blank lines of `t`.
pub fn lines_of(t: &str) -> (r: Vec<Vec<char>>)
    ensures
        char_vecs_view(r@) == text_lines(t@),
{
    let tv = chars_of(t);
    let pieces = split_on(&tv, '\n');
    let ghost pv = char_vecs_view(pieces@);
    let mut out: Vec<Vec<char>> = Vec::new();
    let mut i: usize = 0;
    while i < pieces.len()
        invariant
            i <= pieces@.len(),
            pv == char_vecs_view(pieces@),
            pv == split_char(t@, '\n'),
            char_vecs_view(out@) == significant(pv.take(i as int)),
        decreases pieces.len() - i,
    {
        assert(pv.take(i + 1).drop_last() =~= pv.take(i as int));
        assert(pv.take(i + 1).last() == pieces@[i as int]@);
        let piece = &pieces[i];
        let line = trim_range(piece, 0, piece.len());
        assert(piece@.subrange(0, piece@.len() as int) =~= piece@);
        if line.len() > 0 {
            let ghost before = out@;
            out.push(line);
            assert(char_vecs_view(out@) =~= char_vecs_view(before).push(out@[out@.len() - 1]@));
        }
        i = i + 1;
    }
    assert(pv.take(pieces@.len() as int) =~= pv);
    out
}

/// Whether `v` holds the line `l`.
fn has_line(v: &Vec<Vec<char>>, l: &Vec<char>) -> (r: bool)
    ensures
        r == char_vecs_view(v@).contains(l@),
{
    let mut i: usize = 0;
    while i < v.len()
        invariant
            i <= v@.len(),
            forall|k: int| 0 <= k < i ==> v@[k]@ != l@,
        decreases v.len() - i,
    {
        if crate::text::chars_eq(&v[i], l) {
            assert(char_vecs_view(v@)[i as int] == l@);
            return true;
        }
        i = i + 1;
    }
    assert forall|k: int| 0 <= k < char_vecs_view(v@).len() implies char_vecs_view(v@)[k] != l@ by {
        assert(char_vecs_view(v@)[k] == v@[k]@);
    }
    false
}

/// The lines of `from` that `other` lacks.
fn absent_lines(from: &Vec<Vec<char>>, other: &Vec<Vec<char>>) -> (r: Vec<Vec<char>>)
    ensures
        char_vecs_view(r@) == absent(char_vecs_view(from@), char_vecs_view(other@)),
{
    let ghost fv = char_vecs_view(from@);
    let mut out: Vec<Vec<char>> = Vec::new();
    let mut i: usize = 0;
    while i < from.len()
        invariant
            i <= from@.len(),
            fv == char_vecs_view(from@),
            char_vecs_view(out@) == absent(fv.take(i as int), char_vecs_view(other@)),
        decreases from.len() - i,
    {
        assert(fv.take(i + 1).drop_last() =~= fv.take(i as int));
        assert(fv.take(i + 1).last() == from@[i as int]@);
        if !has_line(other, &from[i]) {
            let ghost before = out@;
            out.push(crate::text::clone_chars(&from[i]));
            assert(char_vecs_view(out@) =~= char_vecs_view(before).push(from@[i as int]@));
        }
        i = i + 1;
    }
    assert(fv.take(from@.len() as int) =~= fv);
    out
}

/// `-line` for each line of `a` that `b` lacks, then `+line` for each line
/// of `b` that `a` lacks (lines trimmed, blank ones left out).
pub fn text_diff(a: &str, b: &str) -> (r: Vec<String>)
    ensures
        strings_view(r@) == spec_text_diff(a@, b@),
{
    let la = lines_of(a);
    let lb = lines_of(b);
    let removed = absent_lines(&la, &lb);
    let added = absent_lines(&lb, &la);
    let ghost rv = char_vecs_view(removed@);
    let ghost av = char_vecs_view(added@);
    let mut out: Vec<String> = Vec::new();
    let mut i: usize = 0;
    while i < removed.len()
        invariant
            i <= removed@.len(),
            rv == char_vecs_view(removed@),
            strings_view(out@) == prefixed(rv.take(i as int), "-"@),
        decreases removed.len() - i,
    {
        let mut line: Vec<char> = Vec::new();
        push_str(&mut line, "-");
        crate::text::push_all(&mut line, &removed[i]);
        let ghost before = out@;
        out.push(string_of(&line));
        assert(line@ == "-"@ + rv[i as int]);
        assert(strings_view(out@) =~= strings_view(before).push(line@));
        assert(prefixed(rv.take(i + 1), "-"@) =~= prefixed(rv.take(i as int), "-"@).push("-"@ + rv[i as int]));
        assert(strings_view(out@) =~= prefixed(rv.take(i + 1), "-"@));
        i = i + 1;
    }
    assert(rv.take(removed@.len() as int) =~= rv);
    let ghost mid = out@;
    let mut j: usize = 0;
    while j < added.len()
        invariant
            j <= added@.len(),
            av == char_vecs_view(added@),
            strings_view(mid) == prefixed(rv, "-"@),
            strings_view(out@) == prefixed(rv, "-"@) + prefixed(av.take(j as int), "+"@),
        decreases added.len() - j,
    {
        let mut line: Vec<char> = Vec::new();
        push_str(&mut line, "+");
        crate::text::push_all(&mut line, &added[j]);
        let ghost before = out@;
        out.push(string_of(&line));
        assert(line@ == "+"@ + av[j as int]);
        assert(strings_view(out@) =~= strings_view(before).push(line@));
        assert(prefixed(av.take(j + 1), "+"@) =~= prefixed(av.take(j as int), "+"@).push("+"@ + av[j as int]));
        assert(strings_view(out@) =~= prefixed(rv, "-"@) + prefixed(av.take(j + 1), "+"@));
        j = j + 1;
    }
    assert(av.take(added@.len() as int) =~= av);
    out
}

/// Appends each of the first `k` lines behind `sep`.
fn push_joined(out: &mut Vec<char>, lines: &Vec<Vec<char>>, k: usize, sep: &str)
    requires
        k <= lines@.len(),
    ensures
        final(out)@ == old(out)@ + joined(char_vecs_view(lines@).take(k as int), sep@),
{
    let ghost lv = char_vecs_view(lines@);
    let mut i: usize = 0;
    while i < k
        invariant
            i <= k <= lines@.len(),
            lv == char_vecs_view(lines@),
            out@ == old(out)@ + joined(lv.take(i as int), sep@),
        decreases k - i,
    {
        assert(lv.take(i + 1).drop_last() =~= lv.take(i as int));
        assert(lv.take(i + 1).last() == lines@[i as int]@);
        push_str(out, sep);
        crate::text::push_all(out, &lines[i]);
        assert(out@ =~= old(out)@ + joined(lv.take(i + 1), sep@));
        i = i + 1;
    }
}

/// Up to three removed lines and three added ones, each behind ` | -` or
/// ` | +`.
pub fn line_diff_sample(a: &str, b: &str) -> (r: String)
    ensures
        r@ == spec_diff_sample(a@, b@),
{
    let la = lines_of(a);
    let lb = lines_of(b);
    let removed = absent_lines(&la, &lb);
    let added = absent_lines(&lb, &la);
    let mut out: Vec<char> = Vec::new();
    let kr: usize = if removed.len() < 3 { removed.len() } else { 3 };
    let ka: usize = if added.len() < 3 { added.len() } else { 3 };
    push_joined(&mut out, &removed, kr, " | -");
    push_joined(&mut out, &added, ka, " | +");
    assert(out@ =~= spec_diff_sample(a@, b@));
    string_of(&out)
}


/// The lines `absent` keeps are exactly those of `from` that `other` lacks.
pub proof fn lemma_absent_members(from: Seq<Seq<char>>, other: Seq<Seq<char>>, x: Seq<char>)
    ensures
        absent(from, other).contains(x) <==> from.contains(x) && !other.contains(x),
    decreases from.len(),
{
    if from.len() > 0 {
        let init = from.drop_last();
        lemma_absent_members(init, other, x);
        let tail: Seq<Seq<char>> = if other.contains(from.last()) { Seq::empty() } else { seq![from.last()] };
        let r = absent(init, other) + tail;
        assert(absent(from, other) == r);
        if r.contains(x) {
            let k = choose|k: int| 0 <= k < r.len() && r[k] == x;
            if k < absent(init, other).len() {
                assert(absent(init, other)[k] == x);
                assert(absent(init, other).contains(x));
                let j = choose|j: int| 0 <= j < init.len() && init[j] == x;
                assert(from[j] == x);
            } else {
                assert(x == from.last());
                assert(from[from.len() - 1] == x);
            }
        }
        if from.contains(x) && !other.contains(x) {
            let j = choose|j: int| 0 <= j < from.len() && from[j] == x;
            if j < from.len() - 1 {
                assert(init[j] == x);
                assert(init.contains(x));
                let k = choose|k: int| 0 <= k < absent(init, other).len() && absent(init, other)[k] == x;
                assert(r[k] == x);
            } else {
                assert(r[r.len() - 1] == x);
            }
        }
    }
}

/// Nothing differs between a text and itself, and a text differs from
/// another exactly in the lines one has and the other lacks: the diff of
/// `a` against `b` marks with `-` each line of `a` missing from `b`, and
/// with `+` each line of `b` missing from `a`.
pub proof fn lemma_text_diff_marks_the_differences(a: Seq<char>, b: Seq<char>, x: Seq<char>)
    ensures
        spec_text_diff(a, a).len() == 0,
        absent(text_lines(a), text_lines(b)).contains(x) <==> text_lines(a).contains(x) && !text_lines(b).contains(x),
        absent(text_lines(b), text_lines(a)).contains(x) <==> text_lines(b).contains(x) && !text_lines(a).contains(x),
{
    lemma_absent_members(text_lines(a), text_lines(b), x);
    lemma_absent_members(text_lines(b), text_lines(a), x);
    let la = text_lines(a);
    lemma_absent_self(la, la.len() as int);
    assert(la.take(la.len() as int) =~= la);
}

proof fn lemma_absent_self(l: Seq<Seq<char>>, k: int)
    requires
        0 <= k <= l.len(),
    ensures
        absent(l.take(k), l).len() == 0,
    decreases k,
{
    if k > 0 {
        lemma_absent_self(l, k - 1);
        assert(l.take(k).drop_last() =~= l.take(k - 1));
        assert(l.take(k).last() == l[k - 1]);
        assert(l.contains(l[k - 1]));
    }
}

} // verus!
