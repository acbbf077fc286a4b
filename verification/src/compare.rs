//! The page alignment of the document comparison: given which pages of the
//! first document match which pages of the second, the longest chain of
//! matches in order.

use vstd::prelude::*;
use crate::escape::{char_vecs_view, split_whitespace, split_ws};
use crate::ast::strings_view;
use crate::text::{chars_eq, chars_of};

verus! {

/// The matches form an `n`-by-`m` table.
pub open spec fn table_shape(mat: Seq<Vec<bool>>, n: int, m: int) -> bool {
    mat.len() == n && forall|i: int| 0 <= i < n ==> (#[trigger] mat[i])@.len() == m
}

/// The length of the chain of matches the alignment takes from page `i`
/// of the first document and page `j` of the second on: a match is taken
/// whenever the two pages match, and otherwise the longer of skipping a
/// page of either side.
pub open spec fn chain_len(mat: Seq<Seq<bool>>, n: int, m: int, i: int, j: int) -> nat
    decreases (n - i) + (m - j),
{
    if i < 0 || j < 0 || i >= n || j >= m {
        0
    } else if mat[i][j] {
        chain_len(mat, n, m, i + 1, j + 1) + 1
    } else {
        let a = chain_len(mat, n, m, i + 1, j);
        let b = chain_len(mat, n, m, i, j + 1);
        if a >= b {
            a
        } else {
            b
        }
    }
}

/// The pairs of pages the alignment takes from `(i, j)` on, in order.
pub open spec fn chain_pairs(mat: Seq<Seq<bool>>, n: int, m: int, i: int, j: int) -> Seq<(int, int)>
    decreases (n - i) + (m - j),
{
    if i < 0 || j < 0 || i >= n || j >= m {
        Seq::empty()
    } else if chain_len(mat, n, m, i, j) == chain_len(mat, n, m, i + 1, j + 1) + 1 && mat[i][j] {
        seq![(i, j)] + chain_pairs(mat, n, m, i + 1, j + 1)
    } else if chain_len(mat, n, m, i + 1, j) >= chain_len(mat, n, m, i, j + 1) {
        chain_pairs(mat, n, m, i + 1, j)
    } else {
        chain_pairs(mat, n, m, i, j + 1)
    }
}

/// A chain from `(i, j)` is no longer than the pages left on the first side.
pub proof fn lemma_chain_len_bound(mat: Seq<Seq<bool>>, n: int, m: int, i: int, j: int)
    requires
        0 <= i <= n,
        0 <= j <= m,
    ensures
        chain_len(mat, n, m, i, j) <= n - i,
    decreases (n - i) + (m - j),
{
    if i < n && j < m {
        lemma_chain_len_bound(mat, n, m, i + 1, j + 1);
        lemma_chain_len_bound(mat, n, m, i + 1, j);
        lemma_chain_len_bound(mat, n, m, i, j + 1);
    }
}

/// The rows of a table of booleans, as sequences.
pub open spec fn rows_view(mat: Seq<Vec<bool>>) -> Seq<Seq<bool>> {
    mat.map_values(|r: Vec<bool>| r@)
}

/// The views of the pairs.
pub open spec fn pairs_view(v: Seq<(usize, usize)>) -> Seq<(int, int)> {
    v.map_values(|p: (usize, usize)| (p.0 as int, p.1 as int))
}

/// The alignment of the pages of two documents: `mat[i][j]` says whether
/// page `i` of the first matches page `j` of the second; the result is the
/// chain of matching pairs, in order, that the table of chain lengths
/// picks.
#[verifier::spinoff_prover]
#[verifier::rlimit(40)]
pub fn align(mat: &Vec<Vec<bool>>, m: usize) -> (r: Vec<(usize, usize)>)
    requires
        table_shape(mat@, mat@.len() as int, m as int),
        m < usize::MAX,
    ensures
        pairs_view(r@) == chain_pairs(rows_view(mat@), mat@.len() as int, m as int, 0, 0),
{
    let n = mat.len();
    let ghost nn = n as int;
    let ghost mm = m as int;
    let ghost tv = rows_view(mat@);
    let mut rows: Vec<Vec<usize>> = Vec::new();
    let mut last: Vec<usize> = Vec::new();
    let mut j: usize = 0;
    while j <= m
        invariant
            j <= m + 1,
            m < usize::MAX,
            last@.len() == j,
            forall|k: int| 0 <= k < j ==> last@[k] == 0,
        decreases m + 1 - j,
    {
        last.push(0);
        j = j + 1;
    }
    proof {
        assert forall|k: int| 0 <= k <= mm implies last@[k] == chain_len(tv, nn, mm, nn, k) by {}
    }
    rows.push(last);
    let mut i: usize = n;
    while i > 0
        invariant
            n == mat@.len(),
            nn == n,
            mm == m,
            m < usize::MAX,
            table_shape(mat@, nn, mm),
            tv == rows_view(mat@),
            i <= n,
            rows@.len() == n - i + 1,
            forall|r: int| 0 <= r < rows@.len() ==> (#[trigger] rows@[r])@.len() == m + 1,
            forall|r: int, k: int|
                0 <= r < rows@.len() && 0 <= k <= m ==> #[trigger] rows@[r]@[k] == chain_len(tv, nn, mm, nn - r, k),
        decreases i,
    {
        let ii = i - 1;
        let below = &rows[rows.len() - 1];
        assert(below@.len() == m + 1);
        let mut cur: Vec<usize> = Vec::new();
        let mut z: usize = 0;
        while z <= m
            invariant
                z <= m + 1,
                m < usize::MAX,
                cur@.len() == z,
                forall|k: int| 0 <= k < z ==> cur@[k] == 0,
            decreases m + 1 - z,
        {
            cur.push(0);
            z = z + 1;
        }
        let row = &mat[ii];
        assert(row@.len() == m);
        assert(cur@[m as int] == chain_len(tv, nn, mm, ii as int, mm));
        let mut jj: usize = m;
        while jj > 0
            invariant
                ii < n,
                n == mat@.len(),
                nn == n,
                mm == m,
                table_shape(mat@, nn, mm),
            tv == rows_view(mat@),
                row == &mat@[ii as int],
                row@.len() == m,
                below@.len() == m + 1,
                forall|k: int| 0 <= k <= m ==> #[trigger] below@[k] == chain_len(tv, nn, mm, ii + 1, k),
                jj <= m,
                cur@.len() == m + 1,
                cur@[m as int] == 0,
                forall|k: int| jj <= k <= m ==> #[trigger] cur@[k] == chain_len(tv, nn, mm, ii as int, k),
            decreases jj,
        {
            let c = jj - 1;
            proof {
                lemma_chain_len_bound(tv, nn, mm, ii + 1, c + 1);
                lemma_chain_len_bound(tv, nn, mm, ii + 1, c as int);
                lemma_chain_len_bound(tv, nn, mm, ii as int, c + 1);
            }
            let v = if row[c] {
                below[c + 1] + 1
            } else if below[c] >= cur[c + 1] {
                below[c]
            } else {
                cur[c + 1]
            };
            cur.set(c, v);
            jj = c;
        }
        proof {
            assert(cur@[m as int] == chain_len(tv, nn, mm, ii as int, mm));
        }
        let ghost before = rows@;
        rows.push(cur);
        proof {
            assert forall|r: int| 0 <= r < rows@.len() implies (#[trigger] rows@[r])@.len() == m + 1 by {
                if r < before.len() {
                    assert(rows@[r] == before[r]);
                }
            }
            assert forall|r: int, k: int|
                0 <= r < rows@.len() && 0 <= k <= m implies #[trigger] rows@[r]@[k] == chain_len(
                tv,
                nn,
                mm,
                nn - r,
                k,
            ) by {
                if r < before.len() {
                    assert(rows@[r] == before[r]);
                }
            }
        }
        i = ii;
    }
    let mut pairs: Vec<(usize, usize)> = Vec::new();
    let mut a: usize = 0;
    let mut b: usize = 0;
    while a < n && b < m
        invariant
            n == mat@.len(),
            nn == n,
            mm == m,
            m < usize::MAX,
            table_shape(mat@, nn, mm),
            tv == rows_view(mat@),
            a <= n,
            b <= m,
            rows@.len() == n + 1,
            forall|r: int| 0 <= r < rows@.len() ==> (#[trigger] rows@[r])@.len() == m + 1,
            forall|r: int, k: int|
                0 <= r < rows@.len() && 0 <= k <= m ==> #[trigger] rows@[r]@[k] == chain_len(tv, nn, mm, nn - r, k),
            pairs_view(pairs@) + chain_pairs(tv, nn, mm, a as int, b as int) == chain_pairs(tv, nn, mm, 0, 0),
        decreases (n - a) + (m - b),
    {
        let here = &rows[n - a];
        let next = &rows[n - a - 1];
        let ghost rest = chain_pairs(tv, nn, mm, a as int, b as int);
        proof {
            lemma_chain_len_bound(tv, nn, mm, a + 1, b + 1);
        }
        if here[b] == next[b + 1] + 1 && mat[a][b] {
            let ghost before = pairs@;
            pairs.push((a, b));
            proof {
                assert(pairs_view(pairs@) =~= pairs_view(before).push((a as int, b as int)));
                assert(rest == seq![(a as int, b as int)] + chain_pairs(tv, nn, mm, a + 1, b + 1));
                assert(pairs_view(pairs@) + chain_pairs(tv, nn, mm, a + 1, b + 1) =~= pairs_view(before)
                    + rest);
            }
            a = a + 1;
            b = b + 1;
        } else if next[b] >= here[b + 1] {
            a = a + 1;
        } else {
            b = b + 1;
        }
    }
    proof {
        assert(chain_pairs(tv, nn, mm, a as int, b as int) =~= Seq::<(int, int)>::empty());
        assert(pairs_view(pairs@) + Seq::<(int, int)>::empty() =~= pairs_view(pairs@));
    }
    pairs
}

/// The alignment pairs only matching pages, keeps the order of both
/// documents (each page at most once), and takes as many pairs as the
/// chain length says.
pub proof fn lemma_alignment_is_an_ordered_matching(mat: Seq<Seq<bool>>, n: int, m: int, i: int, j: int)
    requires
        0 <= i <= n,
        0 <= j <= m,
    ensures
        ({
            let p = chain_pairs(mat, n, m, i, j);
            &&& p.len() == chain_len(mat, n, m, i, j)
            &&& forall|k: int|
                0 <= k < p.len() ==> i <= (#[trigger] p[k]).0 < n && j <= p[k].1 < m && mat[p[k].0][p[k].1]
            &&& forall|k: int, l: int| 0 <= k < l < p.len() ==> (#[trigger] p[k]).0 < (#[trigger] p[l]).0 && p[k].1 < p[l].1
        }),
    decreases (n - i) + (m - j),
{
    if i < n && j < m {
        lemma_alignment_is_an_ordered_matching(mat, n, m, i + 1, j + 1);
        lemma_alignment_is_an_ordered_matching(mat, n, m, i + 1, j);
        lemma_alignment_is_an_ordered_matching(mat, n, m, i, j + 1);
        let p = chain_pairs(mat, n, m, i, j);
        if chain_len(mat, n, m, i, j) == chain_len(mat, n, m, i + 1, j + 1) + 1 && mat[i][j] {
            let q = chain_pairs(mat, n, m, i + 1, j + 1);
            assert(p == seq![(i, j)] + q);
            assert forall|k: int| 0 <= k < p.len() implies i <= (#[trigger] p[k]).0 < n && j <= p[k].1 < m
                && mat[p[k].0][p[k].1] by {
                if k > 0 {
                    assert(p[k] == q[k - 1]);
                }
            }
            assert forall|k: int, l: int| 0 <= k < l < p.len() implies (#[trigger] p[k]).0 < (#[trigger] p[l]).0
                && p[k].1 < p[l].1 by {
                assert(p[l] == q[l - 1]);
                if k > 0 {
                    assert(p[k] == q[k - 1]);
                }
            }
        }
    }
}

/// The words of `ws` without repeats, each where it first occurs.
pub open spec fn distinct(ws: Seq<Seq<char>>) -> Seq<Seq<char>>
    decreases ws.len(),
{
    if ws.len() == 0 {
        Seq::empty()
    } else {
        let d = distinct(ws.drop_last());
        if d.contains(ws.last()) {
            d
        } else {
            d.push(ws.last())
        }
    }
}

/// How many words of `da` occur in `db`.
pub open spec fn shared(da: Seq<Seq<char>>, db: Seq<Seq<char>>) -> nat
    decreases da.len(),
{
    if da.len() == 0 {
        0
    } else {
        shared(da.drop_last(), db) + if db.contains(da.last()) {
            1nat
        } else {
            0nat
        }
    }
}

/// Whether `w` is one of the words of `v`.
fn contains_word(v: &Vec<Vec<char>>, w: &Vec<char>) -> (r: bool)
    ensures
        r == char_vecs_view(v@).contains(w@),
{
    let mut k: usize = 0;
    while k < v.len()
        invariant
            k <= v@.len(),
            forall|j: int| 0 <= j < k ==> (#[trigger] v@[j])@ != w@,
        decreases v.len() - k,
    {
        if chars_eq(&v[k], w) {
            assert(char_vecs_view(v@)[k as int] == w@);
            return true;
        }
        k = k + 1;
    }
    proof {
        if char_vecs_view(v@).contains(w@) {
            let j = choose|j: int| 0 <= j < v@.len() && char_vecs_view(v@)[j] == w@;
            assert(v@[j]@ == w@);
        }
    }
    false
}

/// The distinct words of `s`, in order of first occurrence.
fn distinct_words(s: &str) -> (r: Vec<Vec<char>>)
    ensures
        char_vecs_view(r@) == distinct(split_ws(s@)),
{
    let cs = chars_of(s);
    let ws = split_whitespace(&cs);
    let ghost wv = char_vecs_view(ws@);
    let mut out: Vec<Vec<char>> = Vec::new();
    let mut i: usize = 0;
    while i < ws.len()
        invariant
            i <= ws@.len(),
            wv == char_vecs_view(ws@),
            char_vecs_view(out@) == distinct(wv.take(i as int)),
        decreases ws.len() - i,
    {
        assert(wv.take(i + 1).drop_last() =~= wv.take(i as int));
        assert(wv.take(i + 1).last() == ws@[i as int]@);
        if !contains_word(&out, &ws[i]) {
            let ghost before = char_vecs_view(out@);
            out.push(ws[i].clone());
            assert(char_vecs_view(out@) =~= before.push(ws@[i as int]@));
        }
        i = i + 1;
    }
    assert(wv.take(ws@.len() as int) =~= wv);
    out
}

/// How many of the words of `da` occur in `db`.
fn shared_count(da: &Vec<Vec<char>>, db: &Vec<Vec<char>>) -> (r: usize)
    ensures
        r == shared(char_vecs_view(da@), char_vecs_view(db@)),
        r <= da@.len(),
{
    let ghost av = char_vecs_view(da@);
    let ghost bv = char_vecs_view(db@);
    let mut n: usize = 0;
    let mut i: usize = 0;
    while i < da.len()
        invariant
            i <= da@.len(),
            av == char_vecs_view(da@),
            bv == char_vecs_view(db@),
            n == shared(av.take(i as int), bv),
            n <= i,
        decreases da.len() - i,
    {
        assert(av.take(i + 1).drop_last() =~= av.take(i as int));
        assert(av.take(i + 1).last() == da@[i as int]@);
        if contains_word(db, &da[i]) {
            n = n + 1;
        }
        i = i + 1;
    }
    assert(av.take(da@.len() as int) =~= av);
    n
}

/// Two page texts are alike enough to pair: the same text, both without
/// words, or sharing at least three fifths of the distinct words of either
/// (the shared words over all the words of both).
pub open spec fn texts_match(a: Seq<char>, b: Seq<char>) -> bool {
    let da = distinct(split_ws(a));
    let db = distinct(split_ws(b));
    let inter = shared(da, db);
    let union = da.len() + db.len() - inter;
    ||| a == b
    ||| (da.len() == 0 && db.len() == 0)
    ||| (union > 0 && 5 * inter >= 3 * union)
}

/// The distance between two positions.
pub open spec fn gap(x: int, y: int) -> int {
    if x >= y {
        x - y
    } else {
        y - x
    }
}

/// Page `i` of the first document (texts `ta`) and page `j` of the second
/// (texts `tb`) pair up: they lie within 25 pages, beyond the difference in
/// length, of each other, and their texts match.
pub open spec fn page_match(ta: Seq<Seq<char>>, tb: Seq<Seq<char>>, i: int, j: int) -> bool {
    gap(i, j) <= gap(ta.len() as int, tb.len() as int) + 25 && texts_match(ta[i], tb[j])
}

/// The table of which pages pair up.
pub open spec fn match_rows(ta: Seq<Seq<char>>, tb: Seq<Seq<char>>) -> Seq<Seq<bool>> {
    Seq::new(ta.len(), |i: int| Seq::new(tb.len(), |j: int| page_match(ta, tb, i, j)))
}

/// Whether the texts `a` and `b` of two pages match.
pub fn texts_alike(a: &str, b: &str) -> (r: bool)
    ensures
        r == texts_match(a@, b@),
{
    let av = chars_of(a);
    let bv = chars_of(b);
    if chars_eq(&av, &bv) {
        return true;
    }
    let da = distinct_words(a);
    let db = distinct_words(b);
    if da.len() == 0 && db.len() == 0 {
        return true;
    }
    let inter = shared_count(&da, &db);
    let union: u128 = da.len() as u128 + db.len() as u128 - inter as u128;
    union > 0 && 5 * (inter as u128) >= 3 * union
}

/// The difference between two positions.
fn gap_of(x: usize, y: usize) -> (r: usize)
    ensures
        r == gap(x as int, y as int),
{
    if x >= y {
        x - y
    } else {
        y - x
    }
}

/// Which page of the first document (texts `a`) pairs with which page of
/// the second (texts `b`).
pub fn match_table(a: &Vec<String>, b: &Vec<String>) -> (r: Vec<Vec<bool>>)
    ensures
        table_shape(r@, a@.len() as int, b@.len() as int),
        rows_view(r@) == match_rows(strings_view(a@), strings_view(b@)),
{
    let ghost ta = strings_view(a@);
    let ghost tb = strings_view(b@);
    let slack = gap_of(a.len(), b.len());
    let mut rows: Vec<Vec<bool>> = Vec::new();
    let mut i: usize = 0;
    while i < a.len()
        invariant
            i <= a@.len(),
            ta == strings_view(a@),
            tb == strings_view(b@),
            slack == gap(ta.len() as int, tb.len() as int),
            rows@.len() == i,
            forall|k: int| 0 <= k < i ==> (#[trigger] rows@[k])@ == match_rows(ta, tb)[k],
        decreases a.len() - i,
    {
        let mut row: Vec<bool> = Vec::new();
        let mut j: usize = 0;
        while j < b.len()
            invariant
                i < a@.len(),
                j <= b@.len(),
                ta == strings_view(a@),
                tb == strings_view(b@),
                slack == gap(ta.len() as int, tb.len() as int),
                row@.len() == j,
                forall|k: int| 0 <= k < j ==> row@[k] == page_match(ta, tb, i as int, k),
            decreases b.len() - j,
        {
            let d = gap_of(i, j);
            let m = if d >= 26 && d - 25 > slack {
                false
            } else {
                texts_alike(a[i].as_str(), b[j].as_str())
            };
            row.push(m);
            j = j + 1;
        }
        let ghost before = rows@;
        assert(row@ =~= match_rows(ta, tb)[i as int]);
        rows.push(row);
        assert forall|k: int| 0 <= k < i + 1 implies (#[trigger] rows@[k])@ == match_rows(ta, tb)[k] by {
            if k < i {
                assert(rows@[k] == before[k]);
            }
        }
        i = i + 1;
    }
    assert(rows_view(rows@) =~= match_rows(ta, tb));
    rows
}

/// The alignment of the pages of two documents by their texts: the chain
/// of pairs, in order, that `align` takes through the table of matches.
pub fn align_pages(a: &Vec<String>, b: &Vec<String>) -> (r: Vec<(usize, usize)>)
    requires
        b@.len() < usize::MAX,
    ensures
        pairs_view(r@) == chain_pairs(match_rows(strings_view(a@), strings_view(b@)), a@.len() as int, b@.len() as int, 0, 0),
{
    let mat = match_table(a, b);
    align(&mat, b.len())
}

/// `text` with the matches of `pattern` written `<data>` (unchanged when
/// the pattern does not compile).
pub open spec fn masked(pattern: Seq<char>, text: Seq<char>) -> Seq<char> {
    if crate::textns::regex_compiles(pattern) {
        crate::textns::regex_replaced(pattern, text, "<data>"@)
    } else {
        text
    }
}

/// The date patterns `--ignore-dates` masks, in the order applied:
/// `dd/mm/yy(yy)`, `yyyy-mm-dd`, `d de <mês> de yyyy` and PDF dates.
pub open spec fn date_patterns() -> Seq<Seq<char>> {
    seq![
        "\\b\\d{1,2}/\\d{1,2}/\\d{2,4}\\b"@,
        "\\b\\d{4}-\\d{2}-\\d{2}\\b"@,
        "\\b\\d{1,2} de [a-zç]+ de \\d{4}\\b"@,
        "D:\\d{8,14}"@,
    ]
}

/// The page text as the comparison sees it: dates masked when
/// `ignore_dates`, then normalised (lower case, white space collapsed) when
/// `normalize`.
pub open spec fn spec_prepare(text: Seq<char>, ignore_dates: bool, normalize: bool) -> Seq<char> {
    let p = date_patterns();
    let t = if ignore_dates {
        masked(p[3], masked(p[2], masked(p[1], masked(p[0], text))))
    } else {
        text
    };
    if normalize {
        crate::textns::spec_normalize(t)
    } else {
        t
    }
}

/// Masks the matches of `pattern` in `text` as `<data>`.
fn mask(pattern: &str, text: String) -> (r: String)
    ensures
        r@ == masked(pattern@, text@),
{
    let with = "<data>";
    proof {
        reveal_strlit("<data>");
    }
    match crate::textns::regex_replace_all(pattern, text.as_str(), with) {
        Some(t) => t,
        None => text,
    }
}

/// A page's text made ready for comparison (`--ignore-dates`,
/// `--normalize`).
pub fn prepare(text: &str, ignore_dates: bool, normalize: bool) -> (r: String)
    ensures
        r@ == spec_prepare(text@, ignore_dates, normalize),
{
    let mut t = crate::text::owned(text);
    if ignore_dates {
        let p0 = "\\b\\d{1,2}/\\d{1,2}/\\d{2,4}\\b";
        let p1 = "\\b\\d{4}-\\d{2}-\\d{2}\\b";
        let p2 = "\\b\\d{1,2} de [a-zç]+ de \\d{4}\\b";
        let p3 = "D:\\d{8,14}";
        proof {
            reveal_strlit("\\b\\d{1,2}/\\d{1,2}/\\d{2,4}\\b");
            reveal_strlit("\\b\\d{4}-\\d{2}-\\d{2}\\b");
            reveal_strlit("\\b\\d{1,2} de [a-zç]+ de \\d{4}\\b");
            reveal_strlit("D:\\d{8,14}");
            assert(p0@ == date_patterns()[0]);
            assert(p1@ == date_patterns()[1]);
            assert(p2@ == date_patterns()[2]);
            assert(p3@ == date_patterns()[3]);
        }
        t = mask(p0, t);
        t = mask(p1, t);
        t = mask(p2, t);
        t = mask(p3, t);
    }
    if normalize {
        t = crate::textns::normalize(t.as_str());
    }
    t
}

} // verus!
