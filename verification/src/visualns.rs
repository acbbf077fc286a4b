//! The integer image rules of the `visual::` functions on greyscale pages:
//! nearest-neighbour resizing, and the detection of banding (a gradient
//! that advances in wide steps instead of smoothly).

use vstd::prelude::*;

verus! {

/// The source row (or column) that output row `j` of `m` samples, out of
/// `n`: `j·n/m`, at most the last.
pub open spec fn sample(j: int, n: int, m: int) -> int {
    let s = j * n / m;
    if s < n - 1 {
        s
    } else {
        n - 1
    }
}

/// Output row `y` of a nearest-neighbour resize of an `sw`×`sh` page to
/// width `w` and height `h`.
pub open spec fn resized_row(px: Seq<u8>, sw: int, sh: int, w: int, h: int, y: int) -> Seq<u8> {
    Seq::new(w as nat, |x: int| px[sample(y, sh, h) * sw + sample(x, sw, w)])
}

/// The first `k` output rows, one after another.
pub open spec fn resized_rows(px: Seq<u8>, sw: int, sh: int, w: int, h: int, k: int) -> Seq<u8>
    decreases k,
{
    if k <= 0 {
        Seq::empty()
    } else {
        resized_rows(px, sw, sh, w, h, k - 1) + resized_row(px, sw, sh, w, h, k - 1)
    }
}

proof fn lemma_sample_in_range(j: int, n: int, m: int)
    requires
        0 <= j < m,
        1 <= n,
    ensures
        0 <= sample(j, n, m) < n,
        sample(j, n, m) == j * n / m || sample(j, n, m) == n - 1,
{
    assert(0 <= j * n / m) by (nonlinear_arith)
        requires
            0 <= j,
            1 <= n,
            0 < m,
    ;
}

proof fn lemma_index_in_page(sy: int, sx: int, sw: int, sh: int)
    requires
        0 <= sy < sh,
        0 <= sx < sw,
    ensures
        0 <= sy * sw + sx < sw * sh,
{
    assert(0 <= sy * sw + sx < sw * sh) by (nonlinear_arith)
        requires
            0 <= sy < sh,
            0 <= sx < sw,
    ;
}

/// Nearest-neighbour resize of an `sw`×`sh` greyscale page to `w`×`h`.
pub fn resize(src: &(u32, u32, Vec<u8>), w: u32, h: u32) -> (r: (u32, u32, Vec<u8>))
    requires
        src.2@.len() >= src.0 * src.1,
        w > 0 ==> src.0 >= 1,
        h > 0 ==> src.1 >= 1,
        w * h <= u32::MAX,
        src.0 * src.1 <= u32::MAX,
    ensures
        r.0 == w,
        r.1 == h,
        r.2@ == resized_rows(src.2@, src.0 as int, src.1 as int, w as int, h as int, h as int),
{
    let sw = src.0;
    let sh = src.1;
    let px = &src.2;
    let mut out: Vec<u8> = Vec::new();
    let mut y: u32 = 0;
    while y < h
        invariant
            y <= h,
            px@.len() >= sw * sh,
            sw * sh <= u32::MAX,
            w > 0 ==> sw >= 1,
            h > 0 ==> sh >= 1,
            out@ == resized_rows(px@, sw as int, sh as int, w as int, h as int, y as int),
        decreases h - y,
    {
        assert((y as u64) * (sh as u64) <= 0xffff_ffff * 0xffff_ffff) by (nonlinear_arith)
            requires
                y <= 0xffff_ffffu32,
                sh <= 0xffff_ffffu32,
        ;
        let q: u64 = (y as u64) * (sh as u64) / (h as u64);
        let sy: u32 = if q < (sh as u64) - 1 { q as u32 } else { sh - 1 };
        proof {
            lemma_sample_in_range(y as int, sh as int, h as int);
        }
        assert(sy == sample(y as int, sh as int, h as int));
        let ghost start = out@;
        let mut x: u32 = 0;
        while x < w
            invariant
                y < h,
                x <= w,
                px@.len() >= sw * sh,
                sw * sh <= u32::MAX,
                w > 0 ==> sw >= 1,
                sh >= 1,
                sy == sample(y as int, sh as int, h as int),
                0 <= sy < sh,
                out@ == start + resized_row(px@, sw as int, sh as int, w as int, h as int, y as int).take(
                    x as int,
                ),
            decreases w - x,
        {
            assert((x as u64) * (sw as u64) <= 0xffff_ffff * 0xffff_ffff) by (nonlinear_arith)
                requires
                    x <= 0xffff_ffffu32,
                    sw <= 0xffff_ffffu32,
            ;
            let p: u64 = (x as u64) * (sw as u64) / (w as u64);
            let sx: u32 = if p < (sw as u64) - 1 { p as u32 } else { sw - 1 };
            proof {
                lemma_sample_in_range(x as int, sw as int, w as int);
                lemma_index_in_page(sy as int, sx as int, sw as int, sh as int);
            }
            assert(sx == sample(x as int, sw as int, w as int));
            let v = px[(sy * sw + sx) as usize];
            out.push(v);
            assert(resized_row(px@, sw as int, sh as int, w as int, h as int, y as int).take(x + 1)
                =~= resized_row(px@, sw as int, sh as int, w as int, h as int, y as int).take(
                x as int,
            ).push(v));
            x = x + 1;
        }
        assert(resized_row(px@, sw as int, sh as int, w as int, h as int, y as int).take(w as int)
            =~= resized_row(px@, sw as int, sh as int, w as int, h as int, y as int));
        y = y + 1;
    }
    (w, h, out)
}

/// Equal sizes stay as they are; otherwise both pages are resampled to the
/// smaller width and height (at least 1).
pub fn resize_to_match(a: (u32, u32, Vec<u8>), b: (u32, u32, Vec<u8>)) -> (r: ((u32, u32, Vec<u8>), (u32, u32, Vec<u8>)))
    requires
        a.2@.len() >= a.0 * a.1,
        b.2@.len() >= b.0 * b.1,
        a.0 * a.1 <= u32::MAX,
        b.0 * b.1 <= u32::MAX,
        a.0 >= 1 && a.1 >= 1 && b.0 >= 1 && b.1 >= 1 || (a.0 == b.0 && a.1 == b.1),
    ensures
        a.0 == b.0 && a.1 == b.1 ==> r.0 == a && r.1 == b,
        !(a.0 == b.0 && a.1 == b.1) ==> {
            let w: int = if a.0 < b.0 { a.0 as int } else { b.0 as int };
            let h: int = if a.1 < b.1 { a.1 as int } else { b.1 as int };
            &&& r.0.0 == w && r.0.1 == h
            &&& r.1.0 == w && r.1.1 == h
            &&& r.0.2@ == resized_rows(a.2@, a.0 as int, a.1 as int, w, h, h)
            &&& r.1.2@ == resized_rows(b.2@, b.0 as int, b.1 as int, w, h, h)
        },
{
    if a.0 == b.0 && a.1 == b.1 {
        return (a, b);
    }
    let w0 = if a.0 < b.0 { a.0 } else { b.0 };
    let h0 = if a.1 < b.1 { a.1 } else { b.1 };
    let w = if w0 > 1 { w0 } else { 1 };
    let h = if h0 > 1 { h0 } else { 1 };
    assert(w as int * h as int <= a.0 as int * a.1 as int) by (nonlinear_arith)
        requires
            1 <= w <= a.0,
            1 <= h <= a.1,
    ;
    let ra = resize(&a, w, h);
    let rb = resize(&b, w, h);
    (ra, rb)
}


/// The step from sample `i` to sample `i + 1` of a line.
pub open spec fn delta(line: Seq<u8>, i: int) -> int {
    line[i + 1] as int - line[i] as int
}

/// A step of at least 4 levels, either way.
pub open spec fn is_jump(line: Seq<u8>, i: int) -> bool {
    delta(line, i) >= 4 || delta(line, i) <= -4
}

/// How many of the first `k` steps change the level.
pub open spec fn count_changes(line: Seq<u8>, k: int) -> nat
    decreases k,
{
    if k <= 0 {
        0
    } else {
        count_changes(line, k - 1) + if delta(line, k - 1) != 0 {
            1nat
        } else {
            0nat
        }
    }
}

/// How many of the first `k` steps are jumps.
pub open spec fn count_jumps(line: Seq<u8>, k: int) -> nat
    decreases k,
{
    if k <= 0 {
        0
    } else {
        count_jumps(line, k - 1) + if is_jump(line, k - 1) {
            1nat
        } else {
            0nat
        }
    }
}

/// How many of the first `k` steps are jumps upwards.
pub open spec fn count_rises(line: Seq<u8>, k: int) -> nat
    decreases k,
{
    if k <= 0 {
        0
    } else {
        count_rises(line, k - 1) + if delta(line, k - 1) >= 4 {
            1nat
        } else {
            0nat
        }
    }
}

/// The first jump among the first `k` steps.
pub open spec fn first_jump(line: Seq<u8>, k: int) -> Option<int>
    decreases k,
{
    if k <= 0 {
        None
    } else {
        match first_jump(line, k - 1) {
            Some(i) => Some(i),
            None => if is_jump(line, k - 1) {
                Some(k - 1)
            } else {
                None
            },
        }
    }
}

/// The last jump among the first `k` steps.
pub open spec fn last_jump(line: Seq<u8>, k: int) -> Option<int>
    decreases k,
{
    if k <= 0 {
        None
    } else if is_jump(line, k - 1) {
        Some(k - 1)
    } else {
        last_jump(line, k - 1)
    }
}

/// A line shows banding: at least four changes of level, but no more than
/// one per eight samples (wide plateaus, not texture); at least three
/// jumps, at least 80% of them the same way (a gradient, not text); and
/// jumps on average at least 4 samples apart (the distance from the first
/// to the last jump is at least 4 per gap).
pub open spec fn banding_in(line: Seq<u8>) -> bool {
    let n: int = if line.len() >= 2 {
        line.len() - 1
    } else {
        0
    };
    let changes = count_changes(line, n);
    let j = count_jumps(line, n);
    let rises = count_rises(line, n);
    let dominant: int = if rises >= j - rises {
        rises as int
    } else {
        j - rises
    };
    &&& changes >= 4
    &&& changes <= line.len() / 8
    &&& j >= 3
    &&& dominant * 5 >= j * 4
    &&& match (first_jump(line, n), last_jump(line, n)) {
        (Some(a), Some(b)) => b - a >= 4 * (j - 1),
        _ => false,
    }
}

proof fn lemma_counts_bounded(line: Seq<u8>, k: int)
    requires
        0 <= k,
    ensures
        count_changes(line, k) <= k,
        count_rises(line, k) <= count_jumps(line, k) <= k,
        count_jumps(line, k) > 0 <==> first_jump(line, k) is Some,
        count_jumps(line, k) > 0 <==> last_jump(line, k) is Some,
        first_jump(line, k) matches Some(a) ==> 0 <= a < k,
        first_jump(line, k) is Some ==> last_jump(line, k) is Some && first_jump(line, k)->0 <= last_jump(line, k)->0 < k,
    decreases k,
{
    if k > 0 {
        lemma_counts_bounded(line, k - 1);
    }
}

fn banding_line(line: &Vec<u8>) -> (r: bool)
    requires
        line@.len() <= u32::MAX,
    ensures
        r == banding_in(line@),
{
    let n: usize = if line.len() >= 2 { line.len() - 1 } else { 0 };
    let mut changes: usize = 0;
    let mut jumps: usize = 0;
    let mut rises: usize = 0;
    let mut first: Option<usize> = None;
    let mut last: Option<usize> = None;
    let mut i: usize = 0;
    while i < n
        invariant
            i <= n,
            n == (if line@.len() >= 2 { line@.len() - 1 } else { 0 }),
            changes == count_changes(line@, i as int),
            jumps == count_jumps(line@, i as int),
            rises == count_rises(line@, i as int),
            first == (match first_jump(line@, i as int) {
                Some(a) => Some(a as usize),
                None => None::<usize>,
            }),
            last == (match last_jump(line@, i as int) {
                Some(a) => Some(a as usize),
                None => None::<usize>,
            }),
            changes <= i,
            rises <= jumps <= i,
            n <= u32::MAX,
        decreases n - i,
    {
        proof {
            lemma_counts_bounded(line@, i as int);
        }
        let d: i32 = (line[i + 1] as i32) - (line[i] as i32);
        if d != 0 {
            changes = changes + 1;
        }
        if d >= 4 || d <= -4 {
            jumps = jumps + 1;
            if first.is_none() {
                first = Some(i);
            }
            last = Some(i);
        }
        if d >= 4 {
            rises = rises + 1;
        }
        i = i + 1;
    }
    proof {
        lemma_counts_bounded(line@, n as int);
    }
    if changes < 4 {
        return false;
    }
    if changes > line.len() / 8 {
        return false;
    }
    if jumps < 3 {
        return false;
    }
    let dominant: u64 = if rises >= jumps - rises { rises as u64 } else { (jumps - rises) as u64 };
    if dominant * 5 < (jumps as u64) * 4 {
        return false;
    }
    match (first, last) {
        (Some(a), Some(b)) => b >= a && (b - a) / 4 >= jumps - 1,
        _ => false,
    }
}

/// The `x`-th column of a `w`-wide page of height `h`.
pub open spec fn column(px: Seq<u8>, w: int, h: int, x: int) -> Seq<u8> {
    Seq::new(h as nat, |y: int| px[y * w + x])
}

/// The `y`-th row of a `w`-wide page.
pub open spec fn row(px: Seq<u8>, w: int, y: int) -> Seq<u8> {
    px.subrange(y * w, y * w + w)
}

/// How many of the columns `x, x + step, …` before `end` show banding.
pub open spec fn column_suspects(px: Seq<u8>, w: int, h: int, x: int, end: int, step: int) -> nat
    decreases (if x < end {
        end - x
    } else {
        0
    }),
{
    if x >= end || step <= 0 {
        0
    } else {
        (if banding_in(column(px, w, h, x)) {
            1nat
        } else {
            0nat
        }) + column_suspects(px, w, h, x + step, end, step)
    }
}

/// How many of the rows `y, y + step, …` before `end` show banding.
pub open spec fn row_suspects(px: Seq<u8>, w: int, y: int, end: int, step: int) -> nat
    decreases (if y < end {
        end - y
    } else {
        0
    }),
{
    if y >= end || step <= 0 {
        0
    } else {
        (if banding_in(row(px, w, y)) {
            1nat
        } else {
            0nat
        }) + row_suspects(px, w, y + step, end, step)
    }
}

/// At least three of the sampled columns and rows of the middle half of the
/// page (every sixteenth of its size) show banding; pages under 32 samples
/// either way never do.
pub open spec fn spec_has_banding(px: Seq<u8>, w: int, h: int) -> bool {
    let cs: int = if w / 16 > 1 {
        w / 16
    } else {
        1
    };
    let rs: int = if h / 16 > 1 {
        h / 16
    } else {
        1
    };
    w >= 32 && h >= 32 && column_suspects(px, w, h, w / 4, w * 3 / 4, cs) + row_suspects(
        px,
        w,
        h / 4,
        h * 3 / 4,
        rs,
    ) >= 3
}

/// Banding: a gradient that jumps instead of varying smoothly, looked for
/// in columns and rows since its direction is not known.
pub fn has_banding(px: &Vec<u8>, w: u32, h: u32) -> (r: bool)
    requires
        px@.len() >= w * h,
        w * h <= u32::MAX,
    ensures
        r == spec_has_banding(px@, w as int, h as int),
{
    if w < 32 || h < 32 {
        return false;
    }
    proof {
        assert(w as int * 3 <= u32::MAX) by (nonlinear_arith)
            requires
                w * h <= u32::MAX,
                h >= 32,
        ;
        assert(h as int * 3 <= u32::MAX) by (nonlinear_arith)
            requires
                w * h <= u32::MAX,
                w >= 32,
        ;
    }
    let cstep: u32 = if w / 16 > 1 { w / 16 } else { 1 };
    let rstep: u32 = if h / 16 > 1 { h / 16 } else { 1 };
    let cend: u32 = w * 3 / 4;
    let rend: u32 = h * 3 / 4;
    let mut suspects: u64 = 0;
    let mut x: u32 = w / 4;
    let ghost total_c = column_suspects(px@, w as int, h as int, (w / 4) as int, cend as int, cstep as int);
    while x < cend
        invariant
            px@.len() >= w * h,
            w * h <= u32::MAX,
            32 <= w,
            cend == w * 3 / 4,
            1 <= cstep <= w,
            w * 3 <= u32::MAX,
            cend < w,
            x <= cend + cstep,
            suspects + column_suspects(px@, w as int, h as int, x as int, cend as int, cstep as int)
                == total_c,
            suspects <= x,
        decreases cend + cstep - x,
    {
        let mut col: Vec<u8> = Vec::new();
        let mut y: u32 = 0;
        while y < h
            invariant
                y <= h,
                x < cend < w,
                px@.len() >= w * h,
                w * h <= u32::MAX,
                col@ == column(px@, w as int, h as int, x as int).take(y as int),
            decreases h - y,
        {
            proof {
                lemma_index_in_page(y as int, x as int, w as int, h as int);
            }
            let v = px[(y * w + x) as usize];
            col.push(v);
            assert(column(px@, w as int, h as int, x as int).take(y + 1) =~= column(
                px@,
                w as int,
                h as int,
                x as int,
            ).take(y as int).push(v));
            y = y + 1;
        }
        assert(column(px@, w as int, h as int, x as int).take(h as int) =~= column(
            px@,
            w as int,
            h as int,
            x as int,
        ));
        if banding_line(&col) {
            suspects = suspects + 1;
        }
        x = x + cstep;
    }
    let ghost total_r = row_suspects(px@, w as int, (h / 4) as int, rend as int, rstep as int);
    let mut y: u32 = h / 4;
    let mut rows_found: u64 = 0;
    while y < rend
        invariant
            px@.len() >= w * h,
            w * h <= u32::MAX,
            32 <= h,
            32 <= w,
            h * 3 <= u32::MAX,
            rend < h,
            rend == h * 3 / 4,
            1 <= rstep <= h,
            y <= rend + rstep,
            rows_found + row_suspects(px@, w as int, y as int, rend as int, rstep as int) == total_r,
            rows_found <= y,
        decreases rend + rstep - y,
    {
        proof {
            lemma_index_in_page(y as int, 0, w as int, h as int);
            assert((y as int + 1) * w as int <= h as int * w as int) by (nonlinear_arith)
                requires
                    y < h,
            ;
            assert(h as int * w as int == w as int * h as int) by (nonlinear_arith);
            assert((y as int + 1) * w as int == y as int * w as int + w as int) by (nonlinear_arith);
        }
        let start: usize = (y * w) as usize;
        assert(start as int + w as int <= px@.len());
        let stop: usize = start + w as usize;
        let line = crate::text::slice_bytes(px, start, stop);
        assert(line@ =~= row(px@, w as int, y as int));
        if banding_line(&line) {
            rows_found = rows_found + 1;
        }
        y = y + rstep;
    }
    suspects + rows_found >= 3
}

/// Grey level `v` occurs in `px`.
pub open spec fn level_seen(px: Seq<u8>, v: int) -> bool {
    exists|i: int| 0 <= i < px.len() && px[i] == v
}

/// How many of the grey levels below `v` occur in `px`.
pub open spec fn level_count(px: Seq<u8>, v: nat) -> nat
    decreases v,
{
    if v == 0 {
        0
    } else {
        level_count(px, (v - 1) as nat) + if level_seen(px, v - 1) {
            1nat
        } else {
            0nat
        }
    }
}

/// A posterized page: its grey levels span more than 60 steps, yet fewer
/// than 24 distinct levels occur.
pub open spec fn spec_posterized(px: Seq<u8>) -> bool {
    &&& exists|i: int, j: int| 0 <= i < px.len() && 0 <= j < px.len() && px[i] - px[j] > 60
    &&& level_count(px, 256) < 24
}

/// Whether a grey page is posterized (`visual::detect_posterization`).
pub fn posterized(px: &Vec<u8>) -> (r: bool)
    ensures
        r == spec_posterized(px@),
{
    let mut seen: Vec<bool> = Vec::new();
    let mut z: usize = 0;
    while z < 256
        invariant
            z <= 256,
            seen@.len() == z,
            forall|v: int| 0 <= v < z ==> !seen@[v],
        decreases 256 - z,
    {
        seen.push(false);
        z = z + 1;
    }
    if px.len() == 0 {
        return false;
    }
    let mut hi: u8 = px[0];
    let mut lo: u8 = px[0];
    let mut hi_at: usize = 0;
    let mut lo_at: usize = 0;
    let mut k: usize = 0;
    while k < px.len()
        invariant
            k <= px@.len(),
            px@.len() > 0,
            seen@.len() == 256,
            forall|v: int| 0 <= v < 256 ==> (seen@[v] <==> exists|i: int| 0 <= i < k && px@[i] == v),
            hi_at < px@.len() && lo_at < px@.len(),
            px@[hi_at as int] == hi && px@[lo_at as int] == lo,
            forall|i: int| 0 <= i < k ==> lo <= #[trigger] px@[i] <= hi,
        decreases px.len() - k,
    {
        let p = px[k];
        let ghost before = seen@;
        seen.set(p as usize, true);
        assert forall|v: int| 0 <= v < 256 implies (seen@[v] <==> exists|i: int| 0 <= i < k + 1 && px@[i] == v) by {
            if v == p as int {
                assert(px@[k as int] == v);
            } else {
                assert(seen@[v] == before[v]);
                if exists|i: int| 0 <= i < k + 1 && px@[i] == v {
                    let i = choose|i: int| 0 <= i < k + 1 && px@[i] == v;
                    assert(i < k);
                }
            }
        }
        if p > hi {
            hi = p;
            hi_at = k;
        }
        if p < lo {
            lo = p;
            lo_at = k;
        }
        k = k + 1;
    }
    let mut levels: usize = 0;
    let mut v: usize = 0;
    while v < 256
        invariant
            v <= 256,
            seen@.len() == 256,
            forall|u: int| 0 <= u < 256 ==> (seen@[u] <==> level_seen(px@, u)),
            levels == level_count(px@, v as nat),
            levels <= v,
        decreases 256 - v,
    {
        if seen[v] {
            levels = levels + 1;
        }
        v = v + 1;
    }
    let spread = hi - lo > 60;
    proof {
        if spread {
            assert(px@[hi_at as int] - px@[lo_at as int] > 60);
        } else {
            assert forall|i: int, j: int| 0 <= i < px@.len() && 0 <= j < px@.len() implies !(px@[i] - px@[j] > 60) by {
                assert(lo <= px@[i] <= hi);
                assert(lo <= px@[j] <= hi);
            }
        }
    }
    spread && levels < 24
}

} // verus!
