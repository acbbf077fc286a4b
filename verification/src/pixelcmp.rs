//! The integer side of the pixel comparison of two rendered pages: the page
//! buffer and how it is read, the three kinds of change and their overlay
//! colours, and the grouping of changed pixels into blocks a person can act
//! on.

use vstd::prelude::*;

verus! {

/// What one pixel turned out to be.
#[derive(Debug, Clone, Copy, PartialEq, Eq, Structural)]
pub enum Change {
    Same,
    /// Darker in A: content that was there and is not any more.
    Removed,
    /// Darker in B: content that was not there before.
    Added,
    /// Same weight, different colour.
    Recoloured,
}

/// The overlay colour of a change: transparent where nothing changed, red
/// for a loss, green for an addition, blue for a recolour.
pub open spec fn change_rgba(c: Change) -> Seq<u8> {
    match c {
        Change::Same => seq![0u8, 0u8, 0u8, 0u8],
        Change::Removed => seq![220u8, 38u8, 38u8, 255u8],
        Change::Added => seq![22u8, 163u8, 74u8, 255u8],
        Change::Recoloured => seq![37u8, 99u8, 235u8, 255u8],
    }
}

impl Change {
    /// The overlay colour.
    pub fn rgba(self) -> (r: [u8; 4])
        ensures
            r@ == change_rgba(self),
    {
        let r: [u8; 4] = match self {
            Change::Same => [0, 0, 0, 0],
            Change::Removed => [220, 38, 38, 255],
            Change::Added => [22, 163, 74, 255],
            Change::Recoloured => [37, 99, 235, 255],
        };
        assert(r@ =~= change_rgba(self));
        r
    }
}

/// A page rendered to RGBA, row by row, four bytes a pixel.
pub struct Page {
    pub width: u32,
    pub height: u32,
    pub rgba: Vec<u8>,
}

/// The white that lies outside every page.
pub open spec fn white() -> Seq<u8> {
    seq![255u8, 255u8, 255u8, 255u8]
}

impl Page {
    /// The buffer holds exactly the page's pixels, and every byte offset of
    /// the page fits the `u32` arithmetic that addresses it.
    pub open spec fn wf(&self) -> bool {
        &&& self.rgba@.len() >= 4 * self.width * self.height
        &&& 4 * self.width * self.height <= u32::MAX
        &&& self.width <= i32::MAX
        &&& self.height <= i32::MAX
    }

    /// The pixel at `(x, y)`; outside the page, white.
    pub open spec fn pixel(&self, x: int, y: int) -> Seq<u8> {
        if x < 0 || y < 0 || x >= self.width || y >= self.height {
            white()
        } else {
            let i = 4 * (y * self.width + x);
            self.rgba@.subrange(i, i + 4)
        }
    }

    /// A page from its size and pixels.
    pub fn new(width: u32, height: u32, rgba: Vec<u8>) -> (p: Page)
        ensures
            p.width == width,
            p.height == height,
            p.rgba@ == rgba@,
    {
        Page { width, height, rgba }
    }

    /// The pixel at `(x, y)`. Outside the page is white, not transparent: a
    /// page that is simply larger reads as "this area was added".
    pub fn at(&self, x: i32, y: i32) -> (r: [u8; 4])
        requires
            self.wf(),
        ensures
            r@ == self.pixel(x as int, y as int),
    {
        if x < 0 || y < 0 || x >= self.width as i32 || y >= self.height as i32 {
            let r: [u8; 4] = [255, 255, 255, 255];
            assert(r@ =~= white());
            return r;
        }
        proof {
            lemma_offset_in_page(x as int, y as int, self.width as int, self.height as int);
        }
        let i = ((y as u32 * self.width + x as u32) * 4) as usize;
        let r: [u8; 4] = [self.rgba[i], self.rgba[i + 1], self.rgba[i + 2], self.rgba[i + 3]];
        assert(r@ =~= self.pixel(x as int, y as int));
        r
    }
}

/// A cell `(x, y)` of a `w`-by-`h` grid lies before its end.
pub proof fn lemma_offset_in_page(x: int, y: int, w: int, h: int)
    requires
        0 <= x < w,
        0 <= y < h,
    ensures
        0 <= y * w + x,
        y * w + x + 1 <= w * h,
        y * w + x + 1 <= h * w,
        4 * (y * w + x) + 4 <= 4 * w * h,
{
    assert(w * h == h * w) by (nonlinear_arith);
    assert(y * w + x + 1 <= w * h) by (nonlinear_arith)
        requires
            0 <= x < w,
            0 <= y < h,
    ;
    assert(0 <= y * w) by (nonlinear_arith)
        requires
            0 <= y,
            0 <= w,
    ;
    assert(4 * w * h == 4 * (w * h)) by (nonlinear_arith);
}

/// A changed area, in pixels of the rendered page.
#[derive(Debug, Clone, Copy, PartialEq, Eq, Structural)]
pub struct Region {
    pub x: u32,
    pub y: u32,
    pub width: u32,
    pub height: u32,
}

/// The side of the square blocks that changes are grouped into.
pub const BLOCK: u32 = 32;

/// Some pixel of `mask` (a `w`-wide grid) in columns `bx..ex` and rows
/// `by..ey` is set.
pub open spec fn block_touched(mask: Seq<bool>, w: int, bx: int, by: int, ex: int, ey: int) -> bool {
    exists|x: int, y: int| bx <= x < ex && by <= y < ey && #[trigger] mask[y * w + x]
}

/// The end of a block that starts at `start`, cut at `limit`.
pub open spec fn block_end(start: int, limit: int) -> int {
    if start + BLOCK < limit {
        start + BLOCK
    } else {
        limit
    }
}

/// The touched blocks of the row of blocks at `by`, from column `bx` on.
pub open spec fn row_regions(mask: Seq<bool>, w: int, h: int, by: int, bx: int) -> Seq<Region>
    decreases w - bx,
{
    if bx >= w || bx < 0 {
        Seq::empty()
    } else {
        let ex = block_end(bx, w);
        let ey = block_end(by, h);
        let here = if block_touched(mask, w, bx, by, ex, ey) {
            seq![Region { x: bx as u32, y: by as u32, width: (ex - bx) as u32, height: (ey - by) as u32 }]
        } else {
            Seq::empty()
        };
        here + row_regions(mask, w, h, by, ex)
    }
}

/// The touched blocks from the row of blocks at `by` down, row by row, each
/// row left to right.
pub open spec fn grid_regions(mask: Seq<bool>, w: int, h: int, by: int) -> Seq<Region>
    decreases h - by,
{
    if by >= h || by < 0 {
        Seq::empty()
    } else {
        row_regions(mask, w, h, by, 0) + grid_regions(mask, w, h, block_end(by, h))
    }
}

/// Whether a pixel in columns `bx..ex`, rows `by..ey` is set.
fn any_in_block(mask: &[bool], w: u32, bx: u32, by: u32, ex: u32, ey: u32) -> (r: bool)
    requires
        bx <= ex <= w,
        by <= ey,
        ey as int * w as int <= mask@.len(),
        ey as int * w as int <= u32::MAX,
    ensures
        r == block_touched(mask@, w as int, bx as int, by as int, ex as int, ey as int),
{
    let mut y = by;
    while y < ey
        invariant
            by <= y <= ey,
            bx <= ex <= w,
            ey as int * w as int <= mask@.len(),
            ey as int * w as int <= u32::MAX,
            !block_touched(mask@, w as int, bx as int, by as int, ex as int, y as int),
        decreases ey - y,
    {
        let mut x = bx;
        while x < ex
            invariant
                by <= y < ey,
                bx <= x <= ex <= w,
                ey as int * w as int <= mask@.len(),
                ey as int * w as int <= u32::MAX,
                !block_touched(mask@, w as int, bx as int, by as int, ex as int, y as int),
                forall|xx: int| bx <= xx < x ==> !#[trigger] mask@[y * w + xx],
            decreases ex - x,
        {
            proof {
                lemma_offset_in_page(x as int, y as int, w as int, ey as int);
            }
            let i = y * w + x;
            if mask[i as usize] {
                assert(mask@[y * w + x]);
                return true;
            }
            x = x + 1;
        }
        assert forall|xx: int, yy: int| bx <= xx < ex && by <= yy < y + 1 implies !#[trigger] mask@[yy * w + xx] by {
            if yy < y {
                assert(!block_touched(mask@, w as int, bx as int, by as int, ex as int, y as int));
            }
        }
        y = y + 1;
    }
    false
}

/// Groups changed pixels into boxes on a 32-pixel grid: a block is reported
/// when any pixel in it changed, cut at the edges of the page.
pub fn find_regions(mask: &[bool], w: u32, h: u32) -> (r: Vec<Region>)
    requires
        mask@.len() >= w * h,
        w * h <= u32::MAX,
    ensures
        r@ == grid_regions(mask@, w as int, h as int, 0),
{
    let mut regions: Vec<Region> = Vec::new();
    let mut by: u32 = 0;
    while by < h
        invariant
            mask@.len() >= w * h,
            w * h <= u32::MAX,
            by <= h,
            regions@ + grid_regions(mask@, w as int, h as int, by as int) == grid_regions(
                mask@,
                w as int,
                h as int,
                0,
            ),
        decreases h - by,
    {
        let ey: u32 = if h - by > BLOCK { by + BLOCK } else { h };
        let ghost g = grid_regions(mask@, w as int, h as int, ey as int);
        proof {
            assert(ey as int * w as int <= h as int * w as int) by (nonlinear_arith)
                requires
                    ey <= h,
            ;
            assert(regions@ + grid_regions(mask@, w as int, h as int, by as int) =~= regions@
                + row_regions(mask@, w as int, h as int, by as int, 0) + g);
        }
        let mut bx: u32 = 0;
        while bx < w
            invariant
                mask@.len() >= w * h,
                w * h <= u32::MAX,
                0 <= by < h,
                bx <= w,
                ey == block_end(by as int, h as int),
                ey as int * w as int <= h as int * w as int,
                g == grid_regions(mask@, w as int, h as int, ey as int),
                regions@ + row_regions(mask@, w as int, h as int, by as int, bx as int) + g
                    == grid_regions(mask@, w as int, h as int, 0),
            decreases w - bx,
        {
            let ex: u32 = if w - bx > BLOCK { bx + BLOCK } else { w };
            let touched = any_in_block(mask, w, bx, by, ex, ey);
            let ghost before = regions@;
            if touched {
                regions.push(Region { x: bx, y: by, width: ex - bx, height: ey - by });
            }
            let next: u32 = if w - bx > BLOCK { bx + BLOCK } else { w };
            proof {
                let rest = row_regions(mask@, w as int, h as int, by as int, next as int);
                assert(before + row_regions(mask@, w as int, h as int, by as int, bx as int)
                    =~= regions@ + rest);
            }
            bx = next;
        }
        let next: u32 = if h - by > BLOCK { by + BLOCK } else { h };
        proof {
            assert(regions@ + row_regions(mask@, w as int, h as int, by as int, bx as int)
                =~= regions@);
        }
        by = next;
    }
    proof {
        assert(regions@ + grid_regions(mask@, w as int, h as int, by as int) =~= regions@);
    }
    regions
}

/// The largest blur radius whose window sums fit the `u32` accumulators.
pub const MAX_BLUR_RADIUS: u32 = 8_421_504;

/// `v` held to `lo..=hi`.
pub open spec fn clamp_to(v: int, lo: int, hi: int) -> int {
    if v < lo {
        lo
    } else if v > hi {
        hi
    } else {
        v
    }
}

/// Channel `c` of the pixel at `(x, y)` of a `w`-wide RGBA buffer.
pub open spec fn channel(px: Seq<u8>, w: int, x: int, y: int, c: int) -> int {
    px[4 * (y * w + x) + c] as int
}

/// The pixel `n` places into the window of radius `r` around `(x, y)`, along
/// the row or down the column; past the edge of the page the edge pixel
/// repeats.
pub open spec fn window_cell(w: int, h: int, x: int, y: int, r: int, vertical: bool, n: int) -> (int, int) {
    if vertical {
        (x, clamp_to(y - r + n, 0, h - 1))
    } else {
        (clamp_to(x - r + n, 0, w - 1), y)
    }
}

/// The sum of channel `c` over the first `n` pixels of that window.
pub open spec fn window_sum(
    px: Seq<u8>,
    w: int,
    h: int,
    x: int,
    y: int,
    c: int,
    r: int,
    vertical: bool,
    n: nat,
) -> int
    decreases n,
{
    if n == 0 {
        0
    } else {
        let cell = window_cell(w, h, x, y, r, vertical, n - 1);
        window_sum(px, w, h, x, y, c, r, vertical, (n - 1) as nat) + channel(px, w, cell.0, cell.1, c)
    }
}

/// The mean of channel `c` over the whole window of `2r + 1` pixels, rounded
/// down.
pub open spec fn window_mean(px: Seq<u8>, w: int, h: int, x: int, y: int, c: int, r: int, vertical: bool) -> int {
    window_sum(px, w, h, x, y, c, r, vertical, (2 * r + 1) as nat) / (2 * r + 1)
}

/// The sum, down the first `n` rows of the column window around `(x, y)`, of
/// the row means.
pub open spec fn column_of_row_means(px: Seq<u8>, w: int, h: int, x: int, y: int, c: int, r: int, n: nat) -> int
    decreases n,
{
    if n == 0 {
        0
    } else {
        column_of_row_means(px, w, h, x, y, c, r, (n - 1) as nat) + window_mean(
            px,
            w,
            h,
            x,
            clamp_to(y - r + n - 1, 0, h - 1),
            c,
            r,
            false,
        )
    }
}

/// Channel `c` at `(x, y)` after the box blur of radius `r`: the mean down
/// the column of the means along the rows.
pub open spec fn box_blurred(px: Seq<u8>, w: int, h: int, x: int, y: int, c: int, r: int) -> int {
    column_of_row_means(px, w, h, x, y, c, r, (2 * r + 1) as nat) / (2 * r + 1)
}

/// A window sum stays within what `n` bytes can add up to.
proof fn lemma_window_sum_bounds(
    px: Seq<u8>,
    w: int,
    h: int,
    x: int,
    y: int,
    c: int,
    r: int,
    vertical: bool,
    n: nat,
)
    ensures
        0 <= window_sum(px, w, h, x, y, c, r, vertical, n) <= 255 * n,
    decreases n,
{
    if n > 0 {
        lemma_window_sum_bounds(px, w, h, x, y, c, r, vertical, (n - 1) as nat);
    }
}

/// The mean of at most `n` bytes is a byte.
proof fn lemma_mean_is_a_byte(s: u32, n: u32)
    requires
        s <= 255 * n,
        n > 0,
    ensures
        s / n <= 255,
{
    assert(s / n <= 255) by (nonlinear_arith)
        requires
            s <= 255 * n,
            n > 0,
    ;
}

/// A cell before `(x, y)` in reading order lies before it in the buffer.
proof fn lemma_cell_before(xx: int, yy: int, x: int, y: int, w: int)
    requires
        0 <= xx < w,
        0 <= x < w,
        yy < y || (yy == y && xx < x),
    ensures
        yy * w + xx + 1 <= y * w + x,
{
    if yy < y {
        assert(yy * w + w <= y * w) by (nonlinear_arith)
            requires
                yy < y,
                0 <= w,
        ;
    }
}

/// `v` held to `0..=hi`.
fn clamp_coord(v: i32, hi: i32) -> (r: i32)
    requires
        0 <= hi,
    ensures
        r == clamp_to(v as int, 0, hi as int),
{
    if v < 0 {
        0
    } else if v > hi {
        hi
    } else {
        v
    }
}

/// The four channel means of the window of radius `radius` around `(x, y)`.
fn mean_at(page: &Page, x: u32, y: u32, radius: u32, vertical: bool) -> (m: [u8; 4])
    requires
        page.wf(),
        x < page.width,
        y < page.height,
        radius <= MAX_BLUR_RADIUS,
        page.width + radius <= 0x8000_0000,
        page.height + radius <= 0x8000_0000,
    ensures
        forall|c: int|
            0 <= c < 4 ==> m@[c] as int == window_mean(
                page.rgba@,
                page.width as int,
                page.height as int,
                x as int,
                y as int,
                c,
                radius as int,
                vertical,
            ),
{
    let ghost px = page.rgba@;
    let ghost (w, h) = (page.width as int, page.height as int);
    let r = radius as i32;
    let window: u32 = 2 * radius + 1;
    let mut s0: u32 = 0;
    let mut s1: u32 = 0;
    let mut s2: u32 = 0;
    let mut s3: u32 = 0;
    let mut k: i32 = -r;
    while k <= r
        invariant
            page.wf(),
            px == page.rgba@,
            w == page.width,
            h == page.height,
            x < w,
            y < h,
            radius <= MAX_BLUR_RADIUS,
            r == radius,
            w + radius <= 0x8000_0000,
            h + radius <= 0x8000_0000,
            -r <= k <= r + 1,
            s0 == window_sum(px, w, h, x as int, y as int, 0, r as int, vertical, (k + r) as nat),
            s1 == window_sum(px, w, h, x as int, y as int, 1, r as int, vertical, (k + r) as nat),
            s2 == window_sum(px, w, h, x as int, y as int, 2, r as int, vertical, (k + r) as nat),
            s3 == window_sum(px, w, h, x as int, y as int, 3, r as int, vertical, (k + r) as nat),
        decreases r + 1 - k,
    {
        proof {
            lemma_window_sum_bounds(px, w, h, x as int, y as int, 0, r as int, vertical, (k + r) as nat);
            lemma_window_sum_bounds(px, w, h, x as int, y as int, 1, r as int, vertical, (k + r) as nat);
            lemma_window_sum_bounds(px, w, h, x as int, y as int, 2, r as int, vertical, (k + r) as nat);
            lemma_window_sum_bounds(px, w, h, x as int, y as int, 3, r as int, vertical, (k + r) as nat);
        }
        let (cx, cy) = if vertical {
            (x as i32, clamp_coord(y as i32 + k, page.height as i32 - 1))
        } else {
            (clamp_coord(x as i32 + k, page.width as i32 - 1), y as i32)
        };
        let p = page.at(cx, cy);
        proof {
            lemma_offset_in_page(cx as int, cy as int, w, h);
            let cell = window_cell(w, h, x as int, y as int, r as int, vertical, (k + r) as int);
            assert(cell == (cx as int, cy as int));
            assert forall|c: int| 0 <= c < 4 implies p@[c] as int == channel(px, w, cx as int, cy as int, c) by {}
        }
        s0 = s0 + p[0] as u32;
        s1 = s1 + p[1] as u32;
        s2 = s2 + p[2] as u32;
        s3 = s3 + p[3] as u32;
        k = k + 1;
    }
    proof {
        assert(window == 2 * r + 1);
        lemma_window_sum_bounds(px, w, h, x as int, y as int, 0, r as int, vertical, (k + r) as nat);
        lemma_window_sum_bounds(px, w, h, x as int, y as int, 1, r as int, vertical, (k + r) as nat);
        lemma_window_sum_bounds(px, w, h, x as int, y as int, 2, r as int, vertical, (k + r) as nat);
        lemma_window_sum_bounds(px, w, h, x as int, y as int, 3, r as int, vertical, (k + r) as nat);
        lemma_mean_is_a_byte(s0, window);
        lemma_mean_is_a_byte(s1, window);
        lemma_mean_is_a_byte(s2, window);
        lemma_mean_is_a_byte(s3, window);
    }
    let m: [u8; 4] = [(s0 / window) as u8, (s1 / window) as u8, (s2 / window) as u8, (s3 / window) as u8];
    m
}

/// One pass of the box blur over the whole page, along the rows or down the
/// columns.
fn blur_pass(page: &Page, radius: u32, vertical: bool) -> (out: Vec<u8>)
    requires
        page.wf(),
        radius <= MAX_BLUR_RADIUS,
        page.width + radius <= 0x8000_0000,
        page.height + radius <= 0x8000_0000,
    ensures
        out@.len() == page.rgba@.len(),
        forall|x: int, y: int, c: int|
            0 <= x < page.width && 0 <= y < page.height && 0 <= c < 4 ==> #[trigger] channel(
                out@,
                page.width as int,
                x,
                y,
                c,
            ) == window_mean(page.rgba@, page.width as int, page.height as int, x, y, c, radius as int, vertical),
{
    let w = page.width;
    let h = page.height;
    let ghost px = page.rgba@;
    let mut out: Vec<u8> = vec![0u8; page.rgba.len()];
    let mut y: u32 = 0;
    while y < h
        invariant
            page.wf(),
            px == page.rgba@,
            w == page.width,
            h == page.height,
            radius <= MAX_BLUR_RADIUS,
            w + radius <= 0x8000_0000,
            h + radius <= 0x8000_0000,
            y <= h,
            out@.len() == px.len(),
            forall|xx: int, yy: int, c: int|
                0 <= xx < w && 0 <= yy < y && 0 <= c < 4 ==> #[trigger] channel(out@, w as int, xx, yy, c)
                    == window_mean(px, w as int, h as int, xx, yy, c, radius as int, vertical),
        decreases h - y,
    {
        let mut x: u32 = 0;
        while x < w
            invariant
                page.wf(),
                px == page.rgba@,
                w == page.width,
                h == page.height,
                radius <= MAX_BLUR_RADIUS,
                w + radius <= 0x8000_0000,
                h + radius <= 0x8000_0000,
                y < h,
                x <= w,
                out@.len() == px.len(),
                forall|xx: int, yy: int, c: int|
                    0 <= xx < w && 0 <= yy < h && 0 <= c < 4 && (yy < y || (yy == y && xx < x))
                        ==> #[trigger] channel(out@, w as int, xx, yy, c) == window_mean(
                        px,
                        w as int,
                        h as int,
                        xx,
                        yy,
                        c,
                        radius as int,
                        vertical,
                    ),
            decreases w - x,
        {
            let m = mean_at(page, x, y, radius, vertical);
            proof {
                lemma_offset_in_page(x as int, y as int, w as int, h as int);
            }
            let i = ((y * w + x) * 4) as usize;
            let ghost before = out@;
            out.set(i, m[0]);
            out.set(i + 1, m[1]);
            out.set(i + 2, m[2]);
            out.set(i + 3, m[3]);
            proof {
                assert forall|xx: int, yy: int, c: int|
                    0 <= xx < w && 0 <= yy < h && 0 <= c < 4 && (yy < y || (yy == y && xx < x + 1))
                    implies #[trigger] channel(out@, w as int, xx, yy, c) == window_mean(
                    px,
                    w as int,
                    h as int,
                    xx,
                    yy,
                    c,
                    radius as int,
                    vertical,
                ) by {
                    if yy == y && xx == x {
                        assert(i == 4 * (y * w + x));
                        if c == 0 {
                            assert(out@[i as int] == m@[0]);
                        } else if c == 1 {
                            assert(out@[i + 1] == m@[1]);
                        } else if c == 2 {
                            assert(out@[i + 2] == m@[2]);
                        } else {
                            assert(out@[i + 3] == m@[3]);
                        }
                    } else {
                        assert(i == 4 * (y * w + x));
                        lemma_cell_before(xx, yy, x as int, y as int, w as int);
                        lemma_offset_in_page(xx, yy, w as int, h as int);
                        assert(out@[4 * (yy * w + xx) + c] == before[4 * (yy * w + xx) + c]);
                        assert(channel(before, w as int, xx, yy, c) == window_mean(
                            px,
                            w as int,
                            h as int,
                            xx,
                            yy,
                            c,
                            radius as int,
                            vertical,
                        ));
                    }
                }
            }
            x = x + 1;
        }
        y = y + 1;
    }
    out
}

/// Down a column, the window of a page whose pixels are the row means of
/// `px` sums those row means.
proof fn lemma_columns_of_row_means(
    px: Seq<u8>,
    mid: Seq<u8>,
    w: int,
    h: int,
    x: int,
    y: int,
    c: int,
    r: int,
    n: nat,
)
    requires
        0 <= x < w,
        0 <= y < h,
        0 <= c < 4,
        forall|xx: int, yy: int, cc: int|
            0 <= xx < w && 0 <= yy < h && 0 <= cc < 4 ==> #[trigger] channel(mid, w, xx, yy, cc)
                == window_mean(px, w, h, xx, yy, cc, r, false),
    ensures
        window_sum(mid, w, h, x, y, c, r, true, n) == column_of_row_means(px, w, h, x, y, c, r, n),
    decreases n,
{
    if n > 0 {
        lemma_columns_of_row_means(px, mid, w, h, x, y, c, r, (n - 1) as nat);
        let yy = clamp_to(y - r + n - 1, 0, h - 1);
        assert(channel(mid, w, x, yy, c) == window_mean(px, w, h, x, yy, c, r, false));
    }
}

/// Separable box blur of radius `radius`: every channel of every pixel
/// becomes the mean, rounded down, of the `2r + 1` pixels around it down the
/// column, each of which is first the mean of the `2r + 1` pixels around it
/// along its row. Past the edge of the page the edge pixel repeats.
pub fn box_blur(page: &Page, radius: u32) -> (out: Page)
    requires
        page.wf(),
        radius <= MAX_BLUR_RADIUS,
        page.width + radius <= 0x8000_0000,
        page.height + radius <= 0x8000_0000,
    ensures
        out.width == page.width,
        out.height == page.height,
        out.wf(),
        forall|x: int, y: int, c: int|
            0 <= x < page.width && 0 <= y < page.height && 0 <= c < 4 ==> #[trigger] channel(
                out.rgba@,
                page.width as int,
                x,
                y,
                c,
            ) == box_blurred(page.rgba@, page.width as int, page.height as int, x, y, c, radius as int),
{
    let rows = blur_pass(page, radius, false);
    let mid = Page { width: page.width, height: page.height, rgba: rows };
    let rgba = blur_pass(&mid, radius, true);
    proof {
        let (w, h) = (page.width as int, page.height as int);
        assert forall|x: int, y: int, c: int| 0 <= x < w && 0 <= y < h && 0 <= c < 4 implies #[trigger] channel(
            rgba@,
            w,
            x,
            y,
            c,
        ) == box_blurred(page.rgba@, w, h, x, y, c, radius as int) by {
            lemma_columns_of_row_means(
                page.rgba@,
                mid.rgba@,
                w,
                h,
                x,
                y,
                c,
                radius as int,
                (2 * radius + 1) as nat,
            );
        }
    }
    Page { width: page.width, height: page.height, rgba }
}

/// The page as it is when `radius` is 0, else its box blur.
pub fn maybe_blur(page: &Page, radius: u32) -> (out: Page)
    requires
        page.wf(),
        radius <= MAX_BLUR_RADIUS,
        page.width + radius <= 0x8000_0000,
        page.height + radius <= 0x8000_0000,
    ensures
        out.width == page.width,
        out.height == page.height,
        out.wf(),
        radius == 0 ==> out.rgba@ == page.rgba@,
        radius > 0 ==> forall|x: int, y: int, c: int|
            0 <= x < page.width && 0 <= y < page.height && 0 <= c < 4 ==> #[trigger] channel(
                out.rgba@,
                page.width as int,
                x,
                y,
                c,
            ) == box_blurred(page.rgba@, page.width as int, page.height as int, x, y, c, radius as int),
{
    if radius == 0 {
        let rgba = page.rgba.clone();
        assert(rgba@ =~= page.rgba@);
        return Page { width: page.width, height: page.height, rgba };
    }
    box_blur(page, radius)
}


// ---------------------------------------------------------------------------
// What the changed regions cover.
// ---------------------------------------------------------------------------

/// Region `r` covers pixel `(x, y)`.
pub open spec fn covers(r: Region, x: int, y: int) -> bool {
    r.x <= x < r.x + r.width && r.y <= y < r.y + r.height
}

/// Region `r` is a non-empty area of the `w` by `h` page holding a set
/// pixel of `mask`.
pub open spec fn marks_change(r: Region, mask: Seq<bool>, w: int, h: int) -> bool {
    &&& r.width > 0 && r.height > 0
    &&& r.x + r.width <= w && r.y + r.height <= h
    &&& exists|x: int, y: int| covers(r, x, y) && #[trigger] mask[y * w + x]
}

proof fn lemma_row_cover(mask: Seq<bool>, w: int, h: int, by: int, bx: int, x: int, y: int)
    requires
        w <= u32::MAX,
        h <= u32::MAX,
        0 <= bx <= x < w,
        0 <= by <= y < block_end(by, h),
        y < h,
        mask[y * w + x],
    ensures
        exists|k: int| 0 <= k < row_regions(mask, w, h, by, bx).len() && covers(
            #[trigger] row_regions(mask, w, h, by, bx)[k],
            x,
            y,
        ),
    decreases w - bx,
{
    let ex = block_end(bx, w);
    let ey = block_end(by, h);
    let rest = row_regions(mask, w, h, by, ex);
    if x < ex {
        assert(block_touched(mask, w, bx, by, ex, ey));
        let r = Region { x: bx as u32, y: by as u32, width: (ex - bx) as u32, height: (ey - by) as u32 };
        assert(row_regions(mask, w, h, by, bx) == seq![r] + rest);
        assert(row_regions(mask, w, h, by, bx)[0] == r);
        assert(covers(r, x, y));
    } else {
        lemma_row_cover(mask, w, h, by, ex, x, y);
        let here = row_regions(mask, w, h, by, bx).len() - rest.len();
        let k = choose|k: int| 0 <= k < rest.len() && covers(#[trigger] rest[k], x, y);
        assert(row_regions(mask, w, h, by, bx)[here + k] == rest[k]);
    }
}

proof fn lemma_grid_cover(mask: Seq<bool>, w: int, h: int, by: int, x: int, y: int)
    requires
        w <= u32::MAX,
        h <= u32::MAX,
        0 <= x < w,
        0 <= by <= y < h,
        mask[y * w + x],
    ensures
        exists|k: int| 0 <= k < grid_regions(mask, w, h, by).len() && covers(
            #[trigger] grid_regions(mask, w, h, by)[k],
            x,
            y,
        ),
    decreases h - by,
{
    let row = row_regions(mask, w, h, by, 0);
    let rest = grid_regions(mask, w, h, block_end(by, h));
    assert(grid_regions(mask, w, h, by) == row + rest);
    if y < block_end(by, h) {
        lemma_row_cover(mask, w, h, by, 0, x, y);
        let k = choose|k: int| 0 <= k < row.len() && covers(#[trigger] row[k], x, y);
        assert((row + rest)[k] == row[k]);
    } else {
        lemma_grid_cover(mask, w, h, block_end(by, h), x, y);
        let k = choose|k: int| 0 <= k < rest.len() && covers(#[trigger] rest[k], x, y);
        assert((row + rest)[row.len() + k] == rest[k]);
    }
}

proof fn lemma_row_sound(mask: Seq<bool>, w: int, h: int, by: int, bx: int)
    requires
        w <= u32::MAX,
        h <= u32::MAX,
        0 <= by < h,
        0 <= bx,
    ensures
        forall|k: int| 0 <= k < row_regions(mask, w, h, by, bx).len() ==> marks_change(
            #[trigger] row_regions(mask, w, h, by, bx)[k],
            mask,
            w,
            h,
        ),
    decreases w - bx,
{
    if bx < w {
        let ex = block_end(bx, w);
        let ey = block_end(by, h);
        lemma_row_sound(mask, w, h, by, ex);
        let rest = row_regions(mask, w, h, by, ex);
        let all = row_regions(mask, w, h, by, bx);
        if block_touched(mask, w, bx, by, ex, ey) {
            let r = Region { x: bx as u32, y: by as u32, width: (ex - bx) as u32, height: (ey - by) as u32 };
            assert(all == seq![r] + rest);
            let (px, py) = choose|px: int, py: int| bx <= px < ex && by <= py < ey && #[trigger] mask[py * w + px];
            assert(covers(r, px, py));
            assert(marks_change(r, mask, w, h));
            assert forall|k: int| 0 <= k < all.len() implies marks_change(#[trigger] all[k], mask, w, h) by {
                if k > 0 {
                    assert(all[k] == rest[k - 1]);
                }
            }
        } else {
            assert(all == rest);
        }
    }
}

proof fn lemma_grid_sound(mask: Seq<bool>, w: int, h: int, by: int)
    requires
        w <= u32::MAX,
        h <= u32::MAX,
        0 <= by,
    ensures
        forall|k: int| 0 <= k < grid_regions(mask, w, h, by).len() ==> marks_change(
            #[trigger] grid_regions(mask, w, h, by)[k],
            mask,
            w,
            h,
        ),
    decreases h - by,
{
    if by < h {
        lemma_row_sound(mask, w, h, by, 0);
        lemma_grid_sound(mask, w, h, block_end(by, h));
        let row = row_regions(mask, w, h, by, 0);
        let rest = grid_regions(mask, w, h, block_end(by, h));
        assert(grid_regions(mask, w, h, by) == row + rest);
        assert forall|k: int| 0 <= k < (row + rest).len() implies marks_change(#[trigger] (row + rest)[k], mask, w, h) by {
            if k < row.len() {
                assert((row + rest)[k] == row[k]);
            } else {
                assert((row + rest)[k] == rest[k - row.len()]);
            }
        }
    }
}

/// The changed regions are exactly where the changes are: every set pixel
/// of the page lies in some region, and every region is a non-empty area
/// of the page holding a set pixel.
pub proof fn lemma_regions_cover_the_changes(mask: Seq<bool>, w: u32, h: u32, x: int, y: int)
    ensures
        (0 <= x < w && 0 <= y < h && mask[y * w + x]) ==> exists|k: int| 0 <= k < grid_regions(mask, w as int, h as int, 0).len()
            && covers(#[trigger] grid_regions(mask, w as int, h as int, 0)[k], x, y),
        forall|k: int| 0 <= k < grid_regions(mask, w as int, h as int, 0).len() ==> marks_change(
            #[trigger] grid_regions(mask, w as int, h as int, 0)[k],
            mask,
            w as int,
            h as int,
        ),
{
    if 0 <= x < w && 0 <= y < h && mask[y * w + x] {
        lemma_grid_cover(mask, w as int, h as int, 0, x, y);
    }
    lemma_grid_sound(mask, w as int, h as int, 0);
}


// ---------------------------------------------------------------------------
// Blurring a flat colour.
// ---------------------------------------------------------------------------

/// Every pixel of the `w` by `h` page has value `v` in channel `c`.
pub open spec fn flat_channel(px: Seq<u8>, w: int, h: int, c: int, v: int) -> bool {
    forall|x: int, y: int| 0 <= x < w && 0 <= y < h ==> #[trigger] channel(px, w, x, y, c) == v
}

proof fn lemma_flat_window_sum(px: Seq<u8>, w: int, h: int, x: int, y: int, c: int, r: int, vertical: bool, n: nat, v: int)
    requires
        flat_channel(px, w, h, c, v),
        0 <= x < w,
        0 <= y < h,
    ensures
        window_sum(px, w, h, x, y, c, r, vertical, n) == n * v,
    decreases n,
{
    if n > 0 {
        let m = (n - 1) as nat;
        lemma_flat_window_sum(px, w, h, x, y, c, r, vertical, m, v);
        let cell = window_cell(w, h, x, y, r, vertical, n - 1);
        assert(0 <= cell.0 < w && 0 <= cell.1 < h);
        assert(channel(px, w, cell.0, cell.1, c) == v);
        assert(window_sum(px, w, h, x, y, c, r, vertical, n) == window_sum(px, w, h, x, y, c, r, vertical, m) + v);
        assert(m * v + v == n * v) by (nonlinear_arith)
            requires
                m == n - 1,
        ;
    } else {
        assert(n * v == 0) by (nonlinear_arith)
            requires
                n == 0,
        ;
    }
}

proof fn lemma_mean_of_equal(k: int, v: int)
    requires
        k > 0,
    ensures
        (k * v) / k == v,
{
    assert((k * v) / k == v) by (nonlinear_arith)
        requires
            k > 0,
    ;
}

proof fn lemma_flat_column(px: Seq<u8>, w: int, h: int, x: int, y: int, c: int, r: int, n: nat, v: int)
    requires
        flat_channel(px, w, h, c, v),
        0 <= x < w,
        0 <= y < h,
        r >= 0,
    ensures
        column_of_row_means(px, w, h, x, y, c, r, n) == n * v,
    decreases n,
{
    if n > 0 {
        let m = (n - 1) as nat;
        lemma_flat_column(px, w, h, x, y, c, r, m, v);
        let yy = clamp_to(y - r + n - 1, 0, h - 1);
        lemma_flat_window_sum(px, w, h, x, yy, c, r, false, (2 * r + 1) as nat, v);
        lemma_mean_of_equal(2 * r + 1, v);
        assert(window_mean(px, w, h, x, yy, c, r, false) == v);
        assert(column_of_row_means(px, w, h, x, y, c, r, n) == column_of_row_means(px, w, h, x, y, c, r, m) + v);
        assert(m * v + v == n * v) by (nonlinear_arith)
            requires
                m == n - 1,
        ;
    } else {
        assert(n * v == 0) by (nonlinear_arith)
            requires
                n == 0,
        ;
    }
}

/// Blurring leaves a flat colour alone: where every pixel of the page has
/// the same value in a channel, every pixel keeps that value after the box
/// blur, whatever the radius.
pub proof fn lemma_blur_keeps_flat_colour(px: Seq<u8>, w: int, h: int, c: int, v: int, r: int, x: int, y: int)
    requires
        flat_channel(px, w, h, c, v),
        r >= 0,
        0 <= x < w,
        0 <= y < h,
    ensures
        box_blurred(px, w, h, x, y, c, r) == v,
{
    lemma_flat_column(px, w, h, x, y, c, r, (2 * r + 1) as nat, v);
    lemma_mean_of_equal(2 * r + 1, v);
}

} // verus!
