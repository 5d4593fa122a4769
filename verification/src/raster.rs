//! Whole-image pixel work: the cell-by-cell "type-out" reveal of a decoded
//! text-mode image, and the nearest-neighbour downscale that keeps an image within
//! the GPU texture limit.

use vstd::prelude::*;
use vstd::arithmetic::div_mod::{
    lemma_div_is_ordered, lemma_div_multiples_vanish, lemma_fundamental_div_mod,
    lemma_multiply_divide_lt,
};

verus! {

/// A decoded image: `width`×`height` RGBA pixels in row-major order.
pub struct PixImage {
    pub width: u32,
    pub height: u32,
    pub pixels: Vec<[u8; 4]>,
}

impl PixImage {
    /// An image from its size and row-major RGBA pixels.
    pub fn from_rgba(width: u32, height: u32, pixels: Vec<[u8; 4]>) -> (img: PixImage)
        ensures
            img.width == width,
            img.height == height,
            img.pixels@ == pixels@,
    {
        PixImage { width, height, pixels }
    }
}

/// The element at row `y`, column `x` of a row-major grid `w` wide.
pub open spec fn at<T>(s: Seq<T>, w: int, y: int, x: int) -> T {
    s[y * w + x]
}

/// Opaque black, the colour of a cell not yet revealed.
pub open spec fn black() -> [u8; 4] {
    [0u8, 0u8, 0u8, 255u8]
}

/// How many whole cells of size `cell` (at least 1) fit along `len` pixels, and at
/// least one.
pub open spec fn cell_count(len: int, cell: int) -> int {
    let c = if cell < 1 { 1 } else { cell };
    let n = len / c;
    if n < 1 { 1 } else { n }
}

/// The smaller of two integers.
pub open spec fn min_of(a: int, b: int) -> int {
    if a <= b { a } else { b }
}

proof fn lemma_index_in_grid(y: int, x: int, w: int, h: int)
    requires
        0 <= y < h,
        0 <= x < w,
    ensures
        0 <= y * w + x < h * w,
        y * w + x + 1 <= h * w,
        (y + 1) * w == y * w + w,
{
    assert(0 <= y * w + x < h * w) by (nonlinear_arith)
        requires
            0 <= y < h,
            0 <= x < w,
    ;
    assert((y + 1) * w == y * w + w) by (nonlinear_arith);
}

/// Progressive cell reveal of an already-decoded text-mode image: the first `n`
/// cells (reading order, top to bottom, left to right) are painted over a black
/// background. Cells are the format's glyph box.
pub struct CellReveal {
    /// The full decoded image, row-major.
    pub pixels: Vec<[u8; 4]>,
    pub w: usize,
    pub h: usize,
    pub cell_w: usize,
    pub cell_h: usize,
    /// Cells per row.
    pub cols: usize,
    /// Total cell count (`cols` × rows).
    pub cells: usize,
}

impl CellReveal {
    /// Cell rows in the image.
    pub open spec fn rows(&self) -> int {
        cell_count(self.h as int, self.cell_h as int)
    }

    /// The reveal was built by `new`: its cell counts match its size, and the
    /// pixel buffer covers the whole image.
    pub open spec fn well_formed(&self) -> bool {
        &&& self.cols == cell_count(self.w as int, self.cell_w as int)
        &&& self.cells == self.cols * self.rows()
        &&& self.pixels@.len() >= self.w * self.h
        &&& self.rows() < usize::MAX
        &&& (self.rows() + 1) * self.cell_h <= usize::MAX
    }

    /// Cells shown for a request of `limit`.
    pub open spec fn shown_cells(&self, limit: int) -> int {
        min_of(limit, self.cells as int)
    }

    /// Pixel rows fully revealed for `limit` cells.
    pub open spec fn full_rows_px(&self, limit: int) -> int {
        min_of((self.shown_cells(limit) / self.cols as int) * self.cell_h, self.h as int)
    }

    /// Cells revealed on the partly typed row.
    pub open spec fn partial_cells(&self, limit: int) -> int {
        self.shown_cells(limit) % self.cols as int
    }

    /// Pixel `(x, y)` is revealed once `limit` cells have been typed: it lies in a
    /// completed cell row, or in the revealed cells of the row being typed.
    pub open spec fn shows(&self, limit: int, y: int, x: int) -> bool {
        let rows_px = self.full_rows_px(limit);
        let partial = self.partial_cells(limit);
        ||| y < rows_px
        ||| (partial > 0 && y < min_of(rows_px + self.cell_h, self.h as int) && x < min_of(
            partial * self.cell_w,
            self.w as int,
        ))
    }

    /// The colour of pixel `(x, y)` in the frame for `limit` cells.
    pub open spec fn frame_px(&self, limit: int, y: int, x: int) -> [u8; 4] {
        if self.shows(limit, y, x) {
            at(self.pixels@, self.w as int, y, x)
        } else {
            black()
        }
    }

    /// The bottom of the revealed content in source pixels, for auto-scroll.
    pub open spec fn cursor_px(&self, limit: int) -> int {
        min_of(
            (self.shown_cells(limit) / self.cols as int + 1) * self.cell_h,
            self.h as int,
        )
    }

    /// A reveal of the `w`×`h` image `pixels` in cells of `cell_w`×`cell_h`.
    pub fn new(pixels: Vec<[u8; 4]>, w: usize, h: usize, cell_w: usize, cell_h: usize) -> (c:
        CellReveal)
        requires
            cell_count(w as int, cell_w as int) * cell_count(h as int, cell_h as int)
                <= usize::MAX,
        ensures
            c.pixels@ == pixels@,
            c.w == w,
            c.h == h,
            c.cell_w == cell_w,
            c.cell_h == cell_h,
            c.cols == cell_count(w as int, cell_w as int),
            c.cells == c.cols * c.rows(),
    {
        let cw = if cell_w > 1 { cell_w } else { 1 };
        let ch = if cell_h > 1 { cell_h } else { 1 };
        let c0 = w / cw;
        let cols = if c0 > 1 { c0 } else { 1 };
        let r0 = h / ch;
        let rows = if r0 > 1 { r0 } else { 1 };
        CellReveal { pixels, w, h, cell_w, cell_h, cols, cells: cols * rows }
    }

    /// The frame with the first `limit` cells revealed (the rest black), plus the
    /// revealed bottom in source pixels.
    pub fn render(&self, limit: usize) -> (r: (PixImage, u32))
        requires
            self.well_formed(),
        ensures
            r.0.width == self.w as u32,
            r.0.height == self.h as u32,
            r.0.pixels@.len() == self.w * self.h,
            forall|y: int, x: int|
                0 <= y < self.h && 0 <= x < self.w ==> #[trigger] at(r.0.pixels@, self.w as int, y, x)
                    == self.frame_px(limit as int, y, x),
            r.1 == self.cursor_px(limit as int) as u32,
    {
        let w = self.w;
        let h = self.h;
        let lim = if limit < self.cells { limit } else { self.cells };
        let full_rows = lim / self.cols;
        let partial = lim % self.cols;
        proof {
            let rows = self.rows();
            lemma_div_is_ordered(lim as int, self.cols * rows, self.cols as int);
            lemma_div_multiples_vanish(rows, self.cols as int);
            assert(full_rows <= rows);
            assert(full_rows * self.cell_h <= (rows + 1) * self.cell_h) by (nonlinear_arith)
                requires
                    full_rows <= rows,
            ;
            assert((full_rows + 1) * self.cell_h <= (rows + 1) * self.cell_h) by (nonlinear_arith)
                requires
                    full_rows <= rows,
            ;
            if self.cell_w >= 1 && self.cols > 1 {
                let q = w / self.cell_w;
                assert(self.cols == q);
                lemma_fundamental_div_mod(w as int, self.cell_w as int);
                assert(partial * self.cell_w <= w) by (nonlinear_arith)
                    requires
                        w == self.cell_w * q + w % self.cell_w,
                        w % self.cell_w >= 0,
                        partial < q,
                        self.cell_w >= 1,
                ;
            } else if self.cols <= 1 {
                assert(partial == 0);
                assert(partial * self.cell_w <= w) by (nonlinear_arith)
                    requires
                        partial == 0,
                ;
            } else {
                assert(partial * self.cell_w <= w) by (nonlinear_arith)
                    requires
                        self.cell_w == 0,
                ;
            }
            assert((rows + 1) * self.cell_h == rows * self.cell_h + self.cell_h) by (nonlinear_arith);
            assert(full_rows * self.cell_h <= rows * self.cell_h) by (nonlinear_arith)
                requires
                    full_rows <= rows,
            ;
            assert(w * h == h * w) by (nonlinear_arith);
        }
        let plen = self.pixels.len();
        let fr_px = full_rows * self.cell_h;
        let rows_px = if fr_px < h { fr_px } else { h };
        let pw0 = partial * self.cell_w;
        let pw = if pw0 < w { pw0 } else { w };
        let y1_0 = rows_px + self.cell_h;
        let y1 = if y1_0 < h { y1_0 } else { h };
        let mut out: Vec<[u8; 4]> = Vec::new();
        let mut y: usize = 0;
        while y < h
            invariant
                w == self.w,
                h == self.h,
                self.well_formed(),
                plen == self.pixels@.len(),
                y <= h,
                rows_px == self.full_rows_px(limit as int),
                partial == self.partial_cells(limit as int),
                pw == min_of(partial * self.cell_w, w as int),
                y1 == min_of(rows_px + self.cell_h, h as int),
                out@.len() == y * w,
                forall|yy: int, xx: int|
                    0 <= yy < y && 0 <= xx < w ==> #[trigger] at(
                        out@,
                        w as int,
                        yy,
                        xx,
                    ) == self.frame_px(limit as int, yy, xx),
            decreases h - y,
        {
            let ghost row_start = out@;
            proof {
                assert(row_start =~= out@.subrange(0, y * w));
                assert forall|yy: int, xx: int| 0 <= yy < y && 0 <= xx < w implies #[trigger] at(
                            row_start,
                            w as int,
                            yy,
                            xx,
                        ) == self.frame_px(limit as int, yy, xx) by {
                    assert(at(out@, w as int, yy, xx) == self.frame_px(limit as int, yy, xx));
                }
            }
            let mut x: usize = 0;
            while x < w
                invariant
                    w == self.w,
                    h == self.h,
                    self.well_formed(),
                    plen == self.pixels@.len(),
                    y < h,
                    x <= w,
                    rows_px == self.full_rows_px(limit as int),
                    partial == self.partial_cells(limit as int),
                    pw == min_of(partial * self.cell_w, w as int),
                    y1 == min_of(rows_px + self.cell_h, h as int),
                    out@.len() == y * w + x,
                    row_start.len() == y * w,
                    row_start == out@.subrange(0, y * w),
                    forall|yy: int, xx: int|
                        0 <= yy < y && 0 <= xx < w ==> #[trigger] at(
                            row_start,
                            w as int,
                            yy,
                            xx,
                        ) == self.frame_px(limit as int, yy, xx),
                    forall|xx: int|
                        0 <= xx < x ==> #[trigger] at(out@, w as int, y as int, xx)
                            == self.frame_px(limit as int, y as int, xx),
                decreases w - x,
            {
                proof {
                    lemma_index_in_grid(y as int, x as int, w as int, h as int);
                }
                let show = y < rows_px || (partial > 0 && y < y1 && x < pw);
                let px = if show { self.pixels[y * w + x] } else { [0u8, 0u8, 0u8, 255u8] };
                let ghost before = out@;
                out.push(px);
                proof {
                    assert(out@.subrange(0, y * w) =~= before.subrange(0, y * w));
                    assert forall|xx: int| 0 <= xx < x + 1 implies #[trigger] at(
                        out@,
                        w as int,
                        y as int,
                        xx,
                    ) == self.frame_px(limit as int, y as int, xx) by {
                        if xx < x {
                            assert(at(before, w as int, y as int, xx) == at(
                                out@,
                                w as int,
                                y as int,
                                xx,
                            ));
                        }
                    }
                }
                x = x + 1;
            }
            proof {
                assert((y + 1) * w == y * w + w) by (nonlinear_arith);
                assert forall|yy: int, xx: int| 0 <= yy < y + 1 && 0 <= xx < w implies #[trigger] at(
                    out@,
                    w as int,
                    yy,
                    xx,
                ) == self.frame_px(limit as int, yy, xx) by {
                    if yy < y {
                        lemma_index_in_grid(yy, xx, w as int, y as int);
                        assert(at(row_start, w as int, yy, xx) == at(out@, w as int, yy, xx));
                    }
                }
            }
            y = y + 1;
        }
        proof {
            assert(out@.len() == w * h) by (nonlinear_arith)
                requires
                    out@.len() == y * w,
                    y == h,
            ;
        }
        let cur0 = (full_rows + 1) * self.cell_h;
        let cursor = if cur0 < h { cur0 } else { h };
        (PixImage::from_rgba(#[verifier::truncate] (w as u32), #[verifier::truncate] (h as u32), out), #[verifier::truncate] (cursor as u32))
    }
}

/// Before any cell is typed the frame is all black: no pixel is revealed.
pub proof fn reveal_starts_black(c: CellReveal, y: int, x: int)
    requires
        c.well_formed(),
        0 <= y < c.h,
        0 <= x < c.w,
    ensures
        !c.shows(0, y, x),
{
    assert(c.shown_cells(0) == 0);
    let q = 0int / (c.cols as int);
    assert(q == 0);
    assert(q * c.cell_h == 0);
    assert(0int % (c.cols as int) == 0);
}

/// Once every cell has been typed the whole image shows, for an image whose
/// height is a whole number of cell rows.
pub proof fn reveal_ends_complete(c: CellReveal, limit: int, y: int, x: int)
    requires
        c.well_formed(),
        limit >= c.cells,
        c.cell_h >= 1,
        c.h % c.cell_h == 0,
        0 <= y < c.h,
    ensures
        c.shows(limit, y, x),
{
    let rows = c.rows();
    assert(c.shown_cells(limit) == c.cells);
    lemma_div_multiples_vanish(rows, c.cols as int);
    assert(c.cols * rows == (c.cols as int) * rows);
    assert(c.shown_cells(limit) / (c.cols as int) == rows);
    let hh = c.h as int;
    let ch = c.cell_h as int;
    lemma_fundamental_div_mod(hh, ch);
    if hh / ch >= 1 {
        assert(rows == hh / ch);
        assert(rows * ch == hh) by (nonlinear_arith)
            requires
                hh == ch * (hh / ch) + hh % ch,
                hh % ch == 0,
                rows == hh / ch,
        ;
    } else {
        assert(hh == 0) by (nonlinear_arith)
            requires
                hh == ch * (hh / ch) + hh % ch,
                hh % ch == 0,
                hh / ch < 1,
                hh >= 0,
                ch >= 1,
        ;
    }
}

/// Channel `c` of pixel `(x, y)` in a row-major RGBA8 buffer `w` pixels wide.
pub open spec fn byte4(s: Seq<u8>, w: int, y: int, x: int, c: int) -> u8 {
    s[(y * w + x) * 4 + c]
}

proof fn lemma_u128_product(a: int, b: int)
    requires
        0 <= a <= usize::MAX,
        0 <= b <= usize::MAX,
    ensures
        0 <= a * b <= u128::MAX,
{
    assert(0 <= a * b <= 0xffff_ffff_ffff_ffff * 0xffff_ffff_ffff_ffff) by (nonlinear_arith)
        requires
            0 <= a <= 0xffff_ffff_ffff_ffff,
            0 <= b <= 0xffff_ffff_ffff_ffff,
    ;
}

proof fn lemma_source_index(y: int, n: int, side: int)
    requires
        0 <= y < n,
        1 <= side,
    ensures
        0 <= y * side / n < side,
{
    assert(0 <= y * side < n * side) by (nonlinear_arith)
        requires
            0 <= y < n,
            1 <= side,
    ;
    lemma_multiply_divide_lt(y * side, n, side);
    lemma_div_is_ordered(0, y * side, n);
}

/// Nearest-neighbour resample of the RGBA8 image `rgba` (`size` = `[w, h]`)
/// down to `new_size` = `[nw, nh]`: output pixel `(x, y)` is the source pixel
/// `(x·w / nw, y·h / nh)`.
pub fn resample_nearest(size: [usize; 2], rgba: &[u8], new_size: [usize; 2]) -> (px: Vec<u8>)
    requires
        1 <= new_size[0] <= size[0],
        1 <= new_size[1] <= size[1],
        rgba@.len() >= size[0] * size[1] * 4,
    ensures
        px@.len() == new_size[0] * new_size[1] * 4,
        forall|y: int, x: int, c: int|
            0 <= y < new_size[1] && 0 <= x < new_size[0] && 0 <= c < 4 ==> #[trigger] byte4(
                px@,
                new_size[0] as int,
                y,
                x,
                c,
            ) == byte4(rgba@, size[0] as int, y * size[1] / (new_size[1] as int), x * size[0] / (new_size[0] as int), c),
{
    let w = size[0];
    let h = size[1];
    let nw = new_size[0];
    let nh = new_size[1];
    let len = rgba.len();
    proof {
        assert(nw * nh <= w * h) by (nonlinear_arith)
            requires
                1 <= nw <= w,
                1 <= nh <= h,
        ;
        assert(w * h == h * w) by (nonlinear_arith);
    }
    let mut out: Vec<u8> = Vec::new();
    let mut y: usize = 0;
    while y < nh
        invariant
            w == size[0],
            h == size[1],
            1 <= w,
            1 <= h,
            1 <= nw <= w,
            1 <= nh <= h,
            len == rgba@.len(),
            len >= w * h * 4,
            w * h == h * w,
            y <= nh,
            out@.len() == (y * nw) * 4,
            forall|yy: int, xx: int, c: int|
                0 <= yy < y && 0 <= xx < nw && 0 <= c < 4 ==> #[trigger] byte4(
                    out@,
                    nw as int,
                    yy,
                    xx,
                    c,
                ) == byte4(rgba@, w as int, yy * h / nh as int, xx * w / nw as int, c),
        decreases nh - y,
    {
        let ghost row_start = out@;
        proof {
            lemma_source_index(y as int, nh as int, h as int);
        }
        proof {
            lemma_u128_product(y as int, h as int);
        }
        let sy = ((y as u128) * (h as u128) / (nh as u128)) as usize;
        let mut x: usize = 0;
        while x < nw
            invariant
                w == size[0],
                h == size[1],
                1 <= w,
                1 <= h,
                1 <= nw <= w,
                1 <= nh <= h,
                len == rgba@.len(),
                len >= w * h * 4,
                w * h == h * w,
                y < nh,
                sy == y * h / nh as int,
                sy < h,
                x <= nw,
                out@.len() == (y * nw + x) * 4,
                row_start.len() == (y * nw) * 4,
                row_start == out@.subrange(0, (y * nw) * 4),
                forall|yy: int, xx: int, c: int|
                    0 <= yy < y && 0 <= xx < nw && 0 <= c < 4 ==> #[trigger] byte4(
                        row_start,
                        nw as int,
                        yy,
                        xx,
                        c,
                    ) == byte4(rgba@, w as int, yy * h / nh as int, xx * w / nw as int, c),
                forall|xx: int, c: int|
                    0 <= xx < x && 0 <= c < 4 ==> #[trigger] byte4(out@, nw as int, y as int, xx, c)
                        == byte4(rgba@, w as int, sy as int, xx * w / nw as int, c),
            decreases nw - x,
        {
            proof {
                lemma_source_index(x as int, nw as int, w as int);
            }
            proof {
                lemma_u128_product(x as int, w as int);
            }
            let sx = ((x as u128) * (w as u128) / (nw as u128)) as usize;
            proof {
                lemma_index_in_grid(sy as int, sx as int, w as int, h as int);
            }
            let si = (sy * w + sx) * 4;
            let ghost before = out@;
            out.push(rgba[si]);
            out.push(rgba[si + 1]);
            out.push(rgba[si + 2]);
            out.push(rgba[si + 3]);
            proof {
                assert(out@.subrange(0, (y * nw) * 4) =~= before.subrange(0, (y * nw) * 4));
                assert forall|xx: int, c: int| 0 <= xx < x + 1 && 0 <= c < 4 implies #[trigger] byte4(
                    out@,
                    nw as int,
                    y as int,
                    xx,
                    c,
                ) == byte4(rgba@, w as int, sy as int, xx * w / nw as int, c) by {
                    if xx < x {
                        assert(byte4(before, nw as int, y as int, xx, c) == byte4(
                            out@,
                            nw as int,
                            y as int,
                            xx,
                            c,
                        ));
                    }
                }
            }
            x = x + 1;
        }
        proof {
            assert((y + 1) * nw == y * nw + nw) by (nonlinear_arith);
            assert forall|yy: int, xx: int, c: int|
                0 <= yy < y + 1 && 0 <= xx < nw && 0 <= c < 4 implies #[trigger] byte4(
                out@,
                nw as int,
                yy,
                xx,
                c,
            ) == byte4(rgba@, w as int, yy * h / nh as int, xx * w / nw as int, c) by {
                if yy < y {
                    lemma_index_in_grid(yy, xx, nw as int, y as int);
                    assert(byte4(row_start, nw as int, yy, xx, c) == byte4(
                        out@,
                        nw as int,
                        yy,
                        xx,
                        c,
                    ));
                }
            }
        }
        y = y + 1;
    }
    proof {
        assert((nh * nw) * 4 == nw * nh * 4) by (nonlinear_arith);
    }
    out
}

/// Cells are typed in reading order and each typed cell shows whole: within the
/// grid of whole cells, pixel `(x, y)` is revealed after `limit` cells exactly
/// when its cell's place in reading order, `(y / cell_h) · cols + x / cell_w`,
/// is below the number of cells typed (at most all of them).
pub proof fn reveal_follows_reading_order(c: CellReveal, limit: int, y: int, x: int)
    requires
        c.well_formed(),
        c.cell_w >= 1,
        c.cell_h >= 1,
        limit >= 0,
        0 <= y < c.h,
        0 <= x < c.w,
        y < c.rows() * c.cell_h,
        x < c.cols * c.cell_w,
    ensures
        c.shows(limit, y, x) <==> (y / (c.cell_h as int)) * c.cols + x / (c.cell_w as int) < min_of(
            limit,
            c.cells as int,
        ),
{
    let ch = c.cell_h as int;
    let cw = c.cell_w as int;
    let cols = c.cols as int;
    let rows = c.rows();
    let n = c.shown_cells(limit);
    let fr = n / cols;
    let p = n % cols;
    let q = y / ch;
    let r = x / cw;
    let hh = c.h as int;
    let ww = c.w as int;
    assert(cols >= 1);
    assert(0 <= n <= cols * rows);
    lemma_fundamental_div_mod(n, cols);
    lemma_fundamental_div_mod(y, ch);
    lemma_fundamental_div_mod(x, cw);
    assert(0 <= p < cols && fr >= 0) by (nonlinear_arith)
        requires
            n == cols * fr + p,
            p == n % cols,
            fr == n / cols,
            n >= 0,
            cols >= 1,
    ;
    assert(q * ch <= y < q * ch + ch && q >= 0) by (nonlinear_arith)
        requires
            y == ch * q + y % ch,
            q == y / ch,
            y >= 0,
            ch >= 1,
    ;
    assert(r * cw <= x < r * cw + cw && r >= 0) by (nonlinear_arith)
        requires
            x == cw * r + x % cw,
            r == x / cw,
            x >= 0,
            cw >= 1,
    ;
    assert(r < cols) by (nonlinear_arith)
        requires
            r * cw <= x,
            x < cols * cw,
            cw >= 1,
    ;
    let rows_px = c.full_rows_px(limit);
    assert(rows_px == min_of(fr * ch, hh));
    let idx = q * cols + r;
    assert(n == fr * cols + p) by (nonlinear_arith)
        requires
            n == cols * fr + p,
    ;
    if q < fr {
        assert(y < fr * ch) by (nonlinear_arith)
            requires
                y < q * ch + ch,
                q + 1 <= fr,
                ch >= 1,
        ;
        assert(idx < n) by (nonlinear_arith)
            requires
                idx == q * cols + r,
                r < cols,
                q + 1 <= fr,
                n == fr * cols + p,
                p >= 0,
                cols >= 1,
        ;
    } else if q == fr {
        assert(rows_px == fr * ch);
        assert(x < p * cw <==> r < p) by (nonlinear_arith)
            requires
                r * cw <= x < r * cw + cw,
                cw >= 1,
        ;
        assert(p * cw <= p * cw);
        if x < p * cw {
            assert(p > 0) by (nonlinear_arith)
                requires
                    x < p * cw,
                    x >= 0,
                    p >= 0,
            ;
        }
    } else {
        assert(y >= fr * ch + ch) by (nonlinear_arith)
            requires
                q * ch <= y,
                q >= fr + 1,
                ch >= 1,
        ;
        assert(idx >= n) by (nonlinear_arith)
            requires
                idx == q * cols + r,
                r >= 0,
                q >= fr + 1,
                n == fr * cols + p,
                p < cols,
                cols >= 1,
        ;
    }
}

/// The auto-scroll cursor sits below every revealed pixel, inside the image, and
/// at most one cell row below the fully typed rows.
pub proof fn cursor_follows_the_typing(c: CellReveal, limit: int, y: int, x: int)
    requires
        c.well_formed(),
        c.cell_h >= 1,
        limit >= 0,
        0 <= y < c.h,
    ensures
        c.shows(limit, y, x) ==> y < c.cursor_px(limit),
        c.cursor_px(limit) <= c.h,
        c.cursor_px(limit) <= c.full_rows_px(limit) + c.cell_h,
{
    let ch = c.cell_h as int;
    let cols = c.cols as int;
    let n = c.shown_cells(limit);
    let fr = n / cols;
    assert(cols >= 1);
    assert(fr >= 0) by (nonlinear_arith)
        requires
            fr == n / cols,
            n >= 0,
            cols >= 1,
    ;
    assert((fr + 1) * ch == fr * ch + ch) by (nonlinear_arith);
}

} // verus!
