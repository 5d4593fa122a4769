//! Splitting an image too large for one GPU texture into a grid of tiles, each no
//! larger than the texture limit in either dimension.

use vstd::prelude::*;

verus! {

/// A tile `(x, y, w, h)` with its coordinates as integers.
pub open spec fn rect_view(t: (usize, usize, usize, usize)) -> (int, int, int, int) {
    (t.0 as int, t.1 as int, t.2 as int, t.3 as int)
}

/// The smaller of two integers.
pub open spec fn min_int(a: int, b: int) -> int {
    if a <= b { a } else { b }
}

/// The tiles of one band of rows starting at `y` and `th` pixels tall, from column
/// `x` to the right edge `w`: each `cap` wide, the last one whatever is left.
pub open spec fn row_tiles(x: int, y: int, w: int, th: int, cap: int) -> Seq<(int, int, int, int)>
    decreases w - x,
{
    if x >= w || cap <= 0 {
        seq![]
    } else {
        let tw = min_int(cap, w - x);
        seq![(x, y, tw, th)] + row_tiles(x + tw, y, w, th, cap)
    }
}

/// The tiles from row `y` down to the bottom edge `h` of a `w`×`h` image, in
/// reading order: bands `cap` tall (the last one whatever is left), each split
/// into `cap`-wide tiles.
pub open spec fn grid_tiles(y: int, w: int, h: int, cap: int) -> Seq<(int, int, int, int)>
    decreases h - y,
{
    if y >= h || cap <= 0 {
        seq![]
    } else {
        let th = min_int(cap, h - y);
        row_tiles(0, y, w, th, cap) + grid_tiles(y + th, w, h, cap)
    }
}

/// Pixel `(px, py)` lies inside tile `t`.
pub open spec fn rect_contains(t: (int, int, int, int), px: int, py: int) -> bool {
    t.0 <= px < t.0 + t.2 && t.1 <= py < t.1 + t.3
}

/// Two tiles share no pixel.
pub open spec fn rects_disjoint(a: (int, int, int, int), b: (int, int, int, int)) -> bool {
    a.0 + a.2 <= b.0 || b.0 + b.2 <= a.0 || a.1 + a.3 <= b.1 || b.1 + b.3 <= a.1
}

/// Some tile of `rects` contains pixel `(px, py)`.
pub open spec fn covered(rects: Seq<(int, int, int, int)>, px: int, py: int) -> bool {
    exists|i: int| 0 <= i < rects.len() && #[trigger] rect_contains(rects[i], px, py)
}

/// Some tile of the band `r` spans column `px`.
spec fn column_covered(r: Seq<(int, int, int, int)>, px: int) -> bool {
    exists|i: int| 0 <= i < r.len() && #[trigger] r[i].0 <= px && px < r[i].0 + r[i].2
}

/// `rects` tile a `w`×`h` image exactly: every tile lies inside the image and is
/// between 1 and `cap` pixels on each side, no two tiles overlap, and every pixel
/// of the image lies in some tile.
pub open spec fn exact_cover(rects: Seq<(int, int, int, int)>, w: int, h: int, cap: int) -> bool {
    &&& forall|i: int|
        0 <= i < rects.len() ==> {
            &&& 0 <= #[trigger] rects[i].0
            &&& rects[i].0 + rects[i].2 <= w
            &&& 0 <= rects[i].1
            &&& rects[i].1 + rects[i].3 <= h
            &&& 1 <= rects[i].2 <= cap
            &&& 1 <= rects[i].3 <= cap
        }
    &&& forall|i: int, j: int|
        0 <= i < j < rects.len() ==> rects_disjoint(#[trigger] rects[i], #[trigger] rects[j])
    &&& forall|px: int, py: int|
        0 <= px < w && 0 <= py < h ==> #[trigger] covered(rects, px, py)
}

proof fn lemma_row_tiles(x: int, y: int, w: int, th: int, cap: int)
    requires
        0 <= x,
        1 <= th <= cap,
    ensures
        ({
            let r = row_tiles(x, y, w, th, cap);
            &&& forall|i: int|
                0 <= i < r.len() ==> {
                    &&& x <= #[trigger] r[i].0
                    &&& r[i].0 + r[i].2 <= w
                    &&& 1 <= r[i].2 <= cap
                    &&& r[i].1 == y
                    &&& r[i].3 == th
                }
            &&& forall|i: int, j: int|
                0 <= i < j < r.len() ==> #[trigger] r[i].0 + r[i].2 <= #[trigger] r[j].0
            &&& forall|px: int| x <= px < w ==> #[trigger] column_covered(r, px)
        }),
    decreases w - x,
{
    if x < w {
        let tw = min_int(cap, w - x);
        let rest = row_tiles(x + tw, y, w, th, cap);
        lemma_row_tiles(x + tw, y, w, th, cap);
        let r = row_tiles(x, y, w, th, cap);
        assert(r == seq![(x, y, tw, th)] + rest);
        assert forall|i: int| 0 < i < r.len() implies r[i] == rest[i - 1] by {}
        assert forall|i: int, j: int|
            0 <= i < j < r.len() implies #[trigger] r[i].0 + r[i].2 <= #[trigger] r[j].0 by {
            if i > 0 {
                assert(r[i] == rest[i - 1]);
            }
            assert(r[j] == rest[j - 1]);
        }
        assert forall|px: int| x <= px < w implies #[trigger] column_covered(r, px) by {
            if px < x + tw {
                assert(r[0].0 <= px);
            } else {
                assert(column_covered(rest, px));
                let k = choose|k: int| 0 <= k < rest.len() && #[trigger] rest[k].0 <= px && px < rest[k].0 + rest[k].2;
                assert(r[k + 1] == rest[k]);
                assert(r[k + 1].0 <= px);
            }
        }
    }
}

proof fn lemma_grid_tiles(y: int, w: int, h: int, cap: int)
    requires
        0 <= y,
        1 <= cap,
    ensures
        ({
            let g = grid_tiles(y, w, h, cap);
            &&& forall|i: int|
                0 <= i < g.len() ==> {
                    &&& 0 <= #[trigger] g[i].0
                    &&& g[i].0 + g[i].2 <= w
                    &&& y <= g[i].1
                    &&& g[i].1 + g[i].3 <= h
                    &&& 1 <= g[i].2 <= cap
                    &&& 1 <= g[i].3 <= cap
                }
            &&& forall|i: int, j: int|
                0 <= i < j < g.len() ==> rects_disjoint(#[trigger] g[i], #[trigger] g[j])
            &&& forall|px: int, py: int| 0 <= px < w && y <= py < h ==> #[trigger] covered(g, px, py)
        }),
    decreases h - y,
{
    if y < h {
        let th = min_int(cap, h - y);
        let row = row_tiles(0, y, w, th, cap);
        let rest = grid_tiles(y + th, w, h, cap);
        lemma_row_tiles(0, y, w, th, cap);
        lemma_grid_tiles(y + th, w, h, cap);
        let g = grid_tiles(y, w, h, cap);
        assert(g == row + rest);
        let n = row.len() as int;
        assert forall|i: int| 0 <= i < g.len() implies {
            &&& 0 <= #[trigger] g[i].0
            &&& g[i].0 + g[i].2 <= w
            &&& y <= g[i].1
            &&& g[i].1 + g[i].3 <= h
            &&& 1 <= g[i].2 <= cap
            &&& 1 <= g[i].3 <= cap
        } by {
            if i < n {
                assert(g[i] == row[i]);
            } else {
                assert(g[i] == rest[i - n]);
            }
        }
        assert forall|i: int, j: int| 0 <= i < j < g.len() implies rects_disjoint(
            #[trigger] g[i],
            #[trigger] g[j],
        ) by {
            if j < n {
                assert(g[i] == row[i]);
                assert(g[j] == row[j]);
                assert(row[i].0 + row[i].2 <= row[j].0);
            } else if i < n {
                assert(g[i] == row[i]);
                assert(g[j] == rest[j - n]);
                assert(0 <= rest[j - n].0);
                assert(0 <= row[i].0);
                assert(rest[j - n].1 >= y + th);
            } else {
                assert(g[i] == rest[i - n]);
                assert(g[j] == rest[j - n]);
                assert(rects_disjoint(rest[i - n], rest[j - n]));
            }
        }
        assert forall|px: int, py: int| 0 <= px < w && y <= py < h implies #[trigger] covered(g, px, py) by {
            if py < y + th {
                assert(column_covered(row, px));
                let k = choose|k: int| 0 <= k < row.len() && #[trigger] row[k].0 <= px && px < row[k].0 + row[k].2;
                assert(g[k] == row[k]);
                assert(rect_contains(g[k], px, py));
            } else {
                assert(covered(rest, px, py));
                let k = choose|k: int| 0 <= k < rest.len() && #[trigger] rect_contains(rest[k], px, py);
                assert(g[k + n] == rest[k]);
                assert(rect_contains(g[k + n], px, py));
            }
        }
    }
}

/// The tiles of a `w`×`h` image at a limit of `cap` cover it exactly: inside the
/// image, at most `cap` on a side, pairwise disjoint, and together covering every
/// pixel.
pub proof fn tile_grid_is_exact_cover(w: int, h: int, cap: int)
    requires
        1 <= cap,
    ensures
        exact_cover(grid_tiles(0, w, h, cap), w, h, cap),
{
    lemma_grid_tiles(0, w, h, cap);
}

/// An image that already fits within `cap` in both dimensions is one tile: itself.
pub proof fn tile_grid_single_within_cap(w: int, h: int, cap: int)
    requires
        1 <= w <= cap,
        1 <= h <= cap,
    ensures
        grid_tiles(0, w, h, cap) == seq![(0int, 0int, w, h)],
{
    assert(row_tiles(w, 0, w, h, cap) == Seq::<(int, int, int, int)>::empty());
    assert(grid_tiles(h, w, h, cap) == Seq::<(int, int, int, int)>::empty());
    assert(row_tiles(0, 0, w, h, cap) == seq![(0int, 0int, w, h)]);
}

/// The grid of `(x, y, w, h)` pixel rects that tile a `size` image into pieces no
/// larger than `cap` in either dimension, in reading order. One rect for an image
/// within the limit, none for an empty one.
pub fn tile_grid(size: [usize; 2], cap: usize) -> (rects: Vec<(usize, usize, usize, usize)>)
    requires
        cap > 0 || size[1] == 0,
    ensures
        rects@.map_values(|t: (usize, usize, usize, usize)| rect_view(t)) == grid_tiles(
            0,
            size[0] as int,
            size[1] as int,
            cap as int,
        ),
{
    let w = size[0];
    let h = size[1];
    let mut rects: Vec<(usize, usize, usize, usize)> = Vec::new();
    if h == 0 {
        proof {
            assert(rects@.map_values(|t: (usize, usize, usize, usize)| rect_view(t))
                =~= Seq::<(int, int, int, int)>::empty());
        }
        return rects;
    }
    let ghost whole = grid_tiles(0, w as int, h as int, cap as int);
    let mut y: usize = 0;
    proof {
        assert(rects@.map_values(|t: (usize, usize, usize, usize)| rect_view(t)) + grid_tiles(
            0,
            w as int,
            h as int,
            cap as int,
        ) =~= whole);
    }
    while y < h
        invariant
            w == size[0],
            h == size[1],
            cap > 0,
            y <= h,
            whole == grid_tiles(0, w as int, h as int, cap as int),
            rects@.map_values(|t: (usize, usize, usize, usize)| rect_view(t)) + grid_tiles(
                y as int,
                w as int,
                h as int,
                cap as int,
            ) == whole,
        decreases h - y,
    {
        let th = if h - y < cap { h - y } else { cap };
        proof {
            assert(grid_tiles(y as int, w as int, h as int, cap as int) == row_tiles(
                0,
                y as int,
                w as int,
                th as int,
                cap as int,
            ) + grid_tiles((y + th) as int, w as int, h as int, cap as int));
        }
        let mut x: usize = 0;
        while x < w
            invariant
                w == size[0],
                h == size[1],
                cap > 0,
                y < h,
                1 <= th <= cap,
                y + th <= h,
                x <= w,
                whole == grid_tiles(0, w as int, h as int, cap as int),
                rects@.map_values(|t: (usize, usize, usize, usize)| rect_view(t)) + row_tiles(
                    x as int,
                    y as int,
                    w as int,
                    th as int,
                    cap as int,
                ) + grid_tiles((y + th) as int, w as int, h as int, cap as int) == whole,
            decreases w - x,
        {
            let tw = if w - x < cap { w - x } else { cap };
            let ghost before = rects@.map_values(|t: (usize, usize, usize, usize)| rect_view(t));
            let ghost tail = row_tiles((x + tw) as int, y as int, w as int, th as int, cap as int);
            let ghost below = grid_tiles((y + th) as int, w as int, h as int, cap as int);
            proof {
                assert(row_tiles(x as int, y as int, w as int, th as int, cap as int) == seq![
                    (x as int, y as int, tw as int, th as int),
                ] + tail);
            }
            rects.push((x, y, tw, th));
            proof {
                assert(rects@.map_values(|t: (usize, usize, usize, usize)| rect_view(t))
                    =~= before.push((x as int, y as int, tw as int, th as int)));
                assert(before.push((x as int, y as int, tw as int, th as int)) + tail + below
                    =~= before + (seq![(x as int, y as int, tw as int, th as int)] + tail)
                    + below);
            }
            x = x + tw;
        }
        proof {
            assert(row_tiles(x as int, y as int, w as int, th as int, cap as int)
                == Seq::<(int, int, int, int)>::empty());
            assert(rects@.map_values(|t: (usize, usize, usize, usize)| rect_view(t))
                + Seq::<(int, int, int, int)>::empty() =~= rects@.map_values(
                |t: (usize, usize, usize, usize)| rect_view(t),
            ));
        }
        y = y + th;
    }
    proof {
        assert(grid_tiles(y as int, w as int, h as int, cap as int)
            == Seq::<(int, int, int, int)>::empty());
        assert(rects@.map_values(|t: (usize, usize, usize, usize)| rect_view(t))
            + Seq::<(int, int, int, int)>::empty() =~= rects@.map_values(
            |t: (usize, usize, usize, usize)| rect_view(t),
        ));
    }
    rects
}

} // verus!
