//! Per-pixel colour work on RGBA8 buffers: channel offsets, lookup tables, the
//! block mosaic, palette hashing and hex colour parsing. Transparent pixels
//! (alpha 0) are never touched.

use vstd::prelude::*;
use crate::text::{chars_of, strip_leading, strip_leading_chars, trim, trim_chars};
use vstd::arithmetic::div_mod::{
    lemma_fundamental_div_mod, lemma_fundamental_div_mod_converse, lemma_mod_add_multiples_vanish,
};

verus! {

/// Channel `c` of pixel `p` of an RGBA8 buffer.
pub open spec fn chan(s: Seq<u8>, p: int, c: int) -> u8 {
    s[p * 4 + c]
}

/// How many whole 4-byte pixels the buffer holds (a trailing partial pixel is
/// left alone).
pub open spec fn pixel_count(s: Seq<u8>) -> int {
    s.len() as int / 4
}

/// `v + off`, clamped to `0..=255`.
pub open spec fn offset_channel(v: u8, off: i16) -> u8 {
    let t = v as int + off as int;
    if t < 0 {
        0
    } else if t > 255 {
        255
    } else {
        t as u8
    }
}

/// The buffer after `f` is applied to the colour channels of every opaque pixel,
/// everything else unchanged.
pub open spec fn opaque_map(old: Seq<u8>, new: Seq<u8>, f: spec_fn(int, u8) -> u8) -> bool {
    &&& new.len() == old.len()
    &&& forall|p: int, c: int|
        0 <= p < pixel_count(old) && 0 <= c < 4 ==> #[trigger] chan(new, p, c) == if c < 3 && chan(
            old,
            p,
            3,
        ) != 0 {
            f(c, chan(old, p, c))
        } else {
            chan(old, p, c)
        }
    &&& forall|k: int| pixel_count(old) * 4 <= k < old.len() ==> #[trigger] new[k] == old[k]
}

proof fn lemma_pixel_bounds(p: int, n: int, len: int)
    requires
        0 <= p < n,
        n == len / 4,
        len >= 0,
    ensures
        p * 4 + 3 < len,
        n * 4 <= len,
{
}

/// Per-channel additive offset ("color balance"): each colour channel of every
/// opaque pixel becomes `in + off`, clamped to `0..=255`. A zero offset is a
/// no-op.
pub fn color_balance(rgba: &mut [u8], off: [i16; 3])
    ensures
        opaque_map(old(rgba)@, final(rgba)@, |c: int, v: u8| offset_channel(v, off[c])),
{
    if off[0] == 0 && off[1] == 0 && off[2] == 0 {
        proof {
            assert forall|p: int, c: int| 0 <= p < pixel_count(rgba@) && 0 <= c < 4 implies #[trigger] chan(
                rgba@,
                p,
                c,
            ) == if c < 3 && chan(rgba@, p, 3) != 0 {
                offset_channel(chan(rgba@, p, c), off[c])
            } else {
                chan(rgba@, p, c)
            } by {}
        }
        return;
    }
    let n = rgba.len() / 4;
    let ghost orig = rgba@;
    let mut p: usize = 0;
    while p < n
        invariant
            n == pixel_count(orig),
            orig.len() == rgba@.len(),
            orig.len() <= usize::MAX,
            p <= n,
            forall|q: int, c: int|
                0 <= q < p && 0 <= c < 4 ==> #[trigger] chan(rgba@, q, c) == if c < 3 && chan(
                    orig,
                    q,
                    3,
                ) != 0 {
                    offset_channel(chan(orig, q, c), off[c])
                } else {
                    chan(orig, q, c)
                },
            forall|k: int| p * 4 <= k < orig.len() ==> #[trigger] rgba@[k] == orig[k],
        decreases n - p,
    {
        proof {
            lemma_pixel_bounds(p as int, n as int, orig.len() as int);
        }
        let i = p * 4;
        let ghost row_before = rgba@;
        if rgba[i + 3] != 0 {
            let mut c: usize = 0;
            while c < 3
                invariant
                    n == pixel_count(orig),
                    orig.len() == rgba@.len(),
                    p < n,
                    i == p * 4,
                    c <= 3,
                    chan(orig, p as int, 3) != 0,
                    i + 3 < orig.len(),
                    forall|k: int| 0 <= k < i ==> #[trigger] rgba@[k] == row_before[k],
                    forall|cc: int| 0 <= cc < c ==> #[trigger] rgba@[i + cc] == offset_channel(orig[i + cc], off[cc]),
                    forall|k: int| i + c <= k < orig.len() ==> #[trigger] rgba@[k] == orig[k],
                decreases 3 - c,
            {
                let t: i32 = rgba[i + c] as i32 + off[c] as i32;
                let v: u8 = if t < 0 { 0 } else if t > 255 { 255 } else { t as u8 };
                rgba[i + c] = v;
                c = c + 1;
            }
        }
        proof {
            assert forall|q: int, c: int| 0 <= q < p + 1 && 0 <= c < 4 implies #[trigger] chan(
                rgba@,
                q,
                c,
            ) == if c < 3 && chan(orig, q, 3) != 0 {
                offset_channel(chan(orig, q, c), off[c])
            } else {
                chan(orig, q, c)
            } by {
                if q == p {
                    assert(rgba@[i + c] == chan(rgba@, q, c));
                } else {
                    assert(chan(row_before, q, c) == chan(rgba@, q, c));
                }
            }
        }
        p = p + 1;
    }
}

/// Apply a per-channel 256-entry lookup table to every opaque pixel.
pub fn apply_lut(rgba: &mut [u8], lut: &[u8; 256])
    ensures
        opaque_map(old(rgba)@, final(rgba)@, |c: int, v: u8| lut@[v as int]),
{
    let n = rgba.len() / 4;
    let ghost orig = rgba@;
    let mut p: usize = 0;
    while p < n
        invariant
            n == pixel_count(orig),
            orig.len() == rgba@.len(),
            p <= n,
            orig.len() <= usize::MAX,
            forall|q: int, c: int|
                0 <= q < p && 0 <= c < 4 ==> #[trigger] chan(rgba@, q, c) == if c < 3 && chan(
                    orig,
                    q,
                    3,
                ) != 0 {
                    lut@[chan(orig, q, c) as int]
                } else {
                    chan(orig, q, c)
                },
            forall|k: int| p * 4 <= k < orig.len() ==> #[trigger] rgba@[k] == orig[k],
        decreases n - p,
    {
        proof {
            lemma_pixel_bounds(p as int, n as int, orig.len() as int);
        }
        let i = p * 4;
        let ghost before = rgba@;
        if rgba[i + 3] != 0 {
            let r = lut[rgba[i] as usize];
            rgba[i] = r;
            let g = lut[rgba[i + 1] as usize];
            rgba[i + 1] = g;
            let b = lut[rgba[i + 2] as usize];
            rgba[i + 2] = b;
        }
        proof {
            assert forall|q: int, c: int| 0 <= q < p + 1 && 0 <= c < 4 implies #[trigger] chan(
                rgba@,
                q,
                c,
            ) == if c < 3 && chan(orig, q, 3) != 0 {
                lut@[chan(orig, q, c) as int]
            } else {
                chan(orig, q, c)
            } by {
                if q == p {
                    assert(rgba@[i + c] == chan(rgba@, q, c));
                    assert(orig[i + c] == chan(orig, q, c));
                } else {
                    assert(chan(before, q, c) == chan(rgba@, q, c));
                }
            }
        }
        p = p + 1;
    }
}

/// The bytes of a palette's colours, in order.
pub open spec fn palette_bytes(pal: Seq<[u8; 4]>) -> Seq<u8>
    decreases pal.len(),
{
    if pal.len() == 0 {
        seq![]
    } else {
        let c = pal.last();
        palette_bytes(pal.drop_last()) + seq![c[0], c[1], c[2], c[3]]
    }
}

/// The 64-bit FNV-1a hash of a byte sequence.
pub open spec fn fnv1a(bytes: Seq<u8>) -> u64
    decreases bytes.len(),
{
    if bytes.len() == 0 {
        0xcbf2_9ce4_8422_2325u64
    } else {
        (fnv1a(bytes.drop_last()) ^ (bytes.last() as u64)).wrapping_mul(0x0000_0100_0000_01b3u64)
    }
}

/// FNV-1a hash of a palette's bytes: a stable cache key for palettes that have
/// no file path.
pub fn palette_hash(pal: &[[u8; 4]]) -> (h: u64)
    ensures
        h == fnv1a(palette_bytes(pal@)),
{
    let mut h: u64 = 0xcbf2_9ce4_8422_2325u64;
    let mut i: usize = 0;
    while i < pal.len()
        invariant
            i <= pal@.len(),
            h == fnv1a(palette_bytes(pal@.subrange(0, i as int))),
        decreases pal@.len() - i,
    {
        let c = pal[i];
        let ghost done = palette_bytes(pal@.subrange(0, i as int));
        proof {
            assert(pal@.subrange(0, i + 1).drop_last() =~= pal@.subrange(0, i as int));
            let b = palette_bytes(pal@.subrange(0, i + 1));
            assert(b == done + seq![c[0], c[1], c[2], c[3]]);
            assert(b.drop_last() =~= done + seq![c[0], c[1], c[2]]);
            assert(b.drop_last().drop_last() =~= done + seq![c[0], c[1]]);
            assert(b.drop_last().drop_last().drop_last() =~= done + seq![c[0]]);
            assert(b.drop_last().drop_last().drop_last().drop_last() =~= done);
        }
        let mut k: usize = 0;
        while k < 4
            invariant
                k <= 4,
                h == fnv1a(done + seq![c[0], c[1], c[2], c[3]].subrange(0, k as int)),
            decreases 4 - k,
        {
            proof {
                let s = done + seq![c[0], c[1], c[2], c[3]].subrange(0, k + 1);
                assert(s.drop_last() =~= done + seq![c[0], c[1], c[2], c[3]].subrange(0, k as int));
                assert(s.last() == c[k as int]);
            }
            h = (h ^ (c[k] as u64)).wrapping_mul(0x0000_0100_0000_01b3u64);
            k = k + 1;
        }
        proof {
            assert(seq![c[0], c[1], c[2], c[3]].subrange(0, 4) =~= seq![c[0], c[1], c[2], c[3]]);
        }
        i = i + 1;
    }
    proof {
        assert(pal@.subrange(0, pal@.len() as int) =~= pal@);
    }
    h
}

/// The value of hexadecimal digit `c`, or -1 when `c` is not one.
pub open spec fn hex_val(c: char) -> int {
    if '0' <= c && c <= '9' {
        c as int - '0' as int
    } else if 'a' <= c && c <= 'f' {
        c as int - 'a' as int + 10
    } else if 'A' <= c && c <= 'F' {
        c as int - 'A' as int + 10
    } else {
        -1
    }
}

/// Every character of `s` is a hexadecimal digit.
pub open spec fn all_hex(s: Seq<char>) -> bool {
    forall|i: int| 0 <= i < s.len() ==> hex_val(#[trigger] s[i]) >= 0
}

/// The number the hexadecimal digits `s` spell.
pub open spec fn hex_number(s: Seq<char>) -> int
    decreases s.len(),
{
    if s.len() == 0 {
        0
    } else {
        hex_number(s.drop_last()) * 16 + hex_val(s.last())
    }
}

/// 16 to the power `k`.
pub open spec fn pow16(k: nat) -> int
    decreases k,
{
    if k == 0 {
        1
    } else {
        16 * pow16((k - 1) as nat)
    }
}

/// The colour a hex string names: surrounding whitespace and any leading `#`
/// dropped, then exactly six hexadecimal digits `RRGGBB` or three digits `RGB`,
/// each doubled. Any other length, or any character that is not a hexadecimal
/// digit, names no colour.
pub open spec fn parse_hex_spec(s: Seq<char>) -> Option<[u8; 3]> {
    let h = strip_leading(trim(s), '#');
    if h.len() == 6 && all_hex(h) {
        let n = hex_number(h);
        Some([(n / 65536) as u8, (n / 256 % 256) as u8, (n % 256) as u8])
    } else if h.len() == 3 && all_hex(h) {
        Some([(hex_val(h[0]) * 17) as u8, (hex_val(h[1]) * 17) as u8, (hex_val(h[2]) * 17) as u8])
    } else {
        None
    }
}

/// The value of hexadecimal digit `c`, if it is one.
fn hex_digit(c: char) -> (r: Option<u32>)
    ensures
        r matches Some(v) ==> hex_val(c) >= 0 && v == hex_val(c),
        r is None ==> hex_val(c) < 0,
{
    if '0' <= c && c <= '9' {
        Some((c as u32) - ('0' as u32))
    } else if 'a' <= c && c <= 'f' {
        Some((c as u32) - ('a' as u32) + 10)
    } else if 'A' <= c && c <= 'F' {
        Some((c as u32) - ('A' as u32) + 10)
    } else {
        None
    }
}

/// The number a run of at most six hexadecimal digits spells, if they all are
/// digits.
fn hex_run(d: &[char], from: usize) -> (r: Option<u32>)
    requires
        from <= d@.len(),
        d@.len() - from <= 6,
    ensures
        r matches Some(n) ==> all_hex(d@.skip(from as int)) && n == hex_number(d@.skip(from as int)),
        r is None ==> !all_hex(d@.skip(from as int)),
{
    let mut n: u32 = 0;
    let mut k: usize = from;
    proof {
        reveal_with_fuel(pow16, 7);
    }
    while k < d.len()
        invariant
            from <= k <= d@.len(),
            d@.len() - from <= 6,
            all_hex(d@.subrange(from as int, k as int)),
            n == hex_number(d@.subrange(from as int, k as int)),
            n < pow16((k - from) as nat),
            pow16((k - from) as nat) <= 0x100_0000,
        decreases d@.len() - k,
    {
        match hex_digit(d[k]) {
            Some(v) => {
                proof {
                    let s1 = d@.subrange(from as int, k + 1);
                    assert(s1.drop_last() =~= d@.subrange(from as int, k as int));
                    assert(s1.last() == d@[k as int]);
                    reveal_with_fuel(pow16, 7);
                    assert(pow16((k + 1 - from) as nat) == 16 * pow16((k - from) as nat));
                    assert(k + 1 - from <= 6);
                }
                n = n * 16 + v;
                k = k + 1;
            },
            None => {
                proof {
                    assert(d@.skip(from as int)[k - from] == d@[k as int]);
                }
                return None;
            },
        }
    }
    proof {
        assert(d@.subrange(from as int, k as int) =~= d@.skip(from as int));
    }
    Some(n)
}

/// Parse a hex colour (`#1A2B3C`, `1a2b3c`, or the three-digit shorthand `#abc`)
/// into `[r, g, b]`. A leading `#` and surrounding whitespace are tolerated; any
/// other length or a non-hex digit yields `None`.
pub fn parse_hex(s: &str) -> (r: Option<[u8; 3]>)
    ensures
        r == parse_hex_spec(s@),
{
    let cs = chars_of(s);
    let t = trim_chars(&cs);
    let h = strip_leading_chars(&t, '#');
    if h.len() == 6 {
        proof {
            assert(h@.skip(0) =~= h@);
        }
        match hex_run(&h, 0) {
            Some(n) => {
                proof {
                    reveal_with_fuel(pow16, 7);
                }
                Some([(n / 65536) as u8, (n / 256 % 256) as u8, (n % 256) as u8])
            },
            None => None,
        }
    } else if h.len() == 3 {
        match (hex_digit(h[0]), hex_digit(h[1]), hex_digit(h[2])) {
            (Some(a), Some(b), Some(c)) => {
                proof {
                    assert(all_hex(h@)) by {
                        assert forall|j: int| 0 <= j < h@.len() implies hex_val(#[trigger] h@[j]) >= 0 by {
                            if j == 0 {} else if j == 1 {} else {}
                        }
                    }
                }
                Some([(a * 17) as u8, (b * 17) as u8, (c * 17) as u8])
            },
            _ => None,
        }
    } else {
        None
    }
}

/// Channel `c` of pixel `(x, y)` of a `w`-wide RGBA8 image.
pub open spec fn px(s: Seq<u8>, w: int, y: int, x: int, c: int) -> u8 {
    chan(s, y * w + x, c)
}

/// What pixel `(x, y)` adds to a block total: its channel `c`, or 1 when `c`
/// is 4 (counting it); nothing when the pixel is transparent.
pub open spec fn weight(s: Seq<u8>, w: int, y: int, x: int, c: int) -> int {
    if px(s, w, y, x, 3) == 0 {
        0
    } else if c == 4 {
        1
    } else {
        px(s, w, y, x, c) as int
    }
}

/// The total weight of row `y` from column `x0` up to (not including) `x1`.
pub open spec fn row_sum(s: Seq<u8>, w: int, c: int, y: int, x0: int, x1: int) -> int
    decreases x1 - x0,
{
    if x1 <= x0 {
        0
    } else {
        row_sum(s, w, c, y, x0, x1 - 1) + weight(s, w, y, x1 - 1, c)
    }
}

/// The total weight of the block of rows `y0..y1` and columns `x0..x1`: the sum of
/// channel `c` over its opaque pixels, or (for `c == 4`) how many are opaque.
pub open spec fn block_sum(s: Seq<u8>, w: int, c: int, y0: int, y1: int, x0: int, x1: int) -> int
    decreases y1 - y0,
{
    if y1 <= y0 {
        0
    } else {
        block_sum(s, w, c, y0, y1 - 1, x0, x1) + row_sum(s, w, c, y1 - 1, x0, x1)
    }
}

/// The first row or column of the `bs`-sized block holding `v`.
pub open spec fn block_start(v: int, bs: int) -> int {
    v / bs * bs
}

/// One past the last row or column of the `bs`-sized block holding `v`, within
/// `limit`.
pub open spec fn block_end(v: int, bs: int, limit: int) -> int {
    let e = block_start(v, bs) + bs;
    if e < limit { e } else { limit }
}

/// The mosaic colour of channel `c` at pixel `(x, y)`: the mean of that channel
/// over the opaque pixels of its `bs`×`bs` block.
pub open spec fn mosaic_value(s: Seq<u8>, w: int, h: int, bs: int, y: int, x: int, c: int) -> u8 {
    let y0 = block_start(y, bs);
    let y1 = block_end(y, bs, h);
    let x0 = block_start(x, bs);
    let x1 = block_end(x, bs, w);
    (block_sum(s, w, c, y0, y1, x0, x1) / block_sum(s, w, 4, y0, y1, x0, x1)) as u8
}

/// Channel `c` of pixel `(x, y)` after the mosaic: opaque pixels take their
/// block's mean colour, alpha and transparent pixels stay as they were.
pub open spec fn mosaic_px(s: Seq<u8>, w: int, h: int, bs: int, y: int, x: int, c: int) -> u8 {
    if c < 3 && px(s, w, y, x, 3) != 0 {
        mosaic_value(s, w, h, bs, y, x, c)
    } else {
        px(s, w, y, x, c)
    }
}

proof fn lemma_distinct_pixels(y1: int, x1: int, y2: int, x2: int, w: int)
    requires
        0 <= x1 < w,
        0 <= x2 < w,
        y1 != y2 || x1 != x2,
    ensures
        y1 * w + x1 != y2 * w + x2,
{
    if y1 < y2 {
        assert(y1 * w + x1 < y2 * w + x2) by (nonlinear_arith)
            requires
                y1 < y2,
                0 <= x1 < w,
                0 <= x2,
        ;
    } else if y2 < y1 {
        assert(y2 * w + x2 < y1 * w + x1) by (nonlinear_arith)
            requires
                y2 < y1,
                0 <= x2 < w,
                0 <= x1,
        ;
    }
}

proof fn lemma_pixel_in_image(y: int, x: int, w: int, h: int)
    requires
        0 <= y < h,
        0 <= x < w,
    ensures
        0 <= y * w + x < w * h,
{
    assert(0 <= y * w + x < w * h) by (nonlinear_arith)
        requires
            0 <= y < h,
            0 <= x < w,
    ;
}

proof fn lemma_row_sum_agree(s1: Seq<u8>, s2: Seq<u8>, w: int, c: int, y: int, x0: int, x1: int)
    requires
        0 <= c <= 4,
        forall|xx: int, cc: int|
            x0 <= xx < x1 && 0 <= cc < 4 ==> #[trigger] px(s1, w, y, xx, cc) == px(s2, w, y, xx, cc),
    ensures
        row_sum(s1, w, c, y, x0, x1) == row_sum(s2, w, c, y, x0, x1),
    decreases x1 - x0,
{
    if x1 > x0 {
        lemma_row_sum_agree(s1, s2, w, c, y, x0, x1 - 1);
        assert(px(s1, w, y, x1 - 1, 3) == px(s2, w, y, x1 - 1, 3));
        if 0 <= c < 4 {
            assert(px(s1, w, y, x1 - 1, c) == px(s2, w, y, x1 - 1, c));
        }
    }
}

proof fn lemma_block_sum_agree(s1: Seq<u8>, s2: Seq<u8>, w: int, c: int, y0: int, y1: int, x0: int, x1: int)
    requires
        0 <= c <= 4,
        forall|yy: int, xx: int, cc: int|
            y0 <= yy < y1 && x0 <= xx < x1 && 0 <= cc < 4 ==> #[trigger] px(s1, w, yy, xx, cc) == px(
                s2,
                w,
                yy,
                xx,
                cc,
            ),
    ensures
        block_sum(s1, w, c, y0, y1, x0, x1) == block_sum(s2, w, c, y0, y1, x0, x1),
    decreases y1 - y0,
{
    if y1 > y0 {
        lemma_block_sum_agree(s1, s2, w, c, y0, y1 - 1, x0, x1);
        assert forall|xx: int, cc: int| x0 <= xx < x1 && 0 <= cc < 4 implies #[trigger] px(
            s1,
            w,
            y1 - 1,
            xx,
            cc,
        ) == px(s2, w, y1 - 1, xx, cc) by {}
        lemma_row_sum_agree(s1, s2, w, c, y1 - 1, x0, x1);
    }
}

proof fn lemma_row_count_zero(s: Seq<u8>, w: int, y: int, x0: int, x1: int)
    requires
        row_sum(s, w, 4, y, x0, x1) == 0,
    ensures
        forall|xx: int| x0 <= xx < x1 ==> #[trigger] px(s, w, y, xx, 3) == 0,
    decreases x1 - x0,
{
    if x1 > x0 {
        assert(row_sum(s, w, 4, y, x0, x1 - 1) >= 0) by {
            lemma_row_sum_nonneg(s, w, 4, y, x0, x1 - 1);
        }
        lemma_row_count_zero(s, w, y, x0, x1 - 1);
    }
}

proof fn lemma_row_sum_nonneg(s: Seq<u8>, w: int, c: int, y: int, x0: int, x1: int)
    ensures
        row_sum(s, w, c, y, x0, x1) >= 0,
    decreases x1 - x0,
{
    if x1 > x0 {
        lemma_row_sum_nonneg(s, w, c, y, x0, x1 - 1);
    }
}

proof fn lemma_block_count_zero(s: Seq<u8>, w: int, y0: int, y1: int, x0: int, x1: int)
    requires
        block_sum(s, w, 4, y0, y1, x0, x1) == 0,
    ensures
        forall|yy: int, xx: int| y0 <= yy < y1 && x0 <= xx < x1 ==> #[trigger] px(s, w, yy, xx, 3) == 0,
    decreases y1 - y0,
{
    if y1 > y0 {
        lemma_block_sum_nonneg(s, w, 4, y0, y1 - 1, x0, x1);
        lemma_row_sum_nonneg(s, w, 4, y1 - 1, x0, x1);
        lemma_block_count_zero(s, w, y0, y1 - 1, x0, x1);
        lemma_row_count_zero(s, w, y1 - 1, x0, x1);
    }
}

proof fn lemma_block_sum_nonneg(s: Seq<u8>, w: int, c: int, y0: int, y1: int, x0: int, x1: int)
    ensures
        block_sum(s, w, c, y0, y1, x0, x1) >= 0,
    decreases y1 - y0,
{
    if y1 > y0 {
        lemma_block_sum_nonneg(s, w, c, y0, y1 - 1, x0, x1);
        lemma_row_sum_nonneg(s, w, c, y1 - 1, x0, x1);
    }
}

proof fn lemma_row_sum_bound(s: Seq<u8>, w: int, c: int, y: int, x0: int, x1: int)
    requires
        0 <= c < 3,
    ensures
        row_sum(s, w, c, y, x0, x1) <= 255 * row_sum(s, w, 4, y, x0, x1),
    decreases x1 - x0,
{
    if x1 > x0 {
        lemma_row_sum_bound(s, w, c, y, x0, x1 - 1);
    }
}

proof fn lemma_block_sum_bound(s: Seq<u8>, w: int, c: int, y0: int, y1: int, x0: int, x1: int)
    requires
        0 <= c < 3,
    ensures
        block_sum(s, w, c, y0, y1, x0, x1) <= 255 * block_sum(s, w, 4, y0, y1, x0, x1),
    decreases y1 - y0,
{
    if y1 > y0 {
        lemma_block_sum_bound(s, w, c, y0, y1 - 1, x0, x1);
        lemma_row_sum_bound(s, w, c, y1 - 1, x0, x1);
    }
}

proof fn lemma_row_count_bound(s: Seq<u8>, w: int, y: int, x0: int, x1: int)
    requires
        x0 <= x1,
    ensures
        row_sum(s, w, 4, y, x0, x1) <= x1 - x0,
    decreases x1 - x0,
{
    if x1 > x0 {
        lemma_row_count_bound(s, w, y, x0, x1 - 1);
    }
}

proof fn lemma_block_count_bound(s: Seq<u8>, w: int, y0: int, y1: int, x0: int, x1: int)
    requires
        y0 <= y1,
        x0 <= x1,
    ensures
        block_sum(s, w, 4, y0, y1, x0, x1) <= (y1 - y0) * (x1 - x0),
    decreases y1 - y0,
{
    if y1 > y0 {
        lemma_block_count_bound(s, w, y0, y1 - 1, x0, x1);
        lemma_row_count_bound(s, w, y1 - 1, x0, x1);
        assert((y1 - 1 - y0) * (x1 - x0) + (x1 - x0) == (y1 - y0) * (x1 - x0)) by (nonlinear_arith);
    }
}

proof fn lemma_block_start(y: int, b0: int, bs: int)
    requires
        bs > 0,
        b0 >= 0,
        b0 % bs == 0,
        b0 <= y < b0 + bs,
    ensures
        block_start(y, bs) == b0,
{
    lemma_fundamental_div_mod(b0, bs);
    let q = b0 / bs;
    assert(q * bs == bs * q) by (nonlinear_arith);
    lemma_fundamental_div_mod_converse(y, bs, q, y - b0);
    assert(y / bs == q);
    assert(q * bs == bs * q) by (nonlinear_arith);
}

/// The opaque-pixel channel totals and count of the block of rows `y0..y1` and
/// columns `x0..x1`.
fn block_totals(rgba: &[u8], w: usize, h: usize, y0: usize, y1: usize, x0: usize, x1: usize) -> (t: (
    u32,
    u32,
    u32,
    u32,
))
    requires
        y0 <= y1 <= h,
        x0 <= x1 <= w,
        rgba@.len() >= w * h * 4,
        (y1 - y0) * (x1 - x0) * 255 <= u32::MAX,
    ensures
        t.0 == block_sum(rgba@, w as int, 0, y0 as int, y1 as int, x0 as int, x1 as int),
        t.1 == block_sum(rgba@, w as int, 1, y0 as int, y1 as int, x0 as int, x1 as int),
        t.2 == block_sum(rgba@, w as int, 2, y0 as int, y1 as int, x0 as int, x1 as int),
        t.3 == block_sum(rgba@, w as int, 4, y0 as int, y1 as int, x0 as int, x1 as int),
{
    let ghost s = rgba@;
    let ghost wi = w as int;
    let len = rgba.len();
    let mut sr: u32 = 0;
    let mut sg: u32 = 0;
    let mut sb: u32 = 0;
    let mut n: u32 = 0;
    let mut y = y0;
    while y < y1
        invariant
            s == rgba@,
            wi == w,
            len == rgba@.len(),
            y0 <= y <= y1 <= h,
            x0 <= x1 <= w,
            rgba@.len() >= w * h * 4,
            (y1 - y0) * (x1 - x0) * 255 <= u32::MAX,
            sr == block_sum(s, wi, 0, y0 as int, y as int, x0 as int, x1 as int),
            sg == block_sum(s, wi, 1, y0 as int, y as int, x0 as int, x1 as int),
            sb == block_sum(s, wi, 2, y0 as int, y as int, x0 as int, x1 as int),
            n == block_sum(s, wi, 4, y0 as int, y as int, x0 as int, x1 as int),
        decreases y1 - y,
    {
        let mut x = x0;
        while x < x1
            invariant
                s == rgba@,
                wi == w,
                len == rgba@.len(),
                y0 <= y < y1 <= h,
                x0 <= x <= x1 <= w,
                rgba@.len() >= w * h * 4,
                (y1 - y0) * (x1 - x0) * 255 <= u32::MAX,
                sr == block_sum(s, wi, 0, y0 as int, y as int, x0 as int, x1 as int) + row_sum(
                    s,
                    wi,
                    0,
                    y as int,
                    x0 as int,
                    x as int,
                ),
                sg == block_sum(s, wi, 1, y0 as int, y as int, x0 as int, x1 as int) + row_sum(
                    s,
                    wi,
                    1,
                    y as int,
                    x0 as int,
                    x as int,
                ),
                sb == block_sum(s, wi, 2, y0 as int, y as int, x0 as int, x1 as int) + row_sum(
                    s,
                    wi,
                    2,
                    y as int,
                    x0 as int,
                    x as int,
                ),
                n == block_sum(s, wi, 4, y0 as int, y as int, x0 as int, x1 as int) + row_sum(
                    s,
                    wi,
                    4,
                    y as int,
                    x0 as int,
                    x as int,
                ),
            decreases x1 - x,
        {
            proof {
                lemma_pixel_in_image(y as int, x as int, wi, h as int);
                lemma_block_count_bound(s, wi, y0 as int, y as int, x0 as int, x1 as int);
                lemma_row_count_bound(s, wi, y as int, x0 as int, x as int);
                lemma_block_sum_nonneg(s, wi, 4, y0 as int, y as int, x0 as int, x1 as int);
                lemma_row_sum_nonneg(s, wi, 4, y as int, x0 as int, x as int);
                let bw = x1 - x0;
                assert((y - y0) * bw + (x - x0) + 1 <= (y1 - y0) * bw) by (nonlinear_arith)
                    requires
                        y0 <= y < y1,
                        x0 <= x < x1,
                        bw == x1 - x0,
                ;
                assert(((y - y0) * bw + (x - x0) + 1) * 255 <= (y1 - y0) * bw * 255) by (nonlinear_arith)
                    requires
                        (y - y0) * bw + (x - x0) + 1 <= (y1 - y0) * bw,
                ;
                lemma_block_sum_bound(s, wi, 0, y0 as int, y as int, x0 as int, x1 as int);
                lemma_row_sum_bound(s, wi, 0, y as int, x0 as int, x as int);
                lemma_block_sum_bound(s, wi, 1, y0 as int, y as int, x0 as int, x1 as int);
                lemma_row_sum_bound(s, wi, 1, y as int, x0 as int, x as int);
                lemma_block_sum_bound(s, wi, 2, y0 as int, y as int, x0 as int, x1 as int);
                lemma_row_sum_bound(s, wi, 2, y as int, x0 as int, x as int);
            }
            let i = (y * w + x) * 4;
            if rgba[i + 3] != 0 {
                sr = sr + rgba[i] as u32;
                sg = sg + rgba[i + 1] as u32;
                sb = sb + rgba[i + 2] as u32;
                n = n + 1;
            }
            x = x + 1;
        }
        y = y + 1;
    }
    (sr, sg, sb, n)
}

/// Paint `rgb` over the colour channels of every opaque pixel in the block of
/// rows `y0..y1` and columns `x0..x1`.
fn fill_block(rgba: &mut [u8], w: usize, h: usize, y0: usize, y1: usize, x0: usize, x1: usize, rgb: [u8; 3])
    requires
        y0 <= y1 <= h,
        x0 <= x1 <= w,
        old(rgba)@.len() >= w * h * 4,
    ensures
        final(rgba)@.len() == old(rgba)@.len(),
        forall|yy: int, xx: int, c: int|
            0 <= yy < h && 0 <= xx < w && 0 <= c < 4 ==> #[trigger] px(final(rgba)@, w as int, yy, xx, c)
                == if y0 <= yy < y1 && x0 <= xx < x1 && c < 3 && px(old(rgba)@, w as int, yy, xx, 3)
                != 0 {
                rgb[c]
            } else {
                px(old(rgba)@, w as int, yy, xx, c)
            },
        forall|k: int| w * h * 4 <= k < old(rgba)@.len() ==> #[trigger] final(rgba)@[k] == old(rgba)@[k],
{
    let ghost orig = rgba@;
    let ghost wi = w as int;
    let len = rgba.len();
    let mut y = y0;
    while y < y1
        invariant
            wi == w,
            len == orig.len(),
            y0 <= y <= y1 <= h,
            x0 <= x1 <= w,
            orig.len() >= w * h * 4,
            rgba@.len() == orig.len(),
            forall|yy: int, xx: int, c: int|
                0 <= yy < h && 0 <= xx < w && 0 <= c < 4 ==> #[trigger] px(rgba@, wi, yy, xx, c) == if y0
                    <= yy < y && x0 <= xx < x1 && c < 3 && px(orig, wi, yy, xx, 3) != 0 {
                    rgb[c]
                } else {
                    px(orig, wi, yy, xx, c)
                },
            forall|k: int| w * h * 4 <= k < orig.len() ==> #[trigger] rgba@[k] == orig[k],
        decreases y1 - y,
    {
        let mut x = x0;
        while x < x1
            invariant
                wi == w,
                len == orig.len(),
                y0 <= y < y1 <= h,
                x0 <= x <= x1 <= w,
                orig.len() >= w * h * 4,
                rgba@.len() == orig.len(),
                forall|yy: int, xx: int, c: int|
                    0 <= yy < h && 0 <= xx < w && 0 <= c < 4 ==> #[trigger] px(rgba@, wi, yy, xx, c)
                        == if ((y0 <= yy < y && x0 <= xx < x1) || (yy == y && x0 <= xx < x)) && c < 3
                        && px(orig, wi, yy, xx, 3) != 0 {
                        rgb[c]
                    } else {
                        px(orig, wi, yy, xx, c)
                    },
                forall|k: int| w * h * 4 <= k < orig.len() ==> #[trigger] rgba@[k] == orig[k],
            decreases x1 - x,
        {
            proof {
                lemma_pixel_in_image(y as int, x as int, wi, h as int);
            }
            let i = (y * w + x) * 4;
            let ghost before = rgba@;
            proof {
                assert(px(before, wi, y as int, x as int, 3) == px(orig, wi, y as int, x as int, 3));
            }
            if rgba[i + 3] != 0 {
                rgba[i] = rgb[0];
                rgba[i + 1] = rgb[1];
                rgba[i + 2] = rgb[2];
            }
            proof {
                assert forall|yy: int, xx: int, c: int|
                    0 <= yy < h && 0 <= xx < w && 0 <= c < 4 implies #[trigger] px(rgba@, wi, yy, xx, c)
                        == if ((y0 <= yy < y && x0 <= xx < x1) || (yy == y && x0 <= xx < x + 1)) && c
                        < 3 && px(orig, wi, yy, xx, 3) != 0 {
                        rgb[c]
                    } else {
                        px(orig, wi, yy, xx, c)
                    } by {
                    if yy == y && xx == x {
                        assert(px(rgba@, wi, yy, xx, c) == rgba@[i + c]);
                    } else {
                        lemma_distinct_pixels(yy, xx, y as int, x as int, wi);
                        lemma_pixel_in_image(yy, xx, wi, h as int);
                        let k = (yy * wi + xx) * 4 + c;
                        assert(i == (y * wi + x) * 4);
                        assert(k != i && k != i + 1 && k != i + 2);
                        assert(rgba@[k] == before[k]);
                        assert(px(rgba@, wi, yy, xx, c) == px(before, wi, yy, xx, c));
                    }
                }
                assert forall|k: int| w * h * 4 <= k < orig.len() implies #[trigger] rgba@[k] == orig[k] by {
                    assert(rgba@[k] == before[k]);
                }
            }
            x = x + 1;
        }
        y = y + 1;
    }
}

/// The smaller of two integers.
pub open spec fn min_int(a: int, b: int) -> int {
    if a <= b { a } else { b }
}

/// Mosaic in progress: the pixels in rows above `y_done`, and those in rows
/// above `y_band` left of `x_done`, hold their final colour; all others still
/// hold their colour from before the mosaic.
pub open spec fn mosaic_progress(
    cur: Seq<u8>,
    orig: Seq<u8>,
    w: int,
    h: int,
    bs: int,
    y_done: int,
    y_band: int,
    x_done: int,
) -> bool {
    &&& cur.len() == orig.len()
    &&& forall|y: int, x: int, c: int|
        0 <= y < h && 0 <= x < w && 0 <= c < 4 ==> #[trigger] px(cur, w, y, x, c) == if y < y_done
            || (y < y_band && x < x_done) {
            mosaic_px(orig, w, h, bs, y, x, c)
        } else {
            px(orig, w, y, x, c)
        }
    &&& forall|k: int| w * h * 4 <= k < orig.len() ==> #[trigger] cur[k] == orig[k]
}

/// Mosaic: each `bs`×`bs` block (the last ones in a row or column cut short by
/// the image edge) takes, on its opaque pixels, the mean colour of those pixels.
/// Alpha is kept, so edges stay hard, and transparent pixels are untouched.
pub fn pixelate_blocks(rgba: &mut [u8], w: usize, h: usize, bs: usize)
    requires
        old(rgba)@.len() >= w * h * 4,
        bs > 0 || h == 0,
        w + bs <= usize::MAX,
        h + bs <= usize::MAX,
        min_int(bs as int, w as int) * min_int(bs as int, h as int) * 255 <= u32::MAX,
    ensures
        final(rgba)@.len() == old(rgba)@.len(),
        forall|y: int, x: int, c: int|
            0 <= y < h && 0 <= x < w && 0 <= c < 4 ==> #[trigger] px(final(rgba)@, w as int, y, x, c)
                == mosaic_px(old(rgba)@, w as int, h as int, bs as int, y, x, c),
        forall|k: int| w * h * 4 <= k < old(rgba)@.len() ==> #[trigger] final(rgba)@[k] == old(rgba)@[k],
{
    let ghost orig = rgba@;
    let ghost wi = w as int;
    let ghost hi = h as int;
    let ghost bsi = bs as int;
    if h == 0 {
        return;
    }
    let mut by: usize = 0;
    proof {
        assert(0int % bsi == 0);
    }
    while by < h
        invariant
            wi == w,
            hi == h,
            bsi == bs,
            bs > 0,
            w + bs <= usize::MAX,
            h + bs <= usize::MAX,
            min_int(bs as int, w as int) * min_int(bs as int, h as int) * 255 <= u32::MAX,
            orig.len() >= w * h * 4,
            by % bs == 0,
            mosaic_progress(rgba@, orig, wi, hi, bsi, by as int, by as int, 0),
        decreases h + bs - by,
    {
        let y1 = if by + bs < h { by + bs } else { h };
        let mut bx: usize = 0;
        proof {
            assert(0int % bsi == 0);
        }
        while bx < w
            invariant
                wi == w,
                hi == h,
                bsi == bs,
                bs > 0,
                w + bs <= usize::MAX,
                h + bs <= usize::MAX,
                min_int(bs as int, w as int) * min_int(bs as int, h as int) * 255 <= u32::MAX,
                orig.len() >= w * h * 4,
                by % bs == 0,
                by < h,
                y1 == min_int(by + bs, h as int),
                bx % bs == 0,
                mosaic_progress(rgba@, orig, wi, hi, bsi, by as int, y1 as int, bx as int),
            decreases w + bs - bx,
        {
            let x1 = if bx + bs < w { bx + bs } else { w };
            let ghost cur = rgba@;
            proof {
                assert((y1 - by) * (x1 - bx) * 255 <= u32::MAX) by (nonlinear_arith)
                    requires
                        0 <= y1 - by <= min_int(bs as int, h as int),
                        0 <= x1 - bx <= min_int(bs as int, w as int),
                        min_int(bs as int, w as int) * min_int(bs as int, h as int) * 255 <= u32::MAX,
                ;
                assert forall|yy: int, xx: int, c: int|
                    by <= yy < y1 && bx <= xx < x1 && 0 <= c < 4 implies #[trigger] px(cur, wi, yy, xx, c)
                        == px(orig, wi, yy, xx, c) by {}
                lemma_block_sum_agree(cur, orig, wi, 0, by as int, y1 as int, bx as int, x1 as int);
                lemma_block_sum_agree(cur, orig, wi, 1, by as int, y1 as int, bx as int, x1 as int);
                lemma_block_sum_agree(cur, orig, wi, 2, by as int, y1 as int, bx as int, x1 as int);
                lemma_block_sum_agree(cur, orig, wi, 4, by as int, y1 as int, bx as int, x1 as int);
            }
            let (sr, sg, sb, n) = block_totals(rgba, w, h, by, y1, bx, x1);
            if n > 0 {
                let rgb: [u8; 3] = [(sr / n) as u8, (sg / n) as u8, (sb / n) as u8];
                fill_block(rgba, w, h, by, y1, bx, x1, rgb);
                proof {
                    assert forall|y: int, x: int, c: int|
                        0 <= y < h && 0 <= x < w && 0 <= c < 4 implies #[trigger] px(rgba@, wi, y, x, c)
                            == if y < by || (y < y1 && x < bx + bs) {
                            mosaic_px(orig, wi, hi, bsi, y, x, c)
                        } else {
                            px(orig, wi, y, x, c)
                        } by {
                        assert(px(cur, wi, y, x, c) == (if y < by || (y < y1 && x < bx) {
                            mosaic_px(orig, wi, hi, bsi, y, x, c)
                        } else {
                            px(orig, wi, y, x, c)
                        }));
                        if by <= y < y1 && bx <= x < x1 {
                            lemma_block_start(y, by as int, bsi);
                            lemma_block_start(x, bx as int, bsi);
                            assert(px(cur, wi, y, x, 3) == px(orig, wi, y, x, 3));
                        }
                    }
                }
            } else {
                proof {
                    lemma_block_count_zero(cur, wi, by as int, y1 as int, bx as int, x1 as int);
                    assert forall|y: int, x: int, c: int|
                        0 <= y < h && 0 <= x < w && 0 <= c < 4 implies #[trigger] px(rgba@, wi, y, x, c)
                            == if y < by || (y < y1 && x < bx + bs) {
                            mosaic_px(orig, wi, hi, bsi, y, x, c)
                        } else {
                            px(orig, wi, y, x, c)
                        } by {
                        if by <= y < y1 && bx <= x < x1 {
                            assert(px(cur, wi, y, x, 3) == 0);
                        }
                    }
                }
            }
            proof {
                lemma_mod_add_multiples_vanish(bx as int, bsi);
            }
            bx = bx + bs;
        }
        proof {
            lemma_mod_add_multiples_vanish(by as int, bsi);
            assert forall|y: int, x: int, c: int|
                0 <= y < h && 0 <= x < w && 0 <= c < 4 implies #[trigger] px(rgba@, wi, y, x, c)
                    == if y < by + bs || (y < by + bs && x < 0) {
                    mosaic_px(orig, wi, hi, bsi, y, x, c)
                } else {
                    px(orig, wi, y, x, c)
                } by {}
        }
        by = by + bs;
    }
}

} // verus!
