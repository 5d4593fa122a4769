use pixelview::pixels::{apply_lut, color_balance, palette_hash, parse_hex, pixelate_blocks};
use pixelview::picks::{index_from_clock, pick_index, random_index};
use pixelview::raster::{resample_nearest, CellReveal};
use pixelview::tiles::tile_grid;

#[test]
fn cell_reveal_types_out_in_reading_order() {
    // 2×2 grid of 1×1 cells, four distinct colours in reading order.
    let px = vec![[1, 1, 1, 255], [2, 2, 2, 255], [3, 3, 3, 255], [4, 4, 4, 255]];
    let cr = CellReveal::new(px, 2, 2, 1, 1);
    assert_eq!(cr.cells, 4);
    // 0 cells → all black.
    assert_eq!(cr.render(0).0.pixels, vec![[0, 0, 0, 255]; 4]);
    // 3 cells → first three revealed, the last still black.
    let img = cr.render(3).0;
    assert_eq!(img.pixels[0], [1, 1, 1, 255]);
    assert_eq!(img.pixels[1], [2, 2, 2, 255]);
    assert_eq!(img.pixels[2], [3, 3, 3, 255]);
    assert_eq!(img.pixels[3], [0, 0, 0, 255]);
    // All cells → the full image.
    assert_eq!(cr.render(4).0.pixels[3], [4, 4, 4, 255]);
}

#[test]
fn cell_reveal_partial_row_and_cursor() {
    // 4×2 image in 2×1 cells: 2 columns, 2 rows of cells.
    let px: Vec<[u8; 4]> = (0..8u8).map(|i| [i, i, i, 255]).collect();
    let cr = CellReveal::new(px, 4, 2, 2, 1);
    assert_eq!((cr.cols, cr.cells), (2, 4));
    let (img, cursor) = cr.render(1);
    assert_eq!((img.width, img.height), (4, 2));
    assert_eq!(img.pixels[0], [0, 0, 0, 255]);
    assert_eq!(img.pixels[1], [1, 1, 1, 255]);
    assert_eq!(img.pixels[2], [0, 0, 0, 255]); // third column is the second cell
    assert_eq!(img.pixels[4], [0, 0, 0, 255]); // second row not reached
    assert_eq!(cursor, 1);
    // A limit past the end shows everything.
    let (all, cursor) = cr.render(100);
    assert_eq!(all.pixels[7], [7, 7, 7, 255]);
    assert_eq!(cursor, 2);
}

#[test]
fn resample_keeps_nearest_source_pixels() {
    // 4×1 down to 2×1 keeps source pixels 0 and 2.
    let rgba: Vec<u8> = (0..4u8).flat_map(|i| [i * 10, i * 10, i * 10, 255]).collect();
    let px = resample_nearest([4, 1], &rgba, [2, 1]);
    assert_eq!(px, vec![0, 0, 0, 255, 20, 20, 20, 255]);
    // 16000×800 down to 8000×400: every output pixel comes from the source.
    let (w, h) = (16000usize, 800usize);
    let big = vec![7u8; w * h * 4];
    let px = resample_nearest([w, h], &big, [8000, 400]);
    assert_eq!(px.len(), 8000 * 400 * 4);
    assert!(px.iter().all(|&b| b == 7));
}

#[test]
fn tile_grid_single_when_within_cap() {
    assert_eq!(tile_grid([100, 50], 8192), vec![(0, 0, 100, 50)]);
}

#[test]
fn tile_grid_covers_oversized_image_exactly() {
    // 25×18 split at cap 10 → 3 cols (10,10,5) × 2 rows (10,8) = 6 tiles,
    // tiling the whole image with no gaps or overlaps.
    let rects = tile_grid([25, 18], 10);
    assert_eq!(rects.len(), 6);
    for &(x, y, w, h) in &rects {
        assert!(w <= 10 && h <= 10);
        assert!(x + w <= 25 && y + h <= 18);
    }
    let area: usize = rects.iter().map(|&(_, _, w, h)| w * h).sum();
    assert_eq!(area, 25 * 18); // exact cover, no double-counting
}

#[test]
fn tile_grid_reading_order_and_empty_image() {
    assert_eq!(
        tile_grid([25, 18], 10),
        vec![(0, 0, 10, 10), (10, 0, 10, 10), (20, 0, 5, 10), (0, 10, 10, 8), (10, 10, 10, 8), (20, 10, 5, 8)]
    );
    assert!(tile_grid([0, 5], 10).is_empty());
    assert!(tile_grid([5, 0], 10).is_empty());
}

#[test]
fn pixelate_averages_blocks_and_keeps_alpha() {
    // A 2×2 image: one block of size 2 → all opaque pixels share the mean.
    let mut img = vec![
        0, 0, 0, 255, 60, 60, 60, 255, // row 0
        120, 120, 120, 255, 180, 180, 180, 0, // row 1; last is transparent
    ];
    pixelate_blocks(&mut img, 2, 2, 2);
    // Mean over the 3 opaque pixels = (0+60+120)/3 = 60.
    assert_eq!(&img[0..3], &[60, 60, 60], "opaque pixel got block mean");
    assert_eq!(&img[4..7], &[60, 60, 60]);
    assert_eq!(&img[8..11], &[60, 60, 60]);
    assert_eq!(img[15], 0, "transparent alpha preserved");
    assert_eq!(&img[12..15], &[180, 180, 180], "transparent pixel color untouched");
}

#[test]
fn pixelate_blocks_are_independent_and_edges_cut_short() {
    // 3×1 with blocks of 2: pixels 0,1 average; pixel 2 is a block of its own.
    let mut img = vec![10, 20, 30, 255, 30, 40, 50, 255, 7, 8, 9, 255, 99];
    pixelate_blocks(&mut img, 3, 1, 2);
    assert_eq!(img, vec![20, 30, 40, 255, 20, 30, 40, 255, 7, 8, 9, 255, 99]);
}

#[test]
fn invert_and_color_balance_behave() {
    // Color balance adds a per-channel offset (clamped); neutral is a no-op.
    let mut c = vec![10u8, 250, 128, 255, 9, 9, 9, 0];
    color_balance(&mut c, [20, 20, -20]);
    assert_eq!(&c[0..3], &[30, 255, 108]);
    assert_eq!(&c[4..8], &[9, 9, 9, 0], "transparent untouched");
    let before = c.clone();
    color_balance(&mut c, [0, 0, 0]);
    assert_eq!(c, before, "neutral offset is a no-op");
}

#[test]
fn color_balance_clamps_low_and_ignores_trailing_bytes() {
    let mut c = vec![5u8, 100, 200, 1, 42, 43];
    color_balance(&mut c, [-10, 1000, -300]);
    assert_eq!(c, vec![0, 255, 0, 1, 42, 43]);
}

#[test]
fn lut_maps_opaque_colour_channels() {
    let mut lut = [0u8; 256];
    for (i, v) in lut.iter_mut().enumerate() {
        *v = 255 - i as u8;
    }
    let mut px = vec![10u8, 200, 50, 255, 1, 2, 3, 0];
    apply_lut(&mut px, &lut);
    assert_eq!(px, vec![245, 55, 205, 255, 1, 2, 3, 0]);
}

#[test]
fn parse_hex_handles_forms_and_rejects_junk() {
    assert_eq!(parse_hex("#1A2B3C"), Some([0x1A, 0x2B, 0x3C]));
    assert_eq!(parse_hex("1a2b3c"), Some([0x1a, 0x2b, 0x3c]));
    assert_eq!(parse_hex("  #abc "), Some([0xAA, 0xBB, 0xCC]));
    assert_eq!(parse_hex("#fff"), Some([255, 255, 255]));
    assert_eq!(parse_hex("12"), None, "wrong length");
    assert_eq!(parse_hex("#nothex"), None, "non-hex digits");
}

#[test]
fn parse_hex_edge_forms() {
    // A leading `+` is read as a sign by the six-digit parse.
    assert_eq!(parse_hex("+12345"), None, "a sign is not a hex digit");
    assert_eq!(parse_hex("##00ff80"), Some([0, 255, 128]));
    assert_eq!(parse_hex("#é1"), None, "non-ASCII never parses");
    assert_eq!(parse_hex("#-12345"), None);
}

#[test]
fn random_index_and_palette_hash() {
    assert!(random_index(55) < 55);
    assert_eq!(random_index(0), 0);
    let a = vec![[1, 2, 3, 255], [4, 5, 6, 255]];
    let b = vec![[1, 2, 3, 255], [7, 5, 6, 255]];
    assert_eq!(palette_hash(&a), palette_hash(&a), "stable");
    assert_ne!(palette_hash(&a), palette_hash(&b), "content-sensitive");
}

#[test]
fn palette_hash_is_fnv1a() {
    assert_eq!(palette_hash(&[]), 0xcbf2_9ce4_8422_2325);
    let mut h: u64 = 0xcbf2_9ce4_8422_2325;
    for b in [1u8, 2, 3, 255] {
        h = (h ^ b as u64).wrapping_mul(0x0000_0100_0000_01b3);
    }
    assert_eq!(palette_hash(&[[1, 2, 3, 255]]), h);
}

#[test]
fn clock_readings_pick_in_range() {
    assert_eq!(index_from_clock(1_000_000_007, 10), 7);
    assert_eq!(index_from_clock(123, 0), 0);
    let n: u128 = 5;
    let mixed = n ^ (n >> 17) ^ (n << 11);
    assert_eq!(pick_index(5, 7), (mixed % 7) as usize);
    assert!(pick_index(u128::MAX, 3) < 3);
}
