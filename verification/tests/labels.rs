use pixelview::format::{date_ymd, date_ymd_unix, elide, fmt_age, human_size, stars_label, to_gpl};

/// The size label that float formatting (`{:.1}` of the scaled value) gives.
fn float_size_label(bytes: u64) -> String {
    const U: [&str; 5] = ["B", "KB", "MB", "GB", "TB"];
    let mut b = bytes as f64;
    let mut i = 0;
    while b >= 1024.0 && i < U.len() - 1 {
        b /= 1024.0;
        i += 1;
    }
    if i == 0 {
        format!("{bytes} B")
    } else {
        format!("{b:.1} {}", U[i])
    }
}

#[test]
fn human_size_units() {
    assert_eq!(human_size(0), "0 B");
    assert_eq!(human_size(512), "512 B");
    assert_eq!(human_size(1024), "1.0 KB");
    assert_eq!(human_size(1536), "1.5 KB");
    assert_eq!(human_size(1024 * 1024), "1.0 MB");
}

#[test]
fn human_size_agrees_with_float_formatting() {
    let mut samples: Vec<u64> = vec![
        1023, 1280, 1331, 1332, 1333, 3379, 10751, 10752, 1048575, 1048576, 1073741823,
        (1u64 << 40) - 1, 1u64 << 40, (1u64 << 53) - 1, 1u64 << 53, (1u64 << 53) + 1,
        (1u64 << 53) + 3, u64::MAX, u64::MAX - 1024, 9_007_199_254_740_993,
    ];
    let mut x: u64 = 0x9e37_79b9_7f4a_7c15;
    for _ in 0..20000 {
        x ^= x << 13;
        x ^= x >> 7;
        x ^= x << 17;
        samples.push(x >> (x % 64));
        samples.push((x % 4096) * 1024 + 512);
    }
    for k in 0..100000u64 {
        samples.push(k * 13 + 1024);
    }
    for b in samples {
        assert_eq!(human_size(b), float_size_label(b), "bytes = {b}");
    }
}

#[test]
fn stars_label_renders() {
    assert_eq!(stars_label(0), "—");
    assert_eq!(stars_label(3), "★★★");
}

#[test]
fn date_ymd_converts_known_timestamps() {
    let at = |secs: i64| date_ymd((secs, 0));
    assert_eq!(at(0), "1970-01-01");
    assert_eq!(at(1609459200), "2021-01-01");
    assert_eq!(at(951782400), "2000-02-29");
}

#[test]
fn date_ymd_clamps_times_before_the_epoch() {
    assert_eq!(date_ymd((-5, 0)), "1970-01-01");
    assert_eq!(date_ymd_unix(-1), "1969-12-31");
    assert_eq!(date_ymd_unix(-86400 * 366), "1968-12-31");
    assert_eq!(date_ymd_unix(253402300799), "9999-12-31");
    assert_eq!(date_ymd_unix(253402300800), "10000-01-01");
    assert_eq!(date_ymd_unix(-62167219200), "0000-01-01");
    assert_eq!(date_ymd_unix(-62167219201), "-001-12-31");
}

#[test]
fn to_gpl_emits_valid_header_and_rows() {
    let gpl = to_gpl("Hero", &[[255, 0, 0, 255], [0, 128, 64, 255]]);
    let lines: Vec<&str> = gpl.lines().collect();
    assert_eq!(lines[0], "GIMP Palette");
    assert_eq!(lines[1], "Name: Hero");
    assert_eq!(lines[2], "Columns: 16");
    assert_eq!(lines[3], "#");
    assert_eq!(lines[4], "255   0   0\t#FF0000");
    assert_eq!(lines[5], "  0 128  64\t#008040");
}

#[test]
fn elide_truncates_with_ellipsis() {
    assert_eq!(elide("short.png", 20), "short.png");
    assert_eq!(elide("a_very_long_filename.png", 6), "a_ver…");
    assert_eq!(elide("xyz", 0), "");
}

#[test]
fn elide_is_just_the_ellipsis_at_width_one() {
    assert_eq!(elide("abc", 1), "…");
    assert_eq!(elide("a", 1), "a");
}

#[test]
fn fmt_age_buckets() {
    assert_eq!(fmt_age(None), "just now");
    assert_eq!(fmt_age(Some(59)), "59s ago");
    assert_eq!(fmt_age(Some(60)), "1m ago");
    assert_eq!(fmt_age(Some(3599)), "59m ago");
    assert_eq!(fmt_age(Some(7200)), "2h ago");
    assert_eq!(fmt_age(Some(86400 * 3 + 5)), "3d ago");
}

#[test]
fn date_text_orders_like_the_days() {
    let days = [0i64, 31 * 86400, 59 * 86400, 951782400, 1609459200, 253402214400];
    let texts: Vec<String> = days.iter().map(|&s| date_ymd_unix(s)).collect();
    for w in texts.windows(2) {
        assert!(w[0] < w[1], "{} before {}", w[0], w[1]);
    }
    assert_eq!(texts[5], "9999-12-31");
}
