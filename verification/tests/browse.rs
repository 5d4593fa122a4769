use pixelview::browse::{sorted_filtered_view, ColoPiece, Entry, ImgMeta, SortKey};

fn img_entry(name: &str, size: u64, rating: u8) -> Entry {
    Entry {
        path: name.to_string(),
        is_dir: false,
        is_archive: false,
        size,
        mtime: None,
        ctime: None,
        rating,
    }
}

fn dir_entry(name: &str) -> Entry {
    Entry {
        path: name.to_string(),
        is_dir: true,
        is_archive: false,
        size: 0,
        mtime: None,
        ctime: None,
        rating: 0,
    }
}

fn piece(artist: &str, group: &str, year: u32, pack: &str) -> ColoPiece {
    ColoPiece {
        artist: artist.into(),
        group: group.into(),
        year,
        pack: pack.into(),
        raw_url: String::new(),
        tn_url: String::new(),
        sauce: None,
    }
}

fn names(v: &[Entry]) -> Vec<&str> {
    v.iter().map(|e| e.path.as_str()).collect()
}

#[test]
fn sort_key_u8_roundtrips() {
    let all = [
        SortKey::Name,
        SortKey::Type,
        SortKey::Modified,
        SortKey::Created,
        SortKey::Size,
        SortKey::Rating,
        SortKey::Colors,
        SortKey::Dimensions,
        SortKey::Artist,
        SortKey::Group,
        SortKey::Year,
        SortKey::Pack,
    ];
    for k in all {
        assert_eq!(SortKey::from_u8(k.to_u8()), k);
    }
    assert_eq!(SortKey::from_u8(200), SortKey::Name);
    assert_eq!(SortKey::Year.label(), "Year");
}

#[test]
fn name_sort_pins_dirs_first() {
    let all = vec![img_entry("b.png", 10, 0), img_entry("a.png", 20, 0), dir_entry("z_dir")];
    let v = sorted_filtered_view(&all, SortKey::Name, false, true, 0, None, &[], &[]);
    assert_eq!(names(&v), vec!["z_dir", "a.png", "b.png"]);
}

#[test]
fn rating_filter_keeps_dirs_drops_low_images() {
    let all = vec![img_entry("low.png", 1, 2), img_entry("high.png", 1, 5), dir_entry("d")];
    let v = sorted_filtered_view(&all, SortKey::Name, false, true, 3, None, &[], &[]);
    assert_eq!(names(&v), vec!["d", "high.png"]);
}

#[test]
fn size_sort_descending() {
    let all = vec![img_entry("a", 10, 0), img_entry("b", 30, 0), img_entry("c", 20, 0)];
    let v = sorted_filtered_view(&all, SortKey::Size, true, false, 0, None, &[], &[]);
    let sizes: Vec<_> = v.iter().map(|e| e.size).collect();
    assert_eq!(sizes, vec![30, 20, 10]);
}

#[test]
fn colors_sort_orders_by_count_unknowns_last() {
    let all = vec![
        img_entry("many.png", 1, 0),
        img_entry("few.png", 1, 0),
        img_entry("mid.png", 1, 0),
        img_entry("unknown.png", 1, 0),
    ];
    let meta: Vec<(String, ImgMeta)> = [("many.png", 256usize), ("few.png", 4), ("mid.png", 16)]
        .into_iter()
        .map(|(n, c)| (n.to_string(), ImgMeta { w: 1, h: 1, colors: Some(c) }))
        .collect();
    let v = sorted_filtered_view(&all, SortKey::Colors, false, true, 0, None, &meta, &[]);
    assert_eq!(names(&v), vec!["few.png", "mid.png", "many.png", "unknown.png"]);
    let v = sorted_filtered_view(&all, SortKey::Colors, true, true, 0, None, &meta, &[]);
    assert_eq!(names(&v), vec!["many.png", "mid.png", "few.png", "unknown.png"]);
}

#[test]
fn name_filter_matches_substring_case_insensitively() {
    let all = vec![img_entry("Cat.png", 1, 0), img_entry("dog.png", 1, 0), dir_entry("catdir")];
    let v = sorted_filtered_view(&all, SortKey::Name, false, true, 0, Some("cat"), &[], &[]);
    assert_eq!(names(&v), vec!["catdir", "Cat.png"]);
}

#[test]
fn scene_sort_keys_use_the_piece_map() {
    let all = vec![img_entry("c.ans", 0, 0), img_entry("a.ans", 0, 0), img_entry("b.ans", 0, 0)];
    let pieces = vec![
        ("c.ans".to_string(), piece("zinc", "acid", 1994, "p3")),
        ("a.ans".to_string(), piece("aja", "blocktronics", 2002, "p1")),
        ("b.ans".to_string(), piece("mistress", "acid", 1991, "p2")),
    ];
    let v = sorted_filtered_view(&all, SortKey::Artist, false, false, 0, None, &[], &pieces);
    assert_eq!(names(&v), vec!["a.ans", "b.ans", "c.ans"]);
    let v = sorted_filtered_view(&all, SortKey::Year, true, false, 0, None, &[], &pieces);
    let year_of = |n: &str| pieces.iter().find(|(k, _)| k == n).unwrap().1.year;
    let years: Vec<_> = v.iter().map(|e| year_of(&e.path)).collect();
    assert_eq!(years, vec![2002, 1994, 1991]);
}

#[test]
fn type_sort_groups_by_extension_then_name() {
    let all = vec![
        img_entry("b.png", 1, 0),
        img_entry("a.gif", 1, 0),
        img_entry("c.GIF", 1, 0),
        img_entry("a.png", 1, 0),
        dir_entry("sub"),
    ];
    let v = sorted_filtered_view(&all, SortKey::Type, false, false, 0, None, &[], &[]);
    assert_eq!(names(&v), vec!["sub", "a.gif", "c.GIF", "a.png", "b.png"]);
    let v = sorted_filtered_view(&all, SortKey::Type, true, true, 0, None, &[], &[]);
    assert_eq!(names(&v), vec!["sub", "b.png", "a.png", "c.GIF", "a.gif"]);
}

#[test]
fn equal_keys_keep_their_order() {
    let all = vec![img_entry("x/a.png", 5, 0), img_entry("y/a.png", 5, 0), img_entry("z/a.png", 5, 0)];
    let v = sorted_filtered_view(&all, SortKey::Size, true, true, 0, None, &[], &[]);
    assert_eq!(names(&v), vec!["x/a.png", "y/a.png", "z/a.png"]);
}

#[test]
fn modified_sort_puts_unknown_times_first() {
    let mut a = img_entry("a", 1, 0);
    a.mtime = Some((100, 5));
    let mut b = img_entry("b", 1, 0);
    b.mtime = Some((100, 2));
    let c = img_entry("c", 1, 0);
    let mut d = img_entry("d", 1, 0);
    d.mtime = Some((-3, 0));
    let all = vec![a, b, c, d];
    let v = sorted_filtered_view(&all, SortKey::Modified, false, false, 0, None, &[], &[]);
    assert_eq!(names(&v), vec!["c", "d", "b", "a"]);
}

#[test]
fn dimensions_sort_by_area_then_width() {
    let all = vec![img_entry("wide", 1, 0), img_entry("tall", 1, 0), img_entry("big", 1, 0), img_entry("none", 1, 0)];
    let meta = vec![
        ("wide".to_string(), ImgMeta { w: 40, h: 10, colors: None }),
        ("tall".to_string(), ImgMeta { w: 10, h: 40, colors: None }),
        ("big".to_string(), ImgMeta { w: 100, h: 100, colors: None }),
    ];
    let v = sorted_filtered_view(&all, SortKey::Dimensions, false, false, 0, None, &meta, &[]);
    assert_eq!(names(&v), vec!["tall", "wide", "big", "none"]);
    let v = sorted_filtered_view(&all, SortKey::Dimensions, true, false, 0, None, &meta, &[]);
    assert_eq!(names(&v), vec!["big", "wide", "tall", "none"]);
}
