use pixelview::browse::{ColoPiece, Entry, Sauce};
use pixelview::search::{colo_filter_in_memory, SearchFilter, SearchSpec};
use pixelview::smart::{smart_spec, SmartCriterion};

fn file(path: &str, size: u64, rating: u8, mtime: Option<(i64, u32)>) -> Entry {
    Entry {
        path: path.to_string(),
        is_dir: false,
        is_archive: false,
        size,
        mtime,
        ctime: None,
        rating,
    }
}

fn piece(artist: &str, group: &str, pack: &str) -> ColoPiece {
    ColoPiece {
        artist: artist.to_string(),
        group: group.to_string(),
        year: 1996,
        pack: pack.to_string(),
        raw_url: String::new(),
        tn_url: String::new(),
        sauce: None,
    }
}

#[test]
fn smart_type_and_name_seed_the_form() {
    let e = file("/art/ac-blade_v2.ANS", 5000, 0, None);
    let s = smart_spec(&e, SmartCriterion::Type, "");
    assert_eq!(s.ext, "ANS");
    assert!(s.name.is_empty() && s.sauce.is_empty() && s.smin.is_empty());
    let s = smart_spec(&e, SmartCriterion::Name, "");
    assert_eq!(s.name, "blade");
    let e2 = file("/art/x-y.png", 10, 0, None);
    assert_eq!(smart_spec(&e2, SmartCriterion::Name, "").name, "x-y");
    let e3 = file("/art/über.png", 10, 0, None);
    assert_eq!(smart_spec(&e3, SmartCriterion::Name, "").name, "über");
}

#[test]
fn smart_size_spans_eighty_to_hundred_twenty_percent() {
    let e = file("/a.png", 10 * 1024, 0, None);
    let s = smart_spec(&e, SmartCriterion::Size, "");
    assert_eq!((s.smin.as_str(), s.smax.as_str()), ("8", "12"));
    let tiny = file("/b.png", 100, 0, None);
    let s = smart_spec(&tiny, SmartCriterion::Size, "");
    assert_eq!((s.smin.as_str(), s.smax.as_str()), ("0", "2"));
    let odd = file("/c.png", 3000, 0, None);
    let s = smart_spec(&odd, SmartCriterion::Size, "");
    assert_eq!((s.smin.as_str(), s.smax.as_str()), ("2", "4"));
}

#[test]
fn smart_date_rating_and_sauce() {
    let e = file("/a.png", 1, 0, Some((86400 * 365, 0)));
    let s = smart_spec(&e, SmartCriterion::Date, "");
    assert_eq!((s.dfrom.as_str(), s.dto.as_str()), ("1971-01-01", "1971-01-01"));
    let none = file("/a.png", 1, 0, None);
    assert!(smart_spec(&none, SmartCriterion::Date, "").is_blank());
    assert_eq!(smart_spec(&none, SmartCriterion::Rating, "").rmin, "1");
    let rated = file("/a.png", 1, 4, None);
    assert_eq!(smart_spec(&rated, SmartCriterion::Rating, "").rmin, "4");
    assert_eq!(smart_spec(&none, SmartCriterion::Artist, "Lord Jazz").sauce, "Lord Jazz");
    assert_eq!(smart_spec(&none, SmartCriterion::Group, "ACiD").sauce, "ACiD");
}

#[test]
fn listing_filter_matches_scene_columns_and_sauce() {
    let entries = vec![
        file("/16colo.rs/1996/acid-50/67C21.ANS", 4096, 0, None),
        file("/16colo.rs/1996/acid-50/LJ-LOGO.ANS", 40 * 1024, 3, None),
        file("/16colo.rs/1996/acid-50/INFO.NFO", 1024, 5, None),
    ];
    let pieces = vec![
        Some(piece("tainted", "ACiD", "acid-50")),
        Some(piece("Lord Jazz", "ACiD", "acid-50")),
        None,
    ];
    let sauces = vec![
        None,
        Some(Sauce {
            title: "Logo".to_string(),
            author: "LJ".to_string(),
            group: "ACiD".to_string(),
            font: "IBM VGA".to_string(),
        }),
        None,
    ];
    let mut spec = SearchSpec::default();
    spec.name = " TAINTED ".to_string();
    let f = SearchFilter::compile(&spec);
    let got = colo_filter_in_memory(&f, &entries, &pieces, &sauces);
    assert_eq!(got.len(), 1);
    assert_eq!(got[0].path, "/16colo.rs/1996/acid-50/67C21.ANS");

    let mut spec = SearchSpec::default();
    spec.sauce = "vga".to_string();
    let f = SearchFilter::compile(&spec);
    let got = colo_filter_in_memory(&f, &entries, &pieces, &sauces);
    assert_eq!(got.len(), 1);
    assert_eq!(got[0].path, "/16colo.rs/1996/acid-50/LJ-LOGO.ANS");

    let mut spec = SearchSpec::default();
    spec.ext = "ans".to_string();
    spec.rmin = "1".to_string();
    let f = SearchFilter::compile(&spec);
    let got = colo_filter_in_memory(&f, &entries, &pieces, &sauces);
    assert_eq!(got.len(), 1);
    assert_eq!(got[0].rating, 3);

    let mut spec = SearchSpec::default();
    spec.smax = "4".to_string();
    let f = SearchFilter::compile(&spec);
    let got = colo_filter_in_memory(&f, &entries, &pieces, &sauces);
    assert_eq!(got.len(), 2);
    assert!(f.listing_row_ok(&entries[2], &pieces[2], &sauces[2]));
}
