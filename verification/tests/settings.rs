use pixelview::ops::{all_ops, default_order, order_indices, order_key, with_order, Action, Baud, OpKind};
use pixelview::picks::{pick_random, reorder_favorites};
use pixelview::scene::{after_piece, credits_artist, WalkStep};
use pixelview::search::{parse_dim, SearchFilter, SearchSpec};

#[test]
fn reorder_favorites_moves_items() {
    // Drag the first onto the third slot: it lands just before that occupant.
    let mut v = vec!["A", "B", "C", "D"];
    reorder_favorites(&mut v, 0, 2);
    assert_eq!(v, vec!["B", "A", "C", "D"]);
    // Drag the last onto the second slot.
    let mut v = vec!["A", "B", "C", "D"];
    reorder_favorites(&mut v, 3, 1);
    assert_eq!(v, vec!["A", "D", "B", "C"]);
    // No-ops: same index, or out of range.
    let mut v = vec!["A", "B"];
    reorder_favorites(&mut v, 1, 1);
    reorder_favorites(&mut v, 5, 0);
    assert_eq!(v, vec!["A", "B"]);
}

#[test]
fn pick_random_picks_a_member() {
    let empty: [u32; 0] = [];
    assert!(pick_random(&empty).is_none());
    let items = [3, 5, 7];
    let x = pick_random(&items).expect("non-empty");
    assert!(items.contains(x));
}

#[test]
fn baud_labels_and_round_trip() {
    assert_eq!(Baud::Off.label(), "None");
    assert_eq!(Baud::B14400.label(), "14.4k");
    for b in Baud::all() {
        assert_eq!(Baud::from_u8(b.to_u8()), b);
    }
    assert_eq!(Baud::from_u8(200), Baud::Off);
}

#[test]
fn actions_index_in_order() {
    let all = Action::all();
    for (i, a) in all.iter().enumerate() {
        assert_eq!(a.to_u8() as usize, i);
    }
    assert_eq!(Action::ToggleView.label(), "Toggle grid / table view");
}

#[test]
fn op_order_persists_and_recovers() {
    let def = default_order();
    // A saved order round-trips.
    let saved = order_indices(&def);
    assert_eq!(with_order(&def, &saved), def);
    // Unknown indices → default order, never a partial set.
    assert_eq!(with_order(&def, &[99, 200]), def);
    // A short legacy order keeps its ops first, then the rest in current order.
    let got = with_order(&def, &[5, 5, 0]);
    assert_eq!(got[0], OpKind::Posterize);
    assert_eq!(got[1], OpKind::Brightness);
    assert_eq!(got.len(), 15);
    for op in all_ops() {
        assert_eq!(got.iter().filter(|&&o| o == op).count(), 1);
    }
    assert!(OpKind::Dither.is_marker() && !OpKind::Hue.is_marker());
    assert_eq!(OpKind::from_u8(15), None);
    assert_eq!(order_key(&[OpKind::Brightness, OpKind::Dither]), "ao");
}

fn spec_with(f: impl FnOnce(&mut SearchSpec)) -> SearchSpec {
    let mut s = SearchSpec::default();
    f(&mut s);
    s
}

#[test]
fn search_summary_and_record() {
    assert_eq!(SearchSpec::default().summary(), "filter");
    assert!(SearchSpec::default().is_blank());
    let s = spec_with(|s| {
        s.name = " dragon ".into();
        s.ext = "ans".into();
        s.wmin = "80".into();
        s.smax = "100".into();
        s.dfrom = "2020-01-01".into();
        s.dto = "2020-01-01".into();
        s.rmin = "9".into();
        s.sauce = "acid".into();
    });
    assert!(!s.is_blank());
    assert_eq!(s.summary(), "dragon · *.ans · W≥80 · ≤100KB · 2020-01-01 · 5★+ · sauce:acid");
    let r = s.record();
    assert_eq!(r.len(), 12);
    let back = SearchSpec::from_record(&r);
    assert_eq!(back.record(), r);
    let short = SearchSpec::from_record(&["cat".to_string()]);
    assert_eq!(short.name, "cat");
    assert_eq!(short.rmin, "");
    let range = spec_with(|s| {
        s.hmin = "1".into();
        s.hmax = "2".into();
        s.dfrom = "2020".into();
        s.dto = "2021".into();
    });
    assert_eq!(range.summary(), "H1-2 · 2020..2021");
}

#[test]
fn parse_dim_reads_u32_or_nothing() {
    assert_eq!(parse_dim(" 42 "), Some(42));
    assert_eq!(parse_dim("+7"), Some(7));
    assert_eq!(parse_dim(""), None);
    assert_eq!(parse_dim("4294967296"), None);
    assert_eq!(parse_dim("4294967295"), Some(u32::MAX));
    assert_eq!(parse_dim("1x"), None);
}

#[test]
fn search_filter_checks_each_criterion() {
    let s = spec_with(|s| {
        s.name = "Drag".into();
        s.ext = " .ANS, png;;gif ".into();
        s.smin = "1".into();
        s.dto = "2020-12-31".into();
        s.rmin = "3".into();
        s.wmax = "100".into();
    });
    let f = SearchFilter::compile(&s);
    let exts: Vec<String> = f.exts.iter().map(|e| e.iter().collect()).collect();
    assert_eq!(exts, vec!["ans", "png", "gif"]);
    assert!(f.name_ok("/x/dragon.ans"));
    assert!(!f.name_ok("/x/castle.ans"));
    assert!(f.ext_ok("a.PNG"));
    assert!(!f.ext_ok("a.txt"));
    assert!(f.need_meta() && f.need_dims());
    assert!(!f.size_ok(1023));
    assert!(f.size_ok(1024));
    assert!(f.date_ok("2020-06-01"));
    assert!(!f.date_ok("2021-01-01"));
    assert!(f.rating_ok(3) && !f.rating_ok(2));
    assert!(f.dims_ok(100, 5000) && !f.dims_ok(101, 1));
}

#[test]
fn artist_credits_split_on_comma_space() {
    assert!(credits_artist("Jed, Mistress", "mistress"));
    assert!(credits_artist("jed", "JED"));
    assert!(!credits_artist("Jed,Mistress", "mistress"));
    assert!(!credits_artist("Jedi", "jed"));
}

#[test]
fn walk_steps_after_each_piece() {
    assert_eq!(after_piece(3, true, true, 10), (3, WalkStep::Stop));
    assert_eq!(after_piece(3, false, false, 10), (4, WalkStep::Stop));
    assert_eq!(after_piece(9, false, true, 10), (10, WalkStep::Finish));
    assert_eq!(after_piece(3, false, true, 10), (4, WalkStep::Continue));
}

#[test]
fn credit_names_split_exactly() {
    use_chars(|a, b| assert!(pixelview::scene::credit_names_include(a, b)), "a, b, c", "c");
    use_chars(|a, b| assert!(!pixelview::scene::credit_names_include(a, b)), "a, b, c", "b, c");
    use_chars(|a, b| assert!(pixelview::scene::credit_names_include(a, b)), ", x", "");
}

fn use_chars(f: impl Fn(&[char], &[char]), a: &str, b: &str) {
    let a: Vec<char> = a.chars().collect();
    let b: Vec<char> = b.chars().collect();
    f(&a, &b);
}
