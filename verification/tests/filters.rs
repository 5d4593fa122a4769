use pixelview::filters::{filter_rows, filters_from_rows, save_filter};
use pixelview::search::SearchSpec;

fn spec_named(name: &str, ext: &str) -> SearchSpec {
    let mut s = SearchSpec::default();
    s.name = name.to_string();
    s.ext = ext.to_string();
    s
}

#[test]
fn saving_a_blank_form_saves_nothing() {
    let mut saved: Vec<(String, SearchSpec)> = Vec::new();
    assert_eq!(save_filter(&mut saved, &SearchSpec::default()), None);
    assert!(saved.is_empty());
}

#[test]
fn saving_under_an_existing_name_overwrites_it() {
    let mut saved: Vec<(String, SearchSpec)> = Vec::new();
    let a = spec_named("dragon", "");
    let name = save_filter(&mut saved, &a).unwrap();
    assert_eq!(name, a.summary());
    let b = spec_named("knight", "");
    save_filter(&mut saved, &b);
    assert_eq!(saved.len(), 2);
    let mut a2 = spec_named("dragon", "");
    a2.wmin = String::new();
    save_filter(&mut saved, &a2);
    assert_eq!(saved.len(), 2);
    assert_eq!(saved[0].0, a.summary());
    assert_eq!(saved[1].0, b.summary());
}

#[test]
fn persisted_rows_restore_the_same_filters() {
    let mut saved: Vec<(String, SearchSpec)> = Vec::new();
    save_filter(&mut saved, &spec_named("dragon", "ans"));
    save_filter(&mut saved, &spec_named("", "png, gif"));
    let rows = filter_rows(&saved);
    assert_eq!(rows.len(), 2);
    assert_eq!(rows[0].len(), 13);
    assert_eq!(rows[0][0], saved[0].0);
    assert_eq!(rows[0][1], "dragon");
    let mut with_blank = rows.clone();
    with_blank.insert(1, Vec::new());
    let back = filters_from_rows(&with_blank);
    assert_eq!(back.len(), 2);
    for (x, y) in back.iter().zip(saved.iter()) {
        assert_eq!(x.0, y.0);
        assert_eq!(x.1.record(), y.1.record());
    }
    let short = vec![vec!["old".to_string(), "cat".to_string()]];
    let back = filters_from_rows(&short);
    assert_eq!(back[0].0, "old");
    assert_eq!(back[0].1.name, "cat");
    assert!(back[0].1.ext.is_empty());
}
