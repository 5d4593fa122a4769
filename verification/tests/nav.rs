use pixelview::browse::Entry;
use pixelview::nav::{history_target, rate_paths, single_rating_target, step_target, FolderHistory, Selection};
use pixelview::paths::{rename_check, RenameDecision};

fn entry(path: &str, is_dir: bool, is_archive: bool) -> Entry {
    Entry {
        path: path.to_string(),
        is_dir,
        is_archive,
        size: 0,
        mtime: None,
        ctime: None,
        rating: 0,
    }
}

fn listing() -> Vec<Entry> {
    vec![
        entry("/p/sub", true, false),
        entry("/p/a.png", false, false),
        entry("/p/pack.zip", false, true),
        entry("/p/b.gif", false, false),
        entry("/p/c.ans", false, false),
    ]
}

#[test]
fn step_skips_folders_and_archives() {
    let e = listing();
    assert_eq!(step_target(&e, 1, true), Some(3));
    assert_eq!(step_target(&e, 3, false), Some(1));
    assert_eq!(step_target(&e, 4, true), None);
    assert_eq!(step_target(&e, 1, false), None);
    assert_eq!(step_target(&e, 0, true), Some(1));
    assert_eq!(step_target(&e, 9, false), None);
}

#[test]
fn history_steps_stop_at_the_ends() {
    assert_eq!(history_target(0, 3, true), None);
    assert_eq!(history_target(2, 3, true), Some(1));
    assert_eq!(history_target(2, 3, false), None);
    assert_eq!(history_target(0, 3, false), Some(1));
}

#[test]
fn folder_history_drops_forward_part_on_new_visit() {
    let mut h = FolderHistory::new();
    assert_eq!(h.step(true), None);
    h.record("/a");
    h.record("/b");
    h.record("/b");
    h.record("/c");
    assert_eq!(h.step(true), Some("/b".to_string()));
    assert_eq!(h.step(true), Some("/a".to_string()));
    assert_eq!(h.step(true), None);
    assert_eq!(h.step(false), Some("/b".to_string()));
    h.record("/d");
    assert_eq!(h.step(false), None);
    assert_eq!(h.step(true), Some("/b".to_string()));
    assert_eq!(h.step(true), Some("/a".to_string()));
}

#[test]
fn plain_click_selects_one_file_and_opens() {
    let e = listing();
    let mut s = Selection::new();
    assert!(s.click(&e, 1, false, false));
    assert_eq!(s.paths(), vec!["/p/a.png".to_string()]);
    assert_eq!(s.anchor(), Some(1));
    assert!(s.click(&e, 0, false, false));
    assert!(s.paths().is_empty());
}

#[test]
fn ctrl_click_toggles_and_shift_click_extends() {
    let e = listing();
    let mut s = Selection::new();
    assert!(!s.click(&e, 1, true, false));
    assert!(s.contains("/p/a.png"));
    assert!(!s.click(&e, 1, true, false));
    assert!(!s.contains("/p/a.png"));
    assert!(!s.click(&e, 0, true, false));
    assert!(s.paths().is_empty());
    assert_eq!(s.anchor(), Some(0));
    assert!(!s.click(&e, 3, false, true));
    let mut got = s.paths();
    got.sort();
    assert_eq!(
        got,
        vec!["/p/a.png".to_string(), "/p/b.gif".to_string(), "/p/pack.zip".to_string()]
    );
    assert!(!s.click(&e, 9, false, true));
    assert_eq!(s.paths().len(), 4);
}

#[test]
fn targets_fall_back_to_the_hovered_entry() {
    let e = listing();
    let mut s = Selection::new();
    assert_eq!(s.targets(&e, Some(3)), vec!["/p/b.gif".to_string()]);
    assert!(s.targets(&e, None).is_empty());
    assert!(s.select_index(&e, 4));
    assert_eq!(s.targets(&e, Some(3)), vec!["/p/c.ans".to_string()]);
    assert!(!s.select_index(&e, 7));
    assert_eq!(s.anchor(), Some(4));
}

#[test]
fn rating_goes_to_hovered_file_outside_the_selection() {
    let e = listing();
    let mut s = Selection::new();
    s.click(&e, 1, false, false);
    assert_eq!(s.rating_targets(&e, Some(3)), vec!["/p/b.gif".to_string()]);
    assert_eq!(s.rating_targets(&e, Some(1)), vec!["/p/a.png".to_string()]);
    assert_eq!(s.rating_targets(&e, Some(0)), vec!["/p/a.png".to_string()]);
    assert_eq!(s.rating_targets(&e, None), vec!["/p/a.png".to_string()]);
    assert_eq!(single_rating_target(&e, 3), vec!["/p/b.gif".to_string()]);
    assert!(single_rating_target(&e, 0).is_empty());
    assert!(single_rating_target(&e, 12).is_empty());
}

#[test]
fn rate_paths_updates_first_matching_entry_only() {
    let mut all = listing();
    all.push(entry("/p/a.png", false, false));
    rate_paths(&mut all, &["/p/a.png".to_string(), "/p/none".to_string(), "/p/c.ans".to_string()], 4);
    let ratings: Vec<u8> = all.iter().map(|e| e.rating).collect();
    assert_eq!(ratings, vec![0, 4, 0, 0, 4, 0]);
    assert_eq!(all[1].path, "/p/a.png");
}

#[test]
fn rename_check_trims_and_refuses_separators() {
    assert!(matches!(rename_check("a.png", "  "), RenameDecision::Keep));
    assert!(matches!(rename_check("a.png", " a.png "), RenameDecision::Keep));
    assert!(matches!(rename_check("a.png", "x/y.png"), RenameDecision::Refuse));
    assert!(matches!(rename_check("a.png", "x\\y.png"), RenameDecision::Refuse));
    match rename_check("a.png", "  b.png\t") {
        RenameDecision::Rename(n) => assert_eq!(n, "b.png"),
        _ => panic!("expected a rename"),
    }
}
