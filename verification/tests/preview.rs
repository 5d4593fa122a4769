use pixelview::preview::{sort_paths, PreviewWalk};

fn l(items: &[(&str, bool)]) -> Vec<(String, bool)> {
    items.iter().map(|(p, d)| (p.to_string(), *d)).collect()
}

#[test]
fn sort_paths_orders_by_code_point() {
    let v = vec!["b".to_string(), "B".to_string(), "a".to_string(), "a".to_string()];
    assert_eq!(sort_paths(v), vec!["B", "a", "a", "b"]);
}

#[test]
fn four_own_images_need_no_walk() {
    let w = PreviewWalk::start(&l(&[
        ("/f/e.png", false),
        ("/f/a.png", false),
        ("/f/sub", true),
        ("/f/c.gif", false),
        ("/f/.hidden.png", false),
        ("/f/b.png", false),
        ("/f/notes.cpp", false),
        ("/f/d.png", false),
    ]));
    assert!(w.next_dir().is_none());
    let (previews, images, subdirs) = w.finish();
    assert_eq!(previews, vec!["/f/a.png", "/f/b.png", "/f/c.gif", "/f/d.png"]);
    assert_eq!((images, subdirs), (5, 1));
}

#[test]
fn previews_come_breadth_first_from_subfolders() {
    let mut w = PreviewWalk::start(&l(&[("/f/b", true), ("/f/a", true), ("/f/one.png", false)]));
    assert_eq!(w.next_dir().as_deref(), Some("/f/a"));
    w.visit(&l(&[("/f/a/deep", true)]));
    assert_eq!(w.next_dir().as_deref(), Some("/f/b"));
    w.visit(&l(&[("/f/b/y.png", false), ("/f/b/x.png", false)]));
    assert_eq!(w.next_dir().as_deref(), Some("/f/a/deep"));
    w.visit(&l(&[("/f/a/deep/p.png", false), ("/f/a/deep/q.png", false)]));
    assert!(w.next_dir().is_none());
    let (previews, images, subdirs) = w.finish();
    assert_eq!(previews, vec!["/f/one.png", "/f/b/x.png", "/f/b/y.png", "/f/a/deep/p.png"]);
    assert_eq!((images, subdirs), (1, 2));
}
