use pixelview::colo_thumb::{decode_thumbnail, RemoteThumbResult, RemoteThumbs};

fn result(path: &str, w: usize, h: usize) -> RemoteThumbResult {
    RemoteThumbResult { path: path.to_string(), width: w, height: h, rgba: vec![9; w * h * 4] }
}

fn png(w: u32, h: u32) -> Vec<u8> {
    let img = image::RgbaImage::from_pixel(w, h, image::Rgba([1, 2, 3, 255]));
    let mut out = std::io::Cursor::new(Vec::new());
    img.write_to(&mut out, image::ImageFormat::Png).unwrap();
    out.into_inner()
}

#[test]
fn requests_once_per_path_and_runs_newest_first() {
    let mut t = RemoteThumbs::new();
    assert!(t.request("/a", "http://x/a.png", 64));
    assert!(t.request("/b", "http://x/b.png", 64));
    assert!(!t.request("/a", "http://x/a.png", 64));
    assert_eq!(t.take_job().unwrap().path, "/b");
    assert_eq!(t.take_job().unwrap().path, "/a");
    assert!(t.take_job().is_none());
}

#[test]
fn delivers_once_per_requested_path_and_drains_in_order() {
    let mut t = RemoteThumbs::new();
    t.request("/a", "u", 64);
    t.request("/b", "u", 64);
    assert!(!t.deliver(result("/zzz", 1, 1)), "never requested");
    assert!(!t.deliver(RemoteThumbResult { path: "/a".into(), width: 2, height: 2, rgba: vec![0; 3] }));
    assert!(!t.deliver(result("/a", 0, 4)), "empty image");
    assert!(t.deliver(result("/b", 2, 1)));
    assert!(t.deliver(result("/a", 1, 1)));
    assert!(!t.deliver(result("/a", 1, 1)), "already delivered");
    let got = t.drain();
    let paths: Vec<&str> = got.iter().map(|r| r.path.as_str()).collect();
    assert_eq!(paths, vec!["/b", "/a"]);
    assert!(t.drain().is_empty());
    assert!(!t.deliver(result("/b", 2, 1)), "a drained path is not delivered again");
}

#[test]
fn decodes_thumbnails_and_flags_oversized_ones() {
    let bytes = png(3, 2);
    let (r, big) = decode_thumbnail("/p", &bytes, 8).unwrap();
    assert_eq!((r.width, r.height, r.rgba.len(), big), (3, 2, 24, false));
    assert_eq!(&r.rgba[0..4], &[1, 2, 3, 255]);
    assert_eq!(r.path, "/p");
    let (_, big) = decode_thumbnail("/p", &bytes, 2).unwrap();
    assert!(big);
    let (_, big) = decode_thumbnail("/p", &bytes, 0).unwrap();
    assert!(big, "a zero target counts as one");
    assert!(decode_thumbnail("/p", b"not an image", 8).is_none());
}
