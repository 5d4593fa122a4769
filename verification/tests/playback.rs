use pixelview::playback::PlayCursor;

#[test]
fn cursor_types_out_and_stops_at_the_end() {
    let mut c = PlayCursor::new(10, true);
    assert_eq!((c.pos(), c.playing()), (0, true));
    c.advance(Some(4));
    assert_eq!((c.pos(), c.playing()), (4, true));
    c.advance(Some(0));
    assert_eq!(c.pos(), 4);
    c.advance(Some(100));
    assert_eq!((c.pos(), c.playing()), (10, false));
    c.advance(Some(3));
    assert_eq!(c.pos(), 10);
}

#[test]
fn instant_and_paused_cursors() {
    let mut c = PlayCursor::new(7, true);
    c.advance(None);
    assert_eq!((c.pos(), c.playing()), (7, false));
    let mut s = PlayCursor::new(7, false);
    assert_eq!((s.pos(), s.playing(), s.len()), (7, false, 7));
    s.advance(Some(1));
    assert_eq!(s.pos(), 7);
    let mut e = PlayCursor::new(0, true);
    assert!(e.playing());
    e.advance(Some(0));
    assert!(!e.playing());
}

#[test]
fn baud_advance_paces_and_stops_at_end() {
    // "hello world" is 11 bytes. 9600 baud is 960 cps; 0.5 s is 480 bytes, more
    // than the stream holds, so playback reaches the end and stops.
    let len = "hello world".len();
    let mut p = PlayCursor::new(len, true);
    assert_eq!(p.pos(), 0);
    p.advance(Some(480));
    assert_eq!(p.pos(), len);
    assert!(!p.playing(), "stops when the stream is fully transmitted");
    // 300 baud is 30 cps; 0.1 s advances 3 bytes.
    let mut q = PlayCursor::new(len, true);
    q.advance(Some(3));
    assert_eq!(q.pos(), 3);
    assert!(q.playing());
}
