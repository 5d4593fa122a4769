use image::{codecs::gif::GifEncoder, Delay, Frame, RgbaImage};
use pixelview::anim::{anim_from_frames, decode_gif, RawFrame};

/// A tiny 1×1, 2-frame GIF (red then blue).
fn two_frame_gif() -> Vec<u8> {
    let mut buf = Vec::new();
    {
        let mut enc = GifEncoder::new(&mut buf);
        let red = RgbaImage::from_pixel(1, 1, image::Rgba([255, 0, 0, 255]));
        let blue = RgbaImage::from_pixel(1, 1, image::Rgba([0, 0, 255, 255]));
        let d = Delay::from_numer_denom_ms(100, 1);
        enc.encode_frame(Frame::from_parts(red, 0, 0, d)).unwrap();
        enc.encode_frame(Frame::from_parts(blue, 0, 0, d)).unwrap();
    }
    buf
}

#[test]
fn decodes_multi_frame_gif() {
    let af = decode_gif(&two_frame_gif()).expect("animated");
    assert_eq!((af.width, af.height), (1, 1));
    assert_eq!(af.frames.len(), 2);
    assert_eq!(af.delays_ms.len(), 2);
    assert!(af.total_ms() >= 200);
}

#[test]
fn single_frame_is_not_animated() {
    let mut buf = Vec::new();
    {
        let mut enc = GifEncoder::new(&mut buf);
        let img = RgbaImage::from_pixel(1, 1, image::Rgba([1, 2, 3, 255]));
        enc.encode_frame(Frame::from_parts(img, 0, 0, Delay::from_numer_denom_ms(100, 1)))
            .unwrap();
    }
    assert!(decode_gif(&buf).is_none());
}

#[test]
fn decoded_frames_keep_colours_in_order() {
    let af = decode_gif(&two_frame_gif()).expect("animated");
    assert_eq!(af.frames[0], vec![[255, 0, 0, 255]]);
    assert_eq!(af.frames[1], vec![[0, 0, 255, 255]]);
    assert_eq!(af.delays_ms, vec![100, 100]);
    assert_eq!(af.total_ms(), 200);
}

#[test]
fn garbage_is_not_a_gif() {
    assert!(decode_gif(b"not a gif at all").is_none());
}

#[test]
fn frames_become_pixels_and_delays() {
    let f = |c: u8, n: u32, d: u32| RawFrame {
        width: 1,
        height: 1,
        rgba: vec![c, c, c, 255],
        delay_numer: n,
        delay_denom: d,
    };
    assert!(anim_from_frames(&[f(1, 10, 1)]).is_none());
    let a = anim_from_frames(&[f(1, 10, 1), f(2, 250, 2)]).expect("two frames animate");
    assert_eq!(a.frames, vec![vec![[1, 1, 1, 255]], vec![[2, 2, 2, 255]]]);
    // 10 ms is raised to the 20 ms floor; 250/2 = 125 ms.
    assert_eq!(a.delays_ms, vec![20, 125]);
    assert_eq!(a.total_ms(), 145);
}
