//! Animated-image (GIF) frames: the `image` crate decodes and composites the
//! frames; this module turns them into the viewer's frame list and per-frame
//! delays.

use vstd::prelude::*;
use image::AnimationDecoder;

verus! {

/// The frames of an animated GIF: each a complete `width × height` RGBA image,
/// with its display delay in milliseconds.
pub struct AnimFrames {
    pub width: u32,
    pub height: u32,
    pub frames: Vec<Vec<[u8; 4]>>,
    pub delays_ms: Vec<u16>,
}

/// A decoded frame as the `image` crate hands it over: the canvas size, the raw
/// RGBA bytes and the delay as a millisecond fraction `numer / denom`.
pub struct RawFrame {
    pub width: u32,
    pub height: u32,
    pub rgba: Vec<u8>,
    pub delay_numer: u32,
    pub delay_denom: u32,
}

/// A raw frame as plain values.
pub open spec fn raw_view(f: RawFrame) -> (u32, u32, Seq<u8>, u32, u32) {
    (f.width, f.height, f.rgba@, f.delay_numer, f.delay_denom)
}

/// Names the frame list `GifDecoder::into_frames().collect_frames()` yields for
/// the given file bytes (`None` when the header or a frame fails to decode).
pub uninterp spec fn spec_gif_frames(bytes: Seq<u8>) -> Option<Seq<(u32, u32, Seq<u8>, u32, u32)>>;

/// Decodes every frame of a GIF with `image::codecs::gif::GifDecoder` and
/// `AnimationDecoder::collect_frames`. The result is whatever the crate decodes
/// for these bytes (named `spec_gif_frames`). The crate composites every frame
/// onto a full canvas, so each frame has the logical screen's size and holds
/// `width × height` RGBA pixels; what the pixels are is not stated.
#[verifier::external_body]
fn gif_frames(bytes: &[u8]) -> (r: Option<Vec<RawFrame>>)
    ensures
        match r {
            Some(v) => spec_gif_frames(bytes@) == Some(v@.map_values(|f: RawFrame| raw_view(f))),
            None => spec_gif_frames(bytes@) is None,
        },
        r matches Some(v) ==> forall|i: int|
            0 <= i < v@.len() ==> (#[trigger] v@[i]).width == v@[0].width && v@[i].height == v@[0].height
                && v@[i].rgba@.len() == v@[i].width as int * v@[i].height as int * 4,
{
    let dec = image::codecs::gif::GifDecoder::new(std::io::Cursor::new(bytes)).ok()?;
    let frames = dec.into_frames().collect_frames().ok()?;
    let mut out = Vec::with_capacity(frames.len());
    for f in &frames {
        let (n, d) = f.delay().numer_denom_ms();
        let (w, h) = (f.buffer().width(), f.buffer().height());
        out.push(RawFrame { width: w, height: h, rgba: f.buffer().as_raw().clone(), delay_numer: n, delay_denom: d });
    }
    Some(out)
}

/// The delay shown for a frame: `numer / denom` milliseconds (100 when the
/// denominator is zero), held within 20 ms and `u16::MAX`.
pub open spec fn frame_delay(numer: u32, denom: u32) -> u16 {
    let ms: int = if denom == 0 { 100 } else { numer as int / denom as int };
    (if ms < 20 { 20 } else if ms > 65535 { 65535 } else { ms }) as u16
}

/// The RGBA pixels of a raw byte buffer, four bytes each (a trailing partial
/// pixel is dropped).
pub open spec fn pixels_of(rgba: Seq<u8>) -> Seq<[u8; 4]> {
    Seq::new(rgba.len() / 4, |i: int| [rgba[4 * i], rgba[4 * i + 1], rgba[4 * i + 2], rgba[4 * i + 3]])
}

/// The animation built from decoded frames: `None` unless there are at least two
/// frames; the canvas size is the first frame's.
pub open spec fn anim_of(frames: Seq<(u32, u32, Seq<u8>, u32, u32)>) -> Option<(u32, u32, Seq<Seq<[u8; 4]>>, Seq<u16>)> {
    if frames.len() <= 1 {
        None
    } else {
        Some(
            (
                frames[0].0,
                frames[0].1,
                Seq::new(frames.len(), |i: int| pixels_of(frames[i].2)),
                Seq::new(frames.len(), |i: int| frame_delay(frames[i].3, frames[i].4)),
            ),
        )
    }
}

/// An animation as plain values.
pub open spec fn anim_view(a: AnimFrames) -> (u32, u32, Seq<Seq<[u8; 4]>>, Seq<u16>) {
    (a.width, a.height, a.frames@.map_values(|f: Vec<[u8; 4]>| f@), a.delays_ms@)
}

/// The sum of a list of delays.
pub open spec fn sum_delays(d: Seq<u16>) -> nat
    decreases d.len(),
{
    if d.len() == 0 {
        0
    } else {
        sum_delays(d.drop_last()) + d.last() as nat
    }
}

impl AnimFrames {
    /// Total loop duration in milliseconds.
    pub fn total_ms(&self) -> (t: u32)
        requires
            sum_delays(self.delays_ms@) <= u32::MAX,
        ensures
            t == sum_delays(self.delays_ms@),
    {
        let n = self.delays_ms.len();
        let mut t: u32 = 0;
        for i in 0..n
            invariant
                n == self.delays_ms@.len(),
                sum_delays(self.delays_ms@) <= u32::MAX,
                t == sum_delays(self.delays_ms@.take(i as int)),
        {
            proof {
                assert(self.delays_ms@.take(i + 1).drop_last() =~= self.delays_ms@.take(i as int));
                lemma_sum_prefix(self.delays_ms@, i + 1);
            }
            t = t + self.delays_ms[i] as u32;
        }
        proof {
            assert(self.delays_ms@.take(n as int) =~= self.delays_ms@);
        }
        t
    }
}

/// A prefix sums to no more than the whole list.
pub proof fn lemma_sum_prefix(d: Seq<u16>, k: int)
    requires
        0 <= k <= d.len(),
    ensures
        sum_delays(d.take(k)) <= sum_delays(d),
    decreases d.len(),
{
    if k < d.len() {
        assert(d.drop_last().take(k) =~= d.take(k));
        lemma_sum_prefix(d.drop_last(), k);
    } else {
        assert(d.take(k) =~= d);
    }
}

/// The delay shown for one frame.
fn delay_of(numer: u32, denom: u32) -> (ms: u16)
    ensures
        ms == frame_delay(numer, denom),
{
    let raw: u32 = if denom == 0 { 100 } else { numer / denom };
    let held: u32 = if raw < 20 {
        20
    } else if raw > 65535 {
        65535
    } else {
        raw
    };
    held as u16
}

/// The pixels of one raw frame.
fn frame_pixels(rgba: &Vec<u8>) -> (px: Vec<[u8; 4]>)
    ensures
        px@ == pixels_of(rgba@),
{
    let n = rgba.len() / 4;
    let mut px: Vec<[u8; 4]> = Vec::new();
    for i in 0..n
        invariant
            n == rgba@.len() / 4,
            px@ == pixels_of(rgba@).take(i as int),
    {
        let len = rgba.len();
        assert(4 * i + 3 < len) by (nonlinear_arith)
            requires
                i < n,
                n == len / 4,
        ;
        let p: [u8; 4] = [rgba[4 * i], rgba[4 * i + 1], rgba[4 * i + 2], rgba[4 * i + 3]];
        px.push(p);
        proof {
            assert(px@ =~= pixels_of(rgba@).take(i + 1));
        }
    }
    proof {
        assert(pixels_of(rgba@).take(n as int) =~= pixels_of(rgba@));
    }
    px
}

/// Builds the animation from decoded frames: `None` for fewer than two frames
/// (a single frame is shown as a still image).
pub fn anim_from_frames(frames: &[RawFrame]) -> (r: Option<AnimFrames>)
    ensures
        match r {
            Some(a) => anim_of(frames@.map_values(|f: RawFrame| raw_view(f))) == Some(anim_view(a)),
            None => anim_of(frames@.map_values(|f: RawFrame| raw_view(f))) is None,
        },
{
    let ghost fv = frames@.map_values(|f: RawFrame| raw_view(f));
    let n = frames.len();
    if n <= 1 {
        return None;
    }
    let mut out: Vec<Vec<[u8; 4]>> = Vec::new();
    let mut delays: Vec<u16> = Vec::new();
    for i in 0..n
        invariant
            n == frames@.len(),
            fv == frames@.map_values(|f: RawFrame| raw_view(f)),
            out@.len() == i,
            delays@.len() == i,
            forall|k: int| 0 <= k < i ==> (#[trigger] out@[k])@ == pixels_of(fv[k].2),
            forall|k: int| 0 <= k < i ==> #[trigger] delays@[k] == frame_delay(fv[k].3, fv[k].4),
    {
        let f = &frames[i];
        let px = frame_pixels(&f.rgba);
        out.push(px);
        delays.push(delay_of(f.delay_numer, f.delay_denom));
    }
    let a = AnimFrames { width: frames[0].width, height: frames[0].height, frames: out, delays_ms: delays };
    proof {
        let want = anim_of(fv).unwrap();
        assert(anim_view(a).2 =~= want.2);
        assert(anim_view(a).3 =~= want.3);
    }
    Some(a)
}

/// Decodes a GIF's frames and per-frame delays. `None` for a file the decoder
/// rejects, or a single-frame GIF (shown as a still image elsewhere).
pub fn decode_gif(bytes: &[u8]) -> (r: Option<AnimFrames>)
    ensures
        match spec_gif_frames(bytes@) {
            Some(fs) => match r {
                Some(a) => anim_of(fs) == Some(anim_view(a)),
                None => anim_of(fs) is None,
            },
            None => r is None,
        },
        r matches Some(a) ==> forall|i: int|
            0 <= i < a.frames@.len() ==> (#[trigger] a.frames@[i])@.len() == a.width as int * a.height as int,
{
    match gif_frames(bytes) {
        Some(v) => {
            let r = anim_from_frames(&v);
            proof {
                if r is Some {
                    let a = r->0;
                    {
                        let fv = v@.map_values(|f: RawFrame| raw_view(f));
                        let want = anim_of(fv).unwrap();
                        assert forall|i: int| 0 <= i < a.frames@.len() implies (#[trigger] a.frames@[i])@.len()
                            == a.width as int * a.height as int by {
                            assert(anim_view(a) == want);
                            assert(anim_view(a).2.len() == a.frames@.len());
                            assert(want.2.len() == fv.len());
                            assert(anim_view(a).2[i] == want.2[i]);
                            assert(a.frames@[i]@ == pixels_of(fv[i].2));
                            assert(fv[i].2 == v@[i].rgba@);
                            let w = v@[i].width as int;
                            let h = v@[i].height as int;
                            assert((w * h * 4) / 4 == w * h) by (nonlinear_arith);
                        }
                    }
                }
            }
            r
        },
        None => None,
    }
}

} // verus!
