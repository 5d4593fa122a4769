//! The bookkeeping of the remote-thumbnail worker pool: a LIFO job stack (the
//! most recently scrolled-into-view piece downloads first), one request per
//! path, the decoded thumbnails waiting for the UI in arrival order, and the
//! decode of a fetched thumbnail PNG.

use vstd::prelude::*;
use crate::text::chars_eq;

verus! {

/// A downloaded and decoded thumbnail, keyed by the piece's virtual display path.
pub struct RemoteThumbResult {
    pub path: String,
    pub width: usize,
    pub height: usize,
    pub rgba: Vec<u8>,
}

/// One thumbnail to fetch.
pub struct ThumbJob {
    pub path: String,
    pub url: String,
    pub target: u32,
}

/// A job as plain values.
pub open spec fn job_view(j: ThumbJob) -> (Seq<char>, Seq<char>, u32) {
    (j.path@, j.url@, j.target)
}

/// A result as plain values.
pub open spec fn result_view(r: RemoteThumbResult) -> (Seq<char>, usize, usize, Seq<u8>) {
    (r.path@, r.width, r.height, r.rgba@)
}

/// A thumbnail is a non-empty image holding exactly `width × height` RGBA pixels.
pub open spec fn valid_result(r: (Seq<char>, usize, usize, Seq<u8>)) -> bool {
    r.1 >= 1 && r.2 >= 1 && r.3.len() == r.1 * r.2 * 4
}

/// The paths a list of strings holds.
pub open spec fn path_set(v: Seq<String>) -> Set<Seq<char>> {
    Set::new(|p: Seq<char>| exists|i: int| 0 <= i < v.len() && v[i]@ == p)
}

/// The pool's shared state: pending jobs (the last one is taken first), every
/// path ever requested, every path a thumbnail was delivered for, and the
/// results not yet drained.
pub struct RemoteThumbs {
    jobs: Vec<ThumbJob>,
    requested: Vec<String>,
    delivered: Vec<String>,
    results: Vec<RemoteThumbResult>,
}

fn holds_path(v: &Vec<String>, path: &str) -> (b: bool)
    ensures
        b == path_set(v@).contains(path@),
{
    let n = v.len();
    let p = crate::text::chars_of(path);
    for i in 0..n
        invariant
            n == v@.len(),
            p@ == path@,
            forall|k: int| 0 <= k < i ==> v@[k]@ != path@,
    {
        let c = crate::text::chars_of(v[i].as_str());
        if chars_eq(&c, &p) {
            return true;
        }
    }
    false
}

proof fn lemma_push_path(v: Seq<String>, s: String)
    ensures
        path_set(v.push(s)) == path_set(v).insert(s@),
{
    let w = v.push(s);
    assert forall|p: Seq<char>| path_set(w).contains(p) <==> path_set(v).insert(s@).contains(p) by {
        if path_set(w).contains(p) {
            let i = choose|i: int| 0 <= i < w.len() && w[i]@ == p;
            if i < v.len() {
                assert(v[i]@ == p);
            }
        }
        if path_set(v).contains(p) {
            let i = choose|i: int| 0 <= i < v.len() && v[i]@ == p;
            assert(w[i]@ == p);
        }
        if p == s@ {
            assert(w[v.len() as int]@ == p);
        }
    }
    assert(path_set(w) =~= path_set(v).insert(s@));
}

impl RemoteThumbs {
    /// The pending jobs, oldest first.
    pub closed spec fn jobs(&self) -> Seq<(Seq<char>, Seq<char>, u32)> {
        self.jobs@.map_values(|j: ThumbJob| job_view(j))
    }

    /// Every path requested so far.
    pub closed spec fn requested(&self) -> Set<Seq<char>> {
        path_set(self.requested@)
    }

    /// Every path a thumbnail was delivered for so far.
    pub closed spec fn delivered(&self) -> Set<Seq<char>> {
        path_set(self.delivered@)
    }

    /// The results waiting to be drained, in arrival order.
    pub closed spec fn results(&self) -> Seq<(Seq<char>, usize, usize, Seq<u8>)> {
        self.results@.map_values(|r: RemoteThumbResult| result_view(r))
    }

    /// Only requested paths are delivered; every waiting result is a valid
    /// thumbnail for a delivered path, and no two are for the same path.
    pub closed spec fn well_formed(&self) -> bool {
        &&& self.delivered().subset_of(self.requested())
        &&& forall|i: int| 0 <= i < self.results().len() ==> valid_result(#[trigger] self.results()[i])
            && self.delivered().contains(self.results()[i].0)
        &&& forall|i: int, j: int|
            0 <= i < j < self.results().len() ==> (#[trigger] self.results()[i]).0 != (
            #[trigger] self.results()[j]).0
    }

    /// An empty pool: nothing requested, queued, delivered or finished.
    pub fn new() -> (s: Self)
        ensures
            s.well_formed(),
            s.jobs() == Seq::<(Seq<char>, Seq<char>, u32)>::empty(),
            s.requested() == Set::<Seq<char>>::empty(),
            s.delivered() == Set::<Seq<char>>::empty(),
            s.results() == Seq::<(Seq<char>, usize, usize, Seq<u8>)>::empty(),
    {
        let s = RemoteThumbs {
            jobs: Vec::new(),
            requested: Vec::new(),
            delivered: Vec::new(),
            results: Vec::new(),
        };
        proof {
            assert(s.jobs() =~= Seq::<(Seq<char>, Seq<char>, u32)>::empty());
            assert(s.requested() =~= Set::<Seq<char>>::empty());
            assert(s.delivered() =~= Set::<Seq<char>>::empty());
            assert(s.results() =~= Seq::<(Seq<char>, usize, usize, Seq<u8>)>::empty());
        }
        s
    }

    /// Enqueues a thumbnail once per path; cheap to call every frame for every
    /// visible row. Returns whether a job was queued (so a worker should wake).
    pub fn request(&mut self, path: &str, url: &str, target: u32) -> (queued: bool)
        requires
            old(self).well_formed(),
        ensures
            final(self).well_formed(),
            queued == !old(self).requested().contains(path@),
            queued ==> final(self).jobs() == old(self).jobs().push((path@, url@, target)),
            queued ==> final(self).requested() == old(self).requested().insert(path@),
            !queued ==> final(self).jobs() == old(self).jobs(),
            !queued ==> final(self).requested() == old(self).requested(),
            final(self).delivered() == old(self).delivered(),
            final(self).results() == old(self).results(),
    {
        if holds_path(&self.requested, path) {
            return false;
        }
        let ghost old_req = self.requested@;
        self.requested.push(path.to_owned());
        self.jobs.push(ThumbJob { path: path.to_owned(), url: url.to_owned(), target });
        proof {
            lemma_push_path(old_req, self.requested@.last());
            assert(self.jobs() =~= old(self).jobs().push((path@, url@, target)));
            assert(self.results() =~= old(self).results());
        }
        true
    }

    /// Takes the most recently queued job, if any (what a worker runs next).
    pub fn take_job(&mut self) -> (j: Option<ThumbJob>)
        requires
            old(self).well_formed(),
        ensures
            final(self).well_formed(),
            old(self).jobs().len() == 0 ==> j is None && final(self).jobs() == old(self).jobs(),
            old(self).jobs().len() > 0 ==> j is Some && job_view(j.unwrap()) == old(self).jobs().last()
                && final(self).jobs() == old(self).jobs().drop_last(),
            final(self).requested() == old(self).requested(),
            final(self).delivered() == old(self).delivered(),
            final(self).results() == old(self).results(),
    {
        let j = self.jobs.pop();
        proof {
            assert(self.jobs() =~= old(self).jobs().drop_last() || old(self).jobs().len() == 0);
            assert(self.results() =~= old(self).results());
            if old(self).jobs().len() == 0 {
                assert(self.jobs() =~= old(self).jobs());
            }
        }
        j
    }

    /// Hands a finished thumbnail over to the UI side. It is taken only when it
    /// is a valid thumbnail (non-empty, `width × height` RGBA pixels) for a path
    /// that was requested and has not had one delivered yet; returns whether it
    /// was taken.
    pub fn deliver(&mut self, r: RemoteThumbResult) -> (taken: bool)
        requires
            old(self).well_formed(),
        ensures
            final(self).well_formed(),
            taken == (old(self).requested().contains(r.path@) && !old(self).delivered().contains(
                r.path@,
            ) && valid_result(result_view(r))),
            taken ==> final(self).results() == old(self).results().push(result_view(r))
                && final(self).delivered() == old(self).delivered().insert(r.path@),
            !taken ==> final(self).results() == old(self).results() && final(self).delivered()
                == old(self).delivered(),
            final(self).jobs() == old(self).jobs(),
            final(self).requested() == old(self).requested(),
    {
        let n = r.rgba.len();
        let ok_size = match r.width.checked_mul(r.height) {
            Some(a) => match a.checked_mul(4) {
                Some(b) => r.width >= 1 && r.height >= 1 && n == b,
                None => false,
            },
            None => false,
        };
        if !ok_size || !holds_path(&self.requested, r.path.as_str()) || holds_path(
            &self.delivered,
            r.path.as_str(),
        ) {
            return false;
        }
        let ghost v = result_view(r);
        let ghost old_del = self.delivered@;
        let ghost old_res = self.results();
        self.delivered.push(r.path.clone());
        self.results.push(r);
        proof {
            lemma_push_path(old_del, self.delivered@.last());
            assert(self.results() =~= old_res.push(v));
            assert forall|i: int, j: int|
                0 <= i < j < self.results().len() implies (#[trigger] self.results()[i]).0 != (
                #[trigger] self.results()[j]).0 by {
                if j == old_res.len() {
                    assert(old_res[i] == self.results()[i]);
                    assert(old(self).delivered().contains(old_res[i].0));
                } else {
                    assert(old_res[i] == self.results()[i] && old_res[j] == self.results()[j]);
                }
            }
            assert forall|i: int| 0 <= i < self.results().len() implies valid_result(
                #[trigger] self.results()[i],
            ) && self.delivered().contains(self.results()[i].0) by {
                if i < old_res.len() {
                    assert(old_res[i] == self.results()[i]);
                }
            }
        }
        true
    }

    /// Every finished thumbnail not yet taken, in arrival order; afterwards none
    /// is waiting. Each is a valid thumbnail for a requested path, no two are for
    /// the same path, and (as `deliver` takes one thumbnail per path only) no
    /// path comes back from a later drain.
    pub fn drain(&mut self) -> (v: Vec<RemoteThumbResult>)
        requires
            old(self).well_formed(),
        ensures
            final(self).well_formed(),
            v@.map_values(|r: RemoteThumbResult| result_view(r)) == old(self).results(),
            forall|i: int|
                0 <= i < v@.len() ==> valid_result(result_view(#[trigger] v@[i]))
                    && old(self).requested().contains(v@[i].path@)
                    && old(self).delivered().contains(v@[i].path@),
            forall|i: int, j: int| 0 <= i < j < v@.len() ==> (#[trigger] v@[i]).path@ != (#[trigger] v@[j]).path@,
            final(self).results() == Seq::<(Seq<char>, usize, usize, Seq<u8>)>::empty(),
            final(self).jobs() == old(self).jobs(),
            final(self).requested() == old(self).requested(),
            final(self).delivered() == old(self).delivered(),
    {
        let mut v: Vec<RemoteThumbResult> = Vec::new();
        std::mem::swap(&mut v, &mut self.results);
        proof {
            let rs = old(self).results();
            assert forall|i: int| 0 <= i < v@.len() implies valid_result(result_view(#[trigger] v@[i]))
                && old(self).requested().contains(v@[i].path@)
                && old(self).delivered().contains(v@[i].path@) by {
                assert(rs[i] == result_view(v@[i]));
            }
            assert forall|i: int, j: int| 0 <= i < j < v@.len() implies (#[trigger] v@[i]).path@ != (
            #[trigger] v@[j]).path@ by {
                assert(rs[i] == result_view(v@[i]));
                assert(rs[j] == result_view(v@[j]));
            }
            assert(self.results() =~= Seq::<(Seq<char>, usize, usize, Seq<u8>)>::empty());
            assert(self.jobs() =~= old(self).jobs());
        }
        v
    }
}

/// Names the image `image::load_from_memory(bytes)` decodes, converted with
/// `to_rgba8`: its width, height and RGBA bytes (`None` when the bytes do not
/// decode).
pub uninterp spec fn spec_decode_rgba8(bytes: Seq<u8>) -> Option<(u32, u32, Seq<u8>)>;

/// Decodes an image file held in memory with `image::load_from_memory` and
/// converts it to 8-bit RGBA. The result is whatever the crate decodes for these
/// bytes (named `spec_decode_rgba8`); the converted buffer holds exactly
/// `width × height` pixels of four bytes, as an `RgbaImage` does.
#[verifier::external_body]
fn decode_rgba8(bytes: &[u8]) -> (r: Option<(u32, u32, Vec<u8>)>)
    ensures
        match r {
            Some(t) => spec_decode_rgba8(bytes@) == Some((t.0, t.1, t.2@)),
            None => spec_decode_rgba8(bytes@) is None,
        },
        r matches Some(t) ==> t.2@.len() == t.0 as int * t.1 as int * 4,
{
    let img = image::load_from_memory(bytes).ok()?.to_rgba8();
    let (w, h) = (img.width(), img.height());
    Some((w, h, img.into_raw()))
}

/// What a fetched thumbnail file gives: nothing when it does not decode or is
/// empty; else the decoded image at full size, and whether its longer side
/// exceeds the wanted size (at least 1) and so must be scaled down.
pub open spec fn thumb_outcome(bytes: Seq<u8>, target: u32) -> Option<(u32, u32, Seq<u8>, bool)> {
    match spec_decode_rgba8(bytes) {
        None => None,
        Some((w, h, px)) => if w == 0 || h == 0 {
            None
        } else {
            let t: int = if target < 1 { 1 } else { target as int };
            let longest: int = if w >= h { w as int } else { h as int };
            Some((w, h, px, longest > t))
        },
    }
}

/// Decode a fetched thumbnail for `path`: `None` when the bytes do not decode
/// or the image is empty; otherwise the full-size thumbnail and whether it is
/// larger than `target` (which the caller then scales down).
pub fn decode_thumbnail(path: &str, bytes: &[u8], target: u32) -> (r: Option<(RemoteThumbResult, bool)>)
    ensures
        match thumb_outcome(bytes@, target) {
            None => r is None,
            Some((w, h, px, big)) => r matches Some((t, b)) && t.path@ == path@ && t.width == w
                && t.height == h && t.rgba@ == px && b == big,
        },
        r matches Some((t, b)) ==> valid_result(result_view(t)),
{
    match decode_rgba8(bytes) {
        None => None,
        Some((w, h, px)) => {
            if w == 0 || h == 0 {
                return None;
            }
            let t: u32 = if target < 1 { 1 } else { target };
            let longest: u32 = if w >= h { w } else { h };
            let res = RemoteThumbResult {
                path: path.to_owned(),
                width: w as usize,
                height: h as usize,
                rgba: px,
            };
            Some((res, longest > t))
        },
    }
}

/// A decoded, non-empty thumbnail is kept at the decoded size and pixels, and
/// is flagged for scaling down exactly when its width or its height exceeds the
/// wanted size (a wanted size of 0 counting as 1).
pub proof fn oversized_when_a_side_exceeds_target(bytes: Seq<u8>, target: u32, w: u32, h: u32, px: Seq<u8>)
    requires
        spec_decode_rgba8(bytes) == Some((w, h, px)),
        w > 0,
        h > 0,
    ensures
        thumb_outcome(bytes, target) matches Some((w2, h2, px2, big)) && w2 == w && h2 == h && px2 == px
            && (big <==> ((w > target && w > 1) || (h > target && h > 1))),
{
}

} // verus!
