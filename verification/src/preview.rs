//! The preview montage of a folder tile: the folder's own image and subfolder
//! counts, and up to four preview images, taken from the folder itself and then
//! breadth-first from its subfolders (at most 256 of them visited) when it has
//! fewer. The walk is a state machine: the caller lists the directory it names
//! and hands the listing back.

use vstd::prelude::*;
use crate::filetypes::{is_hidden, is_hidden_path, is_image_ext, is_image_path};
use crate::order::{compare_chars, lemma_ord_chars_antisym, lemma_ord_chars_trans, ord_chars};
use crate::text::chars_of;

verus! {

broadcast use vstd::seq_lib::to_multiset_insert, vstd::seq_lib::to_multiset_build;

/// The most subfolders the preview walk visits.
pub const MAX_DIRS: usize = 256;

/// Strings as character sequences.
pub open spec fn names(v: Seq<String>) -> Seq<Seq<char>> {
    v.map_values(|s: String| s@)
}

/// The paths are in ascending order (code point by code point, as paths within
/// one folder sort).
pub open spec fn sorted_paths(s: Seq<Seq<char>>) -> bool {
    forall|i: int, j: int| 0 <= i < j < s.len() ==> ord_chars(#[trigger] s[i], #[trigger] s[j]) <= 0
}

/// `out` is `s` in ascending order.
pub open spec fn sort_of(out: Seq<Seq<char>>, s: Seq<Seq<char>>) -> bool {
    sorted_paths(out) && out.to_multiset() == s.to_multiset()
}

/// The visible images of a directory listing (`(path, is_dir)` pairs), in
/// listing order.
pub open spec fn listed_images(l: Seq<(Seq<char>, bool)>) -> Seq<Seq<char>>
    decreases l.len(),
{
    if l.len() == 0 {
        seq![]
    } else {
        let prev = listed_images(l.drop_last());
        let (p, d) = l.last();
        if !is_hidden_path(p) && !d && is_image_path(p) {
            prev.push(p)
        } else {
            prev
        }
    }
}

/// The visible subdirectories of a directory listing, in listing order.
pub open spec fn listed_dirs(l: Seq<(Seq<char>, bool)>) -> Seq<Seq<char>>
    decreases l.len(),
{
    if l.len() == 0 {
        seq![]
    } else {
        let prev = listed_dirs(l.drop_last());
        let (p, d) = l.last();
        if !is_hidden_path(p) && d {
            prev.push(p)
        } else {
            prev
        }
    }
}

/// A listing as plain values.
pub open spec fn listing_view(l: Seq<(String, bool)>) -> Seq<(Seq<char>, bool)> {
    l.map_values(|e: (String, bool)| (e.0@, e.1))
}

/// Insert `x` into the ascending list `out`, keeping it ascending.
fn insert_sorted(out: &mut Vec<String>, x: String)
    requires
        sorted_paths(names(old(out)@)),
    ensures
        sorted_paths(names(final(out)@)),
        names(final(out)@).to_multiset() == names(old(out)@).to_multiset().insert(x@),
{
    let xc = chars_of(x.as_str());
    let mut lo: usize = 0;
    while lo < out.len()
        invariant
            lo <= out@.len(),
            out@ == old(out)@,
            xc@ == x@,
            forall|a: int| 0 <= a < lo ==> ord_chars(#[trigger] out@[a]@, x@) <= 0,
        ensures
            lo <= out@.len(),
            out@ == old(out)@,
            forall|a: int| 0 <= a < lo ==> ord_chars(#[trigger] out@[a]@, x@) <= 0,
            lo < out@.len() ==> ord_chars(out@[lo as int]@, x@) > 0,
        decreases out@.len() - lo,
    {
        let c = chars_of(out[lo].as_str());
        if compare_chars(&c, &xc) > 0 {
            break;
        }
        lo = lo + 1;
    }
    let ghost s = names(out@);
    proof {
        assert forall|a: int| lo <= a < s.len() implies ord_chars(x@, #[trigger] s[a]) <= 0 by {
            let f = s[lo as int];
            assert(f == out@[lo as int]@);
            assert(ord_chars(f, x@) > 0);
            lemma_ord_chars_antisym(f, x@);
            if a > lo {
                lemma_ord_chars_trans(x@, f, s[a]);
            }
        }
    }
    out.insert(lo, x);
    proof {
        let t = names(out@);
        assert(t =~= s.insert(lo as int, x@));
        assert forall|i: int, j: int| 0 <= i < j < t.len() implies ord_chars(#[trigger] t[i], #[trigger] t[j]) <= 0 by {
            if j < lo {
            } else if j == lo {
                assert(t[i] == old(out)@[i]@);
            } else if i < lo {
                assert(t[i] == s[i] && t[j] == s[j - 1]);
                assert(ord_chars(s[i], x@) <= 0);
                lemma_ord_chars_trans(s[i], x@, s[j - 1]);
            } else if i == lo {
            } else {
                assert(t[i] == s[i - 1] && t[j] == s[j - 1]);
            }
        }
    }
}

/// The strings of `v` in ascending order.
pub fn sort_paths(v: Vec<String>) -> (r: Vec<String>)
    ensures
        sort_of(names(r@), names(v@)),
{
    let mut out: Vec<String> = Vec::new();
    let n = v.len();
    let mut i: usize = 0;
    let ghost all = names(v@);
    proof {
        assert(names(out@).to_multiset() =~= all.take(0).to_multiset()) by {
            assert(all.take(0) =~= Seq::<Seq<char>>::empty());
            assert(names(out@) =~= Seq::<Seq<char>>::empty());
        }
    }
    while i < n
        invariant
            n == v@.len(),
            i <= n,
            all == names(v@),
            sorted_paths(names(out@)),
            names(out@).to_multiset() == all.take(i as int).to_multiset(),
        decreases n - i,
    {
        insert_sorted(&mut out, v[i].clone());
        proof {
            assert(all.take(i + 1) =~= all.take(i as int).push(all[i as int]));
        }
        i = i + 1;
    }
    proof {
        assert(all.take(n as int) =~= all);
    }
    out
}

/// The visible images and subdirectories of a listing, in listing order.
fn classify(l: &[(String, bool)]) -> (r: (Vec<String>, Vec<String>))
    ensures
        names(r.0@) == listed_images(listing_view(l@)),
        names(r.1@) == listed_dirs(listing_view(l@)),
{
    let mut imgs: Vec<String> = Vec::new();
    let mut dirs: Vec<String> = Vec::new();
    let mut i: usize = 0;
    while i < l.len()
        invariant
            i <= l@.len(),
            names(imgs@) == listed_images(listing_view(l@).take(i as int)),
            names(dirs@) == listed_dirs(listing_view(l@).take(i as int)),
        decreases l@.len() - i,
    {
        let ghost t = listing_view(l@).take(i + 1);
        proof {
            assert(t.drop_last() =~= listing_view(l@).take(i as int));
            assert(t.last() == (l@[i as int].0@, l@[i as int].1));
        }
        let p = l[i].0.as_str();
        let d = l[i].1;
        let ghost bi = names(imgs@);
        let ghost bd = names(dirs@);
        if !is_hidden(p) {
            if d {
                dirs.push(l[i].0.clone());
                proof {
                    assert(names(dirs@) =~= bd.push(p@));
                }
            } else if is_image_ext(p) {
                imgs.push(l[i].0.clone());
                proof {
                    assert(names(imgs@) =~= bi.push(p@));
                }
            }
        }
        i = i + 1;
    }
    proof {
        assert(listing_view(l@).take(l@.len() as int) =~= listing_view(l@));
    }
    (imgs, dirs)
}

/// The previews after adding `found` (in order) to `have`, up to four.
pub open spec fn topped_up(have: Seq<Seq<char>>, found: Seq<Seq<char>>) -> Seq<Seq<char>> {
    if have.len() >= 4 {
        have
    } else if have.len() + found.len() <= 4 {
        have + found
    } else {
        have + found.take(4 - have.len())
    }
}

/// The state of the preview walk of one folder.
pub struct PreviewWalk {
    previews: Vec<String>,
    queue: Vec<String>,
    head: usize,
    visited: usize,
    images: usize,
    subdirs: usize,
}

impl PreviewWalk {
    /// The previews gathered so far.
    pub closed spec fn previews(&self) -> Seq<Seq<char>> {
        names(self.previews@)
    }

    /// The subfolders still to visit, in order.
    pub closed spec fn pending(&self) -> Seq<Seq<char>> {
        names(self.queue@).skip(self.head as int)
    }

    /// How many subfolders were visited.
    pub closed spec fn visited(&self) -> nat {
        self.visited as nat
    }

    /// The folder's own image and subfolder counts.
    pub closed spec fn counts(&self) -> (nat, nat) {
        (self.images as nat, self.subdirs as nat)
    }

    /// The walk's bookkeeping holds together.
    pub closed spec fn well_formed(&self) -> bool {
        &&& self.head <= self.queue@.len()
        &&& self.previews@.len() <= 4
        &&& self.visited <= MAX_DIRS
    }

    /// The walk goes on: fewer than four previews, fewer than 256 subfolders
    /// visited, and a subfolder left to visit.
    pub open spec fn active(&self) -> bool {
        self.previews().len() < 4 && self.visited() < MAX_DIRS && self.pending().len() > 0
    }

    /// Start from the listing of the folder itself: count its visible images and
    /// subfolders, take its first four images (in path order) as previews, and,
    /// when that gives fewer than four, queue its subfolders in path order.
    pub fn start(listing: &[(String, bool)]) -> (w: PreviewWalk)
        ensures
            w.well_formed(),
            w.visited() == 0,
            w.counts() == (
                listed_images(listing_view(listing@)).len(),
                listed_dirs(listing_view(listing@)).len(),
            ),
            exists|s: Seq<Seq<char>>|
                sort_of(s, listed_images(listing_view(listing@))) && #[trigger] w.previews() == (
                if s.len() <= 4 {
                    s
                } else {
                    s.take(4)
                }),
            w.previews().len() < 4 ==> sort_of(w.pending(), listed_dirs(listing_view(listing@))),
            w.previews().len() >= 4 ==> w.pending().len() == 0,
    {
        let (imgs, dirs) = classify(listing);
        let images = imgs.len();
        let subdirs = dirs.len();
        let sorted = sort_paths(imgs);
        let ghost s = names(sorted@);
        let mut previews: Vec<String> = Vec::new();
        let mut i: usize = 0;
        while i < sorted.len() && i < 4
            invariant
                i <= sorted@.len(),
                i <= 4,
                names(previews@) == names(sorted@).take(i as int),
            decreases sorted@.len() - i,
        {
            previews.push(sorted[i].clone());
            proof {
                assert(names(sorted@).take(i + 1) =~= names(sorted@).take(i as int).push(sorted@[i as int]@));
            }
            i = i + 1;
        }
        proof {
            if s.len() <= 4 {
                assert(s.take(i as int) =~= s);
            }
            assert(sorted@.len() == s.len());
        }
        let queue = if previews.len() < 4 {
            sort_paths(dirs)
        } else {
            Vec::new()
        };
        let w = PreviewWalk { previews, queue, head: 0, visited: 0, images, subdirs };
        proof {
            assert(names(w.queue@).skip(0) =~= names(w.queue@));
            assert(w.previews() == (if s.len() <= 4 { s } else { s.take(4) }));
        }
        w
    }

    /// The subfolder to list next, while the walk goes on.
    pub fn next_dir(&self) -> (d: Option<String>)
        requires
            self.well_formed(),
        ensures
            d is Some <==> self.active(),
            d matches Some(p) ==> p@ == self.pending()[0],
    {
        if self.previews.len() < 4 && self.visited < MAX_DIRS && self.head < self.queue.len() {
            proof {
                assert(self.pending()[0] == self.queue@[self.head as int]@);
            }
            Some(self.queue[self.head].clone())
        } else {
            None
        }
    }

    /// Take in the listing of the subfolder `next_dir` named: it counts as
    /// visited, its images (in path order) top the previews up to four, and its
    /// subfolders (in path order) join the end of the queue.
    pub fn visit(&mut self, listing: &[(String, bool)])
        requires
            old(self).well_formed(),
            old(self).active(),
        ensures
            final(self).well_formed(),
            final(self).visited() == old(self).visited() + 1,
            final(self).counts() == old(self).counts(),
            exists|s: Seq<Seq<char>>, t: Seq<Seq<char>>|
                sort_of(s, listed_images(listing_view(listing@))) && sort_of(
                    t,
                    listed_dirs(listing_view(listing@)),
                ) && #[trigger] final(self).previews() == topped_up(old(self).previews(), s)
                    && #[trigger] final(self).pending() == old(self).pending().drop_first() + t,
    {
        let (imgs, dirs) = classify(listing);
        let found = sort_paths(imgs);
        let kids = sort_paths(dirs);
        let ghost s = names(found@);
        let ghost t = names(kids@);
        let ghost p0 = self.previews();
        let ghost q0 = self.pending();
        let mut i: usize = 0;
        let ghost start_len = self.previews@.len();
        while i < found.len() && self.previews.len() < 4
            invariant
                i <= found@.len(),
                start_len == p0.len(),
                start_len < 4,
                self.previews@.len() == start_len + i,
                self.previews@.len() <= 4,
                names(self.previews@) == p0 + s.take(i as int),
                s == names(found@),
                self.queue@ == old(self).queue@,
                self.head == old(self).head,
                self.visited == old(self).visited,
                self.images == old(self).images,
                self.subdirs == old(self).subdirs,
                old(self).well_formed(),
                old(self).active(),
            decreases found@.len() - i,
        {
            let ghost before = names(self.previews@);
            self.previews.push(found[i].clone());
            proof {
                assert(names(self.previews@) =~= before.push(found@[i as int]@));
                assert(s.take(i + 1) =~= s.take(i as int).push(found@[i as int]@));
            }
            i = i + 1;
        }
        proof {
            assert(self.head < self.queue@.len()) by {
                assert(old(self).pending().len() == names(old(self).queue@).len() - old(self).head);
            }
            if p0.len() + s.len() <= 4 {
                assert(i == s.len());
                assert(s.take(i as int) =~= s);
            } else {
                assert(i == 4 - p0.len());
            }
            assert(names(self.previews@) == topped_up(p0, s));
        }
        let ql = self.queue.len();
        assert(self.head < ql);
        self.head = self.head + 1;
        self.visited = self.visited + 1;
        let mut k: usize = 0;
        let ghost qbase = names(self.queue@);
        while k < kids.len()
            invariant
                k <= kids@.len(),
                t == names(kids@),
                names(self.queue@) == qbase + t.take(k as int),
                self.head <= qbase.len(),
                self.previews@.len() <= 4,
                self.visited <= MAX_DIRS,
                self.head == old(self).head + 1,
                self.visited == old(self).visited + 1,
                self.images == old(self).images,
                self.subdirs == old(self).subdirs,
                names(self.previews@) == topped_up(p0, s),
                qbase == names(old(self).queue@),
                q0 == names(old(self).queue@).skip(old(self).head as int),
            decreases kids@.len() - k,
        {
            let ghost before = names(self.queue@);
            self.queue.push(kids[k].clone());
            proof {
                assert(t.take(k + 1) =~= t.take(k as int).push(kids@[k as int]@));
                assert(names(self.queue@) =~= before.push(kids@[k as int]@));
                assert(names(self.queue@) =~= qbase + t.take(k + 1));
            }
            k = k + 1;
        }
        proof {
            assert(t.take(k as int) =~= t);
            assert(qbase == names(old(self).queue@));
            assert(q0.drop_first() =~= qbase.skip(self.head as int));
            assert(names(self.queue@).skip(self.head as int) =~= qbase.skip(self.head as int) + t);
        }
    }

    /// The folder's own image count, its subfolder count, and the previews.
    pub fn finish(self) -> (r: (Vec<String>, usize, usize))
        ensures
            names(r.0@) == self.previews(),
            (r.1 as nat, r.2 as nat) == self.counts(),
    {
        (self.previews, self.images, self.subdirs)
    }
}

} // verus!
