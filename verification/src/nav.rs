//! Navigation decisions of the browser: stepping to the previous or next image,
//! moving through the folder history, and the click / Ctrl+click / Shift+click
//! multi-selection of files.

use vstd::prelude::*;
use crate::browse::Entry;
use crate::text::chars_eq;

verus! {

/// Entry `i` is an image the viewer steps through: not a folder or an archive.
pub open spec fn steppable(entries: Seq<Entry>, i: int) -> bool {
    0 <= i < entries.len() && !entries[i].is_dir && !entries[i].is_archive
}

/// The viewer's next image from `selected` in the given direction: the nearest
/// steppable entry strictly after (or before) it, or `None` when there is none.
pub fn step_target(entries: &[Entry], selected: usize, forward: bool) -> (r: Option<usize>)
    ensures
        match r {
            Some(j) => {
                &&& steppable(entries@, j as int)
                &&& forward ==> j > selected && forall|k: int| selected < k < j ==> !steppable(
                    entries@,
                    k,
                )
                &&& !forward ==> j < selected && selected <= entries@.len() && forall|k: int| j < k < selected ==> !steppable(
                    entries@,
                    k,
                )
            },
            None => {
                &&& forward ==> forall|k: int| selected < k < entries@.len() ==> !steppable(
                    entries@,
                    k,
                )
                &&& !forward ==> selected > entries@.len() || forall|k: int| 0 <= k < selected
                    ==> !steppable(entries@, k)
            },
        },
{
    let n = entries.len();
    if forward {
        if selected >= n {
            return None;
        }
        let mut i = selected + 1;
        while i < n
            invariant
                forward,
                n == entries@.len(),
                selected < i <= n,
                forall|k: int| selected < k < i ==> !steppable(entries@, k),
            decreases n - i,
        {
            if !entries[i].is_dir && !entries[i].is_archive {
                return Some(i);
            }
            i = i + 1;
        }
        None
    } else {
        if selected > n {
            return None;
        }
        let mut i = selected;
        while i > 0
            invariant
                !forward,
                n == entries@.len(),
                i <= selected <= n,
                forall|k: int| i <= k < selected ==> !steppable(entries@, k),
            decreases i,
        {
            let k = i - 1;
            if !entries[k].is_dir && !entries[k].is_archive {
                return Some(k);
            }
            i = k;
        }
        None
    }
}

/// The folder-history position a Back / Forward step lands on: one earlier, or
/// one later while there is a later one; `None` at either end.
pub open spec fn history_step(pos: int, len: int, back: bool) -> Option<int> {
    if back {
        if pos > 0 {
            Some(pos - 1)
        } else {
            None
        }
    } else if pos + 1 < len {
        Some(pos + 1)
    } else {
        None
    }
}

/// The folder-history position a Back / Forward step lands on.
pub fn history_target(pos: usize, len: usize, back: bool) -> (r: Option<usize>)
    ensures
        match r {
            Some(t) => history_step(pos as int, len as int, back) == Some(t as int),
            None => history_step(pos as int, len as int, back) is None,
        },
{
    if back {
        if pos > 0 {
            Some(pos - 1)
        } else {
            None
        }
    } else if pos < len && pos + 1 < len {
        Some(pos + 1)
    } else {
        None
    }
}

/// A Back step followed by a Forward step returns to where it started, and so
/// does a Forward step followed by a Back step.
pub proof fn back_then_forward_returns(pos: int, len: int)
    requires
        0 <= pos < len,
    ensures
        pos > 0 ==> history_step(history_step(pos, len, true)->0, len, false) == Some(pos),
        pos + 1 < len ==> history_step(history_step(pos, len, false)->0, len, true) == Some(pos),
{
}

/// The folders visited, in order, and the position of the one shown; a visit
/// made after stepping back drops the folders that were ahead of it.
pub struct FolderHistory {
    dirs: Vec<String>,
    pos: usize,
}

impl FolderHistory {
    /// The visited folders.
    pub closed spec fn dirs(&self) -> Seq<Seq<char>> {
        self.dirs@.map_values(|d: String| d@)
    }

    /// The position of the folder shown.
    pub closed spec fn pos(&self) -> int {
        self.pos as int
    }

    /// The position lies within the list, or the list is empty and it is 0.
    pub closed spec fn well_formed(&self) -> bool {
        if self.dirs@.len() == 0 {
            self.pos == 0
        } else {
            self.pos < self.dirs@.len()
        }
    }

    /// No folder visited yet.
    pub fn new() -> (h: FolderHistory)
        ensures
            h.well_formed(),
            h.dirs() == Seq::<Seq<char>>::empty(),
            h.pos() == 0,
    {
        let h = FolderHistory { dirs: Vec::new(), pos: 0 };
        proof {
            assert(h.dirs() =~= Seq::<Seq<char>>::empty());
        }
        h
    }

    /// Record a visit of `dir`: the folders after the current one are dropped,
    /// `dir` is appended unless it is already the last one, and it becomes the
    /// current position.
    pub fn record(&mut self, dir: &str)
        requires
            old(self).well_formed(),
        ensures
            final(self).well_formed(),
            ({
                let old_dirs = old(self).dirs();
                let kept = if old(self).pos() + 1 < old_dirs.len() {
                    old_dirs.take(old(self).pos() + 1)
                } else {
                    old_dirs
                };
                final(self).dirs() == if kept.len() > 0 && kept.last() == dir@ {
                    kept
                } else {
                    kept.push(dir@)
                }
            }),
            final(self).pos() == final(self).dirs().len() - 1,
            final(self).dirs()[final(self).pos()] == dir@,
    {
        let ghost old_dirs = self.dirs();
        let len0 = self.dirs.len();
        if self.pos < len0 && self.pos + 1 < len0 {
            self.dirs.truncate(self.pos + 1);
        }
        let ghost kept = self.dirs();
        proof {
            assert(kept =~= (if old(self).pos() + 1 < old_dirs.len() {
                old_dirs.take(old(self).pos() + 1)
            } else {
                old_dirs
            }));
        }
        let n = self.dirs.len();
        let same = n > 0 && crate::text::chars_eq(
            &crate::text::chars_of(self.dirs[n - 1].as_str()),
            &crate::text::chars_of(dir),
        );
        if !same {
            self.dirs.push(dir.to_string());
            proof {
                assert(self.dirs() =~= kept.push(dir@));
            }
        }
        self.pos = self.dirs.len() - 1;
    }

    /// Step Back (or Forward) through the history: move the position and return
    /// the folder now current, or `None` (nothing moved) at either end.
    pub fn step(&mut self, back: bool) -> (r: Option<String>)
        requires
            old(self).well_formed(),
        ensures
            final(self).well_formed(),
            final(self).dirs() == old(self).dirs(),
            match history_step(old(self).pos(), old(self).dirs().len() as int, back) {
                Some(t) => final(self).pos() == t && r is Some && r->0@ == old(self).dirs()[t],
                None => final(self).pos() == old(self).pos() && r is None,
            },
    {
        match history_target(self.pos, self.dirs.len(), back) {
            Some(t) => {
                self.pos = t;
                let d = self.dirs[t].clone();
                Some(d)
            },
            None => None,
        }
    }
}

/// The path of entry `i` when it is a file (not a folder) in range.
pub open spec fn file_path_at(entries: Seq<Entry>, i: int) -> Option<Seq<char>> {
    if 0 <= i < entries.len() && !entries[i].is_dir {
        Some(entries[i].path@)
    } else {
        None
    }
}

/// The files of `entries` from index `lo` to `hi`, both included.
pub open spec fn files_between(entries: Seq<Entry>, lo: int, hi: int) -> Set<Seq<char>> {
    Set::new(
        |p: Seq<char>|
            exists|i: int| lo <= i <= hi && #[trigger] file_path_at(entries, i) == Some(p),
    )
}

/// The file (not folder) at `idx`, when there is one.
pub open spec fn file_at(entries: Seq<Entry>, idx: Option<usize>) -> Option<Seq<char>> {
    match idx {
        Some(i) => file_path_at(entries, i as int),
        None => None,
    }
}

/// What a rating from the single view applies to: the image shown, when it is a
/// file.
pub fn single_rating_target(entries: &[Entry], selected: usize) -> (v: Vec<String>)
    ensures
        v@.map_values(|s: String| s@) == match file_path_at(entries@, selected as int) {
            Some(p) => seq![p],
            None => Seq::<Seq<char>>::empty(),
        },
{
    let mut v: Vec<String> = Vec::new();
    if selected < entries.len() && !entries[selected].is_dir {
        v.push(entries[selected].path.clone());
    }
    proof {
        assert(v@.map_values(|s: String| s@) =~= match file_path_at(entries@, selected as int) {
            Some(p) => seq![p],
            None => Seq::<Seq<char>>::empty(),
        });
    }
    v
}

/// `i` is the first entry whose path is `p`.
pub open spec fn first_with_path(s: Seq<Entry>, i: int, p: Seq<char>) -> bool {
    &&& 0 <= i < s.len()
    &&& s[i].path@ == p
    &&& forall|k: int| 0 <= k < i ==> s[k].path@ != p
}

/// Entry `i` is the first one carrying one of the `targets`.
pub open spec fn rated_by(s: Seq<Entry>, i: int, targets: Seq<String>) -> bool {
    exists|j: int| 0 <= j < targets.len() && first_with_path(s, i, #[trigger] targets[j]@)
}

fn first_index_with_path(all: &Vec<Entry>, p: &str) -> (r: Option<usize>)
    ensures
        match r {
            Some(i) => first_with_path(all@, i as int, p@),
            None => forall|k: int| 0 <= k < all@.len() ==> all@[k].path@ != p@,
        },
{
    let pc = crate::text::chars_of(p);
    let mut i: usize = 0;
    while i < all.len()
        invariant
            i <= all@.len(),
            pc@ == p@,
            forall|k: int| 0 <= k < i ==> all@[k].path@ != p@,
        decreases all@.len() - i,
    {
        let c = crate::text::chars_of(all[i].path.as_str());
        if chars_eq(&c, &pc) {
            return Some(i);
        }
        i = i + 1;
    }
    None
}

/// Record a new star rating in the loaded entries: for each target path, the
/// first entry with that path gets `stars`; everything else is left as it was.
pub fn rate_paths(all: &mut Vec<Entry>, targets: &[String], stars: u8)
    ensures
        final(all)@.len() == old(all)@.len(),
        forall|i: int|
            0 <= i < old(all)@.len() ==> #[trigger] final(all)@[i] == if rated_by(old(all)@, i, targets@) {
                Entry { rating: stars, ..old(all)@[i] }
            } else {
                old(all)@[i]
            },
{
    let ghost start = all@;
    let mut j: usize = 0;
    while j < targets.len()
        invariant
            j <= targets@.len(),
            all@.len() == start.len(),
            forall|i: int| 0 <= i < start.len() ==> (#[trigger] all@[i]).path == start[i].path,
            forall|i: int|
                0 <= i < start.len() ==> #[trigger] all@[i] == if rated_by(start, i, targets@.subrange(0, j as int)) {
                    Entry { rating: stars, ..start[i] }
                } else {
                    start[i]
                },
        decreases targets@.len() - j,
    {
        let found = first_index_with_path(all, targets[j].as_str());
        let ghost before = all@;
        match found {
            Some(k) => {
                let mut e = all[k].clone();
                e.rating = stars;
                all.set(k, e);
            },
            None => {},
        }
        proof {
            assert forall|i: int| 0 <= i < start.len() implies #[trigger] all@[i] == if rated_by(start, i, targets@.subrange(0, j + 1)) {
                Entry { rating: stars, ..start[i] }
            } else {
                start[i]
            } by {
                let t = targets@[j as int]@;
                let now = rated_by(start, i, targets@.subrange(0, j + 1));
                let was = rated_by(start, i, targets@.subrange(0, j as int));
                let hit = first_with_path(start, i, t);
                assert forall|k: int| 0 <= k < start.len() implies (before[k].path@ == t <==> start[k].path@ == t) by {
                    assert(before[k].path == start[k].path);
                }
                if was {
                    let jj = choose|jj: int| 0 <= jj < j && first_with_path(start, i, #[trigger] targets@.subrange(0, j as int)[jj]@);
                    assert(targets@.subrange(0, j + 1)[jj] == targets@.subrange(0, j as int)[jj]);
                }
                if hit {
                    assert(targets@.subrange(0, j + 1)[j as int] == targets@[j as int]);
                }
                if now {
                    let jj = choose|jj: int| 0 <= jj < j + 1 && first_with_path(start, i, #[trigger] targets@.subrange(0, j + 1)[jj]@);
                    if jj < j {
                        assert(targets@.subrange(0, j as int)[jj] == targets@.subrange(0, j + 1)[jj]);
                    } else {
                        assert(hit);
                    }
                }
                match found {
                    Some(k) => {
                        assert(first_with_path(before, k as int, t));
                        assert(first_with_path(start, k as int, t));
                        if i == k {
                            assert(hit);
                        } else {
                            assert(all@[i] == before[i]);
                            if hit {
                                assert(i == k) by {
                                    if i < k {
                                        assert(start[i].path@ == t);
                                    } else {
                                        assert(start[k as int].path@ == t);
                                    }
                                }
                            }
                        }
                    },
                    None => {
                        assert(!hit) by {
                            if hit {
                                assert(before[i].path@ == t);
                            }
                        }
                    },
                }
            }
        }
        j = j + 1;
    }
    proof {
        assert(targets@.subrange(0, targets@.len() as int) =~= targets@);
    }
}

/// The multi-selection of files in the grid and the anchor a Shift+click
/// extends from.
pub struct Selection {
    paths: Vec<String>,
    anchor: Option<usize>,
}

impl Selection {
    /// The selected paths.
    pub closed spec fn view(&self) -> Set<Seq<char>> {
        Set::new(|p: Seq<char>| exists|i: int| 0 <= i < self.paths@.len() && self.paths@[i]@ == p)
    }

    /// The entry a Shift+click extends from.
    pub closed spec fn anchor_spec(&self) -> Option<usize> {
        self.anchor
    }

    /// The entry a Shift+click extends from.
    pub fn anchor(&self) -> (a: Option<usize>)
        ensures
            a == self.anchor_spec(),
    {
        self.anchor
    }

    /// No path is held twice.
    pub closed spec fn well_formed(&self) -> bool {
        forall|i: int, j: int|
            0 <= i < j < self.paths@.len() ==> (#[trigger] self.paths@[i])@ != (
            #[trigger] self.paths@[j])@
    }

    /// Nothing selected, no anchor.
    pub fn new() -> (s: Selection)
        ensures
            s.well_formed(),
            s@ == Set::<Seq<char>>::empty(),
            s.anchor_spec() is None,
    {
        let s = Selection { paths: Vec::new(), anchor: None };
        proof {
            assert(s@ =~= Set::<Seq<char>>::empty());
        }
        s
    }

    fn position(&self, p: &str) -> (r: Option<usize>)
        ensures
            match r {
                Some(i) => i < self.paths@.len() && self.paths@[i as int]@ == p@,
                None => !self@.contains(p@),
            },
    {
        let pc = crate::text::chars_of(p);
        let mut i: usize = 0;
        while i < self.paths.len()
            invariant
                i <= self.paths@.len(),
                pc@ == p@,
                forall|k: int| 0 <= k < i ==> self.paths@[k]@ != p@,
            decreases self.paths@.len() - i,
        {
            let c = crate::text::chars_of(self.paths[i].as_str());
            if chars_eq(&c, &pc) {
                return Some(i);
            }
            i = i + 1;
        }
        None
    }

    /// Whether `p` is selected.
    pub fn contains(&self, p: &str) -> (b: bool)
        ensures
            b == self@.contains(p@),
    {
        match self.position(p) {
            Some(i) => {
                proof {
                    assert(self@.contains(p@));
                }
                true
            },
            None => false,
        }
    }

    /// The selected paths, in no particular order.
    pub fn paths(&self) -> (v: Vec<String>)
        requires
            self.well_formed(),
        ensures
            v@.len() == self@.len(),
            forall|p: Seq<char>| self@.contains(p) <==> exists|i: int| 0 <= i < v@.len() && (#[trigger] v@[i])@ == p,
    {
        let mut v: Vec<String> = Vec::new();
        let mut i: usize = 0;
        while i < self.paths.len()
            invariant
                i <= self.paths@.len(),
                v@.len() == i,
                forall|k: int| 0 <= k < i ==> (#[trigger] v@[k])@ == self.paths@[k]@,
            decreases self.paths@.len() - i,
        {
            v.push(self.paths[i].clone());
            i = i + 1;
        }
        proof {
            self.lemma_len();
            assert forall|p: Seq<char>| self@.contains(p) <==> exists|k: int| 0 <= k < v@.len() && (#[trigger] v@[k])@ == p by {
                if self@.contains(p) {
                    let k = choose|k: int| 0 <= k < self.paths@.len() && self.paths@[k]@ == p;
                    assert(v@[k]@ == p);
                }
                if exists|k: int| 0 <= k < v@.len() && (#[trigger] v@[k])@ == p {
                    let k = choose|k: int| 0 <= k < v@.len() && (#[trigger] v@[k])@ == p;
                    assert(self.paths@[k]@ == p);
                }
            }
        }
        v
    }

    proof fn lemma_len(&self)
        requires
            self.well_formed(),
        ensures
            self@.finite(),
            self@.len() == self.paths@.len(),
    {
        let views = self.paths@.map_values(|s: String| s@);
        assert forall|i: int, j: int| 0 <= i < j < views.len() implies views[i] != views[j] by {
            assert(views[i] == self.paths@[i]@);
            assert(views[j] == self.paths@[j]@);
        }
        assert(views.no_duplicates());
        views.unique_seq_to_set();
        assert(self@ =~= views.to_set()) by {
            assert forall|p: Seq<char>| self@.contains(p) <==> views.to_set().contains(p) by {
                if self@.contains(p) {
                    let k = choose|k: int| 0 <= k < self.paths@.len() && self.paths@[k]@ == p;
                    assert(views[k] == p);
                }
                if views.to_set().contains(p) {
                    let k = choose|k: int| 0 <= k < views.len() && views[k] == p;
                    assert(self.paths@[k]@ == p);
                }
            }
        }
    }

    /// Add `p`, if it is not selected yet.
    pub fn insert(&mut self, p: &str)
        requires
            old(self).well_formed(),
        ensures
            final(self).well_formed(),
            final(self)@ == old(self)@.insert(p@),
            final(self).anchor_spec() == old(self).anchor_spec(),
    {
        if self.position(p).is_some() {
            proof {
                assert(self@ =~= old(self)@.insert(p@));
            }
            return;
        }
        let ghost before = self.paths@;
        self.paths.push(p.to_string());
        proof {
            assert forall|i: int, j: int|
                0 <= i < j < self.paths@.len() implies (#[trigger] self.paths@[i])@ != (
                #[trigger] self.paths@[j])@ by {
                if j == before.len() {
                    assert(!old(self)@.contains(p@));
                    if self.paths@[i]@ == p@ {
                        assert(before[i]@ == p@);
                    }
                } else {
                    assert(before[i] == self.paths@[i] && before[j] == self.paths@[j]);
                }
            }
            assert forall|q: Seq<char>| self@.contains(q) <==> old(self)@.insert(p@).contains(q) by {
                if self@.contains(q) {
                    let k = choose|k: int| 0 <= k < self.paths@.len() && self.paths@[k]@ == q;
                    if k < before.len() {
                        assert(before[k]@ == q);
                    }
                }
                if old(self)@.contains(q) {
                    let k = choose|k: int| 0 <= k < before.len() && before[k]@ == q;
                    assert(self.paths@[k]@ == q);
                }
                if q == p@ {
                    assert(self.paths@[before.len() as int]@ == q);
                }
            }
            assert(self@ =~= old(self)@.insert(p@));
        }
    }

    /// Drop `p`, if it is selected.
    pub fn remove(&mut self, p: &str)
        requires
            old(self).well_formed(),
        ensures
            final(self).well_formed(),
            final(self)@ == old(self)@.remove(p@),
            final(self).anchor_spec() == old(self).anchor_spec(),
    {
        match self.position(p) {
            None => {
                proof {
                    assert(self@ =~= old(self)@.remove(p@));
                }
            },
            Some(i) => {
                let ghost before = self.paths@;
                let _ = self.paths.remove(i);
                proof {
                    assert forall|a: int, b: int|
                        0 <= a < b < self.paths@.len() implies (#[trigger] self.paths@[a])@ != (
                        #[trigger] self.paths@[b])@ by {
                        let a0 = if a < i { a } else { a + 1 };
                        let b0 = if b < i { b } else { b + 1 };
                        assert(self.paths@[a] == before[a0]);
                        assert(self.paths@[b] == before[b0]);
                    }
                    assert forall|q: Seq<char>| self@.contains(q) <==> old(self)@.remove(p@).contains(q) by {
                        if self@.contains(q) {
                            let k = choose|k: int| 0 <= k < self.paths@.len() && self.paths@[k]@ == q;
                            let k0 = if k < i { k } else { k + 1 };
                            assert(before[k0]@ == q);
                            assert(k0 != i);
                            assert(q != p@);
                        }
                        if old(self)@.remove(p@).contains(q) {
                            let k = choose|k: int| 0 <= k < before.len() && before[k]@ == q;
                            assert(k != i);
                            if k < i {
                                assert(self.paths@[k]@ == q);
                            } else {
                                assert(self.paths@[k - 1]@ == q);
                            }
                        }
                    }
                    assert(self@ =~= old(self)@.remove(p@));
                }
            },
        }
    }

    /// Select nothing.
    pub fn clear(&mut self)
        ensures
            final(self).well_formed(),
            final(self)@ == Set::<Seq<char>>::empty(),
            final(self).anchor_spec() == old(self).anchor_spec(),
    {
        self.paths = Vec::new();
        proof {
            assert(self@ =~= Set::<Seq<char>>::empty());
        }
    }

    /// A click on entry `idx` of the grid. With Ctrl (`command`) the file's
    /// selection is toggled; with Shift every file from the anchor (or `idx`
    /// without one) to `idx` is added; a plain click selects just that file and
    /// asks for it to be opened. Folders are never selected. The clicked entry
    /// becomes the anchor. Returns whether the entry is to be opened.
    pub fn click(&mut self, entries: &[Entry], idx: usize, command: bool, shift: bool) -> (open: bool)
        requires
            old(self).well_formed(),
        ensures
            final(self).well_formed(),
            final(self).anchor_spec() == Some(idx),
            open == (!command && !shift),
            command ==> final(self)@ == match file_path_at(entries@, idx as int) {
                Some(p) => if old(self)@.contains(p) {
                    old(self)@.remove(p)
                } else {
                    old(self)@.insert(p)
                },
                None => old(self)@,
            },
            !command && shift ==> ({
                let a = match old(self).anchor_spec() {
                    Some(a) => a as int,
                    None => idx as int,
                };
                let lo = if a < idx { a } else { idx as int };
                let hi = if a < idx { idx as int } else { a };
                final(self)@ == old(self)@.union(files_between(entries@, lo, hi))
            }),
            !command && !shift ==> final(self)@ == match file_path_at(entries@, idx as int) {
                Some(p) => Set::<Seq<char>>::empty().insert(p),
                None => Set::<Seq<char>>::empty(),
            },
    {
        let n = entries.len();
        if command {
            if idx < n && !entries[idx].is_dir {
                let p = entries[idx].path.as_str();
                if self.contains(p) {
                    self.remove(p);
                } else {
                    self.insert(p);
                }
            }
            self.anchor = Some(idx);
            return false;
        }
        if shift {
            let a = match self.anchor {
                Some(a) => a,
                None => idx,
            };
            let lo = if a < idx { a } else { idx };
            let hi = if a < idx { idx } else { a };
            let ghost start = self@;
            let end = if hi < n { hi + 1 } else { n };
            let mut i = lo;
            while i < end
                invariant
                    self.well_formed(),
                    n == entries@.len(),
                    end <= n,
                    end <= hi + 1,
                    lo <= i,
                    i <= end || i == lo,
                    self@ == start.union(files_between(entries@, lo as int, i - 1)),
                decreases end - i,
            {
                if !entries[i].is_dir {
                    self.insert(entries[i].path.as_str());
                }
                proof {
                    assert(self@ =~= start.union(files_between(entries@, lo as int, i as int))) by {
                        assert forall|q: Seq<char>| files_between(entries@, lo as int, i as int).contains(q) <==> (
                            files_between(entries@, lo as int, i - 1).contains(q) || file_path_at(entries@, i as int) == Some(q)) by {
                            if files_between(entries@, lo as int, i as int).contains(q) {
                                let k = choose|k: int| lo <= k <= i && #[trigger] file_path_at(entries@, k) == Some(q);
                                if k < i {
                                    assert(files_between(entries@, lo as int, i - 1).contains(q));
                                }
                            }
                            if files_between(entries@, lo as int, i - 1).contains(q) {
                                let k = choose|k: int| lo <= k <= i - 1 && #[trigger] file_path_at(entries@, k) == Some(q);
                                assert(file_path_at(entries@, k) == Some(q));
                            }
                        }
                    }
                }
                i = i + 1;
            }
            proof {
                assert(self@ =~= start.union(files_between(entries@, lo as int, hi as int))) by {
                    assert forall|q: Seq<char>| files_between(entries@, lo as int, hi as int).contains(q) implies files_between(entries@, lo as int, i - 1).contains(q) by {
                        let k = choose|k: int| lo <= k <= hi && #[trigger] file_path_at(entries@, k) == Some(q);
                        assert(k < n);
                        assert(k <= i - 1);
                    }
                    assert forall|q: Seq<char>| files_between(entries@, lo as int, i - 1).contains(q) implies files_between(entries@, lo as int, hi as int).contains(q) by {
                        let k = choose|k: int| lo <= k <= i - 1 && #[trigger] file_path_at(entries@, k) == Some(q);
                        assert(file_path_at(entries@, k) == Some(q));
                    }
                }
            }
            self.anchor = Some(idx);
            return false;
        }
        self.clear();
        if idx < n && !entries[idx].is_dir {
            self.insert(entries[idx].path.as_str());
        }
        self.anchor = Some(idx);
        true
    }

    /// Move the selection to entry `idx` (Home / End): when it exists, it alone
    /// is selected (folders included) and becomes the anchor; otherwise nothing
    /// changes. Returns whether the entry exists.
    pub fn select_index(&mut self, entries: &[Entry], idx: usize) -> (moved: bool)
        requires
            old(self).well_formed(),
        ensures
            final(self).well_formed(),
            moved == (idx < entries@.len()),
            moved ==> final(self)@ == Set::<Seq<char>>::empty().insert(entries@[idx as int].path@)
                && final(self).anchor_spec() == Some(idx),
            !moved ==> final(self)@ == old(self)@ && final(self).anchor_spec() == old(self).anchor_spec(),
    {
        if idx < entries.len() {
            self.clear();
            self.insert(entries[idx].path.as_str());
            self.anchor = Some(idx);
            true
        } else {
            false
        }
    }

    /// What a rating pressed in the grid applies to: the file under the pointer
    /// when it is not part of the selection, otherwise the whole selection.
    pub fn rating_targets(&self, entries: &[Entry], hovered: Option<usize>) -> (v: Vec<String>)
        requires
            self.well_formed(),
        ensures
            match file_at(entries@, hovered) {
                Some(p) if !self@.contains(p) => v@.map_values(|s: String| s@) == seq![p],
                _ => v@.len() == self@.len() && forall|q: Seq<char>| self@.contains(q) <==> exists|i: int| 0 <= i < v@.len() && (#[trigger] v@[i])@ == q,
            },
    {
        match hovered {
            Some(h) => {
                if h < entries.len() && !entries[h].is_dir {
                    let p = entries[h].path.as_str();
                    if !self.contains(p) {
                        let mut v: Vec<String> = Vec::new();
                        v.push(entries[h].path.clone());
                        proof {
                            assert(v@.map_values(|s: String| s@) =~= seq![entries@[h as int].path@]);
                        }
                        return v;
                    }
                }
            },
            None => {},
        }
        self.paths()
    }

    /// The paths a file operation acts on: the selection, or, when nothing is
    /// selected, the entry under the pointer (if any).
    pub fn targets(&self, entries: &[Entry], hovered: Option<usize>) -> (v: Vec<String>)
        requires
            self.well_formed(),
        ensures
            self@.len() > 0 ==> v@.len() == self@.len() && forall|p: Seq<char>| self@.contains(p) <==> exists|i: int| 0 <= i < v@.len() && (#[trigger] v@[i])@ == p,
            self@.len() == 0 ==> v@.map_values(|s: String| s@) == match hovered {
                Some(h) => if h < entries@.len() { seq![entries@[h as int].path@] } else { Seq::<Seq<char>>::empty() },
                None => Seq::<Seq<char>>::empty(),
            },
    {
        proof {
            self.lemma_len();
        }
        if self.paths.len() > 0 {
            return self.paths();
        }
        let mut v: Vec<String> = Vec::new();
        match hovered {
            Some(h) => {
                if h < entries.len() {
                    v.push(entries[h].path.clone());
                }
            },
            None => {},
        }
        proof {
            assert(v@.map_values(|s: String| s@) =~= match hovered {
                Some(h) => if h < entries@.len() { seq![entries@[h as int].path@] } else { Seq::<Seq<char>>::empty() },
                None => Seq::<Seq<char>>::empty(),
            });
        }
        v
    }
}

} // verus!
