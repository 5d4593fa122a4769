//! The folder browser's model: the entries of a folder, the image metadata and
//! 16colo.rs scene metadata gathered about them, and the filter + sort that turns
//! them into the list the grid and the table show.

use vstd::prelude::*;
use crate::order::{
    compare_num_parts, compare_opt_text, key_ord, known_first_part, lemma_key_antisym,
    lemma_key_concat, lemma_key_single, lemma_key_trans, lemma_key_trans_strict,
    lemma_ord_chars_antisym, lemma_part_antisym, num_part, opt_chars, opt_num_part, opt_text_part,
    ord_chars, part_ord, Part,
};
use crate::paths::{extension, extension_of, file_name, file_name_of};
use crate::text::{chars_of, contains, has_substring, lower, to_lower};

verus! {

/// One cell of the grid: a subdirectory, a browsable archive or an image file.
/// Times are `(seconds, nanoseconds)` since the Unix epoch, as the platform keeps
/// them (seconds negative before the epoch, nanoseconds below 10^9).
pub struct Entry {
    pub path: String,
    pub is_dir: bool,
    pub is_archive: bool,
    pub size: u64,
    pub mtime: Option<(i64, u32)>,
    pub ctime: Option<(i64, u32)>,
    pub rating: u8,
}

impl Clone for Entry {
    fn clone(&self) -> (r: Self)
        ensures
            r == *self,
    {
        Entry {
            path: self.path.clone(),
            is_dir: self.is_dir,
            is_archive: self.is_archive,
            size: self.size,
            mtime: self.mtime,
            ctime: self.ctime,
            rating: self.rating,
        }
    }
}

/// Decoded-image metadata: pixel size and, when known, the distinct-colour count.
#[derive(Clone, Copy)]
pub struct ImgMeta {
    pub w: u32,
    pub h: u32,
    pub colors: Option<usize>,
}

/// The SAUCE record fields the viewer matches searches against.
pub struct Sauce {
    pub title: String,
    pub author: String,
    pub group: String,
    pub font: String,
}

/// Per-piece 16colo.rs metadata for a flat artist / group / search listing.
pub struct ColoPiece {
    pub artist: String,
    pub group: String,
    pub year: u32,
    pub pack: String,
    pub raw_url: String,
    pub tn_url: String,
    pub sauce: Option<Sauce>,
}

/// What the grid is sorted by. The last four keys only apply to 16colo.rs
/// listings (they read the piece metadata).
#[derive(Clone, Copy, PartialEq, Eq, Debug, Structural)]
pub enum SortKey {
    Name,
    Type,
    Modified,
    Created,
    Size,
    Rating,
    Colors,
    Dimensions,
    Artist,
    Group,
    Year,
    Pack,
}

/// The persisted index of each sort key.
pub open spec fn sort_key_index(k: SortKey) -> int {
    match k {
        SortKey::Name => 0,
        SortKey::Type => 1,
        SortKey::Modified => 2,
        SortKey::Created => 3,
        SortKey::Size => 4,
        SortKey::Rating => 5,
        SortKey::Colors => 6,
        SortKey::Dimensions => 7,
        SortKey::Artist => 8,
        SortKey::Group => 9,
        SortKey::Year => 10,
        SortKey::Pack => 11,
    }
}

/// The label of a sort key in the sort bar and the table headers.
pub open spec fn sort_key_label(k: SortKey) -> Seq<char> {
    match k {
        SortKey::Name => "Name"@,
        SortKey::Type => "Type"@,
        SortKey::Modified => "Modified"@,
        SortKey::Created => "Created"@,
        SortKey::Size => "Size"@,
        SortKey::Rating => "Rating"@,
        SortKey::Colors => "Colors"@,
        SortKey::Dimensions => "Dimensions"@,
        SortKey::Artist => "Artist"@,
        SortKey::Group => "Group"@,
        SortKey::Year => "Year"@,
        SortKey::Pack => "Pack"@,
    }
}

impl SortKey {
    /// The key's label in the sort bar and the table headers.
    pub fn label(self) -> (s: &'static str)
        ensures
            s@ == sort_key_label(self),
    {
        match self {
            SortKey::Name => "Name",
            SortKey::Type => "Type",
            SortKey::Modified => "Modified",
            SortKey::Created => "Created",
            SortKey::Size => "Size",
            SortKey::Rating => "Rating",
            SortKey::Colors => "Colors",
            SortKey::Dimensions => "Dimensions",
            SortKey::Artist => "Artist",
            SortKey::Group => "Group",
            SortKey::Year => "Year",
            SortKey::Pack => "Pack",
        }
    }

    /// The key's persisted index.
    pub fn to_u8(self) -> (v: u8)
        ensures
            v == sort_key_index(self),
    {
        match self {
            SortKey::Name => 0,
            SortKey::Type => 1,
            SortKey::Modified => 2,
            SortKey::Created => 3,
            SortKey::Size => 4,
            SortKey::Rating => 5,
            SortKey::Colors => 6,
            SortKey::Dimensions => 7,
            SortKey::Artist => 8,
            SortKey::Group => 9,
            SortKey::Year => 10,
            SortKey::Pack => 11,
        }
    }

    /// The key with persisted index `v`; an unknown index reads as `Name`.
    pub fn from_u8(v: u8) -> (k: SortKey)
        ensures
            v < 12 ==> sort_key_index(k) == v,
            v >= 12 ==> k == SortKey::Name,
    {
        match v {
            1 => SortKey::Type,
            2 => SortKey::Modified,
            3 => SortKey::Created,
            4 => SortKey::Size,
            5 => SortKey::Rating,
            6 => SortKey::Colors,
            7 => SortKey::Dimensions,
            8 => SortKey::Artist,
            9 => SortKey::Group,
            10 => SortKey::Year,
            11 => SortKey::Pack,
            _ => SortKey::Name,
        }
    }
}

/// Reading a key back from its persisted index gives the key.
pub proof fn sort_key_index_round_trip(k: SortKey)
    ensures
        0 <= sort_key_index(k) < 12,
        forall|j: SortKey| sort_key_index(j) == sort_key_index(k) ==> j == k,
{
}

/// A virtual (not on disk) directory entry, as used for the 16colo.rs tree.
pub fn virtual_dir(path: String) -> (e: Entry)
    ensures
        e == (Entry { path, is_dir: true, is_archive: false, size: 0, mtime: None, ctime: None, rating: 0 }),
{
    Entry { path, is_dir: true, is_archive: false, size: 0, mtime: None, ctime: None, rating: 0 }
}

/// The metadata recorded for `path`: the first pair whose key is `path`.
pub open spec fn find_meta(meta: Seq<(String, ImgMeta)>, path: Seq<char>) -> Option<ImgMeta>
    decreases meta.len(),
{
    if meta.len() == 0 {
        None
    } else if meta[0].0@ == path {
        Some(meta[0].1)
    } else {
        find_meta(meta.drop_first(), path)
    }
}

/// Index of the piece recorded for `path`: the first pair whose key is `path`.
pub open spec fn find_piece(pieces: Seq<(String, ColoPiece)>, path: Seq<char>) -> Option<int>
    decreases pieces.len(),
{
    if pieces.len() == 0 {
        None
    } else if pieces[0].0@ == path {
        Some(0)
    } else {
        match find_piece(pieces.drop_first(), path) {
            Some(i) => Some(i + 1),
            None => None,
        }
    }
}

/// The piece recorded for `path`, if any.
pub open spec fn piece_for(pieces: Seq<(String, ColoPiece)>, path: Seq<char>) -> Option<ColoPiece> {
    match find_piece(pieces, path) {
        Some(i) => Some(pieces[i].1),
        None => None,
    }
}

/// The metadata recorded for `path` in `meta`.
pub fn lookup_meta(meta: &[(String, ImgMeta)], path: &String) -> (r: Option<ImgMeta>)
    ensures
        r == find_meta(meta@, path@),
{
    let n = meta.len();
    let mut i: usize = 0;
    proof {
        assert(meta@.skip(0) =~= meta@);
    }
    while i < n
        invariant
            n == meta@.len(),
            i <= n,
            find_meta(meta@, path@) == find_meta(meta@.skip(i as int), path@),
        decreases n - i,
    {
        proof {
            assert(meta@.skip(i as int)[0] == meta@[i as int]);
            assert(meta@.skip(i as int).drop_first() =~= meta@.skip(i + 1));
        }
        if meta[i].0 == *path {
            return Some(meta[i].1);
        }
        i += 1;
    }
    None
}

/// Index of the piece recorded for `path` in `pieces`.
pub fn lookup_piece(pieces: &[(String, ColoPiece)], path: &String) -> (r: Option<usize>)
    ensures
        match r {
            Some(i) => i < pieces@.len() && find_piece(pieces@, path@) == Some(i as int),
            None => find_piece(pieces@, path@) is None,
        },
{
    let n = pieces.len();
    let mut i: usize = 0;
    proof {
        assert(pieces@.skip(0) =~= pieces@);
    }
    while i < n
        invariant
            n == pieces@.len(),
            i <= n,
            forall|k: int| 0 <= k < i ==> pieces@[k].0@ != path@,
            find_piece(pieces@, path@) == match find_piece(pieces@.skip(i as int), path@) {
                Some(j) => Some(j + i),
                None => None,
            },
        decreases n - i,
    {
        proof {
            assert(pieces@.skip(i as int)[0] == pieces@[i as int]);
            assert(pieces@.skip(i as int).drop_first() =~= pieces@.skip(i + 1));
        }
        if pieces[i].0 == *path {
            return Some(i);
        }
        i += 1;
    }
    None
}

/// Everything the comparison reads from one entry.
pub struct SortFacts {
    pub folder: bool,
    pub name: Option<Seq<char>>,
    pub ext: Option<Seq<char>>,
    pub mtime: Option<int>,
    pub ctime: Option<int>,
    pub size: int,
    pub rating: int,
    pub colors: Option<int>,
    pub dims: Option<int>,
    pub artist: Option<Seq<char>>,
    pub group: Option<Seq<char>>,
    pub year: Option<int>,
    pub pack: Option<Seq<char>>,
}

/// ASCII lower-casing under an option.
pub open spec fn lower_opt(o: Option<Seq<char>>) -> Option<Seq<char>> {
    match o {
        Some(s) => Some(lower(s)),
        None => None,
    }
}

/// An optional timestamp as an optional integer.
pub open spec fn opt_time(o: Option<i128>) -> Option<int> {
    match o {
        Some(t) => Some(t as int),
        None => None,
    }
}

/// The order key of a timestamp: seconds first, then nanoseconds.
pub open spec fn stamp_key(t: (i64, u32)) -> int {
    t.0 as int * 4294967296 + t.1 as int
}

/// An optional timestamp's order key.
pub open spec fn opt_stamp(o: Option<(i64, u32)>) -> Option<int> {
    match o {
        Some(t) => Some(stamp_key(t)),
        None => None,
    }
}

/// The order key of an optional timestamp.
fn stamp_key_of(o: Option<(i64, u32)>) -> (r: Option<i128>)
    ensures
        opt_time(r) == opt_stamp(o),
{
    match o {
        Some(t) => Some(t.0 as i128 * 4294967296i128 + t.1 as i128),
        None => None,
    }
}

/// The dimensions order key: pixel area first, then width.
pub open spec fn dims_key(m: ImgMeta) -> int {
    (m.w as int * m.h as int) * 4294967296 + m.w as int
}

/// What the comparison reads from entry `e`, given the metadata tables.
pub open spec fn entry_facts(e: Entry, meta: Seq<(String, ImgMeta)>, pieces: Seq<(String, ColoPiece)>) -> SortFacts {
    let m = find_meta(meta, e.path@);
    let p = piece_for(pieces, e.path@);
    SortFacts {
        folder: e.is_dir || e.is_archive,
        name: lower_opt(file_name(e.path@)),
        ext: lower_opt(extension(e.path@)),
        mtime: opt_stamp(e.mtime),
        ctime: opt_stamp(e.ctime),
        size: e.size as int,
        rating: e.rating as int,
        colors: match m {
            Some(mm) => match mm.colors {
                Some(c) => Some(c as int),
                None => None,
            },
            None => None,
        },
        dims: match m {
            Some(mm) => Some(dims_key(mm)),
            None => None,
        },
        artist: match p {
            Some(pc) => Some(lower(pc.artist@)),
            None => None,
        },
        group: match p {
            Some(pc) => Some(lower(pc.group@)),
            None => None,
        },
        year: match p {
            Some(pc) => Some(pc.year as int),
            None => None,
        },
        pack: match p {
            Some(pc) => Some(lower(pc.pack@)),
            None => None,
        },
    }
}

/// The components that decide the order for sort key `key`.
pub open spec fn primary_key(f: SortFacts, key: SortKey, desc: bool) -> Seq<Part> {
    match key {
        SortKey::Name => seq![opt_text_part(f.name, desc)],
        SortKey::Type => seq![opt_text_part(f.ext, desc), opt_text_part(f.name, desc)],
        SortKey::Modified => seq![opt_num_part(f.mtime, desc)],
        SortKey::Created => seq![opt_num_part(f.ctime, desc)],
        SortKey::Size => seq![num_part(desc, 0, f.size)],
        SortKey::Rating => seq![num_part(desc, 0, f.rating)],
        SortKey::Colors => seq![known_first_part(f.colors, desc)],
        SortKey::Dimensions => seq![known_first_part(f.dims, desc)],
        SortKey::Artist => seq![opt_text_part(f.artist, desc)],
        SortKey::Group => seq![opt_text_part(f.group, desc)],
        SortKey::Year => seq![opt_num_part(f.year, desc)],
        SortKey::Pack => seq![opt_text_part(f.pack, desc)],
    }
}

/// Folders and archives ahead of files when `dirs_first` is set.
pub open spec fn folder_key(f: SortFacts, dirs_first: bool) -> Seq<Part> {
    if dirs_first {
        seq![num_part(false, 0, if f.folder { 0 } else { 1 })]
    } else {
        Seq::<Part>::empty()
    }
}

/// The full order key: folders first (optionally), then the sort key's
/// components (reversed when descending, except that colour and dimension counts
/// not yet known stay last), then the lower-cased name as the tie-break.
pub open spec fn facts_key(f: SortFacts, key: SortKey, desc: bool, dirs_first: bool) -> Seq<Part> {
    folder_key(f, dirs_first) + primary_key(f, key, desc) + seq![opt_text_part(f.name, false)]
}

/// The order key of entry `e`.
pub open spec fn entry_key(
    e: Entry,
    key: SortKey,
    desc: bool,
    dirs_first: bool,
    meta: Seq<(String, ImgMeta)>,
    pieces: Seq<(String, ColoPiece)>,
) -> Seq<Part> {
    facts_key(entry_facts(e, meta, pieces), key, desc, dirs_first)
}

/// The filter's needle: the lower-cased name filter, unless it is empty.
pub open spec fn name_needle(name_filter: Option<Seq<char>>) -> Option<Seq<char>> {
    match name_filter {
        Some(s) => if s.len() > 0 {
            Some(lower(s))
        } else {
            None
        },
        None => None,
    }
}

/// Whether the view keeps entry `e`: folders and archives always pass the
/// rating floor, images need at least `min_rating` stars; with a needle, the
/// lower-cased file name must contain it.
pub open spec fn keeps(e: Entry, min_rating: u8, needle: Option<Seq<char>>) -> bool {
    &&& (e.is_dir || e.is_archive || e.rating >= min_rating)
    &&& match needle {
        Some(q) => match file_name(e.path@) {
            Some(n) => has_substring(lower(n), q),
            None => false,
        },
        None => true,
    }
}

/// The entries the view keeps, in the order they came in.
pub open spec fn filtered(all: Seq<Entry>, min_rating: u8, needle: Option<Seq<char>>) -> Seq<Entry> {
    all.filter(|e: Entry| keeps(e, min_rating, needle))
}

/// `p` lists each of `0..n` exactly once.
pub open spec fn is_index_perm(p: Seq<usize>, n: nat) -> bool {
    &&& p.len() == n
    &&& forall|k: int| 0 <= k < n ==> p[k] < n
    &&& forall|k: int, l: int| 0 <= k < l < n ==> p[k] != p[l]
}

/// Item `i` comes before item `j` of a keyed list: a smaller key, or an equal key
/// and an earlier place (a stable order).
pub open spec fn goes_before(keys: Seq<Seq<Part>>, i: int, j: int) -> bool {
    key_ord(keys[i], keys[j]) < 0 || (key_ord(keys[i], keys[j]) == 0 && i < j)
}

/// The order keys of `f` in the given configuration.
pub open spec fn keys_of(
    f: Seq<Entry>,
    key: SortKey,
    desc: bool,
    dirs_first: bool,
    meta: Seq<(String, ImgMeta)>,
    pieces: Seq<(String, ColoPiece)>,
) -> Seq<Seq<Part>> {
    Seq::new(f.len(), |i: int| entry_key(f[i], key, desc, dirs_first, meta, pieces))
}

/// `out` is `f` stably sorted by the order keys.
pub open spec fn is_stable_sort_of(out: Seq<Entry>, f: Seq<Entry>, keys: Seq<Seq<Part>>) -> bool {
    exists|p: Seq<usize>|
        {
            &&& is_index_perm(p, f.len())
            &&& out.len() == f.len()
            &&& forall|k: int| 0 <= k < f.len() ==> out[k] == f[p[k] as int]
            &&& forall|k: int, l: int|
                0 <= k < l < f.len() ==> goes_before(keys, p[k] as int, p[l] as int)
        }
}

/// The values the comparison reads from one entry, computed once per entry.
pub struct SortRow {
    pub folder: bool,
    pub name: Option<Vec<char>>,
    pub ext: Option<Vec<char>>,
    pub mtime: Option<i128>,
    pub ctime: Option<i128>,
    pub size: u64,
    pub rating: u8,
    pub colors: Option<usize>,
    pub dims: Option<i128>,
    pub artist: Option<Vec<char>>,
    pub group: Option<Vec<char>>,
    pub year: Option<u32>,
    pub pack: Option<Vec<char>>,
}

/// The facts a row holds.
pub open spec fn row_facts(r: SortRow) -> SortFacts {
    SortFacts {
        folder: r.folder,
        name: opt_chars(r.name),
        ext: opt_chars(r.ext),
        mtime: opt_time(r.mtime),
        ctime: opt_time(r.ctime),
        size: r.size as int,
        rating: r.rating as int,
        colors: match r.colors {
            Some(c) => Some(c as int),
            None => None,
        },
        dims: opt_time(r.dims),
        artist: opt_chars(r.artist),
        group: opt_chars(r.group),
        year: match r.year {
            Some(y) => Some(y as int),
            None => None,
        },
        pack: opt_chars(r.pack),
    }
}

/// Lower-cased copy of an optional character vector.
fn lower_opt_vec(o: Option<Vec<char>>) -> (r: Option<Vec<char>>)
    ensures
        opt_chars(r) == lower_opt(opt_chars(o)),
{
    match o {
        Some(v) => Some(to_lower(&v)),
        None => None,
    }
}

/// The row of entry `e`.
pub fn make_row(e: &Entry, meta: &[(String, ImgMeta)], pieces: &[(String, ColoPiece)]) -> (r: SortRow)
    ensures
        row_facts(r) == entry_facts(*e, meta@, pieces@),
        match r.dims {
            Some(x) => x >= 0,
            None => true,
        },
{
    let path = chars_of(e.path.as_str());
    let name = lower_opt_vec(file_name_of(&path));
    let ext = lower_opt_vec(extension_of(&path));
    let m = lookup_meta(meta, &e.path);
    let (colors, dims) = match m {
        Some(mm) => {
            let w: u64 = mm.w as u64;
            let h: u64 = mm.h as u64;
            assert(w * h <= 0xffff_fffe_0000_0001) by (nonlinear_arith)
                requires
                    w <= 0xffff_ffff,
                    h <= 0xffff_ffff,
            ;
            let area: u64 = w * h;
            let k: i128 = area as i128 * 4294967296i128 + mm.w as i128;
            (mm.colors, Some(k))
        },
        None => (None, None),
    };
    let pi = lookup_piece(pieces, &e.path);
    let (artist, group, year, pack) = match pi {
        Some(i) => {
            let pc = &pieces[i].1;
            (
                Some(to_lower(&chars_of(pc.artist.as_str()))),
                Some(to_lower(&chars_of(pc.group.as_str()))),
                Some(pc.year),
                Some(to_lower(&chars_of(pc.pack.as_str()))),
            )
        },
        None => (None, None, None, None),
    };
    let r = SortRow {
        folder: e.is_dir || e.is_archive,
        name,
        ext,
        mtime: stamp_key_of(e.mtime),
        ctime: stamp_key_of(e.ctime),
        size: e.size,
        rating: e.rating,
        colors,
        dims,
        artist,
        group,
        year,
        pack,
    };
    proof {
        let f1 = row_facts(r);
        let f2 = entry_facts(*e, meta@, pieces@);
        assert(f1.colors == f2.colors);
        assert(f1.dims == f2.dims) by {
            match m {
                Some(mm) => {
                    assert(dims_key(mm) == (mm.w as int * mm.h as int) * 4294967296 + mm.w as int);
                },
                None => {},
            }
        }
        assert(f1 == f2);
    }
    r
}

/// Tag and number of an optional-number component.
fn opt_num_fields(o: Option<i128>) -> (r: (i8, i128))
    ensures
        forall|rev: bool| num_part(rev, r.0 as int, r.1 as int) == opt_num_part(opt_time(o), rev),
{
    match o {
        Some(x) => (1, x),
        None => (0, 0),
    }
}

/// Tag and number of a "known values first" component.
fn known_first_fields(o: Option<i128>, desc: bool) -> (r: (i8, i128))
    requires
        match o {
            Some(x) => -0x7fff_ffff_ffff_ffff_ffff_ffff_ffff_ffff <= x,
            None => true,
        },
    ensures
        num_part(false, r.0 as int, r.1 as int) == known_first_part(opt_time(o), desc),
{
    match o {
        Some(x) => (0, if desc { -x } else { x }),
        None => (1, 0),
    }
}

/// The colour count as an optional wide integer.
fn colors_wide(o: Option<usize>) -> (r: Option<i128>)
    ensures
        opt_time(r) == match o {
            Some(c) => Some(c as int),
            None => None::<int>,
        },
        match r {
            Some(x) => x >= 0,
            None => true,
        },
{
    match o {
        Some(c) => Some(c as i128),
        None => None,
    }
}

/// The year as an optional wide integer.
fn year_wide(o: Option<u32>) -> (r: Option<i128>)
    ensures
        opt_time(r) == match o {
            Some(y) => Some(y as int),
            None => None::<int>,
        },
{
    match o {
        Some(y) => Some(y as i128),
        None => None,
    }
}

/// Compares the sort-key components of two rows.
fn compare_primary(a: &SortRow, b: &SortRow, key: SortKey, desc: bool) -> (r: i8)
    requires
        match a.dims {
            Some(x) => x >= 0,
            None => true,
        },
        match b.dims {
            Some(x) => x >= 0,
            None => true,
        },
    ensures
        r == key_ord(primary_key(row_facts(*a), key, desc), primary_key(row_facts(*b), key, desc)),
        -1 <= r <= 1,
{
    let fa = Ghost(row_facts(*a));
    let fb = Ghost(row_facts(*b));
    match key {
        SortKey::Name => {
            proof {
                lemma_key_single(opt_text_part(fa@.name, desc), opt_text_part(fb@.name, desc));
                lemma_part_antisym(opt_text_part(fa@.name, desc), opt_text_part(fb@.name, desc));
            }
            compare_opt_text(&a.name, &b.name, desc)
        },
        SortKey::Type => {
            let c1 = compare_opt_text(&a.ext, &b.ext, desc);
            let c2 = compare_opt_text(&a.name, &b.name, desc);
            proof {
                let pa = opt_text_part(fa@.ext, desc);
                let pb = opt_text_part(fb@.ext, desc);
                let qa = opt_text_part(fa@.name, desc);
                let qb = opt_text_part(fb@.name, desc);
                lemma_key_concat(seq![pa], seq![qa], seq![pb], seq![qb]);
                lemma_key_single(pa, pb);
                lemma_key_single(qa, qb);
                lemma_part_antisym(pa, pb);
                lemma_part_antisym(qa, qb);
                assert(seq![pa] + seq![qa] =~= seq![pa, qa]);
                assert(seq![pb] + seq![qb] =~= seq![pb, qb]);
            }
            if c1 != 0 {
                c1
            } else {
                c2
            }
        },
        SortKey::Modified => {
            let (ta, na) = opt_num_fields(a.mtime);
            let (tb, nb) = opt_num_fields(b.mtime);
            proof {
                lemma_key_single(opt_num_part(fa@.mtime, desc), opt_num_part(fb@.mtime, desc));
                lemma_part_antisym(opt_num_part(fa@.mtime, desc), opt_num_part(fb@.mtime, desc));
            }
            compare_num_parts(desc, ta, na, tb, nb)
        },
        SortKey::Created => {
            let (ta, na) = opt_num_fields(a.ctime);
            let (tb, nb) = opt_num_fields(b.ctime);
            proof {
                lemma_key_single(opt_num_part(fa@.ctime, desc), opt_num_part(fb@.ctime, desc));
                lemma_part_antisym(opt_num_part(fa@.ctime, desc), opt_num_part(fb@.ctime, desc));
            }
            compare_num_parts(desc, ta, na, tb, nb)
        },
        SortKey::Size => {
            proof {
                lemma_key_single(num_part(desc, 0, fa@.size), num_part(desc, 0, fb@.size));
                lemma_part_antisym(num_part(desc, 0, fa@.size), num_part(desc, 0, fb@.size));
            }
            compare_num_parts(desc, 0, a.size as i128, 0, b.size as i128)
        },
        SortKey::Rating => {
            proof {
                lemma_key_single(num_part(desc, 0, fa@.rating), num_part(desc, 0, fb@.rating));
                lemma_part_antisym(num_part(desc, 0, fa@.rating), num_part(desc, 0, fb@.rating));
            }
            compare_num_parts(desc, 0, a.rating as i128, 0, b.rating as i128)
        },
        SortKey::Colors => {
            let (ta, na) = known_first_fields(colors_wide(a.colors), desc);
            let (tb, nb) = known_first_fields(colors_wide(b.colors), desc);
            proof {
                lemma_key_single(known_first_part(fa@.colors, desc), known_first_part(fb@.colors, desc));
                lemma_part_antisym(known_first_part(fa@.colors, desc), known_first_part(fb@.colors, desc));
            }
            compare_num_parts(false, ta, na, tb, nb)
        },
        SortKey::Dimensions => {
            let (ta, na) = known_first_fields(a.dims, desc);
            let (tb, nb) = known_first_fields(b.dims, desc);
            proof {
                lemma_key_single(known_first_part(fa@.dims, desc), known_first_part(fb@.dims, desc));
                lemma_part_antisym(known_first_part(fa@.dims, desc), known_first_part(fb@.dims, desc));
            }
            compare_num_parts(false, ta, na, tb, nb)
        },
        SortKey::Artist => {
            proof {
                lemma_key_single(opt_text_part(fa@.artist, desc), opt_text_part(fb@.artist, desc));
                lemma_part_antisym(opt_text_part(fa@.artist, desc), opt_text_part(fb@.artist, desc));
            }
            compare_opt_text(&a.artist, &b.artist, desc)
        },
        SortKey::Group => {
            proof {
                lemma_key_single(opt_text_part(fa@.group, desc), opt_text_part(fb@.group, desc));
                lemma_part_antisym(opt_text_part(fa@.group, desc), opt_text_part(fb@.group, desc));
            }
            compare_opt_text(&a.group, &b.group, desc)
        },
        SortKey::Year => {
            let (ta, na) = opt_num_fields(year_wide(a.year));
            let (tb, nb) = opt_num_fields(year_wide(b.year));
            proof {
                lemma_key_single(opt_num_part(fa@.year, desc), opt_num_part(fb@.year, desc));
                lemma_part_antisym(opt_num_part(fa@.year, desc), opt_num_part(fb@.year, desc));
            }
            compare_num_parts(desc, ta, na, tb, nb)
        },
        SortKey::Pack => {
            proof {
                lemma_key_single(opt_text_part(fa@.pack, desc), opt_text_part(fb@.pack, desc));
                lemma_part_antisym(opt_text_part(fa@.pack, desc), opt_text_part(fb@.pack, desc));
            }
            compare_opt_text(&a.pack, &b.pack, desc)
        },
    }
}

/// The order key of a row.
pub open spec fn row_key(r: SortRow, key: SortKey, desc: bool, dirs_first: bool) -> Seq<Part> {
    facts_key(row_facts(r), key, desc, dirs_first)
}

/// Compares two rows by their full order keys.
pub fn compare_rows(a: &SortRow, b: &SortRow, key: SortKey, desc: bool, dirs_first: bool) -> (r: i8)
    requires
        match a.dims {
            Some(x) => x >= 0,
            None => true,
        },
        match b.dims {
            Some(x) => x >= 0,
            None => true,
        },
    ensures
        r == key_ord(row_key(*a, key, desc, dirs_first), row_key(*b, key, desc, dirs_first)),
{
    let ghost fa = row_facts(*a);
    let ghost fb = row_facts(*b);
    let ghost ka1 = folder_key(fa, dirs_first);
    let ghost kb1 = folder_key(fb, dirs_first);
    let ghost ka2 = primary_key(fa, key, desc);
    let ghost kb2 = primary_key(fb, key, desc);
    let ghost ka3 = seq![opt_text_part(fa.name, false)];
    let ghost kb3 = seq![opt_text_part(fb.name, false)];
    proof {
        lemma_key_concat(ka1, ka2 + ka3, kb1, kb2 + kb3);
        assert(ka1 + ka2 + ka3 =~= ka1 + (ka2 + ka3));
        assert(kb1 + kb2 + kb3 =~= kb1 + (kb2 + kb3));
        lemma_key_concat(ka2, ka3, kb2, kb3);
        lemma_key_single(opt_text_part(fa.name, false), opt_text_part(fb.name, false));
    }
    let c1: i8 = if dirs_first {
        proof {
            lemma_key_single(ka1[0], kb1[0]);
        }
        compare_num_parts(
            false,
            0,
            if a.folder { 0 } else { 1 },
            0,
            if b.folder { 0 } else { 1 },
        )
    } else {
        0
    };
    if c1 != 0 {
        return c1;
    }
    let c2 = compare_primary(a, b, key, desc);
    if c2 != 0 {
        return c2;
    }
    compare_opt_text(&a.name, &b.name, false)
}

/// The order keys of a list of rows.
pub open spec fn row_keys(rows: Seq<SortRow>, key: SortKey, desc: bool, dirs_first: bool) -> Seq<Seq<Part>> {
    Seq::new(rows.len(), |i: int| row_key(rows[i], key, desc, dirs_first))
}

/// Rows whose dimension keys are non-negative (as `make_row` builds them).
pub open spec fn rows_ok(rows: Seq<SortRow>) -> bool {
    forall|i: int|
        0 <= i < rows.len() ==> match #[trigger] rows[i].dims {
            Some(x) => x >= 0,
            None => true,
        }
}

/// The stable order of `rows`: a permutation of their indices in which every
/// index goes before the next.
pub fn sort_order(rows: &Vec<SortRow>, key: SortKey, desc: bool, dirs_first: bool) -> (order: Vec<usize>)
    requires
        rows_ok(rows@),
    ensures
        is_index_perm(order@, rows@.len()),
        forall|a: int, b: int|
            0 <= a < b < rows@.len() ==> goes_before(
                row_keys(rows@, key, desc, dirs_first),
                order@[a] as int,
                order@[b] as int,
            ),
{
    let n = rows.len();
    let ghost keys = row_keys(rows@, key, desc, dirs_first);
    let mut order: Vec<usize> = Vec::new();
    let mut k: usize = 0;
    while k < n
        invariant
            n == rows@.len(),
            rows_ok(rows@),
            keys == row_keys(rows@, key, desc, dirs_first),
            k <= n,
            order@.len() == k,
            forall|a: int| 0 <= a < k ==> order@[a] < k,
            forall|a: int, b: int| 0 <= a < b < k ==> order@[a] != order@[b],
            forall|a: int, b: int| 0 <= a < b < k ==> goes_before(keys, order@[a] as int, order@[b] as int),
        decreases n - k,
    {
        let mut lo: usize = 0;
        let mut hi: usize = k;
        while lo < hi
            invariant
                n == rows@.len(),
                rows_ok(rows@),
                keys == row_keys(rows@, key, desc, dirs_first),
                k < n,
                order@.len() == k,
                lo <= hi <= k,
                forall|a: int| 0 <= a < k ==> order@[a] < k,
                forall|a: int, b: int| 0 <= a < b < k ==> goes_before(keys, order@[a] as int, order@[b] as int),
                forall|a: int| 0 <= a < lo ==> key_ord(keys[order@[a] as int], keys[k as int]) <= 0,
                forall|a: int| hi <= a < k ==> key_ord(keys[order@[a] as int], keys[k as int]) > 0,
            decreases hi - lo,
        {
            let mid = lo + (hi - lo) / 2;
            let om = order[mid];
            let c = compare_rows(&rows[om], &rows[k], key, desc, dirs_first);
            proof {
                assert(keys[om as int] == row_key(rows@[om as int], key, desc, dirs_first));
                assert(keys[k as int] == row_key(rows@[k as int], key, desc, dirs_first));
            }
            if c <= 0 {
                proof {
                    assert forall|a: int| 0 <= a < mid + 1 implies key_ord(
                        keys[order@[a] as int],
                        keys[k as int],
                    ) <= 0 by {
                        if a < mid {
                            assert(goes_before(keys, order@[a] as int, order@[mid as int] as int));
                            lemma_key_trans(keys[order@[a] as int], keys[om as int], keys[k as int]);
                        }
                    }
                }
                lo = mid + 1;
            } else {
                proof {
                    assert forall|a: int| mid <= a < k implies key_ord(keys[order@[a] as int], keys[k as int])
                        > 0 by {
                        if a > mid {
                            assert(goes_before(keys, order@[mid as int] as int, order@[a] as int));
                            lemma_key_antisym(keys[om as int], keys[k as int]);
                            lemma_key_antisym(keys[order@[a] as int], keys[k as int]);
                            lemma_key_trans_strict(keys[k as int], keys[om as int], keys[order@[a] as int]);
                        }
                    }
                }
                hi = mid;
            }
        }
        let ghost old_order = order@;
        order.insert(lo, k);
        proof {
            assert forall|a: int| 0 <= a < k + 1 implies order@[a] < k + 1 by {
                if a < lo {
                    assert(order@[a] == old_order[a]);
                } else if a > lo {
                    assert(order@[a] == old_order[a - 1]);
                }
            }
            assert forall|a: int, b: int| 0 <= a < b < k + 1 implies order@[a] != order@[b] && goes_before(
                keys,
                order@[a] as int,
                order@[b] as int,
            ) by {
                if b < lo {
                    assert(order@[a] == old_order[a] && order@[b] == old_order[b]);
                } else if b == lo {
                    assert(order@[a] == old_order[a]);
                    assert(order@[b] == k);
                } else if a < lo {
                    assert(order@[a] == old_order[a] && order@[b] == old_order[b - 1]);
                } else if a == lo {
                    assert(order@[a] == k && order@[b] == old_order[b - 1]);
                    lemma_key_antisym(keys[old_order[b - 1] as int], keys[k as int]);
                } else {
                    assert(order@[a] == old_order[a - 1] && order@[b] == old_order[b - 1]);
                }
            }
        }
        k += 1;
    }
    order
}


/// The name filter's characters, if one is given.
pub open spec fn opt_str_chars(o: Option<&str>) -> Option<Seq<char>> {
    match o {
        Some(s) => Some(s@),
        None => None,
    }
}

/// Whether the view keeps entry `e` (see `keeps`).
fn keeps_entry(e: &Entry, min_rating: u8, needle: &Option<Vec<char>>) -> (b: bool)
    ensures
        b == keeps(*e, min_rating, opt_chars(*needle)),
{
    if !(e.is_dir || e.is_archive || e.rating >= min_rating) {
        return false;
    }
    match needle {
        Some(q) => {
            let path = chars_of(e.path.as_str());
            match file_name_of(&path) {
                Some(n) => contains(&to_lower(&n), q),
                None => false,
            }
        },
        None => true,
    }
}

/// The grid's view of a folder: the entries that pass the rating floor and the
/// name filter, stably sorted by `key` (descending when `desc`), folders and
/// archives first when `dirs_first`, ties broken by lower-cased name. Colour and
/// dimension counts come from `meta`; the scene keys read `pieces`.
pub fn sorted_filtered_view(
    all: &[Entry],
    key: SortKey,
    desc: bool,
    dirs_first: bool,
    min_rating: u8,
    name_filter: Option<&str>,
    meta: &[(String, ImgMeta)],
    pieces: &[(String, ColoPiece)],
) -> (v: Vec<Entry>)
    ensures
        is_stable_sort_of(
            v@,
            filtered(all@, min_rating, name_needle(opt_str_chars(name_filter))),
            keys_of(
                filtered(all@, min_rating, name_needle(opt_str_chars(name_filter))),
                key,
                desc,
                dirs_first,
                meta@,
                pieces@,
            ),
        ),
{
    let needle: Option<Vec<char>> = match name_filter {
        Some(s) => {
            let v = chars_of(s);
            if v.len() > 0 {
                Some(to_lower(&v))
            } else {
                None
            }
        },
        None => None,
    };
    let ghost nd = name_needle(opt_str_chars(name_filter));
    assert(opt_chars(needle) == nd);
    let ghost pred = |e: Entry| keeps(e, min_rating, nd);
    let n = all.len();
    let mut kept: Vec<Entry> = Vec::new();
    for i in 0..n
        invariant
            n == all@.len(),
            opt_chars(needle) == nd,
            pred == (|e: Entry| keeps(e, min_rating, nd)),
            kept@ == all@.take(i as int).filter(pred),
    {
        let ghost t = all@.take(i + 1);
        proof {
            assert(t.drop_last() =~= all@.take(i as int));
            assert(t.last() == all@[i as int]);
            reveal_with_fuel(Seq::filter, 1);
            assert(t.filter(pred) == if pred(t.last()) {
                t.drop_last().filter(pred).push(t.last())
            } else {
                t.drop_last().filter(pred)
            });
        }
        let keep = keeps_entry(&all[i], min_rating, &needle);
        proof {
            assert(keep == pred(all@[i as int]));
        }
        if keep {
            kept.push(all[i].clone());
        }
    }
    proof {
        assert(all@.take(n as int) =~= all@);
    }
    let ghost f = kept@;
    assert(f == filtered(all@, min_rating, nd));
    let m = kept.len();
    let mut rows: Vec<SortRow> = Vec::new();
    for i in 0..m
        invariant
            m == kept@.len(),
            rows@.len() == i,
            rows_ok(rows@),
            forall|k: int| 0 <= k < i ==> row_facts(#[trigger] rows@[k]) == entry_facts(kept@[k], meta@, pieces@),
    {
        let r = make_row(&kept[i], meta, pieces);
        rows.push(r);
    }
    let order = sort_order(&rows, key, desc, dirs_first);
    let ghost keys = keys_of(f, key, desc, dirs_first, meta@, pieces@);
    proof {
        assert(row_keys(rows@, key, desc, dirs_first) =~= keys) by {
            assert forall|k: int| 0 <= k < m implies row_keys(rows@, key, desc, dirs_first)[k] == keys[k] by {
                assert(row_facts(rows@[k]) == entry_facts(kept@[k], meta@, pieces@));
            }
        }
    }
    let mut out: Vec<Entry> = Vec::new();
    for i in 0..m
        invariant
            m == kept@.len(),
            is_index_perm(order@, m as nat),
            out@.len() == i,
            forall|k: int| 0 <= k < i ==> out@[k] == kept@[order@[k] as int],
    {
        let j = order[i];
        out.push(kept[j].clone());
    }
    proof {
        assert(is_index_perm(order@, f.len()));
        assert forall|k: int, l: int| 0 <= k < l < f.len() implies goes_before(
            keys,
            order@[k] as int,
            order@[l] as int,
        ) by {
            assert(goes_before(row_keys(rows@, key, desc, dirs_first), order@[k] as int, order@[l] as int));
        }
    }
    out
}

/// The entry is a folder or an archive (what `dirs_first` pins to the top).
pub open spec fn is_folder(e: Entry) -> bool {
    e.is_dir || e.is_archive
}

/// The entry's colour count is known.
pub open spec fn colors_known(e: Entry, meta: Seq<(String, ImgMeta)>) -> bool {
    match find_meta(meta, e.path@) {
        Some(m) => m.colors is Some,
        None => false,
    }
}

proof fn lemma_first_part_decides(a: Seq<Part>, b: Seq<Part>)
    requires
        a.len() > 0,
        b.len() > 0,
        part_ord(a[0], b[0]) > 0,
    ensures
        key_ord(a, b) > 0,
{
}

/// With `dirs_first`, a sorted view lists every folder and archive before every
/// file, whatever the sort key and direction.
pub proof fn sorted_view_keeps_folders_first(
    out: Seq<Entry>,
    f: Seq<Entry>,
    key: SortKey,
    desc: bool,
    meta: Seq<(String, ImgMeta)>,
    pieces: Seq<(String, ColoPiece)>,
)
    requires
        is_stable_sort_of(out, f, keys_of(f, key, desc, true, meta, pieces)),
    ensures
        forall|k: int, l: int|
            0 <= k < l < out.len() && is_folder(#[trigger] out[l]) ==> is_folder(#[trigger] out[k]),
{
    let keys = keys_of(f, key, desc, true, meta, pieces);
    let p = choose|p: Seq<usize>|
        {
            &&& is_index_perm(p, f.len())
            &&& out.len() == f.len()
            &&& forall|k: int| 0 <= k < f.len() ==> out[k] == f[p[k] as int]
            &&& forall|k: int, l: int|
                0 <= k < l < f.len() ==> goes_before(keys, p[k] as int, p[l] as int)
        };
    assert forall|k: int, l: int|
        0 <= k < l < out.len() && is_folder(#[trigger] out[l]) implies is_folder(#[trigger] out[k]) by {
        let i = p[k] as int;
        let j = p[l] as int;
        assert(goes_before(keys, i, j));
        if !is_folder(out[k]) {
            let a = keys[i];
            let b = keys[j];
            let fa = entry_facts(f[i], meta, pieces);
            let fb = entry_facts(f[j], meta, pieces);
            assert(a == facts_key(fa, key, desc, true));
            assert(b == facts_key(fb, key, desc, true));
            assert(a[0] == num_part(false, 0, 1));
            assert(b[0] == num_part(false, 0, 0));
            lemma_first_part_decides(a, b);
        }
    }
}

/// Sorting by colour count with folders not pinned lists every entry whose count
/// is known before every entry whose count is not, ascending or descending.
pub proof fn colors_sort_puts_unknown_counts_last(
    out: Seq<Entry>,
    f: Seq<Entry>,
    desc: bool,
    meta: Seq<(String, ImgMeta)>,
    pieces: Seq<(String, ColoPiece)>,
)
    requires
        is_stable_sort_of(out, f, keys_of(f, SortKey::Colors, desc, false, meta, pieces)),
    ensures
        forall|k: int, l: int|
            0 <= k < l < out.len() && colors_known(#[trigger] out[l], meta) ==> colors_known(
                #[trigger] out[k],
                meta,
            ),
{
    let keys = keys_of(f, SortKey::Colors, desc, false, meta, pieces);
    let p = choose|p: Seq<usize>|
        {
            &&& is_index_perm(p, f.len())
            &&& out.len() == f.len()
            &&& forall|k: int| 0 <= k < f.len() ==> out[k] == f[p[k] as int]
            &&& forall|k: int, l: int|
                0 <= k < l < f.len() ==> goes_before(keys, p[k] as int, p[l] as int)
        };
    assert forall|k: int, l: int|
        0 <= k < l < out.len() && colors_known(#[trigger] out[l], meta) implies colors_known(
        #[trigger] out[k],
        meta,
    ) by {
        let i = p[k] as int;
        let j = p[l] as int;
        assert(goes_before(keys, i, j));
        if !colors_known(out[k], meta) {
            let a = keys[i];
            let b = keys[j];
            let fa = entry_facts(f[i], meta, pieces);
            let fb = entry_facts(f[j], meta, pieces);
            assert(a == facts_key(fa, SortKey::Colors, desc, false));
            assert(b == facts_key(fb, SortKey::Colors, desc, false));
            assert(fa.colors is None);
            assert(fb.colors is Some);
            assert(a[0] == num_part(false, 1, 0));
            assert(b[0].1 == 0);
            lemma_first_part_decides(a, b);
        }
    }
}

proof fn lemma_flip_part(p: Part, q: Part)
    requires
        p.0 == q.0,
    ensures
        part_ord((!p.0, p.1, p.2, p.3), (!q.0, q.1, q.2, q.3)) == -part_ord(p, q),
{
}

proof fn lemma_key_self(k: Seq<Part>)
    ensures
        key_ord(k, k) == 0,
{
    lemma_key_antisym(k, k);
}

/// Descending flips the comparison of the sort key's own components (for every
/// key but the colour and dimension counts).
proof fn lemma_primary_flip(fa: SortFacts, fb: SortFacts, key: SortKey)
    requires
        key != SortKey::Colors,
        key != SortKey::Dimensions,
    ensures
        key_ord(primary_key(fa, key, true), primary_key(fb, key, true)) == -key_ord(
            primary_key(fa, key, false),
            primary_key(fb, key, false),
        ),
        primary_key(fa, key, true).len() == primary_key(fb, key, true).len(),
        primary_key(fa, key, false).len() == primary_key(fb, key, false).len(),
{
    let pt = primary_key(fa, key, true);
    let qt = primary_key(fb, key, true);
    let pf = primary_key(fa, key, false);
    let qf = primary_key(fb, key, false);
    if key == SortKey::Type {
        assert(pt =~= seq![pt[0]] + seq![pt[1]]);
        assert(qt =~= seq![qt[0]] + seq![qt[1]]);
        assert(pf =~= seq![pf[0]] + seq![pf[1]]);
        assert(qf =~= seq![qf[0]] + seq![qf[1]]);
        lemma_key_concat(seq![pt[0]], seq![pt[1]], seq![qt[0]], seq![qt[1]]);
        lemma_key_concat(seq![pf[0]], seq![pf[1]], seq![qf[0]], seq![qf[1]]);
        lemma_key_single(pt[0], qt[0]);
        lemma_key_single(pt[1], qt[1]);
        lemma_key_single(pf[0], qf[0]);
        lemma_key_single(pf[1], qf[1]);
        lemma_flip_part(pf[0], qf[0]);
        lemma_flip_part(pf[1], qf[1]);
    } else {
        assert(pt =~= seq![pt[0]]);
        assert(qt =~= seq![qt[0]]);
        assert(pf =~= seq![pf[0]]);
        assert(qf =~= seq![qf[0]]);
        lemma_key_single(pt[0], qt[0]);
        lemma_key_single(pf[0], qf[0]);
        lemma_flip_part(pf[0], qf[0]);
    }
}

/// With folders in one class (or not put first), the full keys compare as the
/// sort key's components wherever those differ.
proof fn lemma_key_decided_by_primary(fa: SortFacts, fb: SortFacts, key: SortKey, desc: bool, dirs_first: bool)
    requires
        !dirs_first || fa.folder == fb.folder,
        primary_key(fa, key, desc).len() == primary_key(fb, key, desc).len(),
        key_ord(primary_key(fa, key, desc), primary_key(fb, key, desc)) != 0,
    ensures
        key_ord(facts_key(fa, key, desc, dirs_first), facts_key(fb, key, desc, dirs_first)) == key_ord(
            primary_key(fa, key, desc),
            primary_key(fb, key, desc),
        ),
{
    let fka = folder_key(fa, dirs_first);
    let fkb = folder_key(fb, dirs_first);
    let pa = primary_key(fa, key, desc);
    let pb = primary_key(fb, key, desc);
    let na = seq![opt_text_part(fa.name, false)];
    let nb = seq![opt_text_part(fb.name, false)];
    assert(facts_key(fa, key, desc, dirs_first) =~= fka + (pa + na));
    assert(facts_key(fb, key, desc, dirs_first) =~= fkb + (pb + nb));
    if dirs_first {
        assert(fka == fkb);
        lemma_key_self(fka);
    } else {
        assert(key_ord(fka, fkb) == 0);
    }
    lemma_key_concat(fka, pa + na, fkb, pb + nb);
    lemma_key_concat(pa, na, pb, nb);
}

/// Descending order is ascending order reversed: for every sort key but the
/// colour and dimension counts (whose unknown values stay last either way), two
/// entries in the same folder class whose sort values differ compare the other
/// way round when the direction is flipped.
pub proof fn descending_reverses_the_order(
    a: Entry,
    b: Entry,
    key: SortKey,
    dirs_first: bool,
    meta: Seq<(String, ImgMeta)>,
    pieces: Seq<(String, ColoPiece)>,
)
    requires
        key != SortKey::Colors,
        key != SortKey::Dimensions,
        !dirs_first || (a.is_dir || a.is_archive) == (b.is_dir || b.is_archive),
        key_ord(
            primary_key(entry_facts(a, meta, pieces), key, false),
            primary_key(entry_facts(b, meta, pieces), key, false),
        ) != 0,
    ensures
        key_ord(entry_key(a, key, true, dirs_first, meta, pieces), entry_key(b, key, true, dirs_first, meta, pieces))
            == -key_ord(
            entry_key(a, key, false, dirs_first, meta, pieces),
            entry_key(b, key, false, dirs_first, meta, pieces),
        ),
        key_ord(entry_key(a, key, true, dirs_first, meta, pieces), entry_key(b, key, true, dirs_first, meta, pieces))
            != 0,
{
    let fa = entry_facts(a, meta, pieces);
    let fb = entry_facts(b, meta, pieces);
    lemma_primary_flip(fa, fb, key);
    lemma_key_decided_by_primary(fa, fb, key, false, dirs_first);
    lemma_key_decided_by_primary(fa, fb, key, true, dirs_first);
}

/// By rating, a higher-rated entry comes after a lower-rated one ascending and
/// before it descending (within one folder class).
pub proof fn rating_order_follows_the_stars(
    a: Entry,
    b: Entry,
    dirs_first: bool,
    meta: Seq<(String, ImgMeta)>,
    pieces: Seq<(String, ColoPiece)>,
)
    requires
        a.rating > b.rating,
        !dirs_first || (a.is_dir || a.is_archive) == (b.is_dir || b.is_archive),
    ensures
        key_ord(
            entry_key(b, SortKey::Rating, false, dirs_first, meta, pieces),
            entry_key(a, SortKey::Rating, false, dirs_first, meta, pieces),
        ) < 0,
        key_ord(
            entry_key(a, SortKey::Rating, true, dirs_first, meta, pieces),
            entry_key(b, SortKey::Rating, true, dirs_first, meta, pieces),
        ) < 0,
{
    let fa = entry_facts(a, meta, pieces);
    let fb = entry_facts(b, meta, pieces);
    lemma_key_single(num_part(false, 0, fb.rating), num_part(false, 0, fa.rating));
    lemma_key_single(num_part(true, 0, fa.rating), num_part(true, 0, fb.rating));
    lemma_key_decided_by_primary(fb, fa, SortKey::Rating, false, dirs_first);
    lemma_key_decided_by_primary(fa, fb, SortKey::Rating, true, dirs_first);
}

/// By size, a larger file comes after a smaller one ascending and before it
/// descending (within one folder class).
pub proof fn size_order_follows_the_bytes(
    a: Entry,
    b: Entry,
    dirs_first: bool,
    meta: Seq<(String, ImgMeta)>,
    pieces: Seq<(String, ColoPiece)>,
)
    requires
        a.size > b.size,
        !dirs_first || (a.is_dir || a.is_archive) == (b.is_dir || b.is_archive),
    ensures
        key_ord(
            entry_key(b, SortKey::Size, false, dirs_first, meta, pieces),
            entry_key(a, SortKey::Size, false, dirs_first, meta, pieces),
        ) < 0,
        key_ord(
            entry_key(a, SortKey::Size, true, dirs_first, meta, pieces),
            entry_key(b, SortKey::Size, true, dirs_first, meta, pieces),
        ) < 0,
{
    let fa = entry_facts(a, meta, pieces);
    let fb = entry_facts(b, meta, pieces);
    lemma_key_single(num_part(false, 0, fb.size), num_part(false, 0, fa.size));
    lemma_key_single(num_part(true, 0, fa.size), num_part(true, 0, fb.size));
    lemma_key_decided_by_primary(fb, fa, SortKey::Size, false, dirs_first);
    lemma_key_decided_by_primary(fa, fb, SortKey::Size, true, dirs_first);
}

/// By name, entries run in the order of their lower-cased file names: ascending
/// puts the smaller name first, descending the larger (within one folder class).
pub proof fn name_order_follows_lowercased_names(
    a: Entry,
    b: Entry,
    na: Seq<char>,
    nb: Seq<char>,
    dirs_first: bool,
    meta: Seq<(String, ImgMeta)>,
    pieces: Seq<(String, ColoPiece)>,
)
    requires
        file_name(a.path@) == Some(na),
        file_name(b.path@) == Some(nb),
        ord_chars(lower(na), lower(nb)) < 0,
        !dirs_first || (a.is_dir || a.is_archive) == (b.is_dir || b.is_archive),
    ensures
        key_ord(
            entry_key(a, SortKey::Name, false, dirs_first, meta, pieces),
            entry_key(b, SortKey::Name, false, dirs_first, meta, pieces),
        ) < 0,
        key_ord(
            entry_key(b, SortKey::Name, true, dirs_first, meta, pieces),
            entry_key(a, SortKey::Name, true, dirs_first, meta, pieces),
        ) < 0,
{
    let fa = entry_facts(a, meta, pieces);
    let fb = entry_facts(b, meta, pieces);
    assert(fa.name == Some(lower(na)));
    assert(fb.name == Some(lower(nb)));
    lemma_ord_chars_antisym(lower(na), lower(nb));
    lemma_key_single(opt_text_part(fa.name, false), opt_text_part(fb.name, false));
    lemma_key_single(opt_text_part(fb.name, true), opt_text_part(fa.name, true));
    lemma_key_decided_by_primary(fa, fb, SortKey::Name, false, dirs_first);
    lemma_key_decided_by_primary(fb, fa, SortKey::Name, true, dirs_first);
}

} // verus!
