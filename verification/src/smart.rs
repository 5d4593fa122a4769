//! "Smart filter on…": a fresh search form seeded from one attribute of a
//! clicked file, to find files like it.

use vstd::prelude::*;
use crate::browse::Entry;
use crate::format::{date_ymd, day_text};
use crate::paths::{extension, extension_of, file_stem, file_stem_of};
use crate::search::{fields_of, SearchSpec};
use crate::text::{chars_of, dec, is_alphanumeric, push_dec, spec_is_alphanumeric, string_from_chars};

verus! {

/// The attribute a smart filter is seeded from.
#[derive(Clone, Copy, PartialEq, Eq, Debug, Structural)]
pub enum SmartCriterion {
    Type,
    Name,
    Size,
    Date,
    Rating,
    Group,
    Artist,
}

/// How many bytes `c` takes in UTF-8.
pub open spec fn utf8_len(c: char) -> nat {
    if (c as u32) < 0x80 {
        1
    } else if (c as u32) < 0x800 {
        2
    } else if (c as u32) < 0x10000 {
        3
    } else {
        4
    }
}

/// How many bytes `s` takes in UTF-8.
pub open spec fn utf8_len_of(s: Seq<char>) -> nat
    decreases s.len(),
{
    if s.len() == 0 {
        0
    } else {
        utf8_len_of(s.drop_last()) + utf8_len(s.last())
    }
}

/// `s` split at every character that is not alphanumeric (as `str::split` with
/// that predicate splits it: neighbouring separators give empty pieces).
pub open spec fn word_pieces(s: Seq<char>) -> Seq<Seq<char>>
    decreases s.len(),
{
    if s.len() == 0 {
        seq![seq![]]
    } else {
        let p = word_pieces(s.drop_last());
        if !spec_is_alphanumeric(s.last()) {
            p.push(seq![])
        } else {
            p.update(p.len() - 1, p.last().push(s.last()))
        }
    }
}

/// The first piece of at least three bytes.
pub open spec fn first_long(ps: Seq<Seq<char>>) -> Option<Seq<char>>
    decreases ps.len(),
{
    if ps.len() == 0 {
        None
    } else if utf8_len_of(ps[0]) >= 3 {
        Some(ps[0])
    } else {
        first_long(ps.drop_first())
    }
}

/// The name a Name filter searches for: the first word of the file's stem of at
/// least three bytes (so siblings and versions are found), else the whole stem.
pub open spec fn name_word(path: Seq<char>) -> Seq<char> {
    let stem = match file_stem(path) {
        Some(s) => s,
        None => Seq::<char>::empty(),
    };
    match first_long(word_pieces(stem)) {
        Some(w) => w,
        None => stem,
    }
}

/// A size in bytes counted as at least 1 KB.
pub open spec fn size_floor(size: u64) -> nat {
    if size < 1024 {
        1024
    } else {
        size as nat
    }
}

/// The form a smart filter starts from: every field blank but the one seeded
/// from the file. Type: its extension. Name: `name_word`. Size: 80% to 120% of
/// its size in KB (rounded outwards, at least 1 KB taken). Date: its
/// modification day, both bounds (nothing when unknown). Rating: at least its
/// stars, at least one. Group / Artist: `sauce`, the SAUCE group or author read
/// from the file.
pub open spec fn smart_form(e: Entry, crit: SmartCriterion, sauce: Seq<char>) -> Seq<Seq<char>> {
    let blank = Seq::new(12, |i: int| Seq::<char>::empty());
    match crit {
        SmartCriterion::Type => blank.update(
            1,
            match extension(e.path@) {
                Some(x) => x,
                None => Seq::<char>::empty(),
            },
        ),
        SmartCriterion::Name => blank.update(0, name_word(e.path@)),
        SmartCriterion::Size => blank.update(7, dec(size_floor(e.size) / 1280)).update(
            8,
            dec((3 * size_floor(e.size) + 2559) / 2560),
        ),
        SmartCriterion::Date => match e.mtime {
            Some(t) => {
                let d = day_text(if t.0 >= 0 { t.0 as int / 86400 } else { 0 });
                blank.update(9, d).update(10, d)
            },
            None => blank,
        },
        SmartCriterion::Rating => blank.update(11, dec(if e.rating < 1 { 1 } else { e.rating as nat })),
        SmartCriterion::Group => blank.update(6, sauce),
        SmartCriterion::Artist => blank.update(6, sauce),
    }
}

fn split_words(s: &[char]) -> (r: Vec<Vec<char>>)
    ensures
        crate::search::chars_view(r@) == word_pieces(s@),
{
    let mut pieces: Vec<Vec<char>> = Vec::new();
    let mut cur: Vec<char> = Vec::new();
    let mut i: usize = 0;
    while i < s.len()
        invariant
            i <= s@.len(),
            crate::search::chars_view(pieces@).push(cur@) == word_pieces(s@.subrange(0, i as int)),
        decreases s@.len() - i,
    {
        let c = s[i];
        let ghost prev = word_pieces(s@.subrange(0, i as int));
        proof {
            let t = s@.subrange(0, i + 1);
            assert(t.drop_last() =~= s@.subrange(0, i as int));
            assert(t.last() == c);
        }
        if !is_alphanumeric(c) {
            let done = cur;
            let ghost before = crate::search::chars_view(pieces@);
            pieces.push(done);
            cur = Vec::new();
            proof {
                assert(crate::search::chars_view(pieces@) =~= before.push(done@));
                assert(crate::search::chars_view(pieces@).push(cur@) =~= prev.push(seq![]));
            }
        } else {
            let ghost before = crate::search::chars_view(pieces@).push(cur@);
            cur.push(c);
            proof {
                assert(crate::search::chars_view(pieces@).push(cur@) =~= before.update(
                    before.len() - 1,
                    before.last().push(c),
                ));
            }
        }
        i = i + 1;
    }
    proof {
        assert(s@.subrange(0, s@.len() as int) =~= s@);
    }
    let ghost before = crate::search::chars_view(pieces@);
    pieces.push(cur);
    proof {
        assert(crate::search::chars_view(pieces@) =~= before.push(cur@));
    }
    pieces
}

/// Whether `s` takes at least three bytes in UTF-8.
fn is_long(s: &[char]) -> (b: bool)
    ensures
        b == (utf8_len_of(s@) >= 3),
{
    let mut acc: u32 = 0;
    let mut i: usize = 0;
    while i < s.len()
        invariant
            i <= s@.len(),
            acc == if utf8_len_of(s@.subrange(0, i as int)) >= 3 {
                3
            } else {
                utf8_len_of(s@.subrange(0, i as int))
            },
        decreases s@.len() - i,
    {
        let c = s[i];
        let u = c as u32;
        let l: u32 = if u < 0x80 {
            1
        } else if u < 0x800 {
            2
        } else if u < 0x10000 {
            3
        } else {
            4
        };
        proof {
            let t = s@.subrange(0, i + 1);
            assert(t.drop_last() =~= s@.subrange(0, i as int));
            assert(t.last() == c);
        }
        acc = if acc + l >= 3 { 3 } else { acc + l };
        i = i + 1;
    }
    proof {
        assert(s@.subrange(0, s@.len() as int) =~= s@);
    }
    acc >= 3
}

fn name_word_of(path: &str) -> (r: Vec<char>)
    ensures
        r@ == name_word(path@),
{
    let p = chars_of(path);
    let stem = match file_stem_of(&p) {
        Some(s) => s,
        None => Vec::new(),
    };
    let ps = split_words(&stem);
    let ghost views = crate::search::chars_view(ps@);
    proof {
        assert(views.subrange(0, views.len() as int) =~= views);
    }
    let mut i: usize = 0;
    while i < ps.len()
        invariant
            i <= ps@.len(),
            views == crate::search::chars_view(ps@),
            views == word_pieces(stem@),
            stem@ == match file_stem(path@) {
                Some(t) => t,
                None => Seq::<char>::empty(),
            },
            first_long(views) == first_long(views.subrange(i as int, views.len() as int)),
        decreases ps@.len() - i,
    {
        let ghost rest = views.subrange(i as int, views.len() as int);
        proof {
            assert(rest[0] == ps@[i as int]@);
            assert(rest.drop_first() =~= views.subrange(i + 1, views.len() as int));
        }
        if is_long(&ps[i]) {
            let mut w: Vec<char> = Vec::new();
            crate::text::push_all(&mut w, &ps[i]);
            proof {
                assert(w@ =~= ps@[i as int]@);
                assert(first_long(rest) == Some(rest[0]));
            }
            return w;
        }
        i = i + 1;
    }
    proof {
        assert(views.subrange(i as int, views.len() as int) =~= Seq::<Seq<char>>::empty());
    }
    stem
}

fn dec_string(n: u64) -> (s: String)
    ensures
        s@ == dec(n as nat),
{
    let mut v: Vec<char> = Vec::new();
    push_dec(&mut v, n);
    proof {
        assert(v@ =~= dec(n as nat));
    }
    string_from_chars(&v)
}

/// The search form a smart filter on `entry` starts from. `sauce` is the SAUCE
/// group (for `Group`) or author (for `Artist`) read from the file, empty when
/// it has none; the other criteria ignore it.
pub fn smart_spec(entry: &Entry, crit: SmartCriterion, sauce: &str) -> (s: SearchSpec)
    ensures
        fields_of(s) == smart_form(*entry, crit, sauce@),
{
    let mut s = SearchSpec::default();
    proof {
        assert forall|i: int| 0 <= i < 12 implies (#[trigger] fields_of(s)[i]) =~= Seq::<char>::empty() by {
            assert(fields_of(s)[i].len() == 0);
        }
        assert(fields_of(s) =~= Seq::new(12, |i: int| Seq::<char>::empty()));
    }
    match crit {
        SmartCriterion::Type => {
            let p = chars_of(entry.path.as_str());
            let e = match extension_of(&p) {
                Some(e) => e,
                None => Vec::new(),
            };
            s.ext = string_from_chars(&e);
        },
        SmartCriterion::Name => {
            let w = name_word_of(entry.path.as_str());
            s.name = string_from_chars(&w);
        },
        SmartCriterion::Size => {
            let sz: u64 = if entry.size < 1024 { 1024 } else { entry.size };
            let lo: u64 = sz / 1280;
            let hi128: u128 = (3 * (sz as u128) + 2559) / 2560;
            assert(hi128 <= u64::MAX) by (nonlinear_arith)
                requires
                    hi128 == (3 * (sz as u128) + 2559) / 2560,
                    sz <= u64::MAX,
            ;
            s.smin = dec_string(lo);
            s.smax = dec_string(hi128 as u64);
        },
        SmartCriterion::Date => {
            match entry.mtime {
                Some(t) => {
                    let d = date_ymd(t);
                    s.dfrom = d.clone();
                    s.dto = d;
                },
                None => {},
            }
        },
        SmartCriterion::Rating => {
            let r: u64 = if entry.rating < 1 { 1 } else { entry.rating as u64 };
            s.rmin = dec_string(r);
        },
        SmartCriterion::Group | SmartCriterion::Artist => {
            s.sauce = string_from_chars(&chars_of(sauce));
        },
    }
    proof {
        assert(fields_of(s) =~= smart_form(*entry, crit, sauce@));
    }
    s
}

} // verus!
