//! The text shown for an entry: its short display name, the caption lines under a
//! grid tile, and the cells of the table view.

use vstd::prelude::*;
use crate::browse::{ColoPiece, Entry, ImgMeta};
use crate::format::{date_ymd, day_text, human_size, human_size_text, stars_label, stars_text};
use crate::paths::{extension, extension_of, file_name, file_name_of};
use crate::text::{chars_of, dec, push_all, push_dec, push_str, string_from_chars, to_upper, upper};

verus! {

/// Caption field: the file name.
pub const CAP_NAME: u16 = 1;
/// Caption field: the file type (extension, upper-cased).
pub const CAP_KIND: u16 = 2;
/// Caption field: the human-readable size.
pub const CAP_SIZE: u16 = 4;
/// Caption field: the star rating.
pub const CAP_RATING: u16 = 8;
/// Caption field: the colour count.
pub const CAP_COLORS: u16 = 16;
/// Caption field: the pixel dimensions.
pub const CAP_DIMENSIONS: u16 = 32;

/// A table column's identity: what its cells show and what it sorts by.
#[derive(Clone, Copy, PartialEq, Eq, Debug, Structural)]
pub enum ColKind {
    Thumb,
    Name,
    Type,
    Size,
    Dims,
    Colors,
    Rating,
    Modified,
    Created,
    Artist,
    Year,
    Group,
    Pack,
    Download,
}

/// The display name of a path: its file name, or the whole path when it has none.
pub open spec fn short_name_text(p: Seq<char>) -> Seq<char> {
    match file_name(p) {
        Some(n) => n,
        None => p,
    }
}

/// File or folder name as a display string, or the whole path if it has none.
pub fn short_name(path: &str) -> (r: String)
    ensures
        r@ == short_name_text(path@),
{
    let p = chars_of(path);
    match file_name_of(&p) {
        Some(n) => string_from_chars(&n),
        None => path.to_string(),
    }
}

/// The upper-cased extension of a path, if it has one.
pub open spec fn kind_text(p: Seq<char>) -> Option<Seq<char>> {
    match extension(p) {
        Some(e) => Some(upper(e)),
        None => None,
    }
}

fn kind_of(path: &str) -> (r: Option<Vec<char>>)
    ensures
        match r {
            Some(v) => kind_text(path@) == Some(v@),
            None => kind_text(path@) is None,
        },
{
    let p = chars_of(path);
    match extension_of(&p) {
        Some(e) => Some(to_upper(&e)),
        None => None,
    }
}

/// `"<n> colors"`, or `"1 color"`.
pub open spec fn colors_text(c: nat) -> Seq<char> {
    dec(c) + " color"@ + if c == 1 { seq![] } else { "s"@ }
}

/// `"<w> × <h>"`.
pub open spec fn dims_caption(m: ImgMeta) -> Seq<char> {
    dec(m.w as nat) + " × "@ + dec(m.h as nat)
}

/// A one-line list holding `l` when the field is `on` and has a value, else empty.
pub open spec fn line_if(on: bool, l: Option<Seq<char>>) -> Seq<Seq<char>> {
    if on && l is Some {
        seq![l->0]
    } else {
        seq![]
    }
}

/// The caption lines of a grid tile: a folder shows just its name; a file shows
/// the enabled `fields` in a fixed order (name, type, size, rating, colours,
/// dimensions), skipping those with no value, then the search folder if any.
pub open spec fn caption_text(
    e: Entry,
    meta: Option<ImgMeta>,
    fields: u16,
    folder: Option<Seq<char>>,
) -> Seq<Seq<char>> {
    if e.is_dir {
        seq![short_name_text(e.path@)]
    } else {
        line_if(fields & CAP_NAME != 0, Some(short_name_text(e.path@))) + line_if(
            fields & CAP_KIND != 0,
            kind_text(e.path@),
        ) + line_if(fields & CAP_SIZE != 0, Some(human_size_text(e.size as nat))) + line_if(
            fields & CAP_RATING != 0,
            if e.rating > 0 { Some(stars_text(e.rating)) } else { None },
        ) + line_if(
            fields & CAP_COLORS != 0,
            match meta {
                Some(m) => match m.colors {
                    Some(c) => Some(colors_text(c as nat)),
                    None => None,
                },
                None => None,
            },
        ) + line_if(
            fields & CAP_DIMENSIONS != 0,
            match meta {
                Some(m) => Some(dims_caption(m)),
                None => None,
            },
        ) + match folder {
            Some(f) => seq![f],
            None => seq![],
        }
    }
}

/// The strings of a list of lines, as character sequences.
pub open spec fn lines_view(v: Seq<String>) -> Seq<Seq<char>> {
    v.map_values(|s: String| s@)
}

fn push_line(out: &mut Vec<String>, line: String)
    ensures
        lines_view(final(out)@) == lines_view(old(out)@) + seq![line@],
{
    let ghost before = out@;
    out.push(line);
    proof {
        assert(lines_view(out@) =~= lines_view(before) + seq![line@]);
    }
}

/// The caption lines to show under a grid tile, given the enabled `fields`
/// bitmask. Folders always show just their name; files show the chosen fields,
/// skipping any that do not apply.
pub fn caption_lines(entry: &Entry, meta: Option<ImgMeta>, fields: u16, folder: Option<&str>) -> (r:
    Vec<String>)
    ensures
        lines_view(r@) == caption_text(
            *entry,
            meta,
            fields,
            match folder {
                Some(f) => Some(f@),
                None => None,
            },
        ),
{
    let mut out: Vec<String> = Vec::new();
    if entry.is_dir {
        push_line(&mut out, short_name(entry.path.as_str()));
        proof {
            assert(lines_view(out@) =~= seq![short_name_text(entry.path@)]);
        }
        return out;
    }
    let ghost e = *entry;
    proof {
        assert(lines_view(out@) =~= Seq::<Seq<char>>::empty());
    }
    if fields & CAP_NAME != 0 {
        push_line(&mut out, short_name(entry.path.as_str()));
    }
    let ghost after_name = lines_view(out@);
    assert(after_name =~= line_if(fields & CAP_NAME != 0, Some(short_name_text(e.path@))));
    if fields & CAP_KIND != 0 {
        match kind_of(entry.path.as_str()) {
            Some(k) => push_line(&mut out, string_from_chars(&k)),
            None => {},
        }
    }
    let ghost after_kind = lines_view(out@);
    assert(after_kind =~= after_name + line_if(fields & CAP_KIND != 0, kind_text(e.path@)));
    if fields & CAP_SIZE != 0 {
        push_line(&mut out, human_size(entry.size));
    }
    let ghost after_size = lines_view(out@);
    assert(after_size =~= after_kind + line_if(
        fields & CAP_SIZE != 0,
        Some(human_size_text(e.size as nat)),
    ));
    if fields & CAP_RATING != 0 && entry.rating > 0 {
        push_line(&mut out, stars_label(entry.rating));
    }
    let ghost after_rating = lines_view(out@);
    assert(after_rating =~= after_size + line_if(
        fields & CAP_RATING != 0,
        if e.rating > 0 { Some(stars_text(e.rating)) } else { None },
    ));
    if fields & CAP_COLORS != 0 {
        match meta {
            Some(m) => match m.colors {
                Some(c) => {
                    let mut line: Vec<char> = Vec::new();
                    push_dec(&mut line, c as u64);
                    push_str(&mut line, " color");
                    if c != 1 {
                        push_str(&mut line, "s");
                    }
                    proof {
                        assert(line@ =~= colors_text(c as nat));
                    }
                    push_line(&mut out, string_from_chars(&line));
                },
                None => {},
            },
            None => {},
        }
    }
    let ghost after_colors = lines_view(out@);
    assert(after_colors =~= after_rating + line_if(
        fields & CAP_COLORS != 0,
        match meta {
            Some(m) => match m.colors {
                Some(c) => Some(colors_text(c as nat)),
                None => None,
            },
            None => None,
        },
    ));
    if fields & CAP_DIMENSIONS != 0 {
        match meta {
            Some(m) => {
                let mut line: Vec<char> = Vec::new();
                push_dec(&mut line, m.w as u64);
                push_str(&mut line, " × ");
                push_dec(&mut line, m.h as u64);
                proof {
                    assert(line@ =~= dims_caption(m));
                }
                push_line(&mut out, string_from_chars(&line));
            },
            None => {},
        }
    }
    let ghost after_dims = lines_view(out@);
    assert(after_dims =~= after_colors + line_if(
        fields & CAP_DIMENSIONS != 0,
        match meta {
            Some(m) => Some(dims_caption(m)),
            None => None,
        },
    ));
    match folder {
        Some(f) => push_line(&mut out, f.to_string()),
        None => {},
    }
    out
}

/// The text of a table cell of column `kind` for `entry`. The thumbnail, rating
/// and download cells are drawn by the caller, so their text is empty.
pub open spec fn cell_text(e: Entry, meta: Option<ImgMeta>, piece: Option<ColoPiece>, kind: ColKind) -> Seq<char> {
    match kind {
        ColKind::Name => match file_name(e.path@) {
            Some(n) => n,
            None => Seq::<char>::empty(),
        },
        ColKind::Type => match kind_text(e.path@) {
            Some(k) => k,
            None => Seq::<char>::empty(),
        },
        ColKind::Size => if e.size == 0 {
            Seq::<char>::empty()
        } else {
            human_size_text(e.size as nat)
        },
        ColKind::Dims => match meta {
            Some(m) => dec(m.w as nat) + "×"@ + dec(m.h as nat),
            None => Seq::<char>::empty(),
        },
        ColKind::Colors => match meta {
            Some(m) => match m.colors {
                Some(c) => dec(c as nat),
                None => Seq::<char>::empty(),
            },
            None => Seq::<char>::empty(),
        },
        ColKind::Modified => match e.mtime {
            Some(t) => day_text(if t.0 >= 0 { t.0 as int / 86400 } else { 0 }),
            None => Seq::<char>::empty(),
        },
        ColKind::Created => match e.ctime {
            Some(t) => day_text(if t.0 >= 0 { t.0 as int / 86400 } else { 0 }),
            None => Seq::<char>::empty(),
        },
        ColKind::Artist => match piece {
            Some(p) => p.artist@,
            None => Seq::<char>::empty(),
        },
        ColKind::Year => match piece {
            Some(p) => dec(p.year as nat),
            None => Seq::<char>::empty(),
        },
        ColKind::Group => match piece {
            Some(p) => p.group@,
            None => Seq::<char>::empty(),
        },
        ColKind::Pack => match piece {
            Some(p) => p.pack@,
            None => Seq::<char>::empty(),
        },
        ColKind::Thumb | ColKind::Rating | ColKind::Download => Seq::<char>::empty(),
    }
}

/// The text shown in a table cell of kind `kind` for `entry`.
pub fn table_cell_text(entry: &Entry, meta: Option<ImgMeta>, piece: Option<&ColoPiece>, kind: ColKind) -> (r:
    String)
    ensures
        r@ == cell_text(
            *entry,
            meta,
            match piece {
                Some(p) => Some(*p),
                None => None,
            },
            kind,
        ),
{
    match kind {
        ColKind::Name => {
            let p = chars_of(entry.path.as_str());
            match file_name_of(&p) {
                Some(n) => string_from_chars(&n),
                None => String::new(),
            }
        },
        ColKind::Type => match kind_of(entry.path.as_str()) {
            Some(k) => string_from_chars(&k),
            None => String::new(),
        },
        ColKind::Size => {
            if entry.size == 0 {
                String::new()
            } else {
                human_size(entry.size)
            }
        },
        ColKind::Dims => match meta {
            Some(m) => {
                let mut line: Vec<char> = Vec::new();
                push_dec(&mut line, m.w as u64);
                push_str(&mut line, "×");
                push_dec(&mut line, m.h as u64);
                string_from_chars(&line)
            },
            None => String::new(),
        },
        ColKind::Colors => match meta {
            Some(m) => match m.colors {
                Some(c) => {
                    let mut line: Vec<char> = Vec::new();
                    push_dec(&mut line, c as u64);
                    string_from_chars(&line)
                },
                None => String::new(),
            },
            None => String::new(),
        },
        ColKind::Modified => match entry.mtime {
            Some(t) => date_ymd(t),
            None => String::new(),
        },
        ColKind::Created => match entry.ctime {
            Some(t) => date_ymd(t),
            None => String::new(),
        },
        ColKind::Artist => match piece {
            Some(p) => p.artist.clone(),
            None => String::new(),
        },
        ColKind::Year => match piece {
            Some(p) => {
                let mut line: Vec<char> = Vec::new();
                push_dec(&mut line, p.year as u64);
                string_from_chars(&line)
            },
            None => String::new(),
        },
        ColKind::Group => match piece {
            Some(p) => p.group.clone(),
            None => String::new(),
        },
        ColKind::Pack => match piece {
            Some(p) => p.pack.clone(),
            None => String::new(),
        },
        ColKind::Thumb | ColKind::Rating | ColKind::Download => String::new(),
    }
}

} // verus!
