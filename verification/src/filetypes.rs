//! What kind of file a path names, judged by its name alone: viewable images and
//! scene art, text-mode art, animated GIFs, hidden files, and the glyph cell of a
//! text-mode format.

use vstd::prelude::*;
use crate::paths::{extension, extension_of, file_name, file_name_of, file_stem, file_stem_of};
use crate::text::{chars_of, lower, one_of, string_from_chars, to_lower};

verus! {

/// Extensions the viewer opens, lower-case: raster formats plus text-mode and
/// other scene art.
pub open spec fn image_exts() -> Seq<Seq<char>> {
    seq![
        "png"@, "jpg"@, "jpeg"@, "gif"@, "bmp"@, "webp"@, "tga"@, "tif"@, "tiff"@, "ppm"@, "pgm"@,
        "pbm"@, "pnm"@, "qoi"@, "pcx"@, "psd"@, "aseprite"@, "ase"@, "xcf"@, "draw"@, "ico"@,
        "svg"@, "ans"@, "asc"@, "nfo"@, "diz"@, "txt"@, "xb"@, "xbin"@, "bin"@, "ice"@, "cia"@,
        "tnd"@, "idf"@, "adf"@, "seq"@, "pet"@, "petscii"@, "petmate"@, "rip"@,
    ]
}

fn image_ext_list() -> (v: Vec<&'static str>)
    ensures
        v@.len() == image_exts().len(),
        forall|i: int| 0 <= i < v@.len() ==> v@[i]@ == image_exts()[i],
{
    vec![
        "png", "jpg", "jpeg", "gif", "bmp", "webp", "tga", "tif", "tiff", "ppm", "pgm", "pbm",
        "pnm", "qoi", "pcx", "psd", "aseprite", "ase", "xcf", "draw", "ico", "svg", "ans", "asc",
        "nfo", "diz", "txt", "xb", "xbin", "bin", "ice", "cia", "tnd", "idf", "adf", "seq", "pet",
        "petscii", "petmate", "rip",
    ]
}

/// Text-mode (character-cell) scene art extensions, lower-case.
pub open spec fn textmode_exts() -> Seq<Seq<char>> {
    seq![
        "ans"@, "asc"@, "nfo"@, "diz"@, "txt"@, "ice"@, "cia"@, "xb"@, "xbin"@, "bin"@, "tnd"@,
        "idf"@, "adf"@, "seq"@, "pet"@, "petscii"@, "petmate"@,
    ]
}

fn textmode_ext_list() -> (v: Vec<&'static str>)
    ensures
        v@.len() == textmode_exts().len(),
        forall|i: int| 0 <= i < v@.len() ==> v@[i]@ == textmode_exts()[i],
{
    vec![
        "ans", "asc", "nfo", "diz", "txt", "ice", "cia", "xb", "xbin", "bin", "tnd", "idf", "adf",
        "seq", "pet", "petscii", "petmate",
    ]
}

/// Commodore (PETSCII) formats, drawn with an 8×8 font.
pub open spec fn petscii_exts() -> Seq<Seq<char>> {
    seq!["seq"@, "pet"@, "petscii"@, "petmate"@]
}

fn petscii_ext_list() -> (v: Vec<&'static str>)
    ensures
        v@.len() == petscii_exts().len(),
        forall|i: int| 0 <= i < v@.len() ==> v@[i]@ == petscii_exts()[i],
{
    vec!["seq", "pet", "petscii", "petmate"]
}

/// Whether the lower-cased extension of `path` is in `list`; `None` when the path
/// has no extension.
fn lower_ext_in(path: &str, list: &[&str], exts: Ghost<Seq<Seq<char>>>) -> (r: Option<bool>)
    requires
        list@.len() == exts@.len(),
        forall|i: int| 0 <= i < list@.len() ==> list@[i]@ == exts@[i],
    ensures
        match extension(path@) {
            Some(e) => r == Some(exts@.contains(lower(e))),
            None => r is None,
        },
{
    let p = chars_of(path);
    match extension_of(&p) {
        Some(e) => {
            let le = to_lower(&e);
            let found = one_of(&le, list);
            proof {
                if found {
                    let i = choose|i: int| 0 <= i < list@.len() && list@[i]@ == le@;
                    assert(exts@[i] == lower(e@));
                } else {
                    assert forall|i: int| 0 <= i < exts@.len() implies exts@[i] != lower(e@) by {
                        assert(list@[i]@ == exts@[i]);
                    }
                }
            }
            Some(found)
        },
        None => None,
    }
}

/// `path` looks like an image the viewer can show: its extension, lower-cased,
/// is one of `image_exts`, or it has none (extensionless scene art).
pub open spec fn is_image_path(path: Seq<char>) -> bool {
    match extension(path) {
        Some(e) => image_exts().contains(lower(e)),
        None => true,
    }
}

/// Does this path look like an image we can (or soon will) decode?
pub fn is_image_ext(path: &str) -> (b: bool)
    ensures
        b == is_image_path(path@),
{
    let list = image_ext_list();
    match lower_ext_in(path, &list, Ghost(image_exts())) {
        Some(found) => found,
        None => true,
    }
}

/// `path` is text-mode scene art (drawn at a small native cell size): its
/// extension, lower-cased, is one of `textmode_exts`, or it has none.
pub open spec fn is_textmode_path(path: Seq<char>) -> bool {
    match extension(path) {
        Some(e) => textmode_exts().contains(lower(e)),
        None => true,
    }
}

/// Whether `path` is text-mode / scene art.
pub fn is_textmode_ext(path: &str) -> (b: bool)
    ensures
        b == is_textmode_path(path@),
{
    let list = textmode_ext_list();
    match lower_ext_in(path, &list, Ghost(textmode_exts())) {
        Some(found) => found,
        None => true,
    }
}

/// `path` has a `.gif` extension, in any case.
pub open spec fn is_gif_path(path: Seq<char>) -> bool {
    match extension(path) {
        Some(e) => lower(e) == "gif"@,
        None => false,
    }
}

/// True if the path has a `.gif` extension.
pub fn is_gif(path: &str) -> (b: bool)
    ensures
        b == is_gif_path(path@),
{
    let list: Vec<&'static str> = vec!["gif"];
    let ghost gif = seq!["gif"@];
    match lower_ext_in(path, &list, Ghost(gif)) {
        Some(found) => {
            proof {
                let e = extension(path@)->0;
                assert(gif[0] == "gif"@);
                assert(gif.len() == 1);
                if lower(e) == "gif"@ {
                    assert(gif.contains(lower(e)));
                }
                if gif.contains(lower(e)) {
                    let i = choose|i: int| 0 <= i < gif.len() && gif[i] == lower(e);
                    assert(i == 0);
                }
            }
            found
        },
        None => false,
    }
}

/// `path` names a dotfile (its file name starts with `.`).
pub open spec fn is_hidden_path(path: Seq<char>) -> bool {
    match file_name(path) {
        Some(n) => n.len() > 0 && n[0] == '.',
        None => false,
    }
}

/// True for dotfiles / hidden entries.
pub fn is_hidden(path: &str) -> (b: bool)
    ensures
        b == is_hidden_path(path@),
{
    let p = chars_of(path);
    match file_name_of(&p) {
        Some(n) => n.len() > 0 && n[0] == '.',
        None => false,
    }
}

/// The glyph cell `(width, height)` of a text-mode file: 8×8 for the Commodore
/// formats, otherwise the 8×16 VGA cell.
pub open spec fn textmode_cell_of(path: Seq<char>) -> (usize, usize) {
    match extension(path) {
        Some(e) => if petscii_exts().contains(lower(e)) {
            (8, 8)
        } else {
            (8, 16)
        },
        None => (8, 16),
    }
}

/// The glyph-box (cell) size for a text-mode file.
pub fn textmode_cell(path: &str) -> (r: (usize, usize))
    ensures
        r == textmode_cell_of(path@),
{
    let list = petscii_ext_list();
    match lower_ext_in(path, &list, Ghost(petscii_exts())) {
        Some(true) => (8, 8),
        _ => (8, 16),
    }
}

/// A palette file's display label: its file stem, or nothing.
pub open spec fn palette_label_text(path: Seq<char>) -> Seq<char> {
    match file_stem(path) {
        Some(s) => s,
        None => seq![],
    }
}

/// A short display label for a palette file: its stem (e.g. "EGA (16)").
pub fn palette_label(path: &str) -> (r: String)
    ensures
        r@ == palette_label_text(path@),
{
    let p = chars_of(path);
    match file_stem_of(&p) {
        Some(s) => string_from_chars(&s),
        None => String::new(),
    }
}

/// How art can be typed out at a simulated modem rate.
#[derive(Clone, Copy, PartialEq, Eq, Debug, Structural)]
pub enum StreamKind {
    /// A RIPscript command stream.
    Rip,
    /// An ANSI / CP437 character stream.
    Text,
    /// Not a byte stream (binary text-mode formats, raster images): shown at once.
    Static,
}

/// Extensions of character-stream art, lower-case.
pub open spec fn text_stream_exts() -> Seq<Seq<char>> {
    seq!["ans"@, "asc"@, "nfo"@, "diz"@, "ice"@, "cia"@, "txt"@]
}

fn text_stream_ext_list() -> (v: Vec<&'static str>)
    ensures
        v@.len() == text_stream_exts().len(),
        forall|i: int| 0 <= i < v@.len() ==> v@[i]@ == text_stream_exts()[i],
{
    vec!["ans", "asc", "nfo", "diz", "ice", "cia", "txt"]
}

/// The kind of stream a file plays as: RIPscript for a `.rip` file or one that
/// starts with `!|`; a character stream for the ANSI/ASCII extensions or no
/// extension; otherwise none.
pub open spec fn stream_kind_of(bytes: Seq<u8>, path: Seq<char>) -> StreamKind {
    let rip_ext = match extension(path) {
        Some(e) => lower(e) == "rip"@,
        None => false,
    };
    if rip_ext || (bytes.len() >= 2 && bytes[0] == 0x21u8 && bytes[1] == 0x7cu8) {
        StreamKind::Rip
    } else if match extension(path) {
        Some(e) => text_stream_exts().contains(lower(e)),
        None => true,
    } {
        StreamKind::Text
    } else {
        StreamKind::Static
    }
}

/// How the art in `bytes`, read from `path`, is typed out at a modem rate.
pub fn stream_kind(bytes: &[u8], path: &str) -> (k: StreamKind)
    ensures
        k == stream_kind_of(bytes@, path@),
{
    let rip_list: Vec<&'static str> = vec!["rip"];
    let ghost rip = seq!["rip"@];
    let rip_ext = match lower_ext_in(path, &rip_list, Ghost(rip)) {
        Some(found) => {
            proof {
                let e = extension(path@)->0;
                assert(rip[0] == "rip"@);
                assert(rip.len() == 1);
                if lower(e) == "rip"@ {
                    assert(rip.contains(lower(e)));
                }
                if rip.contains(lower(e)) {
                    let i = choose|i: int| 0 <= i < rip.len() && rip[i] == lower(e);
                    assert(i == 0);
                }
            }
            found
        },
        None => false,
    };
    if rip_ext || (bytes.len() >= 2 && bytes[0] == 0x21u8 && bytes[1] == 0x7cu8) {
        return StreamKind::Rip;
    }
    let list = text_stream_ext_list();
    match lower_ext_in(path, &list, Ghost(text_stream_exts())) {
        Some(true) | None => StreamKind::Text,
        Some(false) => StreamKind::Static,
    }
}

/// A user palette is listed beside the built-in ones unless its file name is
/// already a built-in's (one with no file name is always listed).
pub open spec fn adds_palette(builtin: Seq<String>, p: Seq<char>) -> bool {
    match file_name(p) {
        Some(n) => !(exists|i: int| 0 <= i < builtin.len() && file_name(#[trigger] builtin[i]@) == Some(n)),
        None => true,
    }
}

/// The user palettes of `scanned` that `adds_palette` keeps, in order.
pub open spec fn extra_palettes(builtin: Seq<String>, scanned: Seq<String>) -> Seq<Seq<char>>
    decreases scanned.len(),
{
    if scanned.len() == 0 {
        seq![]
    } else {
        let prev = extra_palettes(builtin, scanned.drop_last());
        if adds_palette(builtin, scanned.last()@) {
            prev.push(scanned.last()@)
        } else {
            prev
        }
    }
}

/// Paths as character sequences.
pub open spec fn paths_view(v: Seq<String>) -> Seq<Seq<char>> {
    v.map_values(|s: String| s@)
}

fn has_builtin_name(builtin: &[String], n: &Vec<char>) -> (r: bool)
    ensures
        r == exists|i: int| 0 <= i < builtin@.len() && file_name(#[trigger] builtin@[i]@) == Some(n@),
{
    let mut i: usize = 0;
    while i < builtin.len()
        invariant
            i <= builtin@.len(),
            forall|k: int| 0 <= k < i ==> file_name(#[trigger] builtin@[k]@) != Some(n@),
        decreases builtin@.len() - i,
    {
        let bc = chars_of(builtin[i].as_str());
        match file_name_of(&bc) {
            Some(bn) => {
                if crate::text::chars_eq(&bn, n) {
                    return true;
                }
            },
            None => {},
        }
        i = i + 1;
    }
    false
}

/// The palette list: the built-in palettes first, then each palette found in the
/// user's folder whose file name is not already a built-in's, so the bundled set
/// always shows and a user folder can extend it.
pub fn palette_list(builtin: &[String], scanned: &[String]) -> (v: Vec<String>)
    ensures
        paths_view(v@) == paths_view(builtin@) + extra_palettes(builtin@, scanned@),
{
    let mut v: Vec<String> = Vec::new();
    let mut i: usize = 0;
    while i < builtin.len()
        invariant
            i <= builtin@.len(),
            paths_view(v@) == paths_view(builtin@.subrange(0, i as int)),
        decreases builtin@.len() - i,
    {
        v.push(builtin[i].clone());
        proof {
            assert(paths_view(builtin@.subrange(0, i + 1)) =~= paths_view(builtin@.subrange(0, i as int)).push(builtin@[i as int]@));
        }
        i = i + 1;
    }
    proof {
        assert(builtin@.subrange(0, builtin@.len() as int) =~= builtin@);
    }
    let ghost head = paths_view(v@);
    let mut k: usize = 0;
    while k < scanned.len()
        invariant
            k <= scanned@.len(),
            head == paths_view(builtin@),
            paths_view(v@) == head + extra_palettes(builtin@, scanned@.subrange(0, k as int)),
        decreases scanned@.len() - k,
    {
        proof {
            assert(scanned@.subrange(0, k + 1).drop_last() =~= scanned@.subrange(0, k as int));
        }
        let pc = chars_of(scanned[k].as_str());
        let keep = match file_name_of(&pc) {
            Some(n) => !has_builtin_name(builtin, &n),
            None => true,
        };
        let ghost before = paths_view(v@);
        if keep {
            v.push(scanned[k].clone());
            proof {
                assert(paths_view(v@) =~= before.push(scanned@[k as int]@));
            }
        }
        k = k + 1;
    }
    proof {
        assert(scanned@.subrange(0, scanned@.len() as int) =~= scanned@);
    }
    v
}

} // verus!
