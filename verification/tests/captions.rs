use pixelview::paths::copy_name;
use pixelview::browse::{ColoPiece, Entry, ImgMeta};
use pixelview::captions::{
    caption_lines, short_name, table_cell_text, ColKind, CAP_COLORS, CAP_DIMENSIONS, CAP_KIND,
    CAP_NAME, CAP_RATING, CAP_SIZE,
};
use pixelview::filetypes::{
    is_gif, is_hidden, is_image_ext, is_textmode_ext, palette_label, palette_list, stream_kind,
    textmode_cell, StreamKind,
};

fn img_entry(name: &str, size: u64, rating: u8) -> Entry {
    Entry {
        path: name.to_string(),
        is_dir: false,
        is_archive: false,
        size,
        mtime: None,
        ctime: None,
        rating,
    }
}

fn dir_entry(name: &str) -> Entry {
    Entry {
        path: name.to_string(),
        is_dir: true,
        is_archive: false,
        size: 0,
        mtime: None,
        ctime: None,
        rating: 0,
    }
}

fn piece(artist: &str, group: &str, year: u32, pack: &str) -> ColoPiece {
    ColoPiece {
        artist: artist.into(),
        group: group.into(),
        year,
        pack: pack.into(),
        raw_url: String::new(),
        tn_url: String::new(),
        sauce: None,
    }
}

#[test]
fn table_cell_text_scene_vs_file_columns() {
    let e = img_entry("MIDNACD3.ANS", 2048, 3);
    let p = piece("jed", "acid", 1992, "acdu0892");
    // Scene columns: filename / artist / type / year / group / pack.
    assert_eq!(table_cell_text(&e, None, Some(&p), ColKind::Name), "MIDNACD3.ANS");
    assert_eq!(table_cell_text(&e, None, Some(&p), ColKind::Artist), "jed");
    assert_eq!(table_cell_text(&e, None, Some(&p), ColKind::Type), "ANS");
    assert_eq!(table_cell_text(&e, None, Some(&p), ColKind::Year), "1992");
    assert_eq!(table_cell_text(&e, None, Some(&p), ColKind::Group), "acid");
    assert_eq!(table_cell_text(&e, None, Some(&p), ColKind::Pack), "acdu0892");
    // File columns: name / type / size / dims / colors.
    let meta = Some(ImgMeta { w: 320, h: 200, colors: Some(16) });
    assert_eq!(table_cell_text(&e, meta, None, ColKind::Name), "MIDNACD3.ANS");
    assert_eq!(table_cell_text(&e, meta, None, ColKind::Type), "ANS");
    assert_eq!(table_cell_text(&e, meta, None, ColKind::Dims), "320×200");
    assert_eq!(table_cell_text(&e, meta, None, ColKind::Colors), "16");
    // A 0-byte entry (folder / virtual dir) hides its size instead of "0 B".
    let zero = img_entry("dir", 0, 0);
    assert_eq!(table_cell_text(&zero, None, None, ColKind::Size), "");
    assert!(!table_cell_text(&e, None, None, ColKind::Size).is_empty());
}

#[test]
fn table_cells_for_dates_and_painted_columns() {
    let mut e = img_entry("a/b/pic.png", 1536, 2);
    e.mtime = Some((951782400, 0));
    assert_eq!(table_cell_text(&e, None, None, ColKind::Modified), "2000-02-29");
    assert_eq!(table_cell_text(&e, None, None, ColKind::Created), "");
    assert_eq!(table_cell_text(&e, None, None, ColKind::Size), "1.5 KB");
    assert_eq!(table_cell_text(&e, None, None, ColKind::Thumb), "");
    assert_eq!(table_cell_text(&e, None, None, ColKind::Rating), "");
    assert_eq!(table_cell_text(&e, None, None, ColKind::Download), "");
    assert_eq!(table_cell_text(&e, None, None, ColKind::Artist), "");
    assert_eq!(table_cell_text(&e, None, None, ColKind::Dims), "");
}

#[test]
fn caption_lines_respects_enabled_fields() {
    let e = img_entry("Hero.png", 2048, 3); // size 2048, rating 3
    let meta = Some(ImgMeta { w: 32, h: 48, colors: Some(12) });
    // Name + dimensions + colors enabled (rating off).
    let fields = CAP_NAME | CAP_DIMENSIONS | CAP_COLORS;
    let lines = caption_lines(&e, meta, fields, None);
    // Lines follow the caption field order (colors before dimensions), not mask order.
    assert_eq!(
        lines,
        vec!["Hero.png".to_string(), "12 colors".to_string(), "32 × 48".to_string()]
    );
    // Rating only, when rated, yields the stars; dimensions need meta.
    assert_eq!(caption_lines(&e, None, CAP_RATING, None), vec!["★★★".to_string()]);
    assert!(caption_lines(&e, None, CAP_DIMENSIONS, None).is_empty());
    // Search mode appends the folder line.
    assert_eq!(
        caption_lines(&e, None, CAP_NAME, Some("📁 sub")),
        vec!["Hero.png".to_string(), "📁 sub".to_string()]
    );
    // Folders always caption with just their name, ignoring the mask.
    let d = dir_entry("Sprites");
    assert_eq!(caption_lines(&d, None, 0, None), vec!["Sprites".to_string()]);
}

#[test]
fn caption_kind_size_and_single_colour() {
    let e = img_entry("x/logo.gif", 1024, 0);
    let meta = Some(ImgMeta { w: 1, h: 1, colors: Some(1) });
    assert_eq!(
        caption_lines(&e, meta, CAP_KIND | CAP_SIZE | CAP_RATING | CAP_COLORS, None),
        vec!["GIF".to_string(), "1.0 KB".to_string(), "1 color".to_string()]
    );
    let noext = img_entry("README", 5, 0);
    assert!(caption_lines(&noext, None, CAP_KIND, None).is_empty());
}

#[test]
fn short_name_is_file_name_or_whole_path() {
    assert_eq!(short_name("/a/b/c.png"), "c.png");
    assert_eq!(short_name("/a/b/"), "b");
    assert_eq!(short_name("/"), "/");
    assert_eq!(short_name("a/.."), "a/..");
}

#[test]
fn is_image_ext_recognizes_formats() {
    assert!(is_image_ext("x.png"));
    assert!(is_image_ext("X.PCX"));
    assert!(is_image_ext("y.aseprite"));
    assert!(is_image_ext("z.txt")); // ASCII/ANSI art
    assert!(is_image_ext("noext")); // extensionless scene/BBS art
    assert!(!is_image_ext("z.cpp")); // genuinely non-art stays hidden
}

#[test]
fn textmode_and_gif_and_hidden() {
    assert!(is_textmode_ext("a.ANS"));
    assert!(is_textmode_ext("plain"));
    assert!(!is_textmode_ext("a.png"));
    assert!(is_gif("anim.GIF"));
    assert!(!is_gif("gif"));
    assert!(!is_gif("a.gifx"));
    assert!(is_hidden("/home/u/.config"));
    assert!(!is_hidden("/home/u/config"));
    assert_eq!(textmode_cell("x.seq"), (8, 8));
    assert_eq!(textmode_cell("x.PETSCII"), (8, 8));
    assert_eq!(textmode_cell("x.ans"), (8, 16));
    assert_eq!(textmode_cell("x"), (8, 16));
}

#[test]
fn stream_kind_by_extension_and_magic() {
    assert_eq!(stream_kind(b"hello", "x.rip"), StreamKind::Rip);
    assert_eq!(stream_kind(b"!|R", "x.bin"), StreamKind::Rip);
    assert_eq!(stream_kind(b"hello", "x.ANS"), StreamKind::Text);
    assert_eq!(stream_kind(b"hello", "noext"), StreamKind::Text);
    assert_eq!(stream_kind(b"hello", "x.xb"), StreamKind::Static);
}

#[test]
fn palettes_list_builtins_then_new_user_files() {
    assert_eq!(palette_label("/p/EGA (16).GPL"), "EGA (16)");
    assert_eq!(palette_label("/"), "");
    let builtin = vec!["<builtin>/EGA (16).GPL".to_string(), "<builtin>/VGA (256).GPL".to_string()];
    let scanned = vec!["/u/EGA (16).GPL".to_string(), "/u/mine.gpl".to_string()];
    assert_eq!(
        palette_list(&builtin, &scanned),
        vec![
            "<builtin>/EGA (16).GPL".to_string(),
            "<builtin>/VGA (256).GPL".to_string(),
            "/u/mine.gpl".to_string()
        ]
    );
}

#[test]
fn copy_names_number_the_copies() {
    assert_eq!(copy_name("sprite.png", 1), "sprite (copy).png");
    assert_eq!(copy_name("sprite.png", 2), "sprite (copy 2).png");
    assert_eq!(copy_name("README", 1), "README (copy)");
    assert_eq!(copy_name(".hidden", 3), ".hidden (copy 3)");
}
