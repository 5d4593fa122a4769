use pixelview::archive::{cache_dir_name, hash_str, is_archive, pak_members, safe_join, sniff_lump_ext, u32le, wad_members};
use std::hash::{Hash, Hasher};

#[test]
fn is_archive_classifies_by_extension() {
    for ok in ["a.zip", "B.LHA", "pack.arj", "x.7z", "art.zoo", "f.tgz"] {
        assert!(is_archive(ok), "{ok} should be an archive");
    }
    for no in ["a.png", "b.ans", "c.gz", "d.ice", "noext", "e.txt"] {
        assert!(!is_archive(no), "{no} should NOT be an archive");
    }
}

#[test]
fn is_archive_ignores_dotfiles_and_directories_named_like_archives() {
    assert!(!is_archive(".zip"));
    assert!(is_archive("dir/x.zip/"));
    assert!(!is_archive("x.zip/.."));
}

#[test]
fn safe_join_blocks_zip_slip() {
    let base = "/cache/x";
    assert_eq!(safe_join(base, "sub/art.ans"), Some("/cache/x/sub/art.ans".to_string()));
    assert_eq!(safe_join(base, "DIR\\PIC.PCX"), Some("/cache/x/DIR/PIC.PCX".to_string()));
    assert_eq!(safe_join(base, "/etc/passwd"), Some("/cache/x/etc/passwd".to_string()));
    assert_eq!(safe_join(base, "a/../b.png"), Some("/cache/x/b.png".to_string()));
    assert_eq!(safe_join(base, "../../etc/passwd"), None);
    assert_eq!(safe_join(base, "a/../../escape"), None);
    assert_eq!(safe_join(base, ""), None);
}

#[test]
fn safe_join_skips_dots_and_repeated_separators() {
    assert_eq!(safe_join("/c/", "./a//b/./"), Some("/c/a/b".to_string()));
    assert_eq!(safe_join("", "a/b"), Some("a/b".to_string()));
    assert_eq!(safe_join("/c", "a/.."), None);
    assert_eq!(safe_join("/c", "..."), Some("/c/...".to_string()));
}

#[test]
fn wad_and_pak_are_archives() {
    assert!(is_archive("doom.wad"));
    assert!(is_archive("pak0.PAK"));
}

#[test]
fn wad_lump_extension_sniffing() {
    assert_eq!(sniff_lump_ext(&[0x89, b'P', b'N', b'G', 0, 0]), "png");
    assert_eq!(sniff_lump_ext(b"RIFF\0\0\0\0WAVEfmt "), "wav");
    assert_eq!(sniff_lump_ext(b"MAP01 plain text"), "txt");
    assert_eq!(sniff_lump_ext(&[0, 1, 2, 3, 200]), "lmp");
}

#[test]
fn lump_sniffing_checks_only_the_first_256_bytes_for_text() {
    let mut b = vec![b'a'; 300];
    b[280] = 0;
    assert_eq!(sniff_lump_ext(&b), "txt");
    b[10] = 0;
    assert_eq!(sniff_lump_ext(&b), "lmp");
    assert_eq!(sniff_lump_ext(b"RIFF1234WAV"), "txt");
    assert_eq!(sniff_lump_ext(&[0xff, 0xfb, 1]), "mp3");
    assert_eq!(sniff_lump_ext(b"GIF89a"), "gif");
}

#[test]
fn u32le_reads_little_endian_or_nothing() {
    assert_eq!(u32le(&[1, 2, 3, 4, 5], 1), Some(0x0504_0302));
    assert_eq!(u32le(&[1, 2, 3], 0), None);
}

fn quake_pak(members: &[(&str, &[u8])]) -> Vec<u8> {
    let mut body = Vec::new();
    let mut dir = Vec::new();
    for (name, data) in members {
        let off = 12 + body.len() as u32;
        body.extend_from_slice(data);
        let mut name56 = [0u8; 56];
        name56[..name.len()].copy_from_slice(name.as_bytes());
        dir.extend_from_slice(&name56);
        dir.extend_from_slice(&off.to_le_bytes());
        dir.extend_from_slice(&(data.len() as u32).to_le_bytes());
    }
    let mut pak = Vec::new();
    pak.extend_from_slice(b"PACK");
    pak.extend_from_slice(&(12 + body.len() as u32).to_le_bytes());
    pak.extend_from_slice(&(dir.len() as u32).to_le_bytes());
    pak.extend_from_slice(&body);
    pak.extend_from_slice(&dir);
    pak
}

#[test]
fn extracts_a_quake_pak() {
    let pak = quake_pak(&[("sound/hi.txt", b"hello pak")]);
    let out = pak_members(&pak, "/tmp/out");
    assert_eq!(out, vec![("/tmp/out/sound/hi.txt".to_string(), b"hello pak".to_vec())]);
}

#[test]
fn pak_skips_escaping_names() {
    let pak = quake_pak(&[("../evil", b"x"), ("ok.pcx", b"yz")]);
    let out = pak_members(&pak, "/d");
    assert_eq!(out, vec![("/d/ok.pcx".to_string(), b"yz".to_vec())]);
}

#[test]
fn wad_lumps_get_sniffed_extensions_and_safe_names() {
    let png = [0x89u8, b'P', b'N', b'G', 1, 2];
    let text = b"hello";
    let mut wad = Vec::new();
    wad.extend_from_slice(b"PWAD");
    wad.extend_from_slice(&3u32.to_le_bytes());
    let dir_off = 12 + png.len() + text.len();
    wad.extend_from_slice(&(dir_off as u32).to_le_bytes());
    wad.extend_from_slice(&png);
    wad.extend_from_slice(text);
    let mut rec = |off: u32, size: u32, name: &[u8]| {
        wad.extend_from_slice(&off.to_le_bytes());
        wad.extend_from_slice(&size.to_le_bytes());
        let mut n8 = [0u8; 8];
        n8[..name.len()].copy_from_slice(name);
        wad.extend_from_slice(&n8);
    };
    rec(12, png.len() as u32, b"TITLE\\PI");
    rec(12 + png.len() as u32, text.len() as u32, b"MAPINFO");
    rec(0, 0, b"EMPTY");
    let out = wad_members(&wad, "/w");
    assert_eq!(
        out,
        vec![
            ("/w/TITLE_PI.png".to_string(), png.to_vec()),
            ("/w/MAPINFO.txt".to_string(), text.to_vec()),
        ]
    );
}

#[test]
fn hash_str_matches_the_std_string_hash() {
    for s in ["", "a", "https://x/y", "päck.zip|12|34"] {
        let mut h = std::collections::hash_map::DefaultHasher::new();
        s.hash(&mut h);
        assert_eq!(hash_str(s), h.finish());
    }
}

#[test]
fn cache_dir_name_is_sanitized_and_keyed() {
    let n = cache_dir_name("/a/my pack!.zip", 10, 20);
    let key = format!("{:016x}", hash_str("/a/my pack!.zip|10|20"));
    assert_eq!(n, format!("my_pack_.zip-{key}"));
    assert_ne!(n, cache_dir_name("/a/my pack!.zip", 11, 20));
    assert!(cache_dir_name("/", 0, 0).starts_with("archive-"));
}

#[test]
fn member_names_ending_in_a_separator_are_dirs() {
    assert!(pixelview::archive::is_dir_member("ART/"));
    assert!(pixelview::archive::is_dir_member("ART\\"));
    assert!(!pixelview::archive::is_dir_member("ART/x.ans"));
    assert!(!pixelview::archive::is_dir_member(""));
}

#[test]
fn lump_names_are_sanitized() {
    let raw: Vec<char> = "E1M1\\x/y.z".chars().collect();
    let out: String = pixelview::archive::sanitize_name(&raw).into_iter().collect();
    assert_eq!(out, "E1M1_x_y_z");
}
