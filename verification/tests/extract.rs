use pixelview::archive::{extract_plan, Extraction, Placed};

fn tar_header(name: &str, size: usize, kind: u8) -> Vec<u8> {
    let mut h = vec![0u8; 512];
    h[..name.len()].copy_from_slice(name.as_bytes());
    h[100..107].copy_from_slice(b"0000644");
    h[108..115].copy_from_slice(b"0000000");
    h[116..123].copy_from_slice(b"0000000");
    let sz = format!("{:011o}", size);
    h[124..135].copy_from_slice(sz.as_bytes());
    h[136..147].copy_from_slice(b"00000000000");
    h[156] = kind;
    h[257..263].copy_from_slice(b"ustar\0");
    h[263..265].copy_from_slice(b"00");
    for b in &mut h[148..156] {
        *b = b' ';
    }
    let sum: u32 = h.iter().map(|&b| b as u32).sum();
    let ck = format!("{:06o}\0 ", sum);
    h[148..156].copy_from_slice(ck.as_bytes());
    h
}

fn tar(members: &[(&str, &[u8], u8)]) -> Vec<u8> {
    let mut out = Vec::new();
    for (name, data, kind) in members {
        out.extend(tar_header(name, data.len(), *kind));
        out.extend_from_slice(data);
        let pad = (512 - data.len() % 512) % 512;
        out.extend(std::iter::repeat(0u8).take(pad));
    }
    out.extend(vec![0u8; 1024]);
    out
}

#[test]
fn a_pak_is_extracted_by_its_magic_whatever_its_name() {
    let mut pak = Vec::new();
    pak.extend_from_slice(b"PACK");
    pak.extend_from_slice(&14u32.to_le_bytes());
    pak.extend_from_slice(&64u32.to_le_bytes());
    pak.extend_from_slice(b"hi");
    let mut name56 = [0u8; 56];
    name56[..5].copy_from_slice(b"a.txt");
    pak.extend_from_slice(&name56);
    pak.extend_from_slice(&12u32.to_le_bytes());
    pak.extend_from_slice(&2u32.to_le_bytes());
    match extract_plan("thing.zip", &pak, "/d") {
        Extraction::Lumps(m) => assert_eq!(m, vec![("/d/a.txt".to_string(), b"hi".to_vec())]),
        _ => panic!("a PAK is read by its magic"),
    }
}

#[test]
fn a_tar_is_placed_under_the_directory() {
    let t = tar(&[
        ("art/", b"", b'5'),
        ("art/x.ans", b"hello", b'0'),
        ("../evil.txt", b"no", b'0'),
    ]);
    match extract_plan("pack.tar", &t, "/out") {
        Extraction::Members(placed, err) => {
            assert!(err.is_none());
            let mut files = Vec::new();
            let mut dirs = Vec::new();
            for p in placed {
                match p {
                    Placed::Dir(d) => dirs.push(d),
                    Placed::File(f, data) => files.push((f, data)),
                }
            }
            assert_eq!(files, vec![("/out/art/x.ans".to_string(), Some(b"hello".to_vec()))]);
            assert!(dirs.iter().all(|d| d.starts_with("/out/art")));
        }
        Extraction::Unopened(e) => panic!("tar did not open: {e}"),
        Extraction::Lumps(_) => panic!("not a PAK"),
    }
}

#[test]
fn an_unknown_format_does_not_open() {
    assert!(matches!(extract_plan("notes.xyz", b"junk", "/d"), Extraction::Unopened(_)));
}
