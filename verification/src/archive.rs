//! Archive browsing support: which files are browsable archives, the zip-slip-safe
//! placement of archive members under an extraction directory, the Quake PAK and
//! Doom WAD directory formats, and the name of an archive's cache directory.

use vstd::prelude::*;
use vstd::std_specs::hash::DefaultHasherAdditionalSpecFns;
use vstd::utf8::{decode_utf8, encode_utf8, valid_utf8};
use std::collections::hash_map::DefaultHasher;
use std::hash::Hasher;
use crate::paths::{extension, extension_of, file_name, file_name_of};
use crate::text::{
    ascii_alnum, chars_of, is_ascii_alnum, lower, one_of, padded_digits, digits, pad_left, push_all,
    push_str, string_from_chars, strip_leading, strip_leading_chars, to_lower,
};

verus! {

/// Browsable (multi-entry) archive extensions, lower-case. Single-file
/// compressions (`.gz`, `.bz2`, `.Z`, `.ice`, ...) are not among them.
pub open spec fn archive_exts() -> Seq<Seq<char>> {
    seq![
        "zip"@, "7z"@, "rar"@, "lha"@, "lzh"@, "tar"@, "ace"@, "arj"@, "arc"@, "pak"@, "zoo"@,
        "ha"@, "uc2"@, "sqz"@, "hyp"@, "tgz"@, "tbz"@, "wad"@,
    ]
}

/// The extension list, in order.
fn archive_ext_list() -> (v: Vec<&'static str>)
    ensures
        v@.len() == archive_exts().len(),
        forall|i: int| 0 <= i < v@.len() ==> v@[i]@ == archive_exts()[i],
{
    vec![
        "zip", "7z", "rar", "lha", "lzh", "tar", "ace", "arj", "arc", "pak", "zoo", "ha", "uc2",
        "sqz", "hyp", "tgz", "tbz", "wad",
    ]
}

/// `path` names a browsable archive: its extension, lower-cased, is one of
/// `archive_exts`.
pub open spec fn is_archive_path(path: Seq<char>) -> bool {
    match extension(path) {
        Some(e) => archive_exts().contains(lower(e)),
        None => false,
    }
}

/// True if `path` looks like a browsable archive (by extension, case-insensitive).
pub fn is_archive(path: &str) -> (b: bool)
    ensures
        b == is_archive_path(path@),
{
    let p = chars_of(path);
    match extension_of(&p) {
        Some(e) => {
            let le = to_lower(&e);
            let list = archive_ext_list();
            let r = one_of(&le, &list);
            proof {
                if r {
                    let i = choose|i: int| 0 <= i < list@.len() && list@[i]@ == le@;
                    assert(archive_exts()[i] == lower(e@));
                } else {
                    assert forall|i: int| 0 <= i < archive_exts().len() implies archive_exts()[i] != lower(e@) by {
                        assert(list@[i]@ == archive_exts()[i]);
                    }
                }
            }
            r
        },
        None => false,
    }
}

/// `s` with every backslash turned into a slash.
pub open spec fn normalize_seps(s: Seq<char>) -> Seq<char> {
    Seq::new(s.len(), |i: int| if s[i] == '\\' { '/' } else { s[i] })
}

/// The component stack after one more path segment: empty segments and `.` are
/// skipped, `..` drops the last component (and fails at the top), anything else
/// is pushed.
pub open spec fn apply_segment(st: Option<Seq<Seq<char>>>, seg: Seq<char>) -> Option<Seq<Seq<char>>> {
    match st {
        None => None,
        Some(k) => if seg.len() == 0 || seg == seq!['.'] {
            Some(k)
        } else if seg == seq!['.', '.'] {
            if k.len() == 0 {
                None
            } else {
                Some(k.drop_last())
            }
        } else {
            Some(k.push(seg))
        },
    }
}

/// Scanning a relative path left to right: the stack of components closed so
/// far and the segment being read.
pub open spec fn scan_path(s: Seq<char>) -> (Option<Seq<Seq<char>>>, Seq<char>)
    decreases s.len(),
{
    if s.len() == 0 {
        (Some(Seq::<Seq<char>>::empty()), Seq::<char>::empty())
    } else {
        let prev = scan_path(s.drop_last());
        if s.last() == '/' {
            (apply_segment(prev.0, prev.1), Seq::<char>::empty())
        } else {
            (prev.0, prev.1.push(s.last()))
        }
    }
}

/// The normal components a relative path resolves to, or `None` when a `..`
/// climbs above its start.
pub open spec fn resolve_components(s: Seq<char>) -> Option<Seq<Seq<char>>> {
    apply_segment(scan_path(s).0, scan_path(s).1)
}

/// `PathBuf::push` of a plain component: a separator is added unless the path is
/// empty or already ends with one.
pub open spec fn push_component(p: Seq<char>, c: Seq<char>) -> Seq<char> {
    if p.len() > 0 && p.last() != '/' {
        p + seq!['/'] + c
    } else {
        p + c
    }
}

/// `base` with the components pushed in order.
pub open spec fn join_all(base: Seq<char>, comps: Seq<Seq<char>>) -> Seq<char>
    decreases comps.len(),
{
    if comps.len() == 0 {
        base
    } else {
        push_component(join_all(base, comps.drop_last()), comps.last())
    }
}

/// Where an archive member called `name` lands under `base`: backslashes become
/// separators, leading slashes are dropped, `.` is ignored and `..` steps back;
/// `None` when the name would climb out of `base` or names nothing.
pub open spec fn safe_join_path(base: Seq<char>, name: Seq<char>) -> Option<Seq<char>> {
    match resolve_components(strip_leading(normalize_seps(name), '/')) {
        None => None,
        Some(k) => if k.len() == 0 {
            None
        } else {
            Some(join_all(base, k))
        },
    }
}

/// A path component that stays where it is put: not empty, not `.` or `..`, and
/// without a separator.
pub open spec fn normal_component(c: Seq<char>) -> bool {
    &&& c.len() > 0
    &&& c != seq!['.']
    &&& c != seq!['.', '.']
    &&& !c.contains('/')
}

proof fn lemma_scan_normal(s: Seq<char>)
    ensures
        !scan_path(s).1.contains('/'),
        scan_path(s).0 matches Some(k) ==> forall|i: int| 0 <= i < k.len() ==> normal_component(#[trigger] k[i]),
    decreases s.len(),
{
    if s.len() > 0 {
        lemma_scan_normal(s.drop_last());
        let prev = scan_path(s.drop_last());
        if s.last() == '/' {
            lemma_apply_normal(prev.0, prev.1);
        } else {
            assert forall|j: int| 0 <= j < prev.1.push(s.last()).len() implies prev.1.push(s.last())[j] != '/' by {
                if j < prev.1.len() {
                    assert(prev.1.push(s.last())[j] == prev.1[j]);
                }
            }
        }
    }
}

proof fn lemma_apply_normal(st: Option<Seq<Seq<char>>>, seg: Seq<char>)
    requires
        !seg.contains('/'),
        st matches Some(k) ==> forall|i: int| 0 <= i < k.len() ==> normal_component(#[trigger] k[i]),
    ensures
        apply_segment(st, seg) matches Some(k) ==> forall|i: int| 0 <= i < k.len() ==> normal_component(#[trigger] k[i]),
{
    if let Some(k) = st {
        if !(seg.len() == 0 || seg == seq!['.']) && seg != seq!['.', '.'] {
            assert forall|i: int| 0 <= i < k.push(seg).len() implies normal_component(#[trigger] k.push(seg)[i]) by {
                if i < k.len() {
                    assert(k.push(seg)[i] == k[i]);
                }
            }
        }
    }
}

proof fn lemma_join_extends(base: Seq<char>, comps: Seq<Seq<char>>)
    ensures
        base.len() <= join_all(base, comps).len(),
        join_all(base, comps).subrange(0, base.len() as int) == base,
    decreases comps.len(),
{
    if comps.len() > 0 {
        lemma_join_extends(base, comps.drop_last());
        let prev = join_all(base, comps.drop_last());
        let cur = join_all(base, comps);
        assert(cur.subrange(0, base.len() as int) =~= prev.subrange(0, base.len() as int));
    } else {
        assert(base.subrange(0, base.len() as int) =~= base);
    }
}

/// An archive member never lands outside the extraction directory: where a name
/// is placed at all, the result begins with `base`, and what follows is made of
/// plain components only (no `.`, no `..`, no empty one).
pub proof fn safe_join_stays_under_base(base: Seq<char>, name: Seq<char>)
    ensures
        safe_join_path(base, name) matches Some(p) ==> base.len() <= p.len() && p.subrange(
            0,
            base.len() as int,
        ) == base,
        resolve_components(strip_leading(normalize_seps(name), '/')) matches Some(k) ==> forall|i: int|
            0 <= i < k.len() ==> normal_component(#[trigger] k[i]),
{
    let s = strip_leading(normalize_seps(name), '/');
    lemma_scan_normal(s);
    lemma_apply_normal(scan_path(s).0, scan_path(s).1);
    if let Some(k) = resolve_components(s) {
        lemma_join_extends(base, k);
    }
}

/// A failed scan stays failed however the path continues.
proof fn lemma_scan_failed(s: Seq<char>, k: int)
    requires
        0 <= k <= s.len(),
        scan_path(s.take(k)).0 is None,
    ensures
        scan_path(s).0 is None,
    decreases s.len() - k,
{
    if k < s.len() {
        assert(s.take(k + 1).drop_last() =~= s.take(k));
        lemma_scan_failed(s, k + 1);
    } else {
        assert(s.take(k) =~= s);
    }
}

/// The characters of a component stack.
pub open spec fn stack_view(st: Seq<Vec<char>>) -> Seq<Seq<char>> {
    st.map_values(|v: Vec<char>| v@)
}

/// Applies one segment to the component stack; false when it climbs out.
fn apply_seg(stack: &mut Vec<Vec<char>>, seg: Vec<char>) -> (ok: bool)
    ensures
        ok ==> apply_segment(Some(stack_view(old(stack)@)), seg@) == Some(stack_view(final(stack)@)),
        !ok ==> apply_segment(Some(stack_view(old(stack)@)), seg@) is None,
{
    let n = seg.len();
    if n == 0 || (n == 1 && seg[0] == '.') {
        proof {
            if n == 1 {
                assert(seg@ =~= seq!['.']);
            }
        }
        return true;
    }
    proof {
        assert(seg@ != seq!['.']) by {
            if seg@ == seq!['.'] {
                assert(seg@[0] == '.');
            }
        }
    }
    if n == 2 && seg[0] == '.' && seg[1] == '.' {
        proof {
            assert(seg@ =~= seq!['.', '.']);
        }
        if stack.len() == 0 {
            return false;
        }
        let _ = stack.pop();
        proof {
            assert(stack_view(stack@) =~= stack_view(old(stack)@).drop_last());
        }
        return true;
    }
    proof {
        assert(seg@ != seq!['.', '.']) by {
            if seg@ == seq!['.', '.'] {
                assert(seg@[0] == '.' && seg@[1] == '.');
            }
        }
    }
    stack.push(seg);
    proof {
        assert(stack_view(stack@) =~= stack_view(old(stack)@).push(seg@));
    }
    true
}

/// Joins a (possibly hostile) archive-internal `name` under `base`, rejecting any
/// `..` that would escape `base`. Backslash separators (DOS archives) are
/// normalized and leading slashes stripped, so absolute names are reparented
/// under `base`. `None` for an empty or escaping name.
pub fn safe_join(base: &str, name: &str) -> (r: Option<String>)
    ensures
        match r {
            Some(s) => safe_join_path(base@, name@) == Some(s@),
            None => safe_join_path(base@, name@) is None,
        },
{
    let raw = chars_of(name);
    let mut norm: Vec<char> = Vec::new();
    for i in 0..raw.len()
        invariant
            norm@ == normalize_seps(raw@).take(i as int),
    {
        norm.push(if raw[i] == '\\' { '/' } else { raw[i] });
        proof {
            assert(norm@ =~= normalize_seps(raw@).take(i + 1));
        }
    }
    proof {
        assert(normalize_seps(raw@).take(raw@.len() as int) =~= normalize_seps(raw@));
    }
    let rel = strip_leading_chars(&norm, '/');
    let ghost relv = rel@;
    assert(relv == strip_leading(normalize_seps(name@), '/'));
    let mut stack: Vec<Vec<char>> = Vec::new();
    let mut cur: Vec<char> = Vec::new();
    let n = rel.len();
    proof {
        assert(relv.take(0) =~= Seq::<char>::empty());
        assert(stack_view(stack@) =~= Seq::<Seq<char>>::empty());
    }
    for i in 0..n
        invariant
            n == relv.len(),
            relv == rel@,
            relv == strip_leading(normalize_seps(name@), '/'),
            scan_path(relv.take(i as int)) == (Some(stack_view(stack@)), cur@),
    {
        proof {
            assert(relv.take(i + 1).drop_last() =~= relv.take(i as int));
            assert(relv.take(i + 1).last() == relv[i as int]);
        }
        if rel[i] == '/' {
            let seg = cur;
            cur = Vec::new();
            let ghost seg_view = seg@;
            let ghost old_stack = stack_view(stack@);
            if !apply_seg(&mut stack, seg) {
                proof {
                    assert(scan_path(relv.take(i + 1)).0 == apply_segment(Some(old_stack), seg_view));
                    lemma_scan_failed(relv, i + 1);
                    assert(resolve_components(relv) is None);
                    assert(relv == strip_leading(normalize_seps(name@), '/'));
                }
                return None;
            }
        } else {
            cur.push(rel[i]);
        }
    }
    proof {
        assert(relv.take(n as int) =~= relv);
    }
    if !apply_seg(&mut stack, cur) {
        return None;
    }
    if stack.len() == 0 {
        return None;
    }
    let mut out = chars_of(base);
    let m = stack.len();
    for i in 0..m
        invariant
            m == stack@.len(),
            out@ == join_all(base@, stack_view(stack@).take(i as int)),
    {
        let c = &stack[i];
        proof {
            assert(stack_view(stack@).take(i + 1).drop_last() =~= stack_view(stack@).take(i as int));
            assert(stack_view(stack@).take(i + 1).last() == c@);
        }
        if out.len() > 0 && out[out.len() - 1] != '/' {
            out.push('/');
        }
        push_all(&mut out, c);
    }
    proof {
        assert(stack_view(stack@).take(m as int) =~= stack_view(stack@));
    }
    Some(string_from_chars(&out))
}

/// The little-endian 32-bit number at `at` in `b`, if four bytes are there.
pub open spec fn le32(b: Seq<u8>, at: int) -> Option<nat> {
    if 0 <= at && at + 4 <= b.len() {
        Some((b[at] as nat + 256 * b[at + 1] as nat + 65536 * b[at + 2] as nat + 16777216 * b[at + 3] as nat) as nat)
    } else {
        None
    }
}

/// The little-endian 32-bit number at `at` in `b`, if four bytes are there.
pub fn u32le(b: &[u8], at: usize) -> (r: Option<usize>)
    requires
        at <= usize::MAX - 4,
    ensures
        match r {
            Some(v) => le32(b@, at as int) == Some(v as nat),
            None => le32(b@, at as int) is None,
        },
{
    if at + 4 > b.len() {
        return None;
    }
    let v: u32 = b[at] as u32 + 256 * (b[at + 1] as u32) + 65536 * (b[at + 2] as u32) + 16777216 * (b[at
        + 3] as u32);
    Some(v as usize)
}

/// The little-endian 32-bit number at `at` in `b`, if four bytes are there.
fn le32_at(b: &[u8], at: u64) -> (r: Option<u64>)
    ensures
        match r {
            Some(v) => le32(b@, at as int) == Some(v as nat) && v < 0x1_0000_0000,
            None => le32(b@, at as int) is None,
        },
{
    let len = b.len() as u64;
    if at > len || len - at < 4 {
        return None;
    }
    let i = at as usize;
    let v: u64 = b[i] as u64 + 256 * (b[i + 1] as u64) + 65536 * (b[i + 2] as u64) + 16777216 * (b[i
        + 3] as u64);
    Some(v)
}

/// `b` starts with the bytes `p`.
pub open spec fn starts_with(b: Seq<u8>, p: Seq<u8>) -> bool {
    p.len() <= b.len() && b.take(p.len() as int) == p
}

/// Tab, line feed, carriage return or printable ASCII.
pub open spec fn is_text_byte(c: u8) -> bool {
    c == 9 || c == 10 || c == 13 || (0x20 <= c && c < 0x7f)
}

/// The extension a WAD lump gets from its leading bytes: a recognised image or
/// sound signature, `txt` when its first 256 bytes are all text, else `lmp`.
pub open spec fn lump_ext(b: Seq<u8>) -> Seq<char> {
    if starts_with(b, seq![0x89u8, 0x50u8, 0x4eu8, 0x47u8]) {
        "png"@
    } else if starts_with(b, seq![0xffu8, 0xd8u8, 0xffu8]) {
        "jpg"@
    } else if starts_with(b, seq![0x42u8, 0x4du8]) {
        "bmp"@
    } else if starts_with(b, seq![0x47u8, 0x49u8, 0x46u8, 0x38u8]) {
        "gif"@
    } else if starts_with(b, seq![0x52u8, 0x49u8, 0x46u8, 0x46u8]) && b.len() >= 12 && b.subrange(8, 12)
        == seq![0x57u8, 0x41u8, 0x56u8, 0x45u8] {
        "wav"@
    } else if starts_with(b, seq![0x4fu8, 0x67u8, 0x67u8, 0x53u8]) {
        "ogg"@
    } else if starts_with(b, seq![0x49u8, 0x44u8, 0x33u8]) || starts_with(b, seq![0xffu8, 0xfbu8]) {
        "mp3"@
    } else if forall|i: int| 0 <= i < b.len() && i < 256 ==> is_text_byte(b[i]) {
        "txt"@
    } else {
        "lmp"@
    }
}

/// Does `b` start with the bytes of `p`?
fn has_prefix(b: &[u8], p: &[u8]) -> (r: bool)
    ensures
        r == starts_with(b@, p@),
{
    let n = p.len();
    if n > b.len() {
        return false;
    }
    for i in 0..n
        invariant
            n == p@.len(),
            n <= b@.len(),
            forall|k: int| 0 <= k < i ==> b@[k] == p@[k],
    {
        if b[i] != p[i] {
            proof {
                assert(b@.take(n as int)[i as int] != p@[i as int]);
            }
            return false;
        }
    }
    proof {
        assert(b@.take(n as int) =~= p@);
    }
    true
}

/// Maps a lump's leading bytes to a viewable extension, else `lmp` (classic Doom
/// patch/flat/DMX lumps have no standard container).
pub fn sniff_lump_ext(b: &[u8]) -> (e: &'static str)
    ensures
        e@ == lump_ext(b@),
{
    if has_prefix(b, &[0x89, 0x50, 0x4e, 0x47]) {
        "png"
    } else if has_prefix(b, &[0xff, 0xd8, 0xff]) {
        "jpg"
    } else if has_prefix(b, &[0x42, 0x4d]) {
        "bmp"
    } else if has_prefix(b, &[0x47, 0x49, 0x46, 0x38]) {
        "gif"
    } else if has_prefix(b, &[0x52, 0x49, 0x46, 0x46]) && b.len() >= 12 && b[8] == 0x57 && b[9] == 0x41
        && b[10] == 0x56 && b[11] == 0x45 {
        proof {
            assert(b@.subrange(8, 12) =~= seq![0x57u8, 0x41u8, 0x56u8, 0x45u8]);
        }
        "wav"
    } else if has_prefix(b, &[0x4f, 0x67, 0x67, 0x53]) {
        proof {
            if b@.len() >= 12 && b@.subrange(8, 12) == seq![0x57u8, 0x41u8, 0x56u8, 0x45u8] {
                assert(b@.subrange(8, 12)[0] == b@[8]);
                assert(b@.subrange(8, 12)[1] == b@[9]);
                assert(b@.subrange(8, 12)[2] == b@[10]);
                assert(b@.subrange(8, 12)[3] == b@[11]);
            }
        }
        "ogg"
    } else {
        proof {
            if b@.len() >= 12 && b@.subrange(8, 12) == seq![0x57u8, 0x41u8, 0x56u8, 0x45u8] {
                assert(b@.subrange(8, 12)[0] == b@[8]);
                assert(b@.subrange(8, 12)[1] == b@[9]);
                assert(b@.subrange(8, 12)[2] == b@[10]);
                assert(b@.subrange(8, 12)[3] == b@[11]);
            }
        }
        if has_prefix(b, &[0x49, 0x44, 0x33]) || has_prefix(b, &[0xff, 0xfb]) {
            "mp3"
        } else if leading_text(b) {
            "txt"
        } else {
            "lmp"
        }
    }
}

/// Are the first 256 bytes of `b` (all of them, when fewer) text bytes?
fn leading_text(b: &[u8]) -> (r: bool)
    ensures
        r == forall|i: int| 0 <= i < b@.len() && i < 256 ==> is_text_byte(b@[i]),
{
    let n = b.len();
    let lim = if n < 256 { n } else { 256 };
    let mut i: usize = 0;
    while i < lim
        invariant
            n == b@.len(),
            lim <= n,
            lim <= 256,
            lim == n || lim == 256,
            i <= lim,
            forall|k: int| 0 <= k < i ==> is_text_byte(b@[k]),
        decreases lim - i,
    {
        let c = b[i];
        if !(c == 9 || c == 10 || c == 13 || (0x20 <= c && c < 0x7f)) {
            proof {
                assert(!is_text_byte(b@[i as int]));
            }
            return false;
        }
        i += 1;
    }
    true
}


/// Names what `String::from_utf8_lossy` makes of a byte string.
pub uninterp spec fn spec_utf8_lossy(b: Seq<u8>) -> Seq<char>;

/// `String::from_utf8_lossy`: the text of `b`, each invalid sequence replaced by
/// U+FFFD. Stated: the result is named `spec_utf8_lossy`, and valid UTF-8 decodes
/// unchanged; how invalid input is replaced is not stated.
#[verifier::external_body]
fn utf8_lossy(b: &[u8]) -> (s: String)
    ensures
        s@ == spec_utf8_lossy(b@),
        valid_utf8(b@) ==> s@ == decode_utf8(b@),
{
    String::from_utf8_lossy(b).into_owned()
}

/// Index of the first zero byte of `s`, or its length when there is none.
pub open spec fn first_zero(s: Seq<u8>) -> nat
    decreases s.len(),
{
    if s.len() == 0 {
        0
    } else if s[0] == 0 {
        0
    } else {
        1 + first_zero(s.drop_first())
    }
}

/// The member a 64-byte PAK directory record describes: its NUL-terminated name
/// (at most 56 bytes) placed under `dest`, and its `size` bytes at `offset` —
/// nothing when the name is unsafe or the bytes lie outside the file.
pub open spec fn pak_member(data: Seq<u8>, dest: Seq<char>, rec: Seq<u8>) -> Seq<(Seq<char>, Seq<u8>)> {
    let nm = rec.take(56);
    let name = spec_utf8_lossy(nm.take(first_zero(nm) as int));
    let off = le32(rec, 56).unwrap();
    let size = le32(rec, 60).unwrap();
    match safe_join_path(dest, name) {
        Some(out) => if off + size <= data.len() {
            seq![(out, data.subrange(off as int, (off + size) as int))]
        } else {
            Seq::empty()
        },
        None => Seq::empty(),
    }
}

/// The members of the PAK directory records from byte `e` on, `remaining` of
/// them, stopping at the first record that runs past the end of the file.
pub open spec fn pak_scan(data: Seq<u8>, dest: Seq<char>, e: nat, remaining: nat) -> Seq<(Seq<char>, Seq<u8>)>
    decreases remaining,
{
    if remaining == 0 || e + 64 > data.len() {
        Seq::empty()
    } else {
        pak_member(data, dest, data.subrange(e as int, e + 64int)) + pak_scan(data, dest, e + 64, (remaining - 1) as nat)
    }
}

/// The files a Quake PAK holds, as `(path under dest, bytes)`: the header gives
/// the directory's offset (byte 4) and size (byte 8); each 64-byte record is a
/// name, an offset and a size. A missing header field reads as 0.
pub open spec fn pak_members_of(data: Seq<u8>, dest: Seq<char>) -> Seq<(Seq<char>, Seq<u8>)> {
    let dir_off = match le32(data, 4) {
        Some(v) => v,
        None => 0,
    };
    let dir_size = match le32(data, 8) {
        Some(v) => v,
        None => 0,
    };
    pak_scan(data, dest, dir_off, dir_size / 64)
}

/// A lump name made into a file name: ASCII letters, digits, `-` and `_` kept,
/// every other character replaced by `_`.
pub open spec fn sanitize_lump_name(s: Seq<char>) -> Seq<char> {
    Seq::new(s.len(), |i: int| if is_ascii_alnum(s[i]) || s[i] == '-' || s[i] == '_' { s[i] } else { '_' })
}

/// The file a 16-byte WAD directory record describes: its sanitized NUL-terminated
/// name (at most 8 bytes) with the extension its bytes suggest, placed under
/// `dest`, and its `size` bytes at `offset` — nothing for an empty name, an empty
/// lump, bytes outside the file or an unsafe name.
pub open spec fn wad_member(data: Seq<u8>, dest: Seq<char>, rec: Seq<u8>) -> Seq<(Seq<char>, Seq<u8>)> {
    let off = le32(rec, 0).unwrap();
    let size = le32(rec, 4).unwrap();
    let nm = rec.subrange(8, 16);
    let name = sanitize_lump_name(spec_utf8_lossy(nm.take(first_zero(nm) as int)));
    if name.len() == 0 || size == 0 || off + size > data.len() {
        Seq::empty()
    } else {
        let bytes = data.subrange(off as int, (off + size) as int);
        match safe_join_path(dest, name + seq!['.'] + lump_ext(bytes)) {
            Some(out) => seq![(out, bytes)],
            None => Seq::empty(),
        }
    }
}

/// The members of the WAD directory records from byte `e` on, `remaining` of
/// them, stopping at the first record that runs past the end of the file.
pub open spec fn wad_scan(data: Seq<u8>, dest: Seq<char>, e: nat, remaining: nat) -> Seq<(Seq<char>, Seq<u8>)>
    decreases remaining,
{
    if remaining == 0 || e + 16 > data.len() {
        Seq::empty()
    } else {
        wad_member(data, dest, data.subrange(e as int, e + 16int)) + wad_scan(data, dest, e + 16, (remaining - 1) as nat)
    }
}

/// The files a Doom WAD holds, as `(path under dest, bytes)`: the header gives the
/// lump count (byte 4) and the directory offset (byte 8). A missing header field
/// reads as 0.
pub open spec fn wad_members_of(data: Seq<u8>, dest: Seq<char>) -> Seq<(Seq<char>, Seq<u8>)> {
    let count = match le32(data, 4) {
        Some(v) => v,
        None => 0,
    };
    let dir_off = match le32(data, 8) {
        Some(v) => v,
        None => 0,
    };
    wad_scan(data, dest, dir_off, count)
}

/// An extracted member as plain values.
pub open spec fn member_view(m: (String, Vec<u8>)) -> (Seq<char>, Seq<u8>) {
    (m.0@, m.1@)
}

/// Copies `data[lo..hi]`.
fn copy_range(data: &[u8], lo: usize, hi: usize) -> (r: Vec<u8>)
    requires
        lo <= hi <= data@.len(),
    ensures
        r@ == data@.subrange(lo as int, hi as int),
{
    let mut r: Vec<u8> = Vec::new();
    let mut i = lo;
    while i < hi
        invariant
            lo <= i <= hi <= data@.len(),
            r@ == data@.subrange(lo as int, i as int),
        decreases hi - i,
    {
        r.push(data[i]);
        proof {
            assert(data@.subrange(lo as int, i + 1) =~= data@.subrange(lo as int, i as int).push(data@[i as int]));
        }
        i += 1;
    }
    r
}

/// The NUL-terminated name stored in `data[lo..lo + max]`.
fn record_name(data: &[u8], lo: usize, max: usize) -> (r: Vec<u8>)
    requires
        lo + max <= data@.len(),
    ensures
        r@ == data@.subrange(lo as int, lo + max).take(first_zero(data@.subrange(lo as int, lo + max)) as int),
{
    let ghost nm = data@.subrange(lo as int, lo + max);
    let mut k: usize = 0;
    assert(nm.skip(0) =~= nm);
    while k < max && data[lo + k] != 0
        invariant
            lo + max <= data@.len(),
            data@.len() == data.len(),
            nm == data@.subrange(lo as int, lo + max),
            k <= max,
            first_zero(nm) == k + first_zero(nm.skip(k as int)),
        decreases max - k,
    {
        proof {
            assert(nm.skip(k as int)[0] == data@[lo + k]);
            assert(nm.skip(k as int).drop_first() =~= nm.skip(k + 1));
        }
        k += 1;
    }
    proof {
        if k < max {
            assert(nm.skip(k as int)[0] == data@[lo + k]);
        }
        assert(first_zero(nm) == k);
        assert(nm.take(k as int) =~= data@.subrange(lo as int, lo + k));
    }
    copy_range(data, lo, lo + k)
}

/// The files a Quake PAK holds, as `(path under dest, bytes)` pairs.
pub fn pak_members(data: &[u8], dest: &str) -> (r: Vec<(String, Vec<u8>)>)
    ensures
        r@.map_values(|m: (String, Vec<u8>)| member_view(m)) == pak_members_of(data@, dest@),
{
    let len: u64 = data.len() as u64;
    let dir_off: u64 = match le32_at(data, 4) {
        Some(v) => v,
        None => 0,
    };
    let dir_size: u64 = match le32_at(data, 8) {
        Some(v) => v,
        None => 0,
    };
    let mut remaining: u64 = dir_size / 64;
    let mut e: u64 = dir_off;
    let mut out: Vec<(String, Vec<u8>)> = Vec::new();
    let ghost total = pak_members_of(data@, dest@);
    proof {
        assert(out@.map_values(|m: (String, Vec<u8>)| member_view(m)) + pak_scan(data@, dest@, e as nat, remaining as nat) =~= total);
    }
    while remaining > 0 && e + 64 <= len
        invariant
            len == data@.len(),
            e <= 0x1_0000_0000 + 64 * (0x1_0000_0000 - remaining),
            remaining <= 0x1_0000_0000,
            out@.map_values(|m: (String, Vec<u8>)| member_view(m)) + pak_scan(data@, dest@, e as nat, remaining as nat) == total,
        decreases remaining,
    {
        let ghost before = out@.map_values(|m: (String, Vec<u8>)| member_view(m));
        assert(data@.len() == data.len());
        let base: usize = e as usize;
        assert(base as int == e as int);
        let ghost rec = data@.subrange(e as int, e + 64);
        let raw = record_name(data, base, 56);
        proof {
            assert(data@.subrange(base as int, base + 56) =~= rec.take(56));
        }
        let name = utf8_lossy(&raw);
        let off: u64 = le32_at(data, e + 56).unwrap();
        let size: u64 = le32_at(data, e + 60).unwrap();
        proof {
            assert(le32(rec, 56) == le32(data@, e + 56));
            assert(le32(rec, 60) == le32(data@, e + 60));
        }
        match safe_join(dest, name.as_str()) {
            Some(path) => {
                if off + size <= len {
                    let lo: usize = off as usize;
                    let hi: usize = (off + size) as usize;
                    assert(lo as int == off as int && hi as int == off + size);
                    let bytes = copy_range(data, lo, hi);
                    out.push((path, bytes));
                    proof {
                        assert(out@.map_values(|m: (String, Vec<u8>)| member_view(m)) =~= before + pak_member(data@, dest@, rec));
                    }
                } else {
                    proof {
                        assert(out@.map_values(|m: (String, Vec<u8>)| member_view(m)) =~= before + pak_member(data@, dest@, rec));
                    }
                }
            },
            None => {
                proof {
                    assert(out@.map_values(|m: (String, Vec<u8>)| member_view(m)) =~= before + pak_member(data@, dest@, rec));
                }
            },
        }
        proof {
            assert(pak_scan(data@, dest@, e as nat, remaining as nat) == pak_member(data@, dest@, rec) + pak_scan(data@, dest@, (e + 64) as nat, (remaining - 1) as nat));
            assert(before + (pak_member(data@, dest@, rec) + pak_scan(data@, dest@, (e + 64) as nat, (remaining - 1) as nat)) =~= before + pak_member(data@, dest@, rec) + pak_scan(data@, dest@, (e + 64) as nat, (remaining - 1) as nat));
        }
        e = e + 64;
        remaining = remaining - 1;
    }
    proof {
        assert(pak_scan(data@, dest@, e as nat, remaining as nat) =~= Seq::<(Seq<char>, Seq<u8>)>::empty());
        assert(out@.map_values(|m: (String, Vec<u8>)| member_view(m)) =~= total);
    }
    out
}

/// A WAD lump name made into a file name: ASCII letters, digits, `-` and `_` kept,
/// every other character replaced by `_`.
pub fn sanitize_name(s: &[char]) -> (r: Vec<char>)
    ensures
        r@ == sanitize_lump_name(s@),
{
    let mut r: Vec<char> = Vec::new();
    for i in 0..s.len()
        invariant
            r@ == sanitize_lump_name(s@).take(i as int),
    {
        let c = s[i];
        r.push(if ascii_alnum(c) || c == '-' || c == '_' { c } else { '_' });
        proof {
            assert(r@ =~= sanitize_lump_name(s@).take(i + 1));
        }
    }
    proof {
        assert(sanitize_lump_name(s@).take(s@.len() as int) =~= sanitize_lump_name(s@));
    }
    r
}

/// The file one WAD directory record describes, if any.
fn wad_record(data: &[u8], dest: &str, e: u64) -> (r: Option<(String, Vec<u8>)>)
    requires
        e + 16 <= data@.len(),
    ensures
        match r {
            Some(m) => wad_member(data@, dest@, data@.subrange(e as int, e + 16)) == seq![member_view(m)],
            None => wad_member(data@, dest@, data@.subrange(e as int, e + 16)) == Seq::<(Seq<char>, Seq<u8>)>::empty(),
        },
{
    let len: u64 = data.len() as u64;
    let ghost rec = data@.subrange(e as int, e + 16);
    let off: u64 = le32_at(data, e).unwrap();
    let size: u64 = le32_at(data, e + 4).unwrap();
    proof {
        assert(le32(rec, 0) == le32(data@, e as int));
        assert(le32(rec, 4) == le32(data@, e + 4));
        assert(data@.subrange(e + 8, e + 16) =~= rec.subrange(8, 16));
    }
    assert(data@.len() == data.len());
    let name_at: usize = (e + 8) as usize;
    assert(name_at as int == e + 8);
    let raw = record_name(data, name_at, 8);
    let lossy = utf8_lossy(&raw);
    let name = sanitize_name(&chars_of(lossy.as_str()));
    if name.len() == 0 || size == 0 || off + size > len {
        return None;
    }
    assert(data@.len() == data.len());
    let lo: usize = off as usize;
    let hi: usize = (off + size) as usize;
    assert(lo as int == off as int && hi as int == off + size);
    let bytes = copy_range(data, lo, hi);
    let ext = sniff_lump_ext(&bytes);
    let mut file = name;
    file.push('.');
    let ghost with_dot = file@;
    push_str(&mut file, ext);
    let file_s = string_from_chars(&file);
    proof {
        assert(file_s@ == sanitize_lump_name(spec_utf8_lossy(rec.subrange(8, 16).take(first_zero(rec.subrange(8, 16)) as int))) + seq!['.'] + lump_ext(bytes@));
    }
    match safe_join(dest, file_s.as_str()) {
        Some(path) => Some((path, bytes)),
        None => None,
    }
}

/// The files a Doom WAD holds, as `(path under dest, bytes)` pairs; each lump gets
/// the extension its leading bytes suggest.
pub fn wad_members(data: &[u8], dest: &str) -> (r: Vec<(String, Vec<u8>)>)
    ensures
        r@.map_values(|m: (String, Vec<u8>)| member_view(m)) == wad_members_of(data@, dest@),
{
    let len: u64 = data.len() as u64;
    let count: u64 = match le32_at(data, 4) {
        Some(v) => v,
        None => 0,
    };
    let dir_off: u64 = match le32_at(data, 8) {
        Some(v) => v,
        None => 0,
    };
    let mut remaining: u64 = count;
    let mut e: u64 = dir_off;
    let mut out: Vec<(String, Vec<u8>)> = Vec::new();
    let ghost total = wad_members_of(data@, dest@);
    proof {
        assert(out@.map_values(|m: (String, Vec<u8>)| member_view(m)) + wad_scan(data@, dest@, e as nat, remaining as nat) =~= total);
    }
    while remaining > 0 && e + 16 <= len
        invariant
            len == data@.len(),
            e <= 0x1_0000_0000 + 16 * (0x1_0000_0000 - remaining),
            remaining <= 0x1_0000_0000,
            out@.map_values(|m: (String, Vec<u8>)| member_view(m)) + wad_scan(data@, dest@, e as nat, remaining as nat) == total,
        decreases remaining,
    {
        let ghost before = out@.map_values(|m: (String, Vec<u8>)| member_view(m));
        let ghost rec = data@.subrange(e as int, e + 16);
        match wad_record(data, dest, e) {
            Some(m) => {
                out.push(m);
            },
            None => {},
        }
        proof {
            assert(out@.map_values(|m: (String, Vec<u8>)| member_view(m)) =~= before + wad_member(data@, dest@, rec));
            assert(wad_scan(data@, dest@, e as nat, remaining as nat) == wad_member(data@, dest@, rec) + wad_scan(data@, dest@, (e + 16) as nat, (remaining - 1) as nat));
            assert(before + (wad_member(data@, dest@, rec) + wad_scan(data@, dest@, (e + 16) as nat, (remaining - 1) as nat)) =~= before + wad_member(data@, dest@, rec) + wad_scan(data@, dest@, (e + 16) as nat, (remaining - 1) as nat));
        }
        e = e + 16;
        remaining = remaining - 1;
    }
    proof {
        assert(wad_scan(data@, dest@, e as nat, remaining as nat) =~= Seq::<(Seq<char>, Seq<u8>)>::empty());
        assert(out@.map_values(|m: (String, Vec<u8>)| member_view(m)) =~= total);
    }
    out
}


/// The `DefaultHasher` digest of a string as `str::hash` feeds it: its UTF-8
/// bytes, then a `0xff` terminator.
pub open spec fn str_hash(s: Seq<char>) -> u64 {
    DefaultHasher::spec_finish(seq![encode_utf8(s), seq![0xffu8]])
}

/// Hashes a string with a freshly created `DefaultHasher` (fixed keys, so the
/// digest is the same for the same string within a build).
pub fn hash_str(s: &str) -> (h: u64)
    ensures
        h == str_hash(s@),
{
    let mut hasher = DefaultHasher::new();
    let bytes = s.as_bytes();
    assert(bytes@ == encode_utf8(s@));
    hasher.write(bytes);
    assert(hasher@ == seq![encode_utf8(s@)]);
    let terminator: Vec<u8> = vec![0xffu8];
    assert(terminator@ == seq![0xffu8]);
    hasher.write(terminator.as_slice());
    proof {
        assert(hasher@ =~= seq![encode_utf8(s@), seq![0xffu8]]);
    }
    hasher.finish()
}

/// A number as 16 lower-case hex digits (`{:016x}`).
pub open spec fn hex16(n: u64) -> Seq<char> {
    pad_left(digits(n as nat, 16, false), 16, '0')
}

/// The key an archive's cache is filed under: its path, size and modification
/// time, separated by `|`.
pub open spec fn archive_key_text(path: Seq<char>, len: u64, mtime: u64) -> Seq<char> {
    path + seq!['|'] + crate::text::dec(len as nat) + seq!['|'] + crate::text::dec(mtime as nat)
}

/// The archive's file name (or `archive` when it has none) with every character
/// other than ASCII letters, digits, `.`, `-` and `_` replaced by `_`.
pub open spec fn safe_stem(path: Seq<char>) -> Seq<char> {
    let n = match file_name(path) {
        Some(n) => n,
        None => "archive"@,
    };
    Seq::new(n.len(), |i: int| if is_ascii_alnum(n[i]) || n[i] == '.' || n[i] == '-' || n[i] == '_' { n[i] } else { '_' })
}

/// The name of an archive's extraction directory: `<safe stem>-<key hash>`, so an
/// edit (new size or time) gets a fresh directory.
pub open spec fn cache_dir_text(path: Seq<char>, len: u64, mtime: u64) -> Seq<char> {
    safe_stem(path) + seq!['-'] + hex16(str_hash(archive_key_text(path, len, mtime)))
}

/// The deterministic name of the extraction directory for the archive at `path`
/// with size `len` and modification time `mtime` (seconds since the epoch).
pub fn cache_dir_name(path: &str, len: u64, mtime: u64) -> (r: String)
    ensures
        r@ == cache_dir_text(path@, len, mtime),
{
    let p = chars_of(path);
    let mut key: Vec<char> = Vec::new();
    push_all(&mut key, &p);
    key.push('|');
    crate::text::push_dec(&mut key, len);
    key.push('|');
    crate::text::push_dec(&mut key, mtime);
    let key_s = string_from_chars(&key);
    proof {
        assert(key_s@ =~= archive_key_text(path@, len, mtime));
    }
    let h = hash_str(key_s.as_str());
    let stem: Vec<char> = match file_name_of(&p) {
        Some(n) => n,
        None => chars_of("archive"),
    };
    let mut out: Vec<char> = Vec::new();
    for i in 0..stem.len()
        invariant
            out@ == safe_stem(path@).take(i as int),
            stem@ == match file_name(path@) {
                Some(n) => n,
                None => "archive"@,
            },
    {
        let c = stem[i];
        out.push(if ascii_alnum(c) || c == '.' || c == '-' || c == '_' { c } else { '_' });
        proof {
            assert(out@ =~= safe_stem(path@).take(i + 1));
        }
    }
    proof {
        assert(safe_stem(path@).take(stem@.len() as int) =~= safe_stem(path@));
    }
    out.push('-');
    let hx = padded_digits(h, 16, false, 16, '0');
    push_all(&mut out, &hx);
    string_from_chars(&out)
}

/// An archive member whose name ends in a separator (`/`, or `\` in DOS
/// archives) is a directory.
pub fn is_dir_member(name: &str) -> (b: bool)
    ensures
        b == (name@.len() > 0 && (name@.last() == '/' || name@.last() == '\\')),
{
    let c = chars_of(name);
    c.len() > 0 && (c[c.len() - 1] == '/' || c[c.len() - 1] == '\\')
}

/// Names what unarc-rs reads from an archive called `name` holding `bytes`: the
/// error text when it does not open, otherwise its entries in order (name, and
/// the member's bytes or `None` when that member fails to read) and the error
/// text that ended the walk early, if one did.
pub uninterp spec fn spec_unarc_entries(name: Seq<char>, bytes: Seq<u8>) -> Result<
    (Seq<(Seq<char>, Option<Seq<u8>>)>, Option<Seq<char>>),
    Seq<char>,
>;

/// An archive entry as plain values.
pub open spec fn entry_view(e: (String, Option<Vec<u8>>)) -> (Seq<char>, Option<Seq<u8>>) {
    (
        e.0@,
        match e.1 {
            Some(d) => Some(d@),
            None => None,
        },
    )
}

/// An optional text as plain values.
pub open spec fn opt_text(e: Option<String>) -> Option<Seq<char>> {
    match e {
        Some(t) => Some(t@),
        None => None,
    }
}

/// Reads every entry of an archive held in memory with unarc-rs: the format is
/// chosen from `name` (`ArchiveFormat::from_path`) and opened over the bytes
/// (`ArchiveFormat::open`, default options), then `next_entry` is called until it
/// reports the end or an error, and `read` gives each entry's bytes. The result is
/// whatever the crate reads (named `spec_unarc_entries`). Opening the bytes is
/// the same as `open_path` on a file of that name for every extension the viewer
/// opens as an archive; it differs only for single-file compressors and Atari
/// disk images, which are never opened this way.
#[verifier::external_body]
fn unarc_entries(name: &str, bytes: &[u8]) -> (r: Result<(Vec<(String, Option<Vec<u8>>)>, Option<String>), String>)
    ensures
        match r {
            Ok((v, e)) => spec_unarc_entries(name@, bytes@) == Ok::<_, Seq<char>>(
                (v@.map_values(|x: (String, Option<Vec<u8>>)| entry_view(x)), opt_text(e)),
            ),
            Err(m) => spec_unarc_entries(name@, bytes@) == Err::<(Seq<(Seq<char>, Option<Seq<u8>>)>, Option<Seq<char>>), _>(m@),
        },
{
    let fmt = unarc_rs::unified::ArchiveFormat::from_path(std::path::Path::new(name)).ok_or_else(|| format!("Unsupported archive format: {name}"))?;
    let mut a = fmt.open(std::io::Cursor::new(bytes)).map_err(|e| e.to_string())?;
    let mut out = Vec::new();
    loop {
        match a.next_entry() {
            Ok(Some(e)) => {
                let d = a.read(&e).ok();
                out.push((e.name().to_string(), d));
            },
            Ok(None) => return Ok((out, None)),
            Err(e) => return Ok((out, Some(e.to_string()))),
        }
    }
}

/// A name ending in a separator (`/`, or `\` in DOS archives) names a directory.
pub open spec fn dir_name(n: Seq<char>) -> bool {
    n.len() > 0 && (n.last() == '/' || n.last() == '\\')
}

/// An archive member placed under the extraction directory.
pub enum Placed {
    /// A directory to create.
    Dir(String),
    /// A file to write: its bytes, or `None` when they could not be read (its
    /// folder is still created).
    File(String, Option<Vec<u8>>),
}

/// A placed member as plain values: path, whether a directory, and bytes.
pub open spec fn placed_view(p: Placed) -> (Seq<char>, bool, Option<Seq<u8>>) {
    match p {
        Placed::Dir(d) => (d@, true, None),
        Placed::File(f, b) => (
            f@,
            false,
            match b {
                Some(x) => Some(x@),
                None => None,
            },
        ),
    }
}

/// The entries placed under `dest`: an entry whose name would escape `dest` is
/// dropped; a directory entry becomes a directory to create; any other entry a
/// file, with its bytes if they were read.
pub open spec fn placed_of(dest: Seq<char>, entries: Seq<(Seq<char>, Option<Seq<u8>>)>) -> Seq<(Seq<char>, bool, Option<Seq<u8>>)>
    decreases entries.len(),
{
    if entries.len() == 0 {
        seq![]
    } else {
        let prev = placed_of(dest, entries.drop_last());
        let n = entries.last().0;
        match safe_join_path(dest, n) {
            None => prev,
            Some(p) => if dir_name(n) {
                prev.push((p, true, None::<Seq<u8>>))
            } else {
                prev.push((p, false, entries.last().1))
            },
        }
    }
}

/// What extracting an archive yields.
pub enum Extraction {
    /// The files of a Quake PAK or Doom WAD, placed under the directory.
    Lumps(Vec<(String, Vec<u8>)>),
    /// The members of an archive unarc-rs reads, placed under the directory, and
    /// the error that ended the walk early, if one did.
    Members(Vec<Placed>, Option<String>),
    /// The archive does not open; the error text.
    Unopened(String),
}

/// `PACK`, the magic of a Quake PAK.
pub open spec fn pak_magic() -> Seq<u8> {
    seq![0x50u8, 0x41u8, 0x43u8, 0x4bu8]
}

/// `IWAD`, the magic of a Doom main WAD.
pub open spec fn iwad_magic() -> Seq<u8> {
    seq![0x49u8, 0x57u8, 0x41u8, 0x44u8]
}

/// `PWAD`, the magic of a Doom patch WAD.
pub open spec fn pwad_magic() -> Seq<u8> {
    seq![0x50u8, 0x57u8, 0x41u8, 0x44u8]
}

/// What extracting the archive `name`, holding `bytes`, under `dest` yields: a
/// Quake PAK or Doom WAD (told by its magic bytes) as its files; any other
/// archive as the members unarc-rs reads, each placed with `safe_join`.
pub fn extract_plan(name: &str, bytes: &[u8], dest: &str) -> (r: Extraction)
    ensures
        starts_with(bytes@, pak_magic()) ==> (r matches Extraction::Lumps(v)
            && v@.map_values(|m: (String, Vec<u8>)| member_view(m)) == pak_members_of(bytes@, dest@)),
        !starts_with(bytes@, pak_magic()) && (starts_with(bytes@, iwad_magic()) || starts_with(
            bytes@,
            pwad_magic(),
        )) ==> (r matches Extraction::Lumps(v) && v@.map_values(|m: (String, Vec<u8>)| member_view(m))
            == wad_members_of(bytes@, dest@)),
        !starts_with(bytes@, pak_magic()) && !starts_with(bytes@, iwad_magic()) && !starts_with(
            bytes@,
            pwad_magic(),
        ) ==> match spec_unarc_entries(name@, bytes@) {
            Err(m) => r matches Extraction::Unopened(t) && t@ == m,
            Ok((es, err)) => r matches Extraction::Members(v, e) && v@.map_values(|p: Placed| placed_view(p))
                == placed_of(dest@, es) && opt_text(e) == err,
        },
{
    if has_prefix(bytes, &[0x50, 0x41, 0x43, 0x4b]) {
        proof {
            assert(seq![0x50u8, 0x41u8, 0x43u8, 0x4bu8] =~= pak_magic());
        }
        return Extraction::Lumps(pak_members(bytes, dest));
    }
    proof {
        assert(seq![0x50u8, 0x41u8, 0x43u8, 0x4bu8] =~= pak_magic());
        assert(seq![0x49u8, 0x57u8, 0x41u8, 0x44u8] =~= iwad_magic());
        assert(seq![0x50u8, 0x57u8, 0x41u8, 0x44u8] =~= pwad_magic());
    }
    if has_prefix(bytes, &[0x49, 0x57, 0x41, 0x44]) || has_prefix(bytes, &[0x50, 0x57, 0x41, 0x44]) {
        return Extraction::Lumps(wad_members(bytes, dest));
    }
    match unarc_entries(name, bytes) {
        Err(m) => Extraction::Unopened(m),
        Ok((entries, err)) => {
            let ghost es = entries@.map_values(|x: (String, Option<Vec<u8>>)| entry_view(x));
            let mut out: Vec<Placed> = Vec::new();
            let mut i: usize = 0;
            while i < entries.len()
                invariant
                    i <= entries@.len(),
                    es == entries@.map_values(|x: (String, Option<Vec<u8>>)| entry_view(x)),
                    out@.map_values(|p: Placed| placed_view(p)) == placed_of(dest@, es.subrange(0, i as int)),
                decreases entries@.len() - i,
            {
                let ghost before = out@.map_values(|p: Placed| placed_view(p));
                let ghost sub = es.subrange(0, i + 1);
                proof {
                    assert(sub.drop_last() =~= es.subrange(0, i as int));
                    assert(sub.last() == entry_view(entries@[i as int]));
                    assert(sub.last().0 == entries@[i as int].0@);
                }
                let nm = entries[i].0.as_str();
                match safe_join(dest, nm) {
                    None => {},
                    Some(p) => {
                        if is_dir_member(nm) {
                            out.push(Placed::Dir(p));
                        } else {
                            let d: Option<Vec<u8>> = match &entries[i].1 {
                                Some(b) => Some(copy_range(b, 0, b.len())),
                                None => None,
                            };
                            out.push(Placed::File(p, d));
                            proof {
                                assert(placed_view(out@.last()).2 == sub.last().1);
                            }
                        }
                        proof {
                            assert(out@.map_values(|p: Placed| placed_view(p)) =~= before.push(placed_view(out@.last())));
                        }
                    },
                }
                i = i + 1;
            }
            proof {
                assert(es.subrange(0, entries@.len() as int) =~= es);
            }
            Extraction::Members(out, err)
        },
    }
}

/// A WAD lump is named by the signature its bytes begin with: PNG (`89 50 4E 47`),
/// JPEG (`FF D8 FF`), BMP (`BM`), GIF (`GIF8`), WAV (`RIFF` with `WAVE` at byte 8),
/// Ogg (`OggS`) and MP3 (`ID3`, or `FF FB`) get their extensions; a lump of
/// lower-case letters reads as text; one starting with a zero byte is a plain lump.
pub proof fn lump_signatures_pick_extensions(b: Seq<u8>)
    ensures
        b.len() >= 4 && b[0] == 0x89 && b[1] == 0x50 && b[2] == 0x4e && b[3] == 0x47 ==> lump_ext(b)
            == "png"@,
        b.len() >= 3 && b[0] == 0xff && b[1] == 0xd8 && b[2] == 0xff ==> lump_ext(b) == "jpg"@,
        b.len() >= 2 && b[0] == 0x42 && b[1] == 0x4d ==> lump_ext(b) == "bmp"@,
        b.len() >= 4 && b[0] == 0x47 && b[1] == 0x49 && b[2] == 0x46 && b[3] == 0x38 ==> lump_ext(b)
            == "gif"@,
        b.len() >= 12 && b[0] == 0x52 && b[1] == 0x49 && b[2] == 0x46 && b[3] == 0x46 && b[8] == 0x57
            && b[9] == 0x41 && b[10] == 0x56 && b[11] == 0x45 ==> lump_ext(b) == "wav"@,
        b.len() >= 4 && b[0] == 0x4f && b[1] == 0x67 && b[2] == 0x67 && b[3] == 0x53 ==> lump_ext(b)
            == "ogg"@,
        b.len() >= 3 && b[0] == 0x49 && b[1] == 0x44 && b[2] == 0x33 ==> lump_ext(b) == "mp3"@,
        b.len() >= 2 && b[0] == 0xff && b[1] == 0xfb ==> lump_ext(b) == "mp3"@,
        (forall|i: int| 0 <= i < b.len() ==> 0x61 <= #[trigger] b[i] <= 0x7a) ==> lump_ext(b) == "txt"@,
        b.len() >= 1 && b[0] == 0 ==> lump_ext(b) == "lmp"@,
{
    let png = seq![0x89u8, 0x50u8, 0x4eu8, 0x47u8];
    let jpg = seq![0xffu8, 0xd8u8, 0xffu8];
    let bmp = seq![0x42u8, 0x4du8];
    let gif = seq![0x47u8, 0x49u8, 0x46u8, 0x38u8];
    let riff = seq![0x52u8, 0x49u8, 0x46u8, 0x46u8];
    let ogg = seq![0x4fu8, 0x67u8, 0x67u8, 0x53u8];
    let id3 = seq![0x49u8, 0x44u8, 0x33u8];
    let mp3 = seq![0xffu8, 0xfbu8];
    let sigs = seq![png, jpg, bmp, gif, riff, ogg, id3, mp3];
    // Each signature is matched by its bytes, and a signature whose first two
    // bytes differ from `b`'s does not match.
    assert forall|k: int| 0 <= k < sigs.len() implies (starts_with(b, #[trigger] sigs[k]) <==> (
        sigs[k].len() <= b.len() && forall|i: int| 0 <= i < sigs[k].len() ==> b[i] == sigs[k][i])) by {
        let s = sigs[k];
        if s.len() <= b.len() && forall|i: int| 0 <= i < s.len() ==> b[i] == s[i] {
            assert(b.take(s.len() as int) =~= s);
        }
        if starts_with(b, s) {
            assert forall|i: int| 0 <= i < s.len() implies b[i] == s[i] by {
                assert(b.take(s.len() as int)[i] == b[i]);
            }
        }
    }
    assert(sigs[0] == png && sigs[1] == jpg && sigs[2] == bmp && sigs[3] == gif);
    assert(sigs[4] == riff && sigs[5] == ogg && sigs[6] == id3 && sigs[7] == mp3);
    if b.len() >= 12 {
        let w = seq![0x57u8, 0x41u8, 0x56u8, 0x45u8];
        if b[8] == 0x57 && b[9] == 0x41 && b[10] == 0x56 && b[11] == 0x45 {
            assert(b.subrange(8, 12) =~= w);
        }
    }
    if b.len() >= 1 && b[0] == 0 {
        assert(!is_text_byte(b[0]));
    }
    if forall|i: int| 0 <= i < b.len() ==> 0x61 <= #[trigger] b[i] <= 0x7a {
        if b.len() > 0 {
            assert(0x61 <= b[0] <= 0x7a);
        }
    }
}

} // verus!
