//! File-name arithmetic on `/`-separated path strings: the last component, its
//! extension and its stem, with the same results as `std::path::Path` gives for
//! Unix paths (trailing separators and `.` components are skipped, a final `..`
//! has no file name, a leading dot does not start an extension).

use vstd::prelude::*;
use crate::text::{chars_eq, chars_of, dec, push_all, push_dec, push_str, string_from_chars, trim, trim_chars};

verus! {

/// Index of the last `c` in `s`, or -1 when `s` holds none.
pub open spec fn last_index_of(s: Seq<char>, c: char) -> int
    decreases s.len(),
{
    if s.len() == 0 {
        -1
    } else if s.last() == c {
        s.len() - 1
    } else {
        last_index_of(s.drop_last(), c)
    }
}

/// The final component of path `p`, as `Path::file_name` gives it.
pub open spec fn file_name(p: Seq<char>) -> Option<Seq<char>>
    decreases p.len(),
{
    if p.len() == 0 {
        None
    } else if p.last() == '/' {
        file_name(p.drop_last())
    } else {
        let i = last_index_of(p, '/');
        proof {
            lemma_last_index_bounds(p, '/');
        }
        let seg = p.subrange(i + 1, p.len() as int);
        if seg == seq!['.'] {
            if i < 0 {
                None
            } else {
                file_name(p.subrange(0, i))
            }
        } else if seg == seq!['.', '.'] {
            None
        } else {
            Some(seg)
        }
    }
}

/// The extension of a file name: what follows its last dot, unless that dot is
/// the first character or there is none.
pub open spec fn name_extension(n: Seq<char>) -> Option<Seq<char>> {
    let i = last_index_of(n, '.');
    if i <= 0 {
        None
    } else {
        Some(n.subrange(i + 1, n.len() as int))
    }
}

/// The stem of a file name: the name up to its last dot (the whole name when the
/// dot is the first character or there is none).
pub open spec fn name_stem(n: Seq<char>) -> Seq<char> {
    let i = last_index_of(n, '.');
    if i <= 0 {
        n
    } else {
        n.subrange(0, i)
    }
}

/// `Path::extension` of path `p`.
pub open spec fn extension(p: Seq<char>) -> Option<Seq<char>> {
    match file_name(p) {
        Some(n) => name_extension(n),
        None => None,
    }
}

/// `Path::file_stem` of path `p`.
pub open spec fn file_stem(p: Seq<char>) -> Option<Seq<char>> {
    match file_name(p) {
        Some(n) => Some(name_stem(n)),
        None => None,
    }
}

/// Where the last occurrence of `c` can stand, and that none follows it.
pub proof fn lemma_last_index_bounds(s: Seq<char>, c: char)
    ensures
        -1 <= last_index_of(s, c) < s.len(),
        last_index_of(s, c) >= 0 ==> s[last_index_of(s, c)] == c,
        forall|k: int| last_index_of(s, c) < k < s.len() ==> s[k] != c,
    decreases s.len(),
{
    if s.len() > 0 && s.last() != c {
        lemma_last_index_bounds(s.drop_last(), c);
        assert forall|k: int| last_index_of(s, c) < k < s.len() implies s[k] != c by {
            if k < s.len() - 1 {
                assert(s[k] == s.drop_last()[k]);
            }
        }
    }
}

/// One past the index of the last `c` among the first `end` characters of `s`
/// (0 when there is none).
fn last_index_before(s: &[char], c: char, end: usize) -> (r: usize)
    requires
        end <= s@.len(),
    ensures
        r == last_index_of(s@.subrange(0, end as int), c) + 1,
{
    let mut i = end;
    while i > 0
        invariant
            i <= end <= s@.len(),
            last_index_of(s@.subrange(0, end as int), c) == last_index_of(s@.subrange(0, i as int), c),
        decreases i,
    {
        if s[i - 1] == c {
            return i;
        }
        proof {
            assert(s@.subrange(0, i as int).drop_last() == s@.subrange(0, i - 1));
        }
        i -= 1;
    }
    0
}

/// Position `(start, end)` of the file name of path `p` within `p`, if it has one.
pub fn file_name_range(p: &[char]) -> (r: Option<(usize, usize)>)
    ensures
        match r {
            Some((s, e)) => s <= e <= p@.len() && file_name(p@) == Some(p@.subrange(s as int, e as int)),
            None => file_name(p@) is None,
        },
{
    let n = p.len();
    let mut end = n;
    assert(p@.subrange(0, n as int) == p@);
    loop
        invariant
            n == p@.len(),
            end <= n,
            file_name(p@) == file_name(p@.subrange(0, end as int)),
        decreases end,
    {
        if end == 0 {
            return None;
        }
        if p[end - 1] == '/' {
            proof {
                assert(p@.subrange(0, end as int).drop_last() == p@.subrange(0, end - 1));
            }
            end -= 1;
            continue;
        }
        let start = last_index_before(p, '/', end);
        let ghost pre = p@.subrange(0, end as int);
        let ghost i = start - 1;
        proof {
            lemma_last_index_bounds(pre, '/');
        }
        let ghost seg = pre.subrange(i + 1, end as int);
        proof {
            assert(seg == p@.subrange(start as int, end as int));
        }
        if end - start == 1 && p[start] == '.' {
            proof {
                assert(seg == seq!['.']);
            }
            if start == 0 {
                return None;
            }
            proof {
                assert(pre.subrange(0, i as int) == p@.subrange(0, i as int));
            }
            end = start - 1;
            continue;
        }
        proof {
            assert(seg != seq!['.']) by {
                if seg == seq!['.'] {
                    assert(seg.len() == 1 && seg[0] == p@[start as int]);
                }
            }
        }
        if end - start == 2 && p[start] == '.' && p[start + 1] == '.' {
            proof {
                assert(seg == seq!['.', '.']);
            }
            return None;
        }
        proof {
            assert(seg != seq!['.', '.']) by {
                if seg == seq!['.', '.'] {
                    assert(seg.len() == 2 && seg[0] == p@[start as int] && seg[1] == p@[start + 1]);
                }
            }
        }
        return Some((start, end));
    }
}

/// Copies `p[start..end]`.
pub fn slice_chars(p: &[char], start: usize, end: usize) -> (r: Vec<char>)
    requires
        start <= end <= p@.len(),
    ensures
        r@ == p@.subrange(start as int, end as int),
{
    let mut r: Vec<char> = Vec::new();
    let mut i = start;
    while i < end
        invariant
            start <= i <= end <= p@.len(),
            r@ == p@.subrange(start as int, i as int),
        decreases end - i,
    {
        r.push(p[i]);
        proof {
            assert(p@.subrange(start as int, i + 1) == p@.subrange(start as int, i as int).push(p@[i as int]));
        }
        i += 1;
    }
    r
}

/// The file name of path `p`, if it has one.
pub fn file_name_of(p: &[char]) -> (r: Option<Vec<char>>)
    ensures
        match r {
            Some(v) => file_name(p@) == Some(v@) && v@.len() <= p@.len(),
            None => file_name(p@) is None,
        },
{
    match file_name_range(p) {
        Some((s, e)) => Some(slice_chars(p, s, e)),
        None => None,
    }
}

/// The extension of file name `n`, if it has one.
pub fn name_extension_of(n: &[char]) -> (r: Option<Vec<char>>)
    ensures
        match r {
            Some(v) => name_extension(n@) == Some(v@),
            None => name_extension(n@) is None,
        },
{
    let len = n.len();
    let j = last_index_before(n, '.', len);
    proof {
        assert(n@.subrange(0, len as int) == n@);
        lemma_last_index_bounds(n@, '.');
    }
    if j <= 1 {
        None
    } else {
        Some(slice_chars(n, j, len))
    }
}

/// The stem of file name `n`.
pub fn name_stem_of(n: &[char]) -> (r: Vec<char>)
    ensures
        r@ == name_stem(n@),
{
    let len = n.len();
    let j = last_index_before(n, '.', len);
    proof {
        assert(n@.subrange(0, len as int) == n@);
        lemma_last_index_bounds(n@, '.');
    }
    if j <= 1 {
        slice_chars(n, 0, len)
    } else {
        slice_chars(n, 0, j - 1)
    }
}

/// The extension of path `p`, if it has one.
pub fn extension_of(p: &[char]) -> (r: Option<Vec<char>>)
    ensures
        match r {
            Some(v) => extension(p@) == Some(v@),
            None => extension(p@) is None,
        },
{
    match file_name_of(p) {
        Some(n) => name_extension_of(&n),
        None => None,
    }
}

/// The stem of path `p`, if it has a file name.
pub fn file_stem_of(p: &[char]) -> (r: Option<Vec<char>>)
    ensures
        match r {
            Some(v) => file_stem(p@) == Some(v@),
            None => file_stem(p@) is None,
        },
{
    match file_name_of(p) {
        Some(n) => Some(name_stem_of(&n)),
        None => None,
    }
}

/// The `n`th non-colliding name for a copy of `name` (Dolphin/Finder style):
/// `stem (copy).ext` for the first, `stem (copy n).ext` after that; a name with
/// no stem is called `item`, and one without an extension gets none.
pub open spec fn copy_name_text(name: Seq<char>, n: nat) -> Seq<char> {
    let stem = match file_stem(name) {
        Some(s) => s,
        None => "item"@,
    };
    let suffix = if n == 1 { " (copy)"@ } else { " (copy "@ + dec(n) + ")"@ };
    match extension(name) {
        Some(e) => stem + suffix + seq!['.'] + e,
        None => stem + suffix,
    }
}

/// The `n`th (from 1) candidate name for a copy of `name` placed beside it.
pub fn copy_name(name: &str, n: u32) -> (r: String)
    ensures
        r@ == copy_name_text(name@, n as nat),
{
    let p = chars_of(name);
    let mut out: Vec<char> = match file_stem_of(&p) {
        Some(s) => s,
        None => chars_of("item"),
    };
    if n == 1 {
        push_str(&mut out, " (copy)");
    } else {
        push_str(&mut out, " (copy ");
        push_dec(&mut out, n as u64);
        push_str(&mut out, ")");
    }
    match extension_of(&p) {
        Some(e) => {
            out.push('.');
            push_all(&mut out, &e);
        },
        None => {},
    }
    string_from_chars(&out)
}

/// What an inline rename asks for.
pub enum RenameDecision {
    /// Nothing to do: the new name is blank or the current one.
    Keep,
    /// The new name holds a path separator and is refused.
    Refuse,
    /// Rename the item to this (trimmed) name.
    Rename(String),
}

/// The decision for renaming an item called `current` to the typed `new_name`:
/// the typed name is trimmed; a blank or unchanged name keeps the item as it
/// is, one holding `/` or `\\` is refused.
pub open spec fn rename_decision(current: Seq<char>, new_name: Seq<char>) -> Option<Option<Seq<char>>> {
    let t = trim(new_name);
    if t.len() == 0 || t == current {
        None
    } else if t.contains('/') || t.contains('\\') {
        Some(None)
    } else {
        Some(Some(t))
    }
}

/// Decide an inline rename of an item whose file name is `current` (empty when
/// it has none) to the typed `new_name`.
pub fn rename_check(current: &str, new_name: &str) -> (d: RenameDecision)
    ensures
        match d {
            RenameDecision::Keep => rename_decision(current@, new_name@) is None,
            RenameDecision::Refuse => rename_decision(current@, new_name@) == Some(None::<Seq<char>>),
            RenameDecision::Rename(t) => rename_decision(current@, new_name@) == Some(Some(t@)),
        },
{
    let n = chars_of(new_name);
    let t = trim_chars(&n);
    let c = chars_of(current);
    if t.len() == 0 || chars_eq(&t, &c) {
        return RenameDecision::Keep;
    }
    let mut i: usize = 0;
    while i < t.len()
        invariant
            i <= t@.len(),
            t@ == trim(new_name@),
            t@.len() > 0,
            t@ != current@,
            forall|k: int| 0 <= k < i ==> t@[k] != '/' && t@[k] != '\\',
        decreases t@.len() - i,
    {
        if t[i] == '/' || t[i] == '\\' {
            proof {
                assert(t@[i as int] == '/' ==> t@.contains('/'));
                assert(t@[i as int] == '\\' ==> t@.contains('\\'));
            }
            return RenameDecision::Refuse;
        }
        i = i + 1;
    }
    RenameDecision::Rename(string_from_chars(&t))
}

} // verus!
