//! Character and string helpers shared by the rest of the library: ASCII case
//! mapping, substring search, whitespace trimming and decimal / hexadecimal
//! number formatting, all over character sequences.

use vstd::prelude::*;

verus! {

/// ASCII lower-casing of one character (other characters are left as they are).
pub open spec fn lower_char(c: char) -> char {
    if 'A' <= c && c <= 'Z' {
        ((c as u32) + 32) as char
    } else {
        c
    }
}

/// ASCII upper-casing of one character (other characters are left as they are).
pub open spec fn upper_char(c: char) -> char {
    if 'a' <= c && c <= 'z' {
        ((c as u32) - 32) as char
    } else {
        c
    }
}

/// ASCII lower-casing of a character sequence.
pub open spec fn lower(s: Seq<char>) -> Seq<char> {
    Seq::new(s.len(), |i: int| lower_char(s[i]))
}

/// ASCII upper-casing of a character sequence.
pub open spec fn upper(s: Seq<char>) -> Seq<char> {
    Seq::new(s.len(), |i: int| upper_char(s[i]))
}

/// `needle` occurs in `hay` starting at position `i`.
pub open spec fn occurs_at(hay: Seq<char>, needle: Seq<char>, i: int) -> bool {
    0 <= i && i + needle.len() <= hay.len() && hay.subrange(i, i + needle.len()) == needle
}

/// `needle` occurs somewhere in `hay`.
pub open spec fn has_substring(hay: Seq<char>, needle: Seq<char>) -> bool {
    exists|i: int| occurs_at(hay, needle, i)
}

/// The character for a digit value below 16, with upper- or lower-case letters.
pub open spec fn digit_char(d: nat, upper_case: bool) -> char {
    if d < 10 {
        ((d + 48) as u32) as char
    } else if upper_case {
        ((d + 55) as u32) as char
    } else {
        ((d + 87) as u32) as char
    }
}

/// The digits of `n` in base `base` (no leading zeros; `0` is a single digit).
pub open spec fn digits(n: nat, base: nat, upper_case: bool) -> Seq<char>
    recommends
        2 <= base <= 16,
    decreases n,
{
    if n < base || base < 2 {
        seq![digit_char(n, upper_case)]
    } else {
        proof {
            assert(n / base < n) by (nonlinear_arith)
                requires
                    n >= base,
                    base >= 2,
            ;
        }
        digits(n / base, base, upper_case).push(digit_char(n % base, upper_case))
    }
}

/// Decimal digits of `n`.
pub open spec fn dec(n: nat) -> Seq<char> {
    digits(n, 10, false)
}

/// `s` right-aligned in a field of `width` characters, padded on the left with `fill`.
pub open spec fn pad_left(s: Seq<char>, width: nat, fill: char) -> Seq<char> {
    if s.len() >= width {
        s
    } else {
        Seq::new((width - s.len()) as nat, |i: int| fill) + s
    }
}

/// Decimal rendering of a signed number, zero-padded to `width` characters with
/// the sign counted inside the width (as `{:0w}` renders it).
pub open spec fn signed_zero_padded(n: int, width: nat) -> Seq<char> {
    if n < 0 {
        seq!['-'] + pad_left(dec((-n) as nat), if width >= 1 { (width - 1) as nat } else { 0 }, '0')
    } else {
        pad_left(dec(n as nat), width, '0')
    }
}

/// The characters of `s`, one per element.
pub fn chars_of(s: &str) -> (v: Vec<char>)
    ensures
        v@ == s@,
{
    let mut v: Vec<char> = Vec::new();
    for c in it: s.chars()
        invariant
            v@ == it.seq().take(it.index() as int),
            it.seq() == s@,
    {
        v.push(c);
    }
    v
}

/// Collects characters into a `String` (`String::from_iter`); the text holds
/// exactly the given characters in order.
#[verifier::external_body]
pub(crate) fn string_from_chars(v: &[char]) -> (s: String)
    ensures
        s@ == v@,
{
    v.iter().collect()
}

/// Appends the characters of `s` to `out`.
pub fn push_str(out: &mut Vec<char>, s: &str)
    ensures
        final(out)@ == old(out)@ + s@,
{
    let v = chars_of(s);
    push_all(out, &v);
}

/// Appends every element of `v` to `out`.
pub fn push_all(out: &mut Vec<char>, v: &[char])
    ensures
        final(out)@ == old(out)@ + v@,
{
    let ghost start = out@;
    let n = v.len();
    for i in 0..n
        invariant
            n == v@.len(),
            out@ == start + v@.take(i as int),
    {
        out.push(v[i]);
        proof {
            assert(v@.take(i + 1) == v@.take(i as int).push(v@[i as int]));
        }
    }
    proof {
        assert(v@.take(n as int) == v@);
    }
}

/// ASCII lower-casing of one character.
pub fn to_lower_char(c: char) -> (r: char)
    ensures
        r == lower_char(c),
{
    if 'A' <= c && c <= 'Z' {
        let b: u8 = c as u8;
        (b + 32) as char
    } else {
        c
    }
}

/// ASCII upper-casing of one character.
pub fn to_upper_char(c: char) -> (r: char)
    ensures
        r == upper_char(c),
{
    if 'a' <= c && c <= 'z' {
        let b: u8 = c as u8;
        (b - 32) as char
    } else {
        c
    }
}

/// ASCII lower-casing of a character sequence.
pub fn to_lower(s: &[char]) -> (r: Vec<char>)
    ensures
        r@ == lower(s@),
{
    let mut r: Vec<char> = Vec::new();
    let n = s.len();
    for i in 0..n
        invariant
            n == s@.len(),
            r@ == lower(s@).take(i as int),
    {
        r.push(to_lower_char(s[i]));
        proof {
            assert(lower(s@).take(i + 1) == lower(s@).take(i as int).push(lower_char(s@[i as int])));
        }
    }
    proof {
        assert(lower(s@).take(n as int) == lower(s@));
    }
    r
}

/// ASCII upper-casing of a character sequence.
pub fn to_upper(s: &[char]) -> (r: Vec<char>)
    ensures
        r@ == upper(s@),
{
    let mut r: Vec<char> = Vec::new();
    let n = s.len();
    for i in 0..n
        invariant
            n == s@.len(),
            r@ == upper(s@).take(i as int),
    {
        r.push(to_upper_char(s[i]));
        proof {
            assert(upper(s@).take(i + 1) == upper(s@).take(i as int).push(upper_char(s@[i as int])));
        }
    }
    proof {
        assert(upper(s@).take(n as int) == upper(s@));
    }
    r
}

/// Is `needle` a substring of `hay`? (An empty needle is found everywhere.)
pub fn contains(hay: &[char], needle: &[char]) -> (b: bool)
    ensures
        b == has_substring(hay@, needle@),
{
    let h = hay.len();
    let n = needle.len();
    if n > h {
        proof {
            assert forall|i: int| !occurs_at(hay@, needle@, i) by {}
        }
        return false;
    }
    let mut i: usize = 0;
    while i <= h - n
        invariant
            n == needle@.len(),
            h == hay@.len(),
            n <= h,
            i <= h - n + 1,
            forall|k: int| 0 <= k < i ==> !occurs_at(hay@, needle@, k),
        decreases h - i,
    {
        let mut j: usize = 0;
        let mut ok = true;
        while j < n
            invariant
                n == needle@.len(),
                h == hay@.len(),
                i + n <= h,
                j <= n,
                ok == (forall|k: int| 0 <= k < j ==> hay@[i + k] == needle@[k]),
            decreases n - j,
        {
            if hay[i + j] != needle[j] {
                ok = false;
            }
            j += 1;
        }
        if ok {
            proof {
                assert(hay@.subrange(i as int, i + n) =~= needle@);
                assert(occurs_at(hay@, needle@, i as int));
            }
            return true;
        }
        proof {
            assert(!occurs_at(hay@, needle@, i as int)) by {
                if occurs_at(hay@, needle@, i as int) {
                    let k = choose|k: int| 0 <= k < n && hay@[i + k] != needle@[k];
                    assert(hay@.subrange(i as int, i + n)[k] == hay@[i + k]);
                }
            }
        }
        i += 1;
    }
    proof {
        assert forall|k: int| !occurs_at(hay@, needle@, k) by {
            if occurs_at(hay@, needle@, k) {
                assert(0 <= k < i);
            }
        }
    }
    false
}

/// The character for digit value `d` (below 16).
pub fn digit_to_char(d: u64, upper_case: bool) -> (c: char)
    requires
        d < 16,
    ensures
        c == digit_char(d as nat, upper_case),
{
    let b: u8 = d as u8;
    if b < 10 {
        (b + 48) as char
    } else if upper_case {
        (b + 55) as char
    } else {
        (b + 87) as char
    }
}

/// Appends the base-`base` digits of `n` to `out`.
pub fn push_digits(out: &mut Vec<char>, n: u64, base: u64, upper_case: bool)
    requires
        2 <= base <= 16,
    ensures
        final(out)@ == old(out)@ + digits(n as nat, base as nat, upper_case),
    decreases n,
{
    if n < base {
        out.push(digit_to_char(n, upper_case));
        proof {
            assert(digits(n as nat, base as nat, upper_case) == seq![digit_char(n as nat, upper_case)]);
        }
    } else {
        let ghost before = out@;
        assert(n / base < n) by (nonlinear_arith)
            requires
                n >= base,
                base >= 2,
        ;
        push_digits(out, n / base, base, upper_case);
        out.push(digit_to_char(n % base, upper_case));
        proof {
            assert(out@ == before + digits((n / base) as nat, base as nat, upper_case).push(
                digit_char((n % base) as nat, upper_case),
            ));
        }
    }
}

/// Appends `count` copies of `c` to `out`.
pub fn push_repeat(out: &mut Vec<char>, c: char, count: usize)
    ensures
        final(out)@ == old(out)@ + Seq::new(count as nat, |i: int| c),
{
    let ghost start = out@;
    for i in 0..count
        invariant
            out@ == start + Seq::new(i as nat, |k: int| c),
    {
        out.push(c);
        proof {
            assert(Seq::new((i + 1) as nat, |k: int| c) == Seq::new(i as nat, |k: int| c).push(c));
        }
    }
}

/// The base-`base` digits of `n`, right-aligned in `width` characters with `fill`.
pub fn padded_digits(n: u64, base: u64, upper_case: bool, width: usize, fill: char) -> (r: Vec<char>)
    requires
        2 <= base <= 16,
    ensures
        r@ == pad_left(digits(n as nat, base as nat, upper_case), width as nat, fill),
{
    let mut d: Vec<char> = Vec::new();
    push_digits(&mut d, n, base, upper_case);
    assert(d@ == digits(n as nat, base as nat, upper_case));
    if d.len() >= width {
        d
    } else {
        let mut r: Vec<char> = Vec::new();
        push_repeat(&mut r, fill, width - d.len());
        push_all(&mut r, &d);
        r
    }
}

/// Appends the decimal rendering of `n` to `out`.
pub fn push_dec(out: &mut Vec<char>, n: u64)
    ensures
        final(out)@ == old(out)@ + dec(n as nat),
{
    push_digits(out, n, 10, false);
}

/// Appends `n` in decimal, zero-padded to `width` characters, the sign counted in
/// the width.
pub fn push_signed_zero_padded(out: &mut Vec<char>, n: i64, width: usize)
    ensures
        final(out)@ == old(out)@ + signed_zero_padded(n as int, width as nat),
{
    if n < 0 {
        out.push('-');
        let mag: u64 = if n == i64::MIN {
            9223372036854775808u64
        } else {
            (-n) as u64
        };
        let w = if width >= 1 { width - 1 } else { 0 };
        let d = padded_digits(mag, 10, false, w, '0');
        let ghost mid = out@;
        push_all(out, &d);
        proof {
            assert(out@ == old(out)@ + (seq!['-'] + d@));
        }
    } else {
        let d = padded_digits(n as u64, 10, false, width, '0');
        push_all(out, &d);
    }
}

} // verus!

verus! {

/// The characters with the Unicode `White_Space` property, the set
/// `char::is_whitespace` answers for: tab to carriage return, space, NEL,
/// no-break space, ogham space mark, the spaces from en quad to hair space, the
/// line and paragraph separators, narrow no-break space, medium mathematical
/// space and ideographic space.
pub open spec fn white_space(c: char) -> bool {
    let u = c as u32;
    ||| 0x9 <= u <= 0xD
    ||| u == 0x20
    ||| u == 0x85
    ||| u == 0xA0
    ||| u == 0x1680
    ||| 0x2000 <= u <= 0x200A
    ||| u == 0x2028
    ||| u == 0x2029
    ||| u == 0x202F
    ||| u == 0x205F
    ||| u == 0x3000
}

/// Whether `c` is white space (see `white_space`).
pub(crate) fn is_whitespace(c: char) -> (b: bool)
    ensures
        b == white_space(c),
{
    let u = c as u32;
    (0x9 <= u && u <= 0xD) || u == 0x20 || u == 0x85 || u == 0xA0 || u == 0x1680 || (0x2000 <= u
        && u <= 0x200A) || u == 0x2028 || u == 0x2029 || u == 0x202F || u == 0x205F || u == 0x3000
}

/// Names what `char::is_alphanumeric` answers for a character (the Unicode
/// `Alphabetic` or `Numeric` property).
pub uninterp spec fn spec_is_alphanumeric(c: char) -> bool;

/// `char::is_alphanumeric`: whether `c` is alphabetic or numeric in Unicode.
/// The contract only ties the answer to `spec_is_alphanumeric`; which characters
/// have the property is not stated.
#[verifier::external_body]
pub(crate) fn is_alphanumeric(c: char) -> (b: bool)
    ensures
        b == spec_is_alphanumeric(c),
{
    c.is_alphanumeric()
}

/// `s` without its leading whitespace.
pub open spec fn trim_start(s: Seq<char>) -> Seq<char>
    decreases s.len(),
{
    if s.len() > 0 && white_space(s[0]) {
        trim_start(s.drop_first())
    } else {
        s
    }
}

/// `s` without its trailing whitespace.
pub open spec fn trim_end(s: Seq<char>) -> Seq<char>
    decreases s.len(),
{
    if s.len() > 0 && white_space(s.last()) {
        trim_end(s.drop_last())
    } else {
        s
    }
}

/// `s` without leading and trailing whitespace (what `str::trim` returns).
pub open spec fn trim(s: Seq<char>) -> Seq<char> {
    trim_end(trim_start(s))
}

/// `s` without any leading copies of `c` (what `str::trim_start_matches(c)` returns).
pub open spec fn strip_leading(s: Seq<char>, c: char) -> Seq<char>
    decreases s.len(),
{
    if s.len() > 0 && s[0] == c {
        strip_leading(s.drop_first(), c)
    } else {
        s
    }
}

/// Index of the first character of `s` that is not leading whitespace.
fn trim_start_index(s: &[char]) -> (lo: usize)
    ensures
        lo <= s@.len(),
        trim_start(s@) == s@.subrange(lo as int, s@.len() as int),
{
    let n = s.len();
    let mut lo: usize = 0;
    assert(s@.subrange(0, n as int) == s@);
    while lo < n && is_whitespace(s[lo])
        invariant
            n == s@.len(),
            lo <= n,
            trim_start(s@) == trim_start(s@.subrange(lo as int, n as int)),
        decreases n - lo,
    {
        proof {
            assert(s@.subrange(lo as int, n as int).drop_first() == s@.subrange(lo + 1, n as int));
        }
        lo += 1;
    }
    lo
}

/// `s` with leading and trailing whitespace removed.
pub fn trim_chars(s: &[char]) -> (r: Vec<char>)
    ensures
        r@ == trim(s@),
{
    let n = s.len();
    let lo = trim_start_index(s);
    let ghost t = s@.subrange(lo as int, n as int);
    let mut hi: usize = n;
    while hi > lo && is_whitespace(s[hi - 1])
        invariant
            n == s@.len(),
            lo <= hi <= n,
            t == s@.subrange(lo as int, n as int),
            trim_end(t) == trim_end(s@.subrange(lo as int, hi as int)),
        decreases hi,
    {
        proof {
            assert(s@.subrange(lo as int, hi as int).drop_last() == s@.subrange(lo as int, hi - 1));
        }
        hi -= 1;
    }
    proof {
        if hi > lo {
            assert(s@.subrange(lo as int, hi as int).last() == s@[hi - 1]);
        }
    }
    let mut r: Vec<char> = Vec::new();
    let mut i = lo;
    while i < hi
        invariant
            n == s@.len(),
            lo <= i <= hi <= n,
            r@ == s@.subrange(lo as int, i as int),
        decreases hi - i,
    {
        r.push(s[i]);
        proof {
            assert(s@.subrange(lo as int, i + 1) == s@.subrange(lo as int, i as int).push(s@[i as int]));
        }
        i += 1;
    }
    r
}

/// `s` with every leading copy of `c` removed.
pub fn strip_leading_chars(s: &[char], c: char) -> (r: Vec<char>)
    ensures
        r@ == strip_leading(s@, c),
{
    let n = s.len();
    let mut lo: usize = 0;
    assert(s@.subrange(0, n as int) == s@);
    while lo < n && s[lo] == c
        invariant
            n == s@.len(),
            lo <= n,
            strip_leading(s@, c) == strip_leading(s@.subrange(lo as int, n as int), c),
        decreases n - lo,
    {
        proof {
            assert(s@.subrange(lo as int, n as int).drop_first() == s@.subrange(lo + 1, n as int));
        }
        lo += 1;
    }
    let mut r: Vec<char> = Vec::new();
    let mut i = lo;
    while i < n
        invariant
            n == s@.len(),
            lo <= i <= n,
            r@ == s@.subrange(lo as int, i as int),
        decreases n - i,
    {
        r.push(s[i]);
        proof {
            assert(s@.subrange(lo as int, i + 1) == s@.subrange(lo as int, i as int).push(s@[i as int]));
        }
        i += 1;
    }
    r
}

} // verus!

verus! {

/// Are the two character sequences equal?
pub fn chars_eq(a: &[char], b: &[char]) -> (r: bool)
    ensures
        r == (a@ == b@),
{
    let n = a.len();
    if n != b.len() {
        return false;
    }
    for i in 0..n
        invariant
            n == a@.len(),
            n == b@.len(),
            forall|k: int| 0 <= k < i ==> a@[k] == b@[k],
    {
        if a[i] != b[i] {
            return false;
        }
    }
    proof {
        assert(a@ =~= b@);
    }
    true
}

/// Is `needle` one of the strings in `list`?
pub fn one_of(needle: &[char], list: &[&str]) -> (r: bool)
    ensures
        r == exists|i: int| 0 <= i < list@.len() && list@[i]@ == needle@,
{
    let n = list.len();
    for i in 0..n
        invariant
            n == list@.len(),
            forall|k: int| 0 <= k < i ==> list@[k]@ != needle@,
    {
        let c = chars_of(list[i]);
        if chars_eq(&c, needle) {
            return true;
        }
    }
    false
}

/// ASCII letters and digits.
pub open spec fn is_ascii_alnum(c: char) -> bool {
    ('0' <= c && c <= '9') || ('a' <= c && c <= 'z') || ('A' <= c && c <= 'Z')
}

/// Whether `c` is an ASCII letter or digit.
pub fn ascii_alnum(c: char) -> (r: bool)
    ensures
        r == is_ascii_alnum(c),
{
    ('0' <= c && c <= '9') || ('a' <= c && c <= 'z') || ('A' <= c && c <= 'Z')
}

} // verus!
