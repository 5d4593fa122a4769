//! Human-readable labels: byte sizes, star ratings, dates, elapsed times,
//! elided captions and GIMP palette text.

use vstd::prelude::*;
use vstd::arithmetic::div_mod::{lemma_div_denominator, lemma_fundamental_div_mod};
use crate::order::{lemma_ord_chars_antisym, ord_chars, ord_int};
use crate::text::{
    chars_of, dec, digit_char, digits, pad_left, push_all, push_dec, push_digits, push_repeat, push_str,
    signed_zero_padded, push_signed_zero_padded, string_from_chars, padded_digits,
};

verus! {

/// 2 to the power `k`.
pub open spec fn pow2(k: nat) -> nat
    decreases k,
{
    if k == 0 {
        1
    } else {
        2 * pow2((k - 1) as nat)
    }
}

/// How many low bits of `b` a 64-bit float's 53-bit significand cannot hold.
pub open spec fn f64_shift(b: nat) -> nat
    decreases b,
{
    if b < 0x20_0000_0000_0000 {
        0
    } else {
        1 + f64_shift(b / 2)
    }
}

/// The value of `b as f64`: `b` rounded to the nearest multiple of
/// `2^f64_shift(b)`, ties to the even multiple.
pub open spec fn f64_value(b: nat) -> nat {
    let p = pow2(f64_shift(b));
    let q = b / p;
    let r = b % p;
    if 2 * r > p || (2 * r == p && q % 2 == 1) {
        (q + 1) * p
    } else {
        q * p
    }
}

/// The unit index `human_size` settles on: the largest power of 1024 (up to
/// TB) that the size reaches.
pub open spec fn size_unit(x: nat) -> nat {
    if x >= 0x100_0000_0000 {
        4
    } else if x >= 0x4000_0000 {
        3
    } else if x >= 0x10_0000 {
        2
    } else if x >= 1024 {
        1
    } else {
        0
    }
}

/// 1024 to the power `i`.
pub open spec fn pow1024(i: nat) -> nat
    decreases i,
{
    if i == 0 {
        1
    } else {
        1024 * pow1024((i - 1) as nat)
    }
}

/// `n / d` rounded to the nearest integer, ties to even.
pub open spec fn div_round_even(n: nat, d: nat) -> nat
    recommends
        d > 0,
{
    let q = n / d;
    let r = n % d;
    if 2 * r > d || (2 * r == d && q % 2 == 1) {
        q + 1
    } else {
        q
    }
}

/// The unit names, by index.
pub open spec fn unit_name(i: nat) -> Seq<char> {
    if i == 1 {
        seq!['K', 'B']
    } else if i == 2 {
        seq!['M', 'B']
    } else if i == 3 {
        seq!['G', 'B']
    } else {
        seq!['T', 'B']
    }
}

/// The label `human_size` gives a byte count: `"512 B"` below a KiB, else the
/// float value scaled to the largest unit it reaches (up to TB) with one decimal,
/// rounded half to even, e.g. `"1.5 KB"`.
pub open spec fn human_size_text(bytes: nat) -> Seq<char> {
    let x = f64_value(bytes);
    let i = size_unit(x);
    if i == 0 {
        dec(bytes) + seq![' ', 'B']
    } else {
        let t = div_round_even(x * 10, pow1024(i));
        dec(t / 10) + seq!['.'] + dec(t % 10) + seq![' '] + unit_name(i)
    }
}

proof fn lemma_pow2_pos(k: nat)
    ensures
        pow2(k) >= 1,
    decreases k,
{
    if k > 0 {
        lemma_pow2_pos((k - 1) as nat);
    }
}

/// `b as f64` for a byte count, as an exact integer (at most 2^64).
fn f64_of(b: u64) -> (x: u128)
    ensures
        x == f64_value(b as nat),
        x <= 0x2_0000_0000_0000_0000,
{
    let mut q: u64 = b;
    let mut p: u128 = 1;
    let ghost mut s: nat = 0;
    proof {
        lemma_pow2_pos(0);
    }
    while q >= 0x20_0000_0000_0000
        invariant
            p == pow2(s),
            p >= 1,
            q == b as nat / (p as nat),
            f64_shift(b as nat) == s + f64_shift(q as nat),
            p * q <= b,
            p <= 0x1000,
        decreases q,
    {
        proof {
            lemma_div_denominator(b as int, p as int, 2);
            assert(p * 2 <= 0x1000) by (nonlinear_arith)
                requires
                    p * q <= b,
                    q >= 0x20_0000_0000_0000,
                    b <= 0xffff_ffff_ffff_ffff,
            ;
            assert((q / 2) * (p * 2) <= b) by (nonlinear_arith)
                requires
                    p * q <= b,
                    p >= 1,
            ;
        }
        q = q / 2;
        p = p * 2;
        proof {
            s = s + 1;
        }
    }
    proof {
        assert(f64_shift(q as nat) == 0);
        lemma_fundamental_div_mod(b as int, p as int);
    }
    let qq: u128 = q as u128;
    assert(qq * p == p * q) by (nonlinear_arith)
        requires
            qq == q,
    ;
    let r: u128 = b as u128 - qq * p;
    proof {
        assert(r == (b as nat) % (p as nat)) by {
            lemma_fundamental_div_mod(b as int, p as int);
        }
    }
    assert((qq + 1) * p <= 0x20_0000_0000_0000 * 0x1000) by (nonlinear_arith)
        requires
            qq < 0x20_0000_0000_0000,
            p <= 0x1000,
    ;
    let x: u128 = if 2 * r > p || (2 * r == p && qq % 2 == 1) {
        (qq + 1) * p
    } else {
        qq * p
    };
    proof {
        assert(x <= 0x2_0000_0000_0000_0000) by (nonlinear_arith)
            requires
                x == (qq + 1) * p || x == qq * p,
                qq < 0x20_0000_0000_0000,
                p <= 0x1000,
        ;
    }
    x
}

/// A byte count as a short human-readable size, e.g. `"512 B"`, `"1.5 KB"`.
pub fn human_size(bytes: u64) -> (s: String)
    ensures
        s@ == human_size_text(bytes as nat),
{
    let x = f64_of(bytes);
    let mut out: Vec<char> = Vec::new();
    let i: u64 = if x >= 0x100_0000_0000 {
        4
    } else if x >= 0x4000_0000 {
        3
    } else if x >= 0x10_0000 {
        2
    } else if x >= 1024 {
        1
    } else {
        0
    };
    if i == 0 {
        push_dec(&mut out, bytes);
        push_str(&mut out, " B");
        proof {
            reveal_strlit(" B");
            assert(" B"@ =~= seq![' ', 'B']);
        }
        return string_from_chars(&out);
    }
    let d: u128 = if i == 1 {
        1024
    } else if i == 2 {
        0x10_0000
    } else if i == 3 {
        0x4000_0000
    } else {
        0x100_0000_0000
    };
    proof {
        reveal_with_fuel(pow1024, 5);
        assert(d == pow1024(i as nat));
    }
    let n: u128 = x * 10;
    let q: u128 = n / d;
    let r: u128 = n % d;
    let t: u128 = if 2 * r > d || (2 * r == d && q % 2 == 1) {
        q + 1
    } else {
        q
    };
    assert(t <= 0x600_0000_0000_0000) by (nonlinear_arith)
        requires
            q == n / d,
            n <= 0x14_0000_0000_0000_0000,
            d >= 1024,
            t <= q + 1,
    ;
    let whole: u64 = (t / 10) as u64;
    let frac: u64 = (t % 10) as u64;
    push_dec(&mut out, whole);
    out.push('.');
    push_dec(&mut out, frac);
    out.push(' ');
    let unit = if i == 1 {
        "KB"
    } else if i == 2 {
        "MB"
    } else if i == 3 {
        "GB"
    } else {
        "TB"
    };
    push_str(&mut out, unit);
    proof {
        reveal_strlit("KB");
        reveal_strlit("MB");
        reveal_strlit("GB");
        reveal_strlit("TB");
        assert(unit@ =~= unit_name(i as nat));
        assert(out@ =~= dec(t as nat / 10) + seq!['.'] + dec(t as nat % 10) + seq![' '] + unit_name(i as nat));
    }
    string_from_chars(&out)
}


/// The star label: an em-dash when unrated, else one star per point.
pub open spec fn stars_text(rating: u8) -> Seq<char> {
    if rating == 0 {
        seq!['\u{2014}']
    } else {
        Seq::new(rating as nat, |i: int| '\u{2605}')
    }
}

/// Stars as a string, or an em-dash when unrated.
pub fn stars_label(rating: u8) -> (s: String)
    ensures
        s@ == stars_text(rating),
{
    let mut out: Vec<char> = Vec::new();
    if rating == 0 {
        out.push('\u{2014}');
        proof {
            assert(out@ =~= seq!['\u{2014}']);
        }
    } else {
        push_repeat(&mut out, '\u{2605}', rating as usize);
        proof {
            assert(out@ =~= Seq::new(rating as nat, |i: int| '\u{2605}'));
        }
    }
    string_from_chars(&out)
}

/// `s` cut to at most `max_chars` characters: when it is longer, its first
/// `max_chars - 1` characters and an ellipsis.
pub open spec fn elide_text(s: Seq<char>, max_chars: nat) -> Seq<char> {
    if max_chars == 0 {
        Seq::<char>::empty()
    } else if s.len() <= max_chars {
        s
    } else {
        s.take(max_chars - 1).push('\u{2026}')
    }
}

/// Truncates `s` to at most `max_chars` glyphs, appending an ellipsis if cut.
pub fn elide(s: &str, max_chars: usize) -> (r: String)
    ensures
        r@ == elide_text(s@, max_chars as nat),
        r@.len() <= max_chars,
{
    let v = chars_of(s);
    if max_chars == 0 {
        return string_from_chars(&[]);
    }
    if v.len() <= max_chars {
        return string_from_chars(&v);
    }
    let keep: usize = max_chars - 1;
    let mut out: Vec<char> = Vec::new();
    for i in 0..keep
        invariant
            keep < v@.len(),
            out@ == v@.take(i as int),
    {
        out.push(v[i]);
        proof {
            assert(v@.take(i + 1) == v@.take(i as int).push(v@[i as int]));
        }
    }
    out.push('\u{2026}');
    string_from_chars(&out)
}

/// One colour line of a GIMP palette: the three channels right-aligned in
/// three columns, a tab, and `#RRGGBB`.
pub open spec fn gpl_row(c: [u8; 4]) -> Seq<char> {
    pad_left(dec(c[0] as nat), 3, ' ') + seq![' '] + pad_left(dec(c[1] as nat), 3, ' ') + seq![' ']
        + pad_left(dec(c[2] as nat), 3, ' ') + seq!['\t', '#'] + pad_left(digits(c[0] as nat, 16, true), 2, '0')
        + pad_left(digits(c[1] as nat, 16, true), 2, '0') + pad_left(digits(c[2] as nat, 16, true), 2, '0')
        + seq!['\n']
}

/// One colour line of a GIMP palette.
fn gpl_row_chars(c: [u8; 4]) -> (r: Vec<char>)
    ensures
        r@ == gpl_row(c),
{
    let mut out = padded_digits(c[0] as u64, 10, false, 3, ' ');
    out.push(' ');
    let d1 = padded_digits(c[1] as u64, 10, false, 3, ' ');
    push_all(&mut out, &d1);
    out.push(' ');
    let d2 = padded_digits(c[2] as u64, 10, false, 3, ' ');
    push_all(&mut out, &d2);
    let ghost a = out@;
    out.push('\t');
    out.push('#');
    assert(out@ =~= a + seq!['\t', '#']);
    let h0 = padded_digits(c[0] as u64, 16, true, 2, '0');
    push_all(&mut out, &h0);
    let h1 = padded_digits(c[1] as u64, 16, true, 2, '0');
    push_all(&mut out, &h1);
    let h2 = padded_digits(c[2] as u64, 16, true, 2, '0');
    push_all(&mut out, &h2);
    let ghost b = out@;
    out.push('\n');
    assert(out@ =~= b + seq!['\n']);
    out
}

/// The colour lines of a GIMP palette.
pub open spec fn gpl_rows(pal: Seq<[u8; 4]>) -> Seq<char>
    decreases pal.len(),
{
    if pal.len() == 0 {
        Seq::<char>::empty()
    } else {
        gpl_rows(pal.drop_last()) + gpl_row(pal.last())
    }
}

/// A palette as GIMP `.gpl` text: the header, the name, 16 columns, and one
/// line per colour.
pub open spec fn gpl_text(name: Seq<char>, pal: Seq<[u8; 4]>) -> Seq<char> {
    "GIMP Palette\nName: "@ + name + "\nColumns: 16\n#\n"@ + gpl_rows(pal)
}

/// Serializes a palette to GIMP `.gpl` text (importable by GIMP, Aseprite, etc.).
pub fn to_gpl(name: &str, palette: &[[u8; 4]]) -> (s: String)
    ensures
        s@ == gpl_text(name@, palette@),
{
    let mut out: Vec<char> = Vec::new();
    push_str(&mut out, "GIMP Palette\nName: ");
    push_str(&mut out, name);
    push_str(&mut out, "\nColumns: 16\n#\n");
    let ghost head = out@;
    let n = palette.len();
    for i in 0..n
        invariant
            n == palette@.len(),
            out@ == head + gpl_rows(palette@.take(i as int)),
    {
        let c = palette[i];
        let ghost before = out@;
        let row = gpl_row_chars(c);
        push_all(&mut out, &row);
        proof {
            assert(out@ =~= before + gpl_row(c));
            assert(palette@.take(i + 1).drop_last() =~= palette@.take(i as int));
            assert(palette@.take(i + 1).last() == c);
        }
    }
    proof {
        assert(palette@.take(n as int) =~= palette@);
    }
    string_from_chars(&out)
}

/// The proleptic Gregorian `(year, month, day)` of day number `z` counted from
/// 1970-01-01 (Howard Hinnant's civil-from-days formula).
pub open spec fn civil(z: int) -> (int, int, int) {
    let zz = z + 719468;
    let era = zz / 146097;
    let doe = zz - era * 146097;
    let yoe = (doe - doe / 1460 + doe / 36524 - doe / 146096) / 365;
    let y = yoe + era * 400;
    let doy = doe - (365 * yoe + yoe / 4 - yoe / 100);
    let mp = (5 * doy + 2) / 153;
    let d = doy - (153 * mp + 2) / 5 + 1;
    let m = if mp < 10 { mp + 3 } else { mp - 9 };
    (if m <= 2 { y + 1 } else { y }, m, d)
}

/// The day number of proleptic Gregorian date `(y, m, d)` counted from 1970-01-01.
pub open spec fn days_from_civil(y: int, m: int, d: int) -> int {
    let yy = if m <= 2 { y - 1 } else { y };
    let era = yy / 400;
    let yoe = yy - era * 400;
    let mp = if m > 2 { m - 3 } else { m + 9 };
    let doy = (153 * mp + 2) / 5 + d - 1;
    let doe = yoe * 365 + yoe / 4 - yoe / 100 + doy;
    era * 146097 + doe - 719468
}

/// Day numbers and dates correspond one to one: converting a day number to its
/// date and back gives the day number again, and the date is a real one (month
/// 1 to 12, day 1 to 31).
#[verifier::rlimit(100)]
#[verifier::spinoff_prover]
pub proof fn civil_round_trip(z: int)
    ensures
        1 <= civil(z).1 <= 12,
        1 <= civil(z).2 <= 31,
        days_from_civil(civil(z).0, civil(z).1, civil(z).2) == z,
{
    let zz = z + 719468;
    let era = zz / 146097;
    let doe = zz - era * 146097;
    assert(0 <= doe < 146097) by (nonlinear_arith)
        requires
            doe == zz - era * 146097,
            era == zz / 146097,
    ;
    let yoe = (doe - doe / 1460 + doe / 36524 - doe / 146096) / 365;
    let doy = doe - (365 * yoe + yoe / 4 - yoe / 100);
    assert(0 <= yoe <= 399 && 0 <= doy <= 365) by (nonlinear_arith)
        requires
            0 <= doe < 146097,
            yoe == (doe - doe / 1460 + doe / 36524 - doe / 146096) / 365,
            doy == doe - (365 * yoe + yoe / 4 - yoe / 100),
    ;
    let mp = (5 * doy + 2) / 153;
    let d = doy - (153 * mp + 2) / 5 + 1;
    assert(0 <= mp <= 11 && 1 <= d <= 31 && (153 * mp + 2) / 5 + d - 1 == doy) by (nonlinear_arith)
        requires
            0 <= doy <= 365,
            mp == (5 * doy + 2) / 153,
            d == doy - (153 * mp + 2) / 5 + 1,
    ;
    let y = yoe + era * 400;
    assert((y) / 400 == era && y - era * 400 == yoe) by (nonlinear_arith)
        requires
            y == yoe + era * 400,
            0 <= yoe <= 399,
    ;
    assert(yoe * 365 + yoe / 4 - yoe / 100 + doy == doe);
}

/// A date as one number that orders like the date: year, then month, then day.
pub open spec fn date_key(c: (int, int, int)) -> int {
    c.0 * 10000 + c.1 * 100 + c.2
}

/// The year of the era (counted from March) of day `doe` of a 400-year era.
pub open spec fn era_year(doe: int) -> int {
    (doe - doe / 1460 + doe / 36524 - doe / 146096) / 365
}

/// The day of that March-based year.
pub open spec fn year_day(doe: int) -> int {
    doe - (365 * era_year(doe) + era_year(doe) / 4 - era_year(doe) / 100)
}

#[verifier::rlimit(100)]
proof fn lemma_year_step(doe: int)
    requires
        0 <= doe < 146096,
    ensures
        (era_year(doe + 1) == era_year(doe) && year_day(doe + 1) == year_day(doe) + 1) || (
        era_year(doe + 1) == era_year(doe) + 1 && year_day(doe + 1) == 0 && year_day(doe) >= 364),
{
}

/// The month (counted from March, 0 to 11) of day `doy` of a March-based year.
pub open spec fn month_index(doy: int) -> int {
    (5 * doy + 2) / 153
}

/// The day of the month of day `doy` of a March-based year.
pub open spec fn month_day(doy: int) -> int {
    doy - (153 * month_index(doy) + 2) / 5 + 1
}

proof fn lemma_month_step(doy: int)
    requires
        0 <= doy < 365,
    ensures
        0 <= month_index(doy) <= 11,
        1 <= month_day(doy) <= 31,
        (month_index(doy + 1) == month_index(doy) && month_day(doy + 1) == month_day(doy) + 1) || (
        month_index(doy + 1) == month_index(doy) + 1 && month_day(doy + 1) == 1),
{
}

proof fn lemma_month_bounds(doy: int)
    requires
        0 <= doy <= 365,
    ensures
        0 <= month_index(doy) <= 11,
        1 <= month_day(doy) <= 31,
        doy >= 337 ==> month_index(doy) == 11,
{
}

/// The date key of day `doe` of an era, without the era's own years.
pub open spec fn era_date_key(doe: int) -> int {
    let yoe = era_year(doe);
    let mp = month_index(year_day(doe));
    let d = month_day(year_day(doe));
    let m = if mp < 10 { mp + 3 } else { mp - 9 };
    (if m <= 2 { yoe + 1 } else { yoe }) * 10000 + m * 100 + d
}

proof fn lemma_era_key_step(doe: int)
    requires
        0 <= doe < 146096,
    ensures
        era_date_key(doe) < era_date_key(doe + 1),
{
    lemma_year_step(doe);
    let a = year_day(doe);
    let b = year_day(doe + 1);
    assert(0 <= a <= 365 && 0 <= b <= 365) by {
        lemma_year_day_bounds(doe);
        lemma_year_day_bounds(doe + 1);
    }
    lemma_month_bounds(a);
    lemma_month_bounds(b);
    if b == a + 1 {
        lemma_month_step(a);
    }
}

#[verifier::rlimit(50)]
proof fn lemma_year_day_bounds(doe: int)
    requires
        0 <= doe < 146097,
    ensures
        0 <= era_year(doe) <= 399,
        0 <= year_day(doe) <= 365,
{
}

#[verifier::rlimit(50)]
proof fn lemma_civil_era(z: int)
    ensures
        ({
            let zz = z + 719468;
            let era = zz / 146097;
            let doe = zz - era * 146097;
            &&& 0 <= doe < 146097
            &&& date_key(civil(z)) == era * 4000000 + era_date_key(doe)
        }),
{
    let zz = z + 719468;
    let era = zz / 146097;
    let doe = zz - era * 146097;
    assert(0 <= doe < 146097) by (nonlinear_arith)
        requires
            doe == zz - era * 146097,
            era == zz / 146097,
    ;
}

/// Later day numbers have later dates.
proof fn lemma_civil_step(z: int)
    ensures
        date_key(civil(z)) < date_key(civil(z + 1)),
{
    let zz = z + 719468;
    let era = zz / 146097;
    let doe = zz - era * 146097;
    lemma_civil_era(z);
    lemma_civil_era(z + 1);
    let era2 = (zz + 1) / 146097;
    let doe2 = zz + 1 - era2 * 146097;
    if doe < 146096 {
        assert(era2 == era && doe2 == doe + 1) by (nonlinear_arith)
            requires
                era == zz / 146097,
                era2 == (zz + 1) / 146097,
                doe == zz - era * 146097,
                doe2 == zz + 1 - era2 * 146097,
                0 <= doe < 146096,
        ;
        lemma_era_key_step(doe);
    } else {
        assert(era2 == era + 1 && doe2 == 0) by (nonlinear_arith)
            requires
                era == zz / 146097,
                era2 == (zz + 1) / 146097,
                doe == zz - era * 146097,
                doe2 == zz + 1 - era2 * 146097,
                doe == 146096,
        ;
        assert(era_date_key(146096) == 4000229);
        assert(era_date_key(0) == 301);
    }
}

proof fn lemma_civil_monotone(z1: int, z2: int)
    requires
        z1 < z2,
    ensures
        date_key(civil(z1)) < date_key(civil(z2)),
    decreases z2 - z1,
{
    lemma_civil_step(z1);
    if z1 + 1 < z2 {
        lemma_civil_monotone(z1 + 1, z2);
    }
}

/// 10 to the power `k`.
pub open spec fn pow10(k: nat) -> nat
    decreases k,
{
    if k == 0 {
        1
    } else {
        10 * pow10((k - 1) as nat)
    }
}

/// `n`'s last `w` decimal digits, zero-filled on the left.
pub open spec fn fixed_digits(n: nat, w: nat) -> Seq<char>
    decreases w,
{
    if w == 0 {
        seq![]
    } else {
        fixed_digits(n / 10, (w - 1) as nat).push(digit_char(n % 10, false))
    }
}

proof fn lemma_fixed_zero(k: nat)
    ensures
        fixed_digits(0, k) == Seq::new(k, |i: int| '0'),
    decreases k,
{
    if k > 0 {
        lemma_fixed_zero((k - 1) as nat);
        assert(fixed_digits(0, k) =~= Seq::new(k, |i: int| '0'));
    } else {
        assert(fixed_digits(0, k) =~= Seq::new(k, |i: int| '0'));
    }
}

proof fn lemma_dec_fits(n: nat, w: nat)
    requires
        w >= 1,
        n < pow10(w),
    ensures
        dec(n).len() <= w,
    decreases w,
{
    if n >= 10 {
        assert(w >= 2) by {
            if w == 1 {
                assert(pow10(1) == 10) by {
                    reveal_with_fuel(pow10, 2);
                }
            }
        }
        assert(n / 10 < pow10((w - 1) as nat)) by (nonlinear_arith)
            requires
                n < pow10(w),
                pow10(w) == 10 * pow10((w - 1) as nat),
        ;
        lemma_dec_fits(n / 10, (w - 1) as nat);
    }
}

proof fn lemma_pad_fixed(n: nat, w: nat)
    requires
        w >= 1,
        n < pow10(w),
    ensures
        pad_left(dec(n), w, '0') == fixed_digits(n, w),
    decreases w,
{
    lemma_dec_fits(n, w);
    if n < 10 {
        lemma_fixed_zero((w - 1) as nat);
        assert(n / 10 == 0 && n % 10 == n);
        assert(pad_left(dec(n), w, '0') =~= fixed_digits(n, w));
    } else {
        assert(w >= 2) by {
            if w == 1 {
                assert(pow10(1) == 10) by {
                    reveal_with_fuel(pow10, 2);
                }
            }
        }
        assert(n / 10 < pow10((w - 1) as nat)) by (nonlinear_arith)
            requires
                n < pow10(w),
                pow10(w) == 10 * pow10((w - 1) as nat),
        ;
        lemma_pad_fixed(n / 10, (w - 1) as nat);
        lemma_dec_fits(n / 10, (w - 1) as nat);
        let s = dec(n / 10);
        assert(dec(n) == s.push(digit_char(n % 10, false)));
        assert(pad_left(s.push(digit_char(n % 10, false)), w, '0') =~= pad_left(s, (w - 1) as nat, '0').push(
            digit_char(n % 10, false),
        ));
    }
}

proof fn lemma_fixed_len(n: nat, w: nat)
    ensures
        fixed_digits(n, w).len() == w,
    decreases w,
{
    if w > 0 {
        lemma_fixed_len(n / 10, (w - 1) as nat);
    }
}

proof fn lemma_ord_concat(a: Seq<char>, b: Seq<char>, c: Seq<char>, e: Seq<char>)
    requires
        a.len() == c.len(),
    ensures
        ord_chars(a + b, c + e) == if a == c {
            ord_chars(b, e)
        } else {
            ord_chars(a, c)
        },
    decreases a.len(),
{
    if a.len() == 0 {
        assert(a + b =~= b);
        assert(c + e =~= e);
        assert(a =~= c);
    } else {
        assert((a + b).drop_first() =~= a.drop_first() + b);
        assert((c + e).drop_first() =~= c.drop_first() + e);
        lemma_ord_concat(a.drop_first(), b, c.drop_first(), e);
        if a[0] == c[0] {
            if a.drop_first() == c.drop_first() {
                assert(a =~= seq![a[0]] + a.drop_first());
                assert(c =~= seq![c[0]] + c.drop_first());
            } else {
                assert(a != c);
            }
        }
    }
}

proof fn lemma_fixed_order(a: nat, b: nat, w: nat)
    requires
        a < pow10(w),
        b < pow10(w),
    ensures
        ord_chars(fixed_digits(a, w), fixed_digits(b, w)) == ord_int(a as int, b as int),
    decreases w,
{
    if w == 0 {
        assert(a == 0 && b == 0);
    } else {
        assert(a / 10 < pow10((w - 1) as nat) && b / 10 < pow10((w - 1) as nat)) by (nonlinear_arith)
            requires
                a < pow10(w),
                b < pow10(w),
                pow10(w) == 10 * pow10((w - 1) as nat),
        ;
        lemma_fixed_order(a / 10, b / 10, (w - 1) as nat);
        lemma_fixed_len(a / 10, (w - 1) as nat);
        lemma_fixed_len(b / 10, (w - 1) as nat);
        let pa = fixed_digits(a / 10, (w - 1) as nat);
        let pb = fixed_digits(b / 10, (w - 1) as nat);
        let da = digit_char(a % 10, false);
        let db = digit_char(b % 10, false);
        assert(fixed_digits(a, w) =~= pa + seq![da]);
        assert(fixed_digits(b, w) =~= pb + seq![db]);
        lemma_ord_concat(pa, seq![da], pb, seq![db]);
        lemma_ord_chars_antisym(pa, pb);
        assert(a == 10 * (a / 10) + a % 10 && b == 10 * (b / 10) + b % 10) by (nonlinear_arith);
        if a / 10 == b / 10 {
            assert(seq![da].drop_first() =~= Seq::<char>::empty());
            assert(seq![db].drop_first() =~= Seq::<char>::empty());
            assert(da as u32 == (a % 10 + 48) as u32);
            assert(db as u32 == (b % 10 + 48) as u32);
            assert((da < db) == ((da as u32) < (db as u32)));
            assert((da == db) == ((da as u32) == (db as u32)));
            assert(seq![da][0] == da && seq![db][0] == db);
            reveal_with_fuel(ord_chars, 2);
            assert(ord_chars(seq![da], seq![db]) == ord_int((a % 10) as int, (b % 10) as int));
        } else {
            assert(ord_int((a / 10) as int, (b / 10) as int) == ord_int(a as int, b as int));
        }
    }
}

/// Dates as `YYYY-MM-DD` text sort as the days do: for days in the years 0 to
/// 9999, the earlier day's text comes first when compared as text, so date-range
/// checks can be plain string comparisons.
pub proof fn date_text_sorts_chronologically(z1: int, z2: int)
    requires
        z1 < z2,
        0 <= civil(z1).0,
        civil(z2).0 <= 9999,
    ensures
        ord_chars(day_text(z1), day_text(z2)) < 0,
{
    lemma_civil_monotone(z1, z2);
    civil_round_trip(z1);
    civil_round_trip(z2);
    let c1 = civil(z1);
    let c2 = civil(z2);
    assert(c1.0 <= c2.0);
    reveal_with_fuel(pow10, 5);
    assert(pow10(4) == 10000 && pow10(2) == 100);
    let y1 = c1.0 as nat;
    let y2 = c2.0 as nat;
    let m1 = c1.1 as nat;
    let m2 = c2.1 as nat;
    let d1 = c1.2 as nat;
    let d2 = c2.2 as nat;
    lemma_pad_fixed(y1, 4);
    lemma_pad_fixed(y2, 4);
    lemma_pad_fixed(m1, 2);
    lemma_pad_fixed(m2, 2);
    lemma_pad_fixed(d1, 2);
    lemma_pad_fixed(d2, 2);
    lemma_fixed_len(y1, 4);
    lemma_fixed_len(y2, 4);
    lemma_fixed_len(m1, 2);
    lemma_fixed_len(m2, 2);
    let t1 = day_text(z1);
    let t2 = day_text(z2);
    assert(y1 < y2 || (y1 == y2 && m1 < m2) || (y1 == y2 && m1 == m2 && d1 < d2));
    let fy1 = fixed_digits(y1, 4);
    let fy2 = fixed_digits(y2, 4);
    let fm1 = fixed_digits(m1, 2);
    let fm2 = fixed_digits(m2, 2);
    let fd1 = fixed_digits(d1, 2);
    let fd2 = fixed_digits(d2, 2);
    assert(t1 =~= fy1 + ((seq!['-'] + fm1) + (seq!['-'] + fd1)));
    assert(t2 =~= fy2 + ((seq!['-'] + fm2) + (seq!['-'] + fd2)));
    lemma_fixed_order(y1, y2, 4);
    lemma_ord_chars_antisym(fy1, fy2);
    lemma_ord_concat(fy1, (seq!['-'] + fm1) + (seq!['-'] + fd1), fy2, (seq!['-'] + fm2) + (seq!['-'] + fd2));
    if y1 == y2 {
        lemma_fixed_order(m1, m2, 2);
        lemma_ord_chars_antisym(fm1, fm2);
        assert((seq!['-'] + fm1) + (seq!['-'] + fd1) =~= seq!['-'] + (fm1 + (seq!['-'] + fd1)));
        assert((seq!['-'] + fm2) + (seq!['-'] + fd2) =~= seq!['-'] + (fm2 + (seq!['-'] + fd2)));
        lemma_ord_concat(seq!['-'], fm1 + (seq!['-'] + fd1), seq!['-'], fm2 + (seq!['-'] + fd2));
        lemma_ord_concat(fm1, seq!['-'] + fd1, fm2, seq!['-'] + fd2);
        if m1 == m2 {
            lemma_fixed_order(d1, d2, 2);
            lemma_ord_concat(seq!['-'], fd1, seq!['-'], fd2);
        }
    }
}

/// Days since the Unix epoch as `(year, month, day)`, without a date library.
#[verifier::rlimit(50)]
#[verifier::spinoff_prover]
pub fn civil_from_days(z: i64) -> (r: (i64, u32, u32))
    requires
        z <= 9223372036854056339,
    ensures
        r == (civil(z as int).0 as i64, civil(z as int).1 as u32, civil(z as int).2 as u32),
{
    let zz: i64 = z + 719468;
    let era: i64 = if zz >= 0 {
        zz / 146097
    } else {
        -((-(zz + 1)) / 146097) - 1
    };
    assert(era == zz as int / 146097) by (nonlinear_arith)
        requires
            zz >= 0 ==> era == zz / 146097,
            zz < 0 ==> era == -((-(zz + 1)) / 146097) - 1,
    ;
    let doe: i64 = zz - era * 146097;
    assert(0 <= doe < 146097) by (nonlinear_arith)
        requires
            doe == zz - era * 146097,
            era == zz / 146097,
    ;
    let yoe: i64 = (doe - doe / 1460 + doe / 36524 - doe / 146096) / 365;
    assert(0 <= yoe <= 401) by (nonlinear_arith)
        requires
            yoe == (doe - doe / 1460 + doe / 36524 - doe / 146096) / 365,
            0 <= doe < 146097,
    ;
    let y: i64 = yoe + era * 400;
    let doy: i64 = doe - (365 * yoe + yoe / 4 - yoe / 100);
    assert(-200000 <= doy <= 146097) by (nonlinear_arith)
        requires
            doy == doe - (365 * yoe + yoe / 4 - yoe / 100),
            0 <= doe < 146097,
            0 <= yoe <= 401,
    ;
    let mp: i64 = (5 * doy + 2) / 153;
    let d: i64 = doy - (153 * mp + 2) / 5 + 1;
    let m: i64 = if mp < 10 { mp + 3 } else { mp - 9 };
    assert(-100000000000000 <= era <= 100000000000000) by (nonlinear_arith)
        requires
            era == zz / 146097,
            zz <= 9223372036854775807,
            zz >= -9223372036854775808,
    ;
    let yr: i64 = if m <= 2 { y + 1 } else { y };
    (yr, m as u32, d as u32)
}


/// `YYYY-MM-DD` for a civil date (year zero-padded to four characters, sign
/// included; month and day to two digits).
pub open spec fn ymd_text(y: i64, m: u32, d: u32) -> Seq<char> {
    signed_zero_padded(y as int, 4) + seq!['-'] + pad_left(dec(m as nat), 2, '0') + seq!['-']
        + pad_left(dec(d as nat), 2, '0')
}

/// The date text of day number `z`.
pub open spec fn day_text(z: int) -> Seq<char> {
    ymd_text(civil(z).0 as i64, civil(z).1 as u32, civil(z).2 as u32)
}

/// Formats a civil date as `YYYY-MM-DD`.
fn ymd_chars(y: i64, m: u32, d: u32) -> (r: Vec<char>)
    ensures
        r@ == ymd_text(y, m, d),
{
    let mut out: Vec<char> = Vec::new();
    push_signed_zero_padded(&mut out, y, 4);
    out.push('-');
    let mm = padded_digits(m as u64, 10, false, 2, '0');
    push_all(&mut out, &mm);
    out.push('-');
    let dd = padded_digits(d as u64, 10, false, 2, '0');
    push_all(&mut out, &dd);
    proof {
        assert(out@ =~= ymd_text(y, m, d));
    }
    out
}

/// Unix seconds as `YYYY-MM-DD` (UTC).
pub fn date_ymd_unix(secs: i64) -> (s: String)
    ensures
        s@ == day_text(secs as int / 86400),
{
    let z: i64 = if secs >= 0 {
        secs / 86400
    } else {
        -((-(secs + 1)) / 86400) - 1
    };
    assert(z == secs as int / 86400) by (nonlinear_arith)
        requires
            secs >= 0 ==> z == secs / 86400,
            secs < 0 ==> z == -((-(secs + 1)) / 86400) - 1,
    ;
    let (y, m, d) = civil_from_days(z);
    string_from_chars(&ymd_chars(y, m, d))
}

/// A timestamp `(seconds, nanoseconds)` since the Unix epoch as `YYYY-MM-DD`
/// (UTC); times before the epoch read as 1970-01-01.
pub fn date_ymd(t: (i64, u32)) -> (s: String)
    ensures
        s@ == day_text(if t.0 >= 0 { t.0 as int / 86400 } else { 0 }),
{
    let secs: i64 = if t.0 >= 0 { t.0 } else { 0 };
    let z: i64 = secs / 86400;
    let (y, m, d) = civil_from_days(z);
    string_from_chars(&ymd_chars(y, m, d))
}

/// The relative age label for an elapsed time in seconds (`None` when the time
/// lies in the future): `"42s ago"`, `"5m ago"`, `"3h ago"`, `"2d ago"`, or
/// `"just now"`.
pub open spec fn age_text(elapsed: Option<u64>) -> Seq<char> {
    match elapsed {
        None => "just now"@,
        Some(s) => if s < 60 {
            dec(s as nat) + "s ago"@
        } else if s < 3600 {
            dec((s / 60) as nat) + "m ago"@
        } else if s < 86400 {
            dec((s / 3600) as nat) + "h ago"@
        } else {
            dec((s / 86400) as nat) + "d ago"@
        },
    }
}

/// Relative "modified" label for a file whose age in seconds is `elapsed`.
pub fn fmt_age(elapsed: Option<u64>) -> (r: String)
    ensures
        r@ == age_text(elapsed),
{
    let mut out: Vec<char> = Vec::new();
    match elapsed {
        None => {
            push_str(&mut out, "just now");
        },
        Some(s) => {
            if s < 60 {
                push_dec(&mut out, s);
                push_str(&mut out, "s ago");
            } else if s < 3600 {
                push_dec(&mut out, s / 60);
                push_str(&mut out, "m ago");
            } else if s < 86400 {
                push_dec(&mut out, s / 3600);
                push_str(&mut out, "h ago");
            } else {
                push_dec(&mut out, s / 86400);
                push_str(&mut out, "d ago");
            }
        },
    }
    string_from_chars(&out)
}

} // verus!
