//! The advanced-search form: every field optional text (blank means "no
//! constraint"), its persisted record, and its short human-readable summary.

use vstd::prelude::*;
use crate::browse::{ColoPiece, Entry, Sauce};
use crate::order::{compare_chars, ord_chars};
use crate::paths::{extension, extension_of, file_name, file_name_of};
use crate::text::{
    chars_of, contains, dec, has_substring, occurs_at, lower, push_all, push_dec, push_str, string_from_chars,
    strip_leading, to_lower, trim, trim_chars,
};

verus! {

/// The advanced-search form. Numeric bounds are kept as text so that a blank box
/// means "unbounded".
pub struct SearchSpec {
    /// File name contains (case-insensitive).
    pub name: String,
    /// Comma- or space-separated extensions; blank means any type.
    pub ext: String,
    pub wmin: String,
    pub wmax: String,
    pub hmin: String,
    pub hmax: String,
    /// Matches any of the SAUCE title, author, group or font.
    pub sauce: String,
    /// File-size bounds, in KB.
    pub smin: String,
    pub smax: String,
    /// Modified-date bounds, `YYYY-MM-DD`, inclusive.
    pub dfrom: String,
    pub dto: String,
    /// Minimum star rating.
    pub rmin: String,
}

impl Default for SearchSpec {
    fn default() -> (s: SearchSpec)
        ensures
            forall|i: int| 0 <= i < 12 ==> (#[trigger] fields_of(s)[i]).len() == 0,
    {
        SearchSpec {
            name: String::new(),
            ext: String::new(),
            wmin: String::new(),
            wmax: String::new(),
            hmin: String::new(),
            hmax: String::new(),
            sauce: String::new(),
            smin: String::new(),
            smax: String::new(),
            dfrom: String::new(),
            dto: String::new(),
            rmin: String::new(),
        }
    }
}

impl Clone for SearchSpec {
    fn clone(&self) -> (r: SearchSpec)
        ensures
            r == *self,
    {
        SearchSpec {
            name: self.name.clone(),
            ext: self.ext.clone(),
            wmin: self.wmin.clone(),
            wmax: self.wmax.clone(),
            hmin: self.hmin.clone(),
            hmax: self.hmax.clone(),
            sauce: self.sauce.clone(),
            smin: self.smin.clone(),
            smax: self.smax.clone(),
            dfrom: self.dfrom.clone(),
            dto: self.dto.clone(),
            rmin: self.rmin.clone(),
        }
    }
}

/// The twelve fields in their persisted order.
pub open spec fn fields_of(s: SearchSpec) -> Seq<Seq<char>> {
    seq![
        s.name@, s.ext@, s.wmin@, s.wmax@, s.hmin@, s.hmax@, s.sauce@, s.smin@, s.smax@, s.dfrom@,
        s.dto@, s.rmin@,
    ]
}

/// The strings of a list, as character sequences.
pub open spec fn strings_view(v: Seq<String>) -> Seq<Seq<char>> {
    v.map_values(|s: String| s@)
}

/// The fields a persisted record restores: the record's entries in order, any
/// missing trailing field blank (so records saved before a field existed load).
pub open spec fn fields_from_record(r: Seq<Seq<char>>) -> Seq<Seq<char>> {
    Seq::new(12, |i: int| if i < r.len() { r[i] } else { Seq::<char>::empty() })
}

/// Restoring the persisted record of a form gives back the same form.
pub proof fn record_round_trip(s: SearchSpec)
    ensures
        fields_from_record(fields_of(s)) == fields_of(s),
{
    assert(fields_from_record(fields_of(s)) =~= fields_of(s));
}

/// The decimal number the digits `s` spell.
pub open spec fn dec_number(s: Seq<char>) -> int
    decreases s.len(),
{
    if s.len() == 0 {
        0
    } else {
        dec_number(s.drop_last()) * 10 + (s.last() as int - '0' as int)
    }
}

/// Every character of `s` is a decimal digit.
pub open spec fn all_digits(s: Seq<char>) -> bool {
    forall|i: int| 0 <= i < s.len() ==> '0' <= #[trigger] s[i] && s[i] <= '9'
}

/// What `str::parse::<u32>` gives: an optional `+`, then one or more decimal
/// digits whose value fits in 32 bits.
pub open spec fn u32_text(t: Seq<char>) -> Option<u32> {
    let d = if t.len() > 0 && t[0] == '+' { t.drop_first() } else { t };
    if d.len() > 0 && all_digits(d) && dec_number(d) <= u32::MAX {
        Some(dec_number(d) as u32)
    } else {
        None
    }
}

/// A numeric field's value: `None` when blank or not a 32-bit number.
pub open spec fn dim_value(s: Seq<char>) -> Option<u32> {
    let t = trim(s);
    if t.len() == 0 {
        None
    } else {
        u32_text(t)
    }
}

fn parse_u32(t: &[char]) -> (r: Option<u32>)
    ensures
        r == u32_text(t@),
{
    let from: usize = if t.len() > 0 && t[0] == '+' { 1 } else { 0 };
    let ghost d = if t@.len() > 0 && t@[0] == '+' { t@.drop_first() } else { t@ };
    proof {
        assert(t@.skip(from as int) =~= d);
    }
    if from >= t.len() {
        return None;
    }
    let mut n: u64 = 0;
    let mut k: usize = from;
    while k < t.len()
        invariant
            from <= k <= t@.len(),
            from < t@.len(),
            d == (if t@.len() > 0 && t@[0] == '+' { t@.drop_first() } else { t@ }),
            d == t@.skip(from as int),
            all_digits(t@.subrange(from as int, k as int)),
            n == dec_number(t@.subrange(from as int, k as int)),
            n <= u32::MAX,
        decreases t@.len() - k,
    {
        let c = t[k];
        let ghost s1 = t@.subrange(from as int, k + 1);
        proof {
            assert(s1.drop_last() =~= t@.subrange(from as int, k as int));
            assert(s1.last() == c);
        }
        if !('0' <= c && c <= '9') {
            proof {
                assert(d[k - from] == c);
            }
            return None;
        }
        n = n * 10 + ((c as u32) - ('0' as u32)) as u64;
        if n > 0xffff_ffffu64 {
            proof {
                assert(d.subrange(0, k + 1 - from) =~= s1);
                if all_digits(d) {
                    lemma_dec_number_grows(d, (k + 1 - from) as int);
                }
            }
            return None;
        }
        k = k + 1;
    }
    proof {
        assert(t@.subrange(from as int, k as int) =~= d);
    }
    Some(n as u32)
}

proof fn lemma_dec_number_nonneg(d: Seq<char>)
    requires
        all_digits(d),
    ensures
        dec_number(d) >= 0,
    decreases d.len(),
{
    if d.len() > 0 {
        assert(all_digits(d.drop_last()));
        lemma_dec_number_nonneg(d.drop_last());
    }
}

proof fn lemma_dec_number_grows(d: Seq<char>, k: int)
    requires
        0 <= k <= d.len(),
        all_digits(d),
    ensures
        dec_number(d) >= dec_number(d.subrange(0, k)),
    decreases d.len(),
{
    if k < d.len() {
        let p = d.drop_last();
        assert(all_digits(p));
        lemma_dec_number_nonneg(p);
        lemma_dec_number_grows(p, k);
        assert(p.subrange(0, k) =~= d.subrange(0, k));
    } else {
        assert(d.subrange(0, k) =~= d);
    }
}

/// The number in a numeric field, if it holds one (blank reads as none).
pub fn parse_dim(s: &str) -> (r: Option<u32>)
    ensures
        r == dim_value(s@),
{
    let cs = chars_of(s);
    let t = trim_chars(&cs);
    if t.len() == 0 {
        None
    } else {
        parse_u32(&t)
    }
}

/// The summary part of a bounds pair: `label≥lo`, `label≤hi` or `labello-hi`,
/// with the unit after, or nothing when both are blank.
pub open spec fn range_part(lo: Seq<char>, hi: Seq<char>, label: Seq<char>, unit: Seq<char>) -> Option<Seq<char>> {
    let l = trim(lo);
    let h = trim(hi);
    if l.len() == 0 && h.len() == 0 {
        None
    } else if h.len() == 0 {
        Some(label + "≥"@ + l + unit)
    } else if l.len() == 0 {
        Some(label + "≤"@ + h + unit)
    } else {
        Some(label + l + "-"@ + h + unit)
    }
}

/// The summary part of the date bounds: one date when both are the same, else
/// `≥from`, `≤to` or `from..to`, or nothing when both are blank.
pub open spec fn date_part(from: Seq<char>, to: Seq<char>) -> Option<Seq<char>> {
    let a = trim(from);
    let b = trim(to);
    if a.len() == 0 && b.len() == 0 {
        None
    } else if a == b {
        Some(a)
    } else if b.len() == 0 {
        Some("≥"@ + a)
    } else if a.len() == 0 {
        Some("≤"@ + b)
    } else {
        Some(a + ".."@ + b)
    }
}

/// A list of the part, if there is one.
pub open spec fn part_list(o: Option<Seq<char>>) -> Seq<Seq<char>> {
    match o {
        Some(p) => seq![p],
        None => seq![],
    }
}

/// The rating part: `N★+` for a positive minimum rating (capped at 5).
pub open spec fn rating_part(rmin: Seq<char>) -> Option<Seq<char>> {
    match dim_value(rmin) {
        Some(r) => if r > 0 {
            Some(dec(if r < 5 { r as nat } else { 5 }) + "★+"@)
        } else {
            None
        },
        None => None,
    }
}

/// The active criteria of a form, in summary order.
pub open spec fn summary_parts(s: SearchSpec) -> Seq<Seq<char>> {
    let name = trim(s.name@);
    let ext = trim(s.ext@);
    let sauce = trim(s.sauce@);
    part_list(if name.len() > 0 { Some(name) } else { None }) + part_list(
        if ext.len() > 0 { Some("*."@ + ext) } else { None },
    ) + part_list(range_part(s.wmin@, s.wmax@, "W"@, seq![])) + part_list(
        range_part(s.hmin@, s.hmax@, "H"@, seq![]),
    ) + part_list(range_part(s.smin@, s.smax@, seq![], "KB"@)) + part_list(
        date_part(s.dfrom@, s.dto@),
    ) + part_list(rating_part(s.rmin@)) + part_list(
        if sauce.len() > 0 { Some("sauce:"@ + sauce) } else { None },
    )
}

/// `parts` joined with `sep` between neighbours.
pub open spec fn join(parts: Seq<Seq<char>>, sep: Seq<char>) -> Seq<char>
    decreases parts.len(),
{
    if parts.len() == 0 {
        seq![]
    } else if parts.len() == 1 {
        parts[0]
    } else {
        join(parts.drop_last(), sep) + sep + parts.last()
    }
}

/// The summary of a form: its active criteria joined with ` · `, or `filter`
/// when none is set.
pub open spec fn summary_text(s: SearchSpec) -> Seq<char> {
    let parts = summary_parts(s);
    if parts.len() == 0 {
        "filter"@
    } else {
        join(parts, " · "@)
    }
}

fn push_part(parts: &mut Vec<Vec<char>>, p: Vec<char>)
    ensures
        chars_view(final(parts)@) == chars_view(old(parts)@) + seq![p@],
{
    let ghost before = parts@;
    parts.push(p);
    proof {
        assert(chars_view(parts@) =~= chars_view(before) + seq![p@]);
    }
}

/// A list of character vectors, as sequences.
pub open spec fn chars_view(v: Seq<Vec<char>>) -> Seq<Seq<char>> {
    v.map_values(|c: Vec<char>| c@)
}

fn range_chars(lo: &str, hi: &str, label: &str, unit: &str) -> (r: Option<Vec<char>>)
    ensures
        match r {
            Some(v) => range_part(lo@, hi@, label@, unit@) == Some(v@),
            None => range_part(lo@, hi@, label@, unit@) is None,
        },
{
    let lc = chars_of(lo);
    let hc = chars_of(hi);
    let l = trim_chars(&lc);
    let h = trim_chars(&hc);
    if l.len() == 0 && h.len() == 0 {
        return None;
    }
    let mut out: Vec<char> = Vec::new();
    push_str(&mut out, label);
    if h.len() == 0 {
        push_str(&mut out, "≥");
        push_all(&mut out, &l);
    } else if l.len() == 0 {
        push_str(&mut out, "≤");
        push_all(&mut out, &h);
    } else {
        push_all(&mut out, &l);
        push_str(&mut out, "-");
        push_all(&mut out, &h);
    }
    push_str(&mut out, unit);
    Some(out)
}

fn same_chars(a: &[char], b: &[char]) -> (r: bool)
    ensures
        r == (a@ == b@),
{
    if a.len() != b.len() {
        return false;
    }
    let mut i: usize = 0;
    while i < a.len()
        invariant
            a@.len() == b@.len(),
            i <= a@.len(),
            forall|k: int| 0 <= k < i ==> a@[k] == b@[k],
        decreases a@.len() - i,
    {
        if a[i] != b[i] {
            return false;
        }
        i = i + 1;
    }
    proof {
        assert(a@ =~= b@);
    }
    true
}

/// The part for a trimmed text field: `prefix` then the text, or nothing
/// when it is blank.
fn text_part(field: &str, prefix: &str) -> (r: Option<Vec<char>>)
    ensures
        match r {
            Some(v) => trim(field@).len() > 0 && v@ == prefix@ + trim(field@),
            None => trim(field@).len() == 0,
        },
{
    let c = chars_of(field);
    let t = trim_chars(&c);
    if t.len() == 0 {
        return None;
    }
    let mut p: Vec<char> = Vec::new();
    push_str(&mut p, prefix);
    push_all(&mut p, &t);
    Some(p)
}

fn date_chars(from: &str, to: &str) -> (r: Option<Vec<char>>)
    ensures
        match r {
            Some(v) => date_part(from@, to@) == Some(v@),
            None => date_part(from@, to@) is None,
        },
{
    let a_c = chars_of(from);
    let a = trim_chars(&a_c);
    let b_c = chars_of(to);
    let b = trim_chars(&b_c);
    if a.len() == 0 && b.len() == 0 {
        None
    } else if same_chars(&a, &b) {
        Some(a)
    } else if b.len() == 0 {
        let mut p: Vec<char> = Vec::new();
        push_str(&mut p, "≥");
        push_all(&mut p, &a);
        Some(p)
    } else if a.len() == 0 {
        let mut p: Vec<char> = Vec::new();
        push_str(&mut p, "≤");
        push_all(&mut p, &b);
        Some(p)
    } else {
        let mut p: Vec<char> = Vec::new();
        push_all(&mut p, &a);
        push_str(&mut p, "..");
        push_all(&mut p, &b);
        Some(p)
    }
}

fn rating_chars(rmin: &str) -> (r: Option<Vec<char>>)
    ensures
        match r {
            Some(v) => rating_part(rmin@) == Some(v@),
            None => rating_part(rmin@) is None,
        },
{
    match parse_dim(rmin) {
        Some(r) => {
            if r > 0 {
                let mut p: Vec<char> = Vec::new();
                let capped: u32 = if r < 5 { r } else { 5 };
                push_dec(&mut p, capped as u64);
                push_str(&mut p, "★+");
                Some(p)
            } else {
                None
            }
        },
        None => None,
    }
}

fn push_opt(parts: &mut Vec<Vec<char>>, o: Option<Vec<char>>)
    ensures
        chars_view(final(parts)@) == chars_view(old(parts)@) + part_list(
            match o {
                Some(v) => Some(v@),
                None => None,
            },
        ),
{
    match o {
        Some(p) => push_part(parts, p),
        None => {
            proof {
                assert(chars_view(parts@) + Seq::<Seq<char>>::empty() =~= chars_view(parts@));
            }
        },
    }
}

impl SearchSpec {
    /// The active criteria, in summary order.
    fn summary_part_list(&self) -> (parts: Vec<Vec<char>>)
        ensures
            chars_view(parts@) == summary_parts(*self),
    {
        let mut parts: Vec<Vec<char>> = Vec::new();
        let ghost p0 = chars_view(parts@);
        push_opt(&mut parts, text_part(self.name.as_str(), ""));
        let ghost p1 = chars_view(parts@);
        push_opt(&mut parts, text_part(self.ext.as_str(), "*."));
        let ghost p2 = chars_view(parts@);
        push_opt(&mut parts, range_chars(self.wmin.as_str(), self.wmax.as_str(), "W", ""));
        let ghost p3 = chars_view(parts@);
        push_opt(&mut parts, range_chars(self.hmin.as_str(), self.hmax.as_str(), "H", ""));
        let ghost p4 = chars_view(parts@);
        push_opt(&mut parts, range_chars(self.smin.as_str(), self.smax.as_str(), "", "KB"));
        let ghost p5 = chars_view(parts@);
        push_opt(&mut parts, date_chars(self.dfrom.as_str(), self.dto.as_str()));
        let ghost p6 = chars_view(parts@);
        push_opt(&mut parts, rating_chars(self.rmin.as_str()));
        let ghost p7 = chars_view(parts@);
        push_opt(&mut parts, text_part(self.sauce.as_str(), "sauce:"));
        proof {
            reveal_strlit("");
            assert(p0 =~= Seq::<Seq<char>>::empty());
            let name = trim(self.name@);
            assert(p1 =~= part_list(if name.len() > 0 { Some(name) } else { None }));
            let ext = trim(self.ext@);
            assert(p2 =~= p1 + part_list(if ext.len() > 0 { Some("*."@ + ext) } else { None }));
            assert(chars_view(parts@) =~= summary_parts(*self));
        }
        parts
    }
}

impl SearchSpec {
    /// The fields in persisted order.
    pub fn all_fields(&self) -> (v: Vec<&String>)
        ensures
            v@.len() == 12,
            forall|i: int| 0 <= i < 12 ==> (#[trigger] v@[i])@ == fields_of(*self)[i],
    {
        vec![
            &self.name,
            &self.ext,
            &self.wmin,
            &self.wmax,
            &self.hmin,
            &self.hmax,
            &self.sauce,
            &self.smin,
            &self.smax,
            &self.dfrom,
            &self.dto,
            &self.rmin,
        ]
    }

    /// No field holds anything but whitespace.
    pub fn is_blank(&self) -> (b: bool)
        ensures
            b <==> forall|i: int| 0 <= i < 12 ==> trim(#[trigger] fields_of(*self)[i]).len() == 0,
    {
        let fields = self.all_fields();
        let mut i: usize = 0;
        while i < fields.len()
            invariant
                fields@.len() == 12,
                forall|k: int| 0 <= k < 12 ==> (#[trigger] fields@[k])@ == fields_of(*self)[k],
                i <= 12,
                forall|k: int| 0 <= k < i ==> trim(#[trigger] fields_of(*self)[k]).len() == 0,
            decreases 12 - i,
        {
            let cs = chars_of(fields[i].as_str());
            let t = trim_chars(&cs);
            if t.len() != 0 {
                proof {
                    assert(fields@[i as int]@ == fields_of(*self)[i as int]);
                }
                return false;
            }
            i = i + 1;
        }
        true
    }

    /// The fields flattened to their persisted order.
    pub fn record(&self) -> (r: Vec<String>)
        ensures
            strings_view(r@) == fields_of(*self),
    {
        let r = vec![
            self.name.clone(),
            self.ext.clone(),
            self.wmin.clone(),
            self.wmax.clone(),
            self.hmin.clone(),
            self.hmax.clone(),
            self.sauce.clone(),
            self.smin.clone(),
            self.smax.clone(),
            self.dfrom.clone(),
            self.dto.clone(),
            self.rmin.clone(),
        ];
        proof {
            assert(strings_view(r@) =~= fields_of(*self));
        }
        r
    }

    /// A form restored from its persisted record; a missing trailing field is
    /// blank.
    pub fn from_record(r: &[String]) -> (s: SearchSpec)
        ensures
            fields_of(s) == fields_from_record(strings_view(r@)),
    {
        let s = SearchSpec {
            name: field_at(r, 0),
            ext: field_at(r, 1),
            wmin: field_at(r, 2),
            wmax: field_at(r, 3),
            hmin: field_at(r, 4),
            hmax: field_at(r, 5),
            sauce: field_at(r, 6),
            smin: field_at(r, 7),
            smax: field_at(r, 8),
            dfrom: field_at(r, 9),
            dto: field_at(r, 10),
            rmin: field_at(r, 11),
        };
        proof {
            assert(fields_of(s) =~= fields_from_record(strings_view(r@)));
        }
        s
    }

    /// A short human label of the active criteria, e.g.
    /// `dragon · *.ans · sauce:acid`.
    pub fn summary(&self) -> (r: String)
        ensures
            r@ == summary_text(*self),
    {
        let parts = self.summary_part_list();
        if parts.len() == 0 {
            return "filter".to_string();
        }
        let mut out: Vec<char> = Vec::new();
        let mut i: usize = 0;
        while i < parts.len()
            invariant
                0 < parts@.len(),
                i <= parts@.len(),
                chars_view(parts@) == summary_parts(*self),
                out@ == join(chars_view(parts@).subrange(0, i as int), " · "@),
            decreases parts@.len() - i,
        {
            proof {
                let sub = chars_view(parts@).subrange(0, i + 1);
                assert(sub.drop_last() =~= chars_view(parts@).subrange(0, i as int));
                assert(sub.last() == parts@[i as int]@);
                if i == 0 {
                    assert(sub.len() == 1);
                }
            }
            if i > 0 {
                push_str(&mut out, " · ");
            }
            push_all(&mut out, &parts[i]);
            i = i + 1;
        }
        proof {
            assert(chars_view(parts@).subrange(0, parts@.len() as int) =~= chars_view(parts@));
        }
        string_from_chars(&out)
    }
}

/// The `i`th entry of a record, or blank past its end.
fn field_at(r: &[String], i: usize) -> (s: String)
    ensures
        s@ == if i < r@.len() { r@[i as int]@ } else { Seq::<char>::empty() },
{
    if i < r.len() {
        r[i].clone()
    } else {
        String::new()
    }
}

/// A SAUCE record matches a lower-case query `q` when its title, author, group
/// and font, joined with spaces and lower-cased, contain `q`.
pub open spec fn sauce_text_matches(s: Sauce, q: Seq<char>) -> bool {
    has_substring(lower(s.title@ + " "@ + s.author@ + " "@ + s.group@ + " "@ + s.font@), q)
}

/// Does the SAUCE record's title/author/group/font contain `q` (lower-cased)?
pub fn sauce_matches(s: &Sauce, q: &str) -> (b: bool)
    ensures
        b == sauce_text_matches(*s, q@),
{
    let mut all: Vec<char> = Vec::new();
    push_str(&mut all, s.title.as_str());
    push_str(&mut all, " ");
    push_str(&mut all, s.author.as_str());
    push_str(&mut all, " ");
    push_str(&mut all, s.group.as_str());
    push_str(&mut all, " ");
    push_str(&mut all, s.font.as_str());
    let low = to_lower(&all);
    let qc = chars_of(q);
    contains(&low, &qc)
}

/// A separator between the extensions typed into the type field.
pub open spec fn is_ext_sep(c: char) -> bool {
    c == ',' || c == ' ' || c == ';'
}

/// The type field split at every separator (as `str::split` with a set of
/// characters splits it: neighbouring separators give empty pieces).
pub open spec fn ext_pieces(s: Seq<char>) -> Seq<Seq<char>>
    decreases s.len(),
{
    if s.len() == 0 {
        seq![seq![]]
    } else {
        let p = ext_pieces(s.drop_last());
        if is_ext_sep(s.last()) {
            p.push(seq![])
        } else {
            p.update(p.len() - 1, p.last().push(s.last()))
        }
    }
}

proof fn lemma_ext_pieces_nonempty(s: Seq<char>)
    ensures
        ext_pieces(s).len() >= 1,
    decreases s.len(),
{
    if s.len() > 0 {
        lemma_ext_pieces_nonempty(s.drop_last());
    }
}

/// One typed extension as the search compares it: trimmed, leading dots
/// dropped, lower-cased.
pub open spec fn norm_ext(p: Seq<char>) -> Seq<char> {
    lower(strip_leading(trim(p), '.'))
}

/// The wanted extensions: the normalised pieces that are not empty, in order.
pub open spec fn wanted_exts(pieces: Seq<Seq<char>>) -> Seq<Seq<char>>
    decreases pieces.len(),
{
    if pieces.len() == 0 {
        seq![]
    } else {
        let prev = wanted_exts(pieces.drop_last());
        let e = norm_ext(pieces.last());
        if e.len() > 0 {
            prev.push(e)
        } else {
            prev
        }
    }
}

/// A search form compiled once into what each file is checked against.
pub struct SearchFilter {
    /// Lower-cased name query; empty means any name.
    pub name_q: Vec<char>,
    /// Wanted extensions, lower-case; empty means any type.
    pub exts: Vec<Vec<char>>,
    /// Lower-cased SAUCE query; empty means no SAUCE check.
    pub sauce_q: Vec<char>,
    pub wmin: Option<u32>,
    pub wmax: Option<u32>,
    pub hmin: Option<u32>,
    pub hmax: Option<u32>,
    /// Size bounds in KB.
    pub smin: Option<u32>,
    pub smax: Option<u32>,
    /// Date bounds as `YYYY-MM-DD` text; empty means unbounded.
    pub dfrom: Vec<char>,
    pub dto: Vec<char>,
    /// Minimum rating, 0 to 5.
    pub rmin: u8,
}

/// The filter a form compiles to.
pub open spec fn filter_matches_form(f: SearchFilter, s: SearchSpec) -> bool {
    &&& f.name_q@ == lower(trim(s.name@))
    &&& chars_view(f.exts@) == wanted_exts(ext_pieces(s.ext@))
    &&& f.sauce_q@ == lower(trim(s.sauce@))
    &&& f.wmin == dim_value(s.wmin@)
    &&& f.wmax == dim_value(s.wmax@)
    &&& f.hmin == dim_value(s.hmin@)
    &&& f.hmax == dim_value(s.hmax@)
    &&& f.smin == dim_value(s.smin@)
    &&& f.smax == dim_value(s.smax@)
    &&& f.dfrom@ == trim(s.dfrom@)
    &&& f.dto@ == trim(s.dto@)
    &&& f.rmin == match dim_value(s.rmin@) {
        Some(r) => if r < 5 { r as u8 } else { 5u8 },
        None => 0u8,
    }
}

fn split_exts(s: &[char]) -> (r: Vec<Vec<char>>)
    ensures
        chars_view(r@) == ext_pieces(s@),
{
    let mut pieces: Vec<Vec<char>> = Vec::new();
    let mut cur: Vec<char> = Vec::new();
    let mut i: usize = 0;
    while i < s.len()
        invariant
            i <= s@.len(),
            chars_view(pieces@).push(cur@) == ext_pieces(s@.subrange(0, i as int)),
        decreases s@.len() - i,
    {
        let c = s[i];
        let ghost prev = ext_pieces(s@.subrange(0, i as int));
        proof {
            let t = s@.subrange(0, i + 1);
            assert(t.drop_last() =~= s@.subrange(0, i as int));
            assert(t.last() == c);
            lemma_ext_pieces_nonempty(s@.subrange(0, i as int));
        }
        if c == ',' || c == ' ' || c == ';' {
            let done = cur;
            let ghost before = chars_view(pieces@);
            pieces.push(done);
            cur = Vec::new();
            proof {
                assert(chars_view(pieces@) =~= before.push(done@));
                assert(chars_view(pieces@).push(cur@) =~= prev.push(seq![]));
            }
        } else {
            let ghost before = chars_view(pieces@).push(cur@);
            cur.push(c);
            proof {
                assert(chars_view(pieces@).push(cur@) =~= before.update(
                    before.len() - 1,
                    before.last().push(c),
                ));
            }
        }
        i = i + 1;
    }
    proof {
        assert(s@.subrange(0, s@.len() as int) =~= s@);
    }
    let ghost before = chars_view(pieces@);
    pieces.push(cur);
    proof {
        assert(chars_view(pieces@) =~= before.push(cur@));
    }
    pieces
}

fn normalize_exts(pieces: &Vec<Vec<char>>) -> (r: Vec<Vec<char>>)
    ensures
        chars_view(r@) == wanted_exts(chars_view(pieces@)),
{
    let mut out: Vec<Vec<char>> = Vec::new();
    let mut i: usize = 0;
    while i < pieces.len()
        invariant
            i <= pieces@.len(),
            chars_view(out@) == wanted_exts(chars_view(pieces@.subrange(0, i as int))),
        decreases pieces@.len() - i,
    {
        proof {
            let t = chars_view(pieces@.subrange(0, i + 1));
            assert(t.drop_last() =~= chars_view(pieces@.subrange(0, i as int)));
            assert(t.last() == pieces@[i as int]@);
        }
        let t = trim_chars(&pieces[i]);
        let d = crate::text::strip_leading_chars(&t, '.');
        let e = to_lower(&d);
        if e.len() > 0 {
            let ghost before = chars_view(out@);
            out.push(e);
            proof {
                assert(chars_view(out@) =~= before.push(e@));
            }
        }
        i = i + 1;
    }
    proof {
        assert(pieces@.subrange(0, pieces@.len() as int) =~= pieces@);
    }
    out
}

fn lower_trimmed(s: &str) -> (r: Vec<char>)
    ensures
        r@ == lower(trim(s@)),
{
    let c = chars_of(s);
    let t = trim_chars(&c);
    to_lower(&t)
}

fn trimmed(s: &str) -> (r: Vec<char>)
    ensures
        r@ == trim(s@),
{
    let c = chars_of(s);
    trim_chars(&c)
}

impl SearchFilter {
    /// Compile a search form: queries trimmed and lower-cased, the type field
    /// split into wanted extensions, numeric bounds parsed (a blank or bad one
    /// is unbounded), the rating capped at 5.
    pub fn compile(spec: &SearchSpec) -> (f: SearchFilter)
        ensures
            filter_matches_form(f, *spec),
    {
        let ec = chars_of(spec.ext.as_str());
        let pieces = split_exts(&ec);
        let exts = normalize_exts(&pieces);
        let rmin: u8 = match parse_dim(spec.rmin.as_str()) {
            Some(r) => if r < 5 { r as u8 } else { 5 },
            None => 0,
        };
        SearchFilter {
            name_q: lower_trimmed(spec.name.as_str()),
            exts,
            sauce_q: lower_trimmed(spec.sauce.as_str()),
            wmin: parse_dim(spec.wmin.as_str()),
            wmax: parse_dim(spec.wmax.as_str()),
            hmin: parse_dim(spec.hmin.as_str()),
            hmax: parse_dim(spec.hmax.as_str()),
            smin: parse_dim(spec.smin.as_str()),
            smax: parse_dim(spec.smax.as_str()),
            dfrom: trimmed(spec.dfrom.as_str()),
            dto: trimmed(spec.dto.as_str()),
            rmin,
        }
    }

    /// Some pixel-dimension bound is set (so files must be measured).
    pub fn need_dims(&self) -> (b: bool)
        ensures
            b == (self.wmin is Some || self.wmax is Some || self.hmin is Some || self.hmax is Some),
    {
        self.wmin.is_some() || self.wmax.is_some() || self.hmin.is_some() || self.hmax.is_some()
    }

    /// A size or date bound is set (so file metadata must be read).
    pub fn need_meta(&self) -> (b: bool)
        ensures
            b == (self.smin is Some || self.smax is Some || self.dfrom@.len() > 0 || self.dto@.len()
                > 0),
    {
        self.smin.is_some() || self.smax.is_some() || self.dfrom.len() > 0 || self.dto.len() > 0
    }

    /// The file name contains the name query, ignoring ASCII case (a path
    /// without a file name has an empty one).
    pub fn name_ok(&self, path: &str) -> (b: bool)
        ensures
            b == (self.name_q@.len() == 0 || has_substring(
                lower(
                    match file_name(path@) {
                        Some(n) => n,
                        None => Seq::<char>::empty(),
                    },
                ),
                self.name_q@,
            )),
    {
        if self.name_q.len() == 0 {
            return true;
        }
        let p = chars_of(path);
        let n = match file_name_of(&p) {
            Some(n) => n,
            None => Vec::new(),
        };
        let ln = to_lower(&n);
        contains(&ln, &self.name_q)
    }

    /// The file's extension, lower-cased (empty when it has none), is a wanted
    /// one, or any type is wanted.
    pub fn ext_ok(&self, path: &str) -> (b: bool)
        ensures
            b == (self.exts@.len() == 0 || chars_view(self.exts@).contains(
                lower(
                    match extension(path@) {
                        Some(e) => e,
                        None => Seq::<char>::empty(),
                    },
                ),
            )),
    {
        if self.exts.len() == 0 {
            return true;
        }
        let p = chars_of(path);
        let e = match extension_of(&p) {
            Some(e) => e,
            None => Vec::new(),
        };
        let le = to_lower(&e);
        let mut i: usize = 0;
        while i < self.exts.len()
            invariant
                i <= self.exts@.len(),
                le@ == lower(
                    match extension(path@) {
                        Some(e) => e,
                        None => Seq::<char>::empty(),
                    },
                ),
                forall|k: int| 0 <= k < i ==> self.exts@[k]@ != le@,
            decreases self.exts@.len() - i,
        {
            if crate::text::chars_eq(&self.exts[i], &le) {
                proof {
                    assert(chars_view(self.exts@)[i as int] == le@);
                }
                return true;
            }
            i = i + 1;
        }
        proof {
            assert forall|k: int| 0 <= k < chars_view(self.exts@).len() implies chars_view(
                self.exts@,
            )[k] != le@ by {
                assert(chars_view(self.exts@)[k] == self.exts@[k]@);
            }
        }
        false
    }

    /// A file of `bytes` bytes is within the size bounds, compared in whole KB.
    pub fn size_ok(&self, bytes: u64) -> (b: bool)
        ensures
            b == !((self.smin matches Some(v) && bytes / 1024 < v) || (self.smax matches Some(v)
                && bytes / 1024 > v)),
    {
        let kb = bytes / 1024;
        let low = match self.smin {
            Some(v) => kb < v as u64,
            None => false,
        };
        let high = match self.smax {
            Some(v) => kb > v as u64,
            None => false,
        };
        !(low || high)
    }

    /// A file modified on `date` (`YYYY-MM-DD`) is within the date bounds,
    /// compared as text.
    pub fn date_ok(&self, date: &str) -> (b: bool)
        ensures
            b == !((self.dfrom@.len() > 0 && ord_chars(date@, self.dfrom@) < 0) || (self.dto@.len()
                > 0 && ord_chars(date@, self.dto@) > 0)),
    {
        let d = chars_of(date);
        if self.dfrom.len() > 0 && compare_chars(&d, &self.dfrom) < 0 {
            return false;
        }
        if self.dto.len() > 0 && compare_chars(&d, &self.dto) > 0 {
            return false;
        }
        true
    }

    /// A file rated `stars` meets the minimum rating.
    pub fn rating_ok(&self, stars: u8) -> (b: bool)
        ensures
            b == (self.rmin == 0 || stars >= self.rmin),
    {
        self.rmin == 0 || stars >= self.rmin
    }

    /// An image of `w`×`h` pixels is within the dimension bounds.
    pub fn dims_ok(&self, w: u32, h: u32) -> (b: bool)
        ensures
            b == !((self.wmin matches Some(v) && w < v) || (self.wmax matches Some(v) && w > v) || (
            self.hmin matches Some(v) && h < v) || (self.hmax matches Some(v) && h > v)),
    {
        let a = match self.wmin {
            Some(v) => w < v,
            None => false,
        };
        let b = match self.wmax {
            Some(v) => w > v,
            None => false,
        };
        let c = match self.hmin {
            Some(v) => h < v,
            None => false,
        };
        let d = match self.hmax {
            Some(v) => h > v,
            None => false,
        };
        !(a || b || c || d)
    }
}

/// `text` lower-cased behind one space.
pub open spec fn spaced_lower(text: Seq<char>) -> Seq<char> {
    seq![' '] + lower(text)
}

/// What the name query of an in-memory listing is matched against: the file
/// name, then the piece's artist, group and pack when it is a scene piece, all
/// lower-cased and joined with spaces.
pub open spec fn listing_name_hay(path: Seq<char>, piece: Option<ColoPiece>) -> Seq<char> {
    let f = lower(
        match file_name(path) {
            Some(n) => n,
            None => Seq::<char>::empty(),
        },
    );
    match piece {
        Some(p) => f + spaced_lower(p.artist@) + spaced_lower(p.group@) + spaced_lower(p.pack@),
        None => f,
    }
}

/// What the SAUCE query of an in-memory listing is matched against: the piece's
/// artist and group, then the title, author, group and font of its cached SAUCE
/// record, all lower-cased and joined with spaces.
pub open spec fn listing_sauce_hay(piece: Option<ColoPiece>, sauce: Option<Sauce>) -> Seq<char> {
    let a = match piece {
        Some(p) => lower(p.artist@) + spaced_lower(p.group@),
        None => Seq::<char>::empty(),
    };
    match sauce {
        Some(s) => a + spaced_lower(s.title@) + spaced_lower(s.author@) + spaced_lower(s.group@)
            + spaced_lower(s.font@),
        None => a,
    }
}

/// A row of an in-memory listing passes the filter: name, type, size (in KB) and
/// rating as for files on disk, the name and SAUCE queries against the row's
/// text. Pixel dimensions and dates are not known for such rows and are not
/// checked.
pub open spec fn listing_row_ok(f: SearchFilter, e: Entry, piece: Option<ColoPiece>, sauce: Option<Sauce>) -> bool {
    &&& (f.name_q@.len() == 0 || has_substring(listing_name_hay(e.path@, piece), f.name_q@))
    &&& (f.exts@.len() == 0 || chars_view(f.exts@).contains(
        lower(
            match extension(e.path@) {
                Some(x) => x,
                None => Seq::<char>::empty(),
            },
        ),
    ))
    &&& !((f.smin matches Some(v) && e.size / 1024 < v) || (f.smax matches Some(v) && e.size / 1024 > v))
    &&& (f.rmin == 0 || e.rating >= f.rmin)
    &&& (f.sauce_q@.len() == 0 || has_substring(listing_sauce_hay(piece, sauce), f.sauce_q@))
}

/// The rows among the first `n` that pass the filter, in order.
pub open spec fn listing_kept(
    f: SearchFilter,
    entries: Seq<Entry>,
    pieces: Seq<Option<ColoPiece>>,
    sauces: Seq<Option<Sauce>>,
    n: int,
) -> Seq<Entry>
    decreases n,
{
    if n <= 0 {
        seq![]
    } else {
        let prev = listing_kept(f, entries, pieces, sauces, n - 1);
        if listing_row_ok(f, entries[n - 1], pieces[n - 1], sauces[n - 1]) {
            prev.push(entries[n - 1])
        } else {
            prev
        }
    }
}

fn push_spaced_lower(out: &mut Vec<char>, text: &str)
    ensures
        final(out)@ == old(out)@ + spaced_lower(text@),
{
    out.push(' ');
    let c = chars_of(text);
    let l = to_lower(&c);
    push_all(out, &l);
    proof {
        assert(final(out)@ =~= old(out)@ + spaced_lower(text@));
    }
}

impl SearchFilter {
    /// Does one row of an in-memory (scene) listing pass the filter? `piece` is
    /// the row's scene metadata and `sauce` its cached SAUCE record, if any.
    pub fn listing_row_ok(&self, e: &Entry, piece: &Option<ColoPiece>, sauce: &Option<Sauce>) -> (b: bool)
        ensures
            b == listing_row_ok(*self, *e, *piece, *sauce),
    {
        if self.name_q.len() > 0 {
            let p = chars_of(e.path.as_str());
            let n = match file_name_of(&p) {
                Some(n) => n,
                None => Vec::new(),
            };
            let mut hay = to_lower(&n);
            match piece {
                Some(pc) => {
                    push_spaced_lower(&mut hay, pc.artist.as_str());
                    push_spaced_lower(&mut hay, pc.group.as_str());
                    push_spaced_lower(&mut hay, pc.pack.as_str());
                },
                None => {},
            }
            proof {
                assert(hay@ =~= listing_name_hay(e.path@, *piece));
            }
            if !contains(&hay, &self.name_q) {
                return false;
            }
        }
        if !self.ext_ok(e.path.as_str()) {
            return false;
        }
        if !self.size_ok(e.size) {
            return false;
        }
        if !self.rating_ok(e.rating) {
            return false;
        }
        if self.sauce_q.len() > 0 {
            let mut hay: Vec<char> = Vec::new();
            match piece {
                Some(pc) => {
                    let c = chars_of(pc.artist.as_str());
                    hay = to_lower(&c);
                    push_spaced_lower(&mut hay, pc.group.as_str());
                },
                None => {},
            }
            match sauce {
                Some(sc) => {
                    push_spaced_lower(&mut hay, sc.title.as_str());
                    push_spaced_lower(&mut hay, sc.author.as_str());
                    push_spaced_lower(&mut hay, sc.group.as_str());
                    push_spaced_lower(&mut hay, sc.font.as_str());
                },
                None => {},
            }
            proof {
                assert(hay@ =~= listing_sauce_hay(*piece, *sauce));
            }
            if !contains(&hay, &self.sauce_q) {
                return false;
            }
        }
        true
    }
}

/// Filter the rows of an in-memory listing (a scene listing has no tree on disk
/// to walk): the rows that pass, in their order. `pieces[i]` and `sauces[i]` are
/// the scene metadata and cached SAUCE record of `entries[i]`.
pub fn colo_filter_in_memory(
    f: &SearchFilter,
    entries: &[Entry],
    pieces: &[Option<ColoPiece>],
    sauces: &[Option<Sauce>],
) -> (r: Vec<Entry>)
    requires
        pieces@.len() == entries@.len(),
        sauces@.len() == entries@.len(),
    ensures
        r@ == listing_kept(*f, entries@, pieces@, sauces@, entries@.len() as int),
{
    let mut out: Vec<Entry> = Vec::new();
    let mut i: usize = 0;
    while i < entries.len()
        invariant
            i <= entries@.len(),
            pieces@.len() == entries@.len(),
            sauces@.len() == entries@.len(),
            out@ == listing_kept(*f, entries@, pieces@, sauces@, i as int),
        decreases entries@.len() - i,
    {
        if f.listing_row_ok(&entries[i], &pieces[i], &sauces[i]) {
            out.push(entries[i].clone());
        }
        i = i + 1;
    }
    out
}

/// A needle that occurs in the middle piece of a text occurs in the whole text.
proof fn lemma_substring_in_middle(a: Seq<char>, x: Seq<char>, c: Seq<char>, q: Seq<char>)
    requires
        has_substring(x, q),
    ensures
        has_substring(a + x + c, q),
{
    let i = choose|i: int| occurs_at(x, q, i);
    let t = a + x + c;
    assert(t.subrange(a.len() + i, a.len() + i + q.len()) =~= x.subrange(i, i + q.len()));
    assert(occurs_at(t, q, a.len() + i));
}

/// In a scene listing, the name query finds a row through any of its visible
/// columns: when it occurs in the lower-cased file name, artist, group or pack,
/// the row passes a filter that sets nothing else.
pub proof fn name_query_searches_scene_columns(f: SearchFilter, e: Entry, p: ColoPiece, sauce: Option<Sauce>)
    requires
        f.exts@.len() == 0,
        f.smin is None,
        f.smax is None,
        f.rmin == 0,
        f.sauce_q@.len() == 0,
        has_substring(lower(match file_name(e.path@) {
            Some(n) => n,
            None => Seq::<char>::empty(),
        }), f.name_q@) || has_substring(lower(p.artist@), f.name_q@) || has_substring(lower(p.group@), f.name_q@)
            || has_substring(lower(p.pack@), f.name_q@),
    ensures
        listing_row_ok(f, e, Some(p), sauce),
{
    let q = f.name_q@;
    let fname = lower(match file_name(e.path@) {
        Some(n) => n,
        None => Seq::<char>::empty(),
    });
    let sp = seq![' '];
    let la = lower(p.artist@);
    let lg = lower(p.group@);
    let lp = lower(p.pack@);
    let hay = listing_name_hay(e.path@, Some(p));
    assert(hay == fname + (sp + la) + (sp + lg) + (sp + lp));
    let e0 = Seq::<char>::empty();
    if has_substring(fname, q) {
        assert(hay =~= e0 + fname + ((sp + la) + (sp + lg) + (sp + lp)));
        lemma_substring_in_middle(e0, fname, (sp + la) + (sp + lg) + (sp + lp), q);
    } else if has_substring(la, q) {
        assert(hay =~= (fname + sp) + la + ((sp + lg) + (sp + lp)));
        lemma_substring_in_middle(fname + sp, la, (sp + lg) + (sp + lp), q);
    } else if has_substring(lg, q) {
        assert(hay =~= (fname + (sp + la) + sp) + lg + (sp + lp));
        lemma_substring_in_middle(fname + (sp + la) + sp, lg, sp + lp, q);
    } else {
        assert(hay =~= (fname + (sp + la) + (sp + lg) + sp) + lp + e0);
        lemma_substring_in_middle(fname + (sp + la) + (sp + lg) + sp, lp, e0, q);
    }
}

/// In a scene listing, the SAUCE query finds a row through its artist or group
/// column or any field of its cached SAUCE record: when it occurs in one of them,
/// lower-cased, the row passes a filter that sets nothing else.
pub proof fn sauce_query_searches_scene_and_sauce(f: SearchFilter, e: Entry, p: ColoPiece, sc: Sauce)
    requires
        f.name_q@.len() == 0,
        f.exts@.len() == 0,
        f.smin is None,
        f.smax is None,
        f.rmin == 0,
        has_substring(lower(p.artist@), f.sauce_q@) || has_substring(lower(p.group@), f.sauce_q@)
            || has_substring(lower(sc.title@), f.sauce_q@) || has_substring(lower(sc.author@), f.sauce_q@)
            || has_substring(lower(sc.group@), f.sauce_q@) || has_substring(lower(sc.font@), f.sauce_q@),
    ensures
        listing_row_ok(f, e, Some(p), Some(sc)),
{
    let q = f.sauce_q@;
    let sp = seq![' '];
    let la = lower(p.artist@);
    let lg = lower(p.group@);
    let lt = lower(sc.title@);
    let lu = lower(sc.author@);
    let lsg = lower(sc.group@);
    let lf = lower(sc.font@);
    let hay = listing_sauce_hay(Some(p), Some(sc));
    assert(hay == la + (sp + lg) + (sp + lt) + (sp + lu) + (sp + lsg) + (sp + lf));
    let e0 = Seq::<char>::empty();
    if has_substring(la, q) {
        assert(hay =~= e0 + la + ((sp + lg) + (sp + lt) + (sp + lu) + (sp + lsg) + (sp + lf)));
        lemma_substring_in_middle(e0, la, (sp + lg) + (sp + lt) + (sp + lu) + (sp + lsg) + (sp + lf), q);
    } else if has_substring(lg, q) {
        assert(hay =~= (la + sp) + lg + ((sp + lt) + (sp + lu) + (sp + lsg) + (sp + lf)));
        lemma_substring_in_middle(la + sp, lg, (sp + lt) + (sp + lu) + (sp + lsg) + (sp + lf), q);
    } else if has_substring(lt, q) {
        assert(hay =~= (la + (sp + lg) + sp) + lt + ((sp + lu) + (sp + lsg) + (sp + lf)));
        lemma_substring_in_middle(la + (sp + lg) + sp, lt, (sp + lu) + (sp + lsg) + (sp + lf), q);
    } else if has_substring(lu, q) {
        assert(hay =~= (la + (sp + lg) + (sp + lt) + sp) + lu + ((sp + lsg) + (sp + lf)));
        lemma_substring_in_middle(la + (sp + lg) + (sp + lt) + sp, lu, (sp + lsg) + (sp + lf), q);
    } else if has_substring(lsg, q) {
        assert(hay =~= (la + (sp + lg) + (sp + lt) + (sp + lu) + sp) + lsg + (sp + lf));
        lemma_substring_in_middle(la + (sp + lg) + (sp + lt) + (sp + lu) + sp, lsg, sp + lf, q);
    } else {
        assert(hay =~= (la + (sp + lg) + (sp + lt) + (sp + lu) + (sp + lsg) + sp) + lf + e0);
        lemma_substring_in_middle(la + (sp + lg) + (sp + lt) + (sp + lu) + (sp + lsg) + sp, lf, e0, q);
    }
}

} // verus!
