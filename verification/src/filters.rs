//! Saved searches ("smart filters"): saving the current form under its
//! summary, and the rows they are persisted as (`[name, field, field, ...]`).

use vstd::prelude::*;
use crate::search::{fields_from_record, fields_of, strings_view, summary_text, SearchSpec};
use crate::text::{chars_eq, chars_of, trim};

verus! {

/// A saved filter as its name and its form's fields.
pub open spec fn filter_view(f: (String, SearchSpec)) -> (Seq<char>, Seq<Seq<char>>) {
    (f.0@, fields_of(f.1))
}

/// The saved filters as names and fields.
pub open spec fn filters_view(fs: Seq<(String, SearchSpec)>) -> Seq<(Seq<char>, Seq<Seq<char>>)> {
    fs.map_values(|f: (String, SearchSpec)| filter_view(f))
}

/// The persisted row of a saved filter: its name, then its form's record.
pub open spec fn filter_row(f: (Seq<char>, Seq<Seq<char>>)) -> Seq<Seq<char>> {
    seq![f.0] + f.1
}

/// The filters restored from persisted rows: empty rows are skipped; a row's
/// first string is the name and the rest the form's record.
pub open spec fn restored(rows: Seq<Seq<Seq<char>>>) -> Seq<(Seq<char>, Seq<Seq<char>>)>
    decreases rows.len(),
{
    if rows.len() == 0 {
        seq![]
    } else {
        let prev = restored(rows.drop_last());
        let row = rows.last();
        if row.len() == 0 {
            prev
        } else {
            prev.push((row[0], fields_from_record(row.drop_first())))
        }
    }
}

/// The rows as character sequences.
pub open spec fn rows_view(rows: Seq<Vec<String>>) -> Seq<Seq<Seq<char>>> {
    rows.map_values(|r: Vec<String>| strings_view(r@))
}

proof fn lemma_rows_round_trip(fs: Seq<(Seq<char>, Seq<Seq<char>>)>)
    requires
        forall|i: int| 0 <= i < fs.len() ==> (#[trigger] fs[i]).1.len() == 12,
    ensures
        restored(fs.map_values(|f: (Seq<char>, Seq<Seq<char>>)| filter_row(f))) == fs,
    decreases fs.len(),
{
    let rows = fs.map_values(|f: (Seq<char>, Seq<Seq<char>>)| filter_row(f));
    if fs.len() > 0 {
        let front = fs.drop_last();
        assert(rows.drop_last() =~= front.map_values(|f: (Seq<char>, Seq<Seq<char>>)| filter_row(f)));
        assert forall|i: int| 0 <= i < front.len() implies (#[trigger] front[i]).1.len() == 12 by {
            assert(front[i] == fs[i]);
        }
        lemma_rows_round_trip(front);
        let f = fs.last();
        let row = rows.last();
        assert(row == filter_row(f));
        assert(row.drop_first() =~= f.1);
        assert(fields_from_record(f.1) =~= f.1);
        assert(fs =~= front.push(f));
    } else {
        assert(fs =~= seq![]);
    }
}

/// Restoring the persisted rows of saved filters gives back the same filters:
/// the same names and forms, in the same order.
pub proof fn saved_filters_round_trip(fs: Seq<(String, SearchSpec)>)
    ensures
        restored(filters_view(fs).map_values(|f: (Seq<char>, Seq<Seq<char>>)| filter_row(f))) == filters_view(fs),
{
    lemma_rows_round_trip(filters_view(fs));
}

/// The rows the saved filters are persisted as, in order.
pub fn filter_rows(filters: &[(String, SearchSpec)]) -> (r: Vec<Vec<String>>)
    ensures
        rows_view(r@) == filters_view(filters@).map_values(|f: (Seq<char>, Seq<Seq<char>>)| filter_row(f)),
{
    let mut out: Vec<Vec<String>> = Vec::new();
    let mut i: usize = 0;
    while i < filters.len()
        invariant
            i <= filters@.len(),
            rows_view(out@) == filters_view(filters@.subrange(0, i as int)).map_values(
                |f: (Seq<char>, Seq<Seq<char>>)| filter_row(f),
            ),
        decreases filters@.len() - i,
    {
        let mut row: Vec<String> = Vec::new();
        row.push(filters[i].0.clone());
        let rec = filters[i].1.record();
        let mut k: usize = 0;
        while k < rec.len()
            invariant
                k <= rec@.len(),
                strings_view(rec@) == fields_of(filters@[i as int].1),
                strings_view(row@) == seq![filters@[i as int].0@] + strings_view(rec@).subrange(0, k as int),
            decreases rec@.len() - k,
        {
            let ghost before = row@;
            row.push(rec[k].clone());
            proof {
                assert(strings_view(row@) =~= strings_view(before).push(rec@[k as int]@));
                assert(strings_view(rec@).subrange(0, k + 1) =~= strings_view(rec@).subrange(0, k as int).push(rec@[k as int]@));
            }
            k = k + 1;
        }
        let ghost before = out@;
        out.push(row);
        proof {
            assert(strings_view(rec@).subrange(0, rec@.len() as int) =~= strings_view(rec@));
            assert(filters@.subrange(0, i + 1) =~= filters@.subrange(0, i as int).push(filters@[i as int]));
            assert(rows_view(out@) =~= rows_view(before).push(strings_view(out@[i as int]@)));
            assert(filters_view(filters@.subrange(0, i + 1)).map_values(|f: (Seq<char>, Seq<Seq<char>>)| filter_row(f))
                =~= filters_view(filters@.subrange(0, i as int)).map_values(|f: (Seq<char>, Seq<Seq<char>>)| filter_row(f)).push(
                    filter_row(filter_view(filters@[i as int]))));
        }
        i = i + 1;
    }
    proof {
        assert(filters@.subrange(0, filters@.len() as int) =~= filters@);
    }
    out
}

/// The saved filters restored from their persisted rows.
pub fn filters_from_rows(rows: &[Vec<String>]) -> (r: Vec<(String, SearchSpec)>)
    ensures
        filters_view(r@) == restored(rows_view(rows@)),
{
    let mut out: Vec<(String, SearchSpec)> = Vec::new();
    let mut i: usize = 0;
    while i < rows.len()
        invariant
            i <= rows@.len(),
            filters_view(out@) == restored(rows_view(rows@.subrange(0, i as int))),
        decreases rows@.len() - i,
    {
        let ghost prev = filters_view(out@);
        proof {
            let sub = rows_view(rows@.subrange(0, i + 1));
            assert(sub.drop_last() =~= rows_view(rows@.subrange(0, i as int)));
            assert(sub.last() == strings_view(rows@[i as int]@));
        }
        let row = &rows[i];
        if row.len() > 0 {
            let name = row[0].clone();
            let rest = slice_from(row, 1);
            let spec = SearchSpec::from_record(&rest);
            out.push((name, spec));
            proof {
                assert(strings_view(rest@) =~= strings_view(row@).drop_first());
                assert(filters_view(out@) =~= prev.push(filter_view(out@[out@.len() - 1])));
            }
        }
        i = i + 1;
    }
    proof {
        assert(rows@.subrange(0, rows@.len() as int) =~= rows@);
    }
    out
}

fn slice_from(v: &Vec<String>, from: usize) -> (r: Vec<String>)
    requires
        from <= v@.len(),
    ensures
        strings_view(r@) == strings_view(v@).subrange(from as int, v@.len() as int),
{
    let mut out: Vec<String> = Vec::new();
    let mut i: usize = from;
    while i < v.len()
        invariant
            from <= i <= v@.len(),
            strings_view(out@) == strings_view(v@).subrange(from as int, i as int),
        decreases v@.len() - i,
    {
        let ghost before = out@;
        out.push(v[i].clone());
        proof {
            assert(strings_view(out@) =~= strings_view(before).push(v@[i as int]@));
            assert(strings_view(v@).subrange(from as int, i + 1) =~= strings_view(v@).subrange(from as int, i as int).push(v@[i as int]@));
        }
        i = i + 1;
    }
    out
}

/// The form holds nothing but whitespace.
pub open spec fn form_blank(s: SearchSpec) -> bool {
    forall|i: int| 0 <= i < 12 ==> trim(#[trigger] fields_of(s)[i]).len() == 0
}

/// `i` is the first saved filter named `name`.
pub open spec fn first_named(fs: Seq<(Seq<char>, Seq<Seq<char>>)>, i: int, name: Seq<char>) -> bool {
    &&& 0 <= i < fs.len()
    &&& fs[i].0 == name
    &&& forall|k: int| 0 <= k < i ==> fs[k].0 != name
}

/// Save the form `spec` under its summary: a blank form saves nothing
/// (`None`); otherwise a filter of the same name is overwritten in place (the
/// first one, if several), or the filter is appended, and the name returned.
pub fn save_filter(saved: &mut Vec<(String, SearchSpec)>, spec: &SearchSpec) -> (r: Option<String>)
    ensures
        form_blank(*spec) ==> r is None && final(saved)@ == old(saved)@,
        !form_blank(*spec) ==> ({
            let name = summary_text(*spec);
            let before = filters_view(old(saved)@);
            &&& r matches Some(n) && n@ == name
            &&& if exists|i: int| first_named(before, i, name) {
                let i = choose|i: int| first_named(before, i, name);
                filters_view(final(saved)@) == before.update(i, (name, fields_of(*spec)))
            } else {
                filters_view(final(saved)@) == before.push((name, fields_of(*spec)))
            }
        }),
{
    if spec.is_blank() {
        return None;
    }
    let name = spec.summary();
    let nc = chars_of(name.as_str());
    let ghost before = filters_view(saved@);
    let mut i: usize = 0;
    while i < saved.len()
        invariant
            i <= saved@.len(),
            before == filters_view(saved@),
            saved@ == old(saved)@,
            !form_blank(*spec),
            name@ == summary_text(*spec),
            nc@ == name@,
            forall|k: int| 0 <= k < i ==> saved@[k].0@ != name@,
        decreases saved@.len() - i,
    {
        let c = chars_of(saved[i].0.as_str());
        if chars_eq(&c, &nc) {
            proof {
                assert(first_named(before, i as int, name@));
                assert forall|j: int| #[trigger] first_named(before, j, name@) implies j == i by {
                    if j < i {
                        assert(before[j].0 == saved@[j].0@);
                    }
                    if j > i {
                        assert(before[i as int].0 == name@);
                    }
                }
            }
            let entry = (saved[i].0.clone(), spec.clone());
            saved.set(i, entry);
            proof {
                assert(filters_view(saved@) =~= before.update(i as int, (name@, fields_of(*spec))));
            }
            return Some(name);
        }
        i = i + 1;
    }
    proof {
        assert forall|j: int| !first_named(before, j, name@) by {
            if 0 <= j < before.len() {
                assert(before[j].0 == saved@[j].0@);
            }
        }
    }
    saved.push((name.clone(), spec.clone()));
    proof {
        assert(filters_view(saved@) =~= before.push((name@, fields_of(*spec))));
    }
    Some(name)
}

} // verus!
