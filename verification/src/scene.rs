//! Decisions of the 16colo.rs piece listings: whether a piece's artist credit
//! names a given artist, and how the streaming walk proceeds after each piece.

use vstd::prelude::*;

verus! {

/// Names what `str::to_lowercase` returns for a string: its Unicode lower case.
pub uninterp spec fn spec_to_lowercase(s: Seq<char>) -> Seq<char>;

/// `str::to_lowercase`: the Unicode lower-case form of `s`. The contract only ties
/// the result to `spec_to_lowercase` of the argument; the case tables themselves
/// are not stated.
#[verifier::external_body]
fn to_lowercase(s: &str) -> (r: String)
    ensures
        r@ == spec_to_lowercase(s@),
{
    s.to_lowercase()
}

/// A `", "` separator starts at index `i` of `s`.
pub open spec fn comma_at(s: Seq<char>, i: int) -> bool {
    0 <= i && i + 1 < s.len() && s[i] == ',' && s[i + 1] == ' '
}

/// Where the first `", "` at or after `from` starts, or -1 when there is none.
pub open spec fn first_comma(s: Seq<char>, from: int) -> int
    decreases s.len() - from,
{
    if from < 0 || from + 1 >= s.len() {
        -1
    } else if comma_at(s, from) {
        from
    } else {
        first_comma(s, from + 1)
    }
}

/// Where the first separator at or after `from` lies, and that none comes before it.
pub proof fn lemma_first_comma(s: Seq<char>, from: int)
    ensures
        first_comma(s, from) == -1 || (from <= first_comma(s, from) && comma_at(
            s,
            first_comma(s, from),
        )),
        first_comma(s, from) >= 0 ==> forall|j: int| from <= j < first_comma(s, from) ==> !comma_at(s, j),
        first_comma(s, from) == -1 && from >= 0 ==> forall|j: int| from <= j ==> !comma_at(s, j),
    decreases s.len() - from,
{
    if !(from < 0 || from + 1 >= s.len()) && !comma_at(s, from) {
        lemma_first_comma(s, from + 1);
    }
}

/// The names in an artist credit: the credit split at each `", "`, as
/// `str::split(", ")` splits it.
pub open spec fn credit_names(s: Seq<char>) -> Seq<Seq<char>>
    decreases s.len(),
{
    let i = first_comma(s, 0);
    if i < 0 {
        seq![s]
    } else {
        proof {
            lemma_first_comma(s, 0);
        }
        seq![s.subrange(0, i)] + credit_names(s.subrange(i + 2, s.len() as int))
    }
}

/// The artist credit `artist` names the artist `name`: one of its comma-separated
/// names equals `name`, both lower-cased.
pub open spec fn credits(artist: Seq<char>, name: Seq<char>) -> bool {
    credit_names(spec_to_lowercase(artist)).contains(spec_to_lowercase(name))
}

fn slice_of(s: &[char], from: usize, to: usize) -> (r: Vec<char>)
    requires
        from <= to <= s@.len(),
    ensures
        r@ == s@.subrange(from as int, to as int),
{
    let mut r: Vec<char> = Vec::new();
    let mut i = from;
    while i < to
        invariant
            from <= i <= to <= s@.len(),
            r@ == s@.subrange(from as int, i as int),
        decreases to - i,
    {
        r.push(s[i]);
        proof {
            assert(s@.subrange(from as int, i + 1) =~= s@.subrange(from as int, i as int).push(s@[i as int]));
        }
        i = i + 1;
    }
    r
}

fn same_chars(a: &[char], b: &[char]) -> (r: bool)
    ensures
        r == (a@ == b@),
{
    if a.len() != b.len() {
        return false;
    }
    let mut i: usize = 0;
    while i < a.len()
        invariant
            a@.len() == b@.len(),
            i <= a@.len(),
            forall|k: int| 0 <= k < i ==> a@[k] == b@[k],
        decreases a@.len() - i,
    {
        if a[i] != b[i] {
            return false;
        }
        i = i + 1;
    }
    proof {
        assert(a@ =~= b@);
    }
    true
}

/// Whether the comma-separated names of an (already lower-cased) artist credit
/// `s` include `want`.
pub fn credit_names_include(s: &[char], want: &[char]) -> (r: bool)
    ensures
        r == credit_names(s@).contains(want@),
    decreases s@.len(),
{
    let n = s.len();
    let mut i: usize = 0;
    while i < n && i + 1 < n
        invariant
            n == s@.len(),
            i <= n,
            forall|j: int| 0 <= j < i ==> !comma_at(s@, j),
        decreases n - i,
    {
        if s[i] == ',' && s[i + 1] == ' ' {
            let head = slice_of(s, 0, i);
            let tail = slice_of(s, i + 2, n);
            proof {
                lemma_first_comma(s@, 0);
                assert(comma_at(s@, i as int));
                assert(first_comma(s@, 0) == i) by {
                    let f = first_comma(s@, 0);
                    if f == -1 {
                        assert(!comma_at(s@, i as int));
                    } else if f < i {
                        assert(!comma_at(s@, f));
                    } else if f > i {
                        assert(!comma_at(s@, i as int));
                    }
                }
            }
            if same_chars(&head, want) {
                proof {
                    assert(credit_names(s@)[0] == head@);
                }
                return true;
            }
            let rest = credit_names_include(&tail, want);
            proof {
                let names = credit_names(s@);
                let tn = credit_names(tail@);
                assert(names == seq![head@] + tn);
                if rest {
                    let k = choose|k: int| 0 <= k < tn.len() && tn[k] == want@;
                    assert(names[k + 1] == want@);
                } else {
                    assert forall|k: int| 0 <= k < names.len() implies names[k] != want@ by {
                        if k > 0 {
                            assert(names[k] == tn[k - 1]);
                        }
                    }
                }
            }
            return rest;
        }
        i = i + 1;
    }
    proof {
        lemma_first_comma(s@, 0);
        if first_comma(s@, 0) >= 0 {
            let f = first_comma(s@, 0);
            assert(comma_at(s@, f));
            assert(f + 1 < n);
            if f < i {
                assert(!comma_at(s@, f));
            }
        }
        assert(credit_names(s@) == seq![s@]);
    }
    let r = same_chars(s, want);
    proof {
        if !r {
            assert forall|k: int| 0 <= k < 1 implies credit_names(s@)[k] != want@ by {}
        } else {
            assert(credit_names(s@)[0] == want@);
        }
    }
    r
}

/// Whether a piece credited to `artist` (possibly several names joined with
/// `", "`) is by the artist `name`, comparing lower-cased.
pub fn credits_artist(artist: &str, name: &str) -> (b: bool)
    ensures
        b == credits(artist@, name@),
{
    let a = to_lowercase(artist);
    let want = to_lowercase(name);
    let ac = crate::text::chars_of(a.as_str());
    let wc = crate::text::chars_of(want.as_str());
    credit_names_include(&ac, &wc)
}

/// What a piece listing does next.
#[derive(Clone, Copy, PartialEq, Eq, Debug, Structural)]
pub enum WalkStep {
    /// Go on with the next piece.
    Continue,
    /// Stop without a closing count (cancelled, or the listing went away).
    Stop,
    /// Report the count as final and stop (the piece cap was reached).
    Finish,
}

/// After offering one more piece, with `count` pieces sent before it: a cancelled
/// walk stops without sending; otherwise the piece is counted, a listing that
/// did not take it stops the walk, and reaching `max_pieces` finishes it.
pub fn after_piece(count: usize, cancelled: bool, sent: bool, max_pieces: usize) -> (r: (usize, WalkStep))
    requires
        count < usize::MAX,
    ensures
        cancelled ==> r == (count, WalkStep::Stop),
        !cancelled && !sent ==> r == ((count + 1) as usize, WalkStep::Stop),
        !cancelled && sent && count + 1 >= max_pieces ==> r == ((count + 1) as usize, WalkStep::Finish),
        !cancelled && sent && count + 1 < max_pieces ==> r == ((count + 1) as usize, WalkStep::Continue),
{
    if cancelled {
        return (count, WalkStep::Stop);
    }
    let c = count + 1;
    if !sent {
        (c, WalkStep::Stop)
    } else if c >= max_pieces {
        (c, WalkStep::Finish)
    } else {
        (c, WalkStep::Continue)
    }
}

} // verus!
