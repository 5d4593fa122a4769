//! Three-way comparisons as integers (-1, 0, 1) and the lexicographic sort keys
//! the browser orders its entries by, with the proofs that every such comparison
//! is a total preorder (antisymmetric and transitive).

use vstd::prelude::*;

verus! {

/// Three-way comparison of two integers.
pub open spec fn ord_int(a: int, b: int) -> int {
    if a < b {
        -1
    } else if a > b {
        1
    } else {
        0
    }
}

/// Three-way comparison of two booleans (`false` before `true`).
pub open spec fn ord_bool(a: bool, b: bool) -> int {
    ord_int(if a { 1 } else { 0 }, if b { 1 } else { 0 })
}

/// Lexicographic comparison of character sequences by code point (which is the
/// byte order of their UTF-8 encodings); a proper prefix comes first.
pub open spec fn ord_chars(a: Seq<char>, b: Seq<char>) -> int
    decreases a.len(),
{
    if a.len() == 0 {
        if b.len() == 0 {
            0
        } else {
            -1
        }
    } else if b.len() == 0 {
        1
    } else if a[0] != b[0] {
        if a[0] < b[0] {
            -1
        } else {
            1
        }
    } else {
        ord_chars(a.drop_first(), b.drop_first())
    }
}

/// One component of a sort key: a direction flag (`true` = reversed), then a tag,
/// a number and a text, compared in that order.
pub type Part = (bool, int, int, Seq<char>);

/// Comparison of two key components. Components of unlike direction are ordered
/// by direction; a reversed component compares the other way round.
pub open spec fn part_ord(p: Part, q: Part) -> int {
    if p.0 != q.0 {
        ord_bool(p.0, q.0)
    } else {
        let c = if p.1 != q.1 {
            ord_int(p.1, q.1)
        } else if p.2 != q.2 {
            ord_int(p.2, q.2)
        } else {
            ord_chars(p.3, q.3)
        };
        if p.0 {
            -c
        } else {
            c
        }
    }
}

/// Lexicographic comparison of two keys, component by component; a shorter key
/// that is a prefix of the other comes first.
pub open spec fn key_ord(a: Seq<Part>, b: Seq<Part>) -> int
    decreases a.len(),
{
    if a.len() == 0 || b.len() == 0 {
        ord_int(a.len() as int, b.len() as int)
    } else {
        let c = part_ord(a[0], b[0]);
        if c != 0 {
            c
        } else {
            key_ord(a.drop_first(), b.drop_first())
        }
    }
}

/// A numeric key component.
pub open spec fn num_part(rev: bool, tag: int, num: int) -> Part {
    (rev, tag, num, Seq::<char>::empty())
}

/// An optional-text key component: absent before present.
pub open spec fn opt_text_part(o: Option<Seq<char>>, rev: bool) -> Part {
    match o {
        Some(t) => (rev, 1, 0, t),
        None => (rev, 0, 0, Seq::<char>::empty()),
    }
}

/// An optional-number key component: absent before present.
pub open spec fn opt_num_part(o: Option<int>, rev: bool) -> Part {
    match o {
        Some(x) => num_part(rev, 1, x),
        None => num_part(rev, 0, 0),
    }
}

/// An optional-number key component whose absent values come last in either
/// direction; `desc` reverses the order among present values only.
pub open spec fn known_first_part(o: Option<int>, desc: bool) -> Part {
    match o {
        Some(x) => num_part(false, 0, if desc { -x } else { x }),
        None => num_part(false, 1, 0),
    }
}

/// `ord_chars` is antisymmetric, yields -1, 0 or 1, and is 0 only on equal sequences.
pub proof fn lemma_ord_chars_antisym(a: Seq<char>, b: Seq<char>)
    ensures
        ord_chars(a, b) == -ord_chars(b, a),
        -1 <= ord_chars(a, b) <= 1,
        ord_chars(a, b) == 0 <==> a == b,
    decreases a.len(),
{
    if a.len() > 0 && b.len() > 0 && a[0] == b[0] {
        lemma_ord_chars_antisym(a.drop_first(), b.drop_first());
        if a.drop_first() == b.drop_first() {
            assert(a =~= seq![a[0]] + a.drop_first());
            assert(b =~= seq![b[0]] + b.drop_first());
        }
    }
    if a == b && a.len() > 0 {
        lemma_ord_chars_antisym(a.drop_first(), b.drop_first());
    }
    if a.len() == 0 && b.len() == 0 {
        assert(a =~= b);
    }
}

/// `ord_chars` is transitive.
pub proof fn lemma_ord_chars_trans(a: Seq<char>, b: Seq<char>, c: Seq<char>)
    ensures
        ord_chars(a, b) <= 0 && ord_chars(b, c) <= 0 ==> ord_chars(a, c) <= 0,
    decreases a.len(),
{
    if a.len() > 0 && b.len() > 0 && c.len() > 0 {
        lemma_ord_chars_trans(a.drop_first(), b.drop_first(), c.drop_first());
        lemma_ord_chars_antisym(a.drop_first(), b.drop_first());
        lemma_ord_chars_antisym(b.drop_first(), c.drop_first());
    }
}

/// `part_ord` is antisymmetric and yields -1, 0 or 1.
pub proof fn lemma_part_antisym(p: Part, q: Part)
    ensures
        part_ord(p, q) == -part_ord(q, p),
        -1 <= part_ord(p, q) <= 1,
{
    lemma_ord_chars_antisym(p.3, q.3);
}

/// `part_ord` is transitive.
pub proof fn lemma_part_trans(p: Part, q: Part, r: Part)
    ensures
        part_ord(p, q) <= 0 && part_ord(q, r) <= 0 ==> part_ord(p, r) <= 0,
{
    lemma_ord_chars_antisym(p.3, q.3);
    lemma_ord_chars_antisym(q.3, r.3);
    lemma_ord_chars_antisym(p.3, r.3);
    lemma_ord_chars_trans(p.3, q.3, r.3);
    lemma_ord_chars_trans(r.3, q.3, p.3);
}

/// `key_ord` is antisymmetric and yields -1, 0 or 1.
pub proof fn lemma_key_antisym(a: Seq<Part>, b: Seq<Part>)
    ensures
        key_ord(a, b) == -key_ord(b, a),
        -1 <= key_ord(a, b) <= 1,
    decreases a.len(),
{
    if a.len() > 0 && b.len() > 0 {
        lemma_part_antisym(a[0], b[0]);
        lemma_key_antisym(a.drop_first(), b.drop_first());
    }
}

/// `key_ord` is transitive.
pub proof fn lemma_key_trans(a: Seq<Part>, b: Seq<Part>, c: Seq<Part>)
    ensures
        key_ord(a, b) <= 0 && key_ord(b, c) <= 0 ==> key_ord(a, c) <= 0,
    decreases a.len(),
{
    if a.len() > 0 && b.len() > 0 && c.len() > 0 {
        lemma_part_antisym(a[0], b[0]);
        lemma_part_antisym(b[0], c[0]);
        lemma_part_antisym(a[0], c[0]);
        lemma_part_trans(a[0], b[0], c[0]);
        lemma_part_trans(a[0], c[0], b[0]);
        lemma_part_trans(b[0], a[0], c[0]);
        lemma_part_trans(b[0], c[0], a[0]);
        lemma_part_trans(c[0], a[0], b[0]);
        lemma_part_trans(c[0], b[0], a[0]);
        lemma_key_trans(a.drop_first(), b.drop_first(), c.drop_first());
    }
}

/// A strict comparison followed by a non-strict one stays strict.
pub proof fn lemma_key_trans_strict(a: Seq<Part>, b: Seq<Part>, c: Seq<Part>)
    ensures
        key_ord(a, b) < 0 && key_ord(b, c) <= 0 ==> key_ord(a, c) < 0,
        key_ord(a, b) <= 0 && key_ord(b, c) < 0 ==> key_ord(a, c) < 0,
{
    lemma_key_trans(a, b, c);
    lemma_key_trans(b, c, a);
    lemma_key_trans(c, a, b);
    lemma_key_antisym(a, b);
    lemma_key_antisym(b, c);
    lemma_key_antisym(a, c);
}

/// Comparing two concatenated keys whose first pieces have equal length compares
/// the first pieces, and the rest only when those are equal.
pub proof fn lemma_key_concat(a1: Seq<Part>, a2: Seq<Part>, b1: Seq<Part>, b2: Seq<Part>)
    requires
        a1.len() == b1.len(),
    ensures
        key_ord(a1 + a2, b1 + b2) == if key_ord(a1, b1) != 0 {
            key_ord(a1, b1)
        } else {
            key_ord(a2, b2)
        },
    decreases a1.len(),
{
    if a1.len() == 0 {
        assert(a1 + a2 =~= a2);
        assert(b1 + b2 =~= b2);
    } else {
        assert((a1 + a2)[0] == a1[0]);
        assert((b1 + b2)[0] == b1[0]);
        assert((a1 + a2).drop_first() =~= a1.drop_first() + a2);
        assert((b1 + b2).drop_first() =~= b1.drop_first() + b2);
        lemma_key_concat(a1.drop_first(), a2, b1.drop_first(), b2);
    }
}

/// A one-component key compares as its component.
pub proof fn lemma_key_single(p: Part, q: Part)
    ensures
        key_ord(seq![p], seq![q]) == part_ord(p, q),
{
    let e1 = seq![p].drop_first();
    let e2 = seq![q].drop_first();
    assert(e1 =~= Seq::<Part>::empty());
    assert(e2 =~= Seq::<Part>::empty());
    assert(key_ord(e1, e2) == 0);
    assert(seq![p][0] == p);
    assert(seq![q][0] == q);
}

/// Three-way comparison of two character sequences.
pub fn compare_chars(a: &[char], b: &[char]) -> (r: i8)
    ensures
        r == ord_chars(a@, b@),
        -1 <= r <= 1,
{
    proof {
        lemma_ord_chars_antisym(a@, b@);
    }
    let n = a.len();
    let m = b.len();
    let mut i: usize = 0;
    assert(a@.skip(0) =~= a@);
    assert(b@.skip(0) =~= b@);
    while i < n && i < m
        invariant
            n == a@.len(),
            m == b@.len(),
            i <= n,
            i <= m,
            ord_chars(a@, b@) == ord_chars(a@.skip(i as int), b@.skip(i as int)),
        decreases n - i,
    {
        let x = a[i];
        let y = b[i];
        if x != y {
            proof {
                assert(a@.skip(i as int)[0] == x);
                assert(b@.skip(i as int)[0] == y);
            }
            return if x < y {
                -1
            } else {
                1
            };
        }
        proof {
            assert(a@.skip(i as int).drop_first() =~= a@.skip(i + 1));
            assert(b@.skip(i as int).drop_first() =~= b@.skip(i + 1));
        }
        i += 1;
    }
    if i == n {
        if i == m {
            0
        } else {
            -1
        }
    } else {
        1
    }
}

/// `part_ord` of two numeric components with the same direction.
pub fn compare_num_parts(rev: bool, tag_a: i8, num_a: i128, tag_b: i8, num_b: i128) -> (r: i8)
    ensures
        r == part_ord(num_part(rev, tag_a as int, num_a as int), num_part(rev, tag_b as int, num_b as int)),
{
    let c: i8 = if tag_a != tag_b {
        if tag_a < tag_b {
            -1
        } else {
            1
        }
    } else if num_a != num_b {
        if num_a < num_b {
            -1
        } else {
            1
        }
    } else {
        0
    };
    if rev {
        -c
    } else {
        c
    }
}

/// `part_ord` of two optional-text components with direction `rev`.
pub fn compare_opt_text(a: &Option<Vec<char>>, b: &Option<Vec<char>>, rev: bool) -> (r: i8)
    ensures
        r == part_ord(opt_text_part(opt_chars(*a), rev), opt_text_part(opt_chars(*b), rev)),
{
    let c: i8 = match (a, b) {
        (Some(x), Some(y)) => compare_chars(x, y),
        (Some(_), None) => 1,
        (None, Some(_)) => -1,
        (None, None) => 0,
    };
    if rev {
        -c
    } else {
        c
    }
}

/// The character sequence held by an optional character vector.
pub open spec fn opt_chars(o: Option<Vec<char>>) -> Option<Seq<char>> {
    match o {
        Some(v) => Some(v@),
        None => None,
    }
}

} // verus!
