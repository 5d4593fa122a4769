//! Small list decisions: drag-reordering the favourites, and the clock-seeded
//! pseudo-random picks used for the random palette and the pack shuffle.

use vstd::prelude::*;

verus! {

/// The list after dragging the item at `from` onto the slot `to`: the item is
/// taken out, then put back just before the slot's former occupant (at `to - 1`
/// when moving later, at `to` when moving earlier). Out-of-range indices, or
/// `from == to`, leave the list unchanged.
pub open spec fn reordered<T>(list: Seq<T>, from: int, to: int) -> Seq<T> {
    if from >= list.len() || to >= list.len() || from == to || from < 0 || to < 0 {
        list
    } else {
        let rest = list.remove(from);
        let at = if from < to { to - 1 } else { to };
        rest.insert(at, list[from])
    }
}

/// Move the favourite at `from` so it lands at the `to` slot (drag-reorder). The
/// result holds the same items, each as often as before.
pub fn reorder_favorites<T>(list: &mut Vec<T>, from: usize, to: usize)
    ensures
        final(list)@ == reordered(old(list)@, from as int, to as int),
        final(list)@.to_multiset() == old(list)@.to_multiset(),
{
    if from >= list.len() || to >= list.len() || from == to {
        return;
    }
    let ghost before = list@;
    let item = list.remove(from);
    let insert_at = if from < to { to - 1 } else { to };
    let at = if insert_at < list.len() { insert_at } else { list.len() };
    list.insert(at, item);
    proof {
        vstd::seq_lib::to_multiset_remove(before, from as int);
        vstd::seq_lib::to_multiset_insert(before.remove(from as int), at as int, item);
        assert(before.to_multiset().remove(before[from as int]).insert(before[from as int])
            =~= before.to_multiset()) by {
            broadcast use vstd::multiset::group_multiset_axioms;
            assert(before.to_multiset().count(before[from as int]) > 0) by {
                vstd::seq_lib::to_multiset_contains(before, before[from as int]);
            }
        }
    }
}

/// The nanoseconds since the Unix epoch on the wall clock (0 if the clock reads
/// earlier than the epoch).
/// `SystemTime::now().duration_since(UNIX_EPOCH)`: the answer depends on the
/// moment of the call, so nothing is stated of it.
#[verifier::external_body]
fn clock_nanos() -> u128 {
    std::time::SystemTime::now()
        .duration_since(std::time::UNIX_EPOCH)
        .map(|d| d.as_nanos())
        .unwrap_or(0)
}

/// The index a clock reading `nanos` selects among `n` items: the reading
/// (truncated to a machine word) modulo `n`, or 0 when there are none.
pub fn index_from_clock(nanos: u128, n: usize) -> (i: usize)
    ensures
        n == 0 ==> i == 0,
        n > 0 ==> i == (nanos as usize) % n,
{
    if n == 0 {
        return 0;
    }
    let v: usize = #[verifier::truncate] (nanos as usize);
    v % n
}

/// A wall-clock-seeded index in `0..n` (for the Random palette pick); 0 when
/// `n` is 0.
pub fn random_index(n: usize) -> (i: usize)
    ensures
        n == 0 ==> i == 0,
        n > 0 ==> i < n,
{
    if n == 0 {
        return 0;
    }
    index_from_clock(clock_nanos(), n)
}

/// The cheap scramble of a clock reading that picks a shuffle entry.
pub open spec fn scramble(nanos: u128) -> u128 {
    nanos ^ (nanos >> 17u32) ^ (nanos << 11u32)
}

/// The entry a clock reading `nanos` selects among `len` items: the scrambled
/// reading modulo `len`.
pub fn pick_index(nanos: u128, len: usize) -> (i: usize)
    requires
        len > 0,
    ensures
        i == scramble(nanos) % (len as u128),
        i < len,
{
    let mixed = nanos ^ (nanos >> 17u32) ^ (nanos << 11u32);
    (mixed % (len as u128)) as usize
}

/// Pick a pseudo-random element, seeded from the wall clock. `None` if empty.
pub fn pick_random<T>(items: &[T]) -> (r: Option<&T>)
    ensures
        r is None <==> items@.len() == 0,
        r matches Some(x) ==> items@.contains(*x),
{
    if items.len() == 0 {
        return None;
    }
    let i = pick_index(clock_nanos(), items.len());
    proof {
        assert(items@[i as int] == items@[i as int]);
    }
    Some(&items[i])
}

} // verus!
