//! Decisions of the persistent HTTP cache: the file names blobs are stored under,
//! when a cached entry is stale, and how many least-recently-used entries an
//! over-full cache drops.

use vstd::prelude::*;
use crate::archive::{hash_str, hex16, str_hash};
use crate::text::{chars_of, padded_digits, push_all, push_str, string_from_chars};

verus! {

/// The cache grows to at most this many bytes before least-recently-used blobs
/// are dropped (2 GiB).
pub const MAX_BYTES: i64 = 2147483648;

/// The key a URL's blob is filed under: its string hash as 16 hex digits.
pub open spec fn key_text(url: Seq<char>) -> Seq<char> {
    hex16(str_hash(url))
}

/// The 16-hex-digit key a URL's blob is filed under.
pub fn key(url: &str) -> (k: String)
    ensures
        k@ == key_text(url@),
{
    let h = hash_str(url);
    string_from_chars(&padded_digits(h, 16, false, 16, '0'))
}

/// The file name of a URL's in-memory blob: `<key>.bin`.
pub fn blob_name(url: &str) -> (r: String)
    ensures
        r@ == key_text(url@) + ".bin"@,
{
    let mut out = chars_of(key(url).as_str());
    push_str(&mut out, ".bin");
    string_from_chars(&out)
}

/// The path (relative to the cache directory) of a URL's downloaded file:
/// `files/<key>/<filename>`, so the file keeps its own name and extension.
pub fn file_rel_path(url: &str, filename: &str) -> (r: String)
    ensures
        r@ == "files/"@ + key_text(url@) + seq!['/'] + filename@,
{
    let mut out: Vec<char> = Vec::new();
    push_str(&mut out, "files/");
    let k = chars_of(key(url).as_str());
    push_all(&mut out, &k);
    out.push('/');
    push_str(&mut out, filename);
    string_from_chars(&out)
}

/// A cached entry fetched at `fetched` is stale at `now` (both Unix seconds)
/// when a time-to-live is given and more than that many seconds have passed;
/// without a time-to-live the content never expires.
pub open spec fn is_stale_spec(ttl: Option<i64>, now: i64, fetched: i64) -> bool {
    match ttl {
        Some(t) => now - fetched > t,
        None => false,
    }
}

/// Whether a cached entry must be fetched again.
pub fn is_stale(ttl: Option<i64>, now: i64, fetched: i64) -> (b: bool)
    requires
        i64::MIN <= now - fetched <= i64::MAX,
    ensures
        b == is_stale_spec(ttl, now, fetched),
{
    match ttl {
        Some(t) => now - fetched > t,
        None => false,
    }
}

/// How many of the oldest entries (sizes `bytes`, oldest first) are dropped while
/// `over` bytes remain above the cap.
pub open spec fn evict_len(over: int, bytes: Seq<i64>) -> nat
    decreases bytes.len(),
{
    if bytes.len() == 0 || over <= 0 {
        0
    } else {
        1 + evict_len(over - bytes[0], bytes.drop_first())
    }
}

/// The sum of a list of sizes.
pub open spec fn sum_sizes(bytes: Seq<i64>) -> int
    decreases bytes.len(),
{
    if bytes.len() == 0 {
        0
    } else {
        bytes[0] + sum_sizes(bytes.drop_first())
    }
}

/// The number of least-recently-used entries to delete when the cache holds
/// `total` bytes against a cap of `cap`: none when within the cap, else the
/// oldest entries one by one until the excess is gone or the list runs out.
pub fn evict_count(total: i64, cap: i64, bytes: &[i64]) -> (k: usize)
    requires
        bytes@.len() <= 0x1000_0000_0000_0000,
    ensures
        k == if total <= cap { 0 } else { evict_len(total - cap, bytes@) },
{
    if total <= cap {
        return 0;
    }
    let mut over: i128 = total as i128 - cap as i128;
    let n = bytes.len();
    let mut k: usize = 0;
    proof {
        assert(bytes@.skip(0) =~= bytes@);
    }
    while k < n && over > 0
        invariant
            n == bytes@.len(),
            n <= 0x1000_0000_0000_0000,
            k <= n,
            -(k as int + 2) * 0x8000_0000_0000_0000 <= over <= (k as int + 2) * 0x8000_0000_0000_0000,
            evict_len(total - cap, bytes@) == k + evict_len(over as int, bytes@.skip(k as int)),
        decreases n - k,
    {
        proof {
            assert(bytes@.skip(k as int)[0] == bytes@[k as int]);
            assert(bytes@.skip(k as int).drop_first() =~= bytes@.skip(k + 1));
        }
        over = over - bytes[k] as i128;
        k += 1;
    }
    k
}

/// The sum of the first `k` sizes.
pub open spec fn prefix_sum(bytes: Seq<i64>, k: int) -> int {
    sum_sizes(bytes.take(k))
}

proof fn lemma_prefix_sum_step(bytes: Seq<i64>, k: int)
    requires
        0 <= k < bytes.len(),
    ensures
        prefix_sum(bytes, k + 1) == bytes[0] + prefix_sum(bytes.drop_first(), k),
{
    assert(bytes.take(k + 1).drop_first() =~= bytes.drop_first().take(k));
}

/// Eviction drops exactly as many of the oldest entries as it must: after the
/// `evict_len` oldest are gone the excess is used up, or every entry is gone; and
/// with one entry fewer an excess would remain.
pub proof fn eviction_stops_once_within_cap(over: int, bytes: Seq<i64>)
    ensures
        evict_len(over, bytes) <= bytes.len(),
        over - prefix_sum(bytes, evict_len(over, bytes) as int) <= 0 || evict_len(over, bytes)
            == bytes.len(),
        evict_len(over, bytes) > 0 ==> over - prefix_sum(bytes, evict_len(over, bytes) - 1) > 0,
    decreases bytes.len(),
{
    let k = evict_len(over, bytes);
    if bytes.len() == 0 || over <= 0 {
        assert(bytes.take(0) =~= Seq::<i64>::empty());
    } else {
        let rest = bytes.drop_first();
        eviction_stops_once_within_cap(over - bytes[0], rest);
        lemma_prefix_sum_step(bytes, k - 1);
        if k >= 2 {
            lemma_prefix_sum_step(bytes, k - 2);
        } else {
            assert(bytes.take(0) =~= Seq::<i64>::empty());
        }
    }
}

} // verus!
