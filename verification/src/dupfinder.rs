//! Finding images whose hashes are near a given hash.
//!
//! The hashes are kept in 65 buckets, one per possible number of set bits,
//! so that a search looks only at the buckets within the given distance of
//! the number of set bits of the hash searched for.

use vstd::prelude::*;
use crate::bits::{
    popcount, count_bits, hamming, ones_below, lemma_popcount_bound, lemma_popcount_not_xor,
    lemma_ones_below_zero,
};
use crate::status_mgr::{ImageData, StatusMgr, StatusView};

verus! {

/// The distance that the search for near duplicates uses.
pub const HAMMING_DISTANCE: u8 = 3;

/// The number of buckets: one per possible count of set bits of a `u64`.
pub const BUCKETS: usize = 65;

/// A stored hash and the path of its image, as a pair of views.
pub type FileView = (Seq<char>, u64);

/// `distance` read as an 8-bit signed number.
pub open spec fn signed_distance(distance: u8) -> int {
    if distance < 128 { distance as int } else { distance - 256 }
}

/// The search from `hash` with `distance` stays within 8-bit arithmetic.
pub open spec fn search_in_range(hash: u64, distance: u8) -> bool {
    &&& popcount(hash) - signed_distance(distance) <= 127
    &&& popcount(hash) + distance <= 255
}

/// The first bucket that a search from `hash` looks at.
pub open spec fn window_bottom(hash: u64, distance: u8) -> int {
    let low = popcount(hash) - signed_distance(distance);
    if low > 0 { low } else { 0 }
}

/// The last bucket that a search from `hash` looks at.
pub open spec fn window_top(hash: u64, distance: u8) -> int {
    let high = popcount(hash) + distance;
    if high < 64 { high } else { 64 }
}

/// A stored hash is reported for `query`: the complement of the two
/// hashes' exclusive or has at most `distance` set bits.
pub open spec fn is_near(query: u64, distance: u8, hash: u64) -> bool {
    popcount(!(query ^ hash)) <= distance
}

/// The paths of a bucket's entries that are reported for `query`, in order.
pub open spec fn near_paths(bucket: Seq<FileView>, query: u64, distance: u8) -> Seq<Seq<char>>
    decreases bucket.len(),
{
    if bucket.len() == 0 {
        Seq::empty()
    } else {
        let rest = near_paths(bucket.drop_last(), query, distance);
        if is_near(query, distance, bucket.last().1) {
            rest.push(bucket.last().0)
        } else {
            rest
        }
    }
}

/// The reported paths of the buckets `from` up to, not including, `to`.
pub open spec fn near_in_buckets(
    buckets: Seq<Seq<FileView>>,
    from: int,
    to: int,
    query: u64,
    distance: u8,
) -> Seq<Seq<char>>
    decreases to - from,
{
    if to <= from {
        Seq::empty()
    } else {
        near_in_buckets(buckets, from, to - 1, query, distance) + near_paths(
            buckets[to - 1],
            query,
            distance,
        )
    }
}

/// What a search from `query` with `distance` reports.
pub open spec fn search(buckets: Seq<Seq<FileView>>, query: u64, distance: u8) -> Seq<Seq<char>> {
    near_in_buckets(
        buckets,
        window_bottom(query, distance),
        window_top(query, distance) + 1,
        query,
        distance,
    )
}

/// The buckets after the image at `path` with `hash` was added: the entry
/// is appended to the bucket of its count of set bits.
pub open spec fn add_to_buckets(buckets: Seq<Seq<FileView>>, path: Seq<char>, hash: u64) -> Seq<
    Seq<FileView>,
> {
    buckets.update(popcount(hash) as int, buckets[popcount(hash) as int].push((path, hash)))
}

/// Sixty-five empty buckets.
pub open spec fn empty_buckets() -> Seq<Seq<FileView>> {
    Seq::new(BUCKETS as nat, |i: int| Seq::<FileView>::empty())
}

/// Each entry lies in the bucket of its count of set bits.
pub open spec fn buckets_wf(buckets: Seq<Seq<FileView>>) -> bool {
    &&& buckets.len() == BUCKETS
    &&& forall|i: int, j: int|
        0 <= i < buckets.len() && 0 <= j < buckets[i].len() ==> popcount(
            #[trigger] buckets[i][j].1,
        ) == i
}

/// A path is among a bucket's reported paths exactly when an entry of the
/// bucket with that path is near `query`.
pub proof fn lemma_near_paths_contains(bucket: Seq<FileView>, query: u64, distance: u8, path: Seq<char>)
    ensures
        near_paths(bucket, query, distance).contains(path) <==> exists|j: int|
            0 <= j < bucket.len() && bucket[j].0 == path && is_near(query, distance, bucket[j].1),
    decreases bucket.len(),
{
    if bucket.len() > 0 {
        let front = bucket.drop_last();
        lemma_near_paths_contains(front, query, distance, path);
        let rest = near_paths(front, query, distance);
        if is_near(query, distance, bucket.last().1) {
            assert(near_paths(bucket, query, distance) == rest.push(bucket.last().0));
            if rest.push(bucket.last().0).contains(path) {
                let k = choose|k: int| 0 <= k < rest.len() + 1 && rest.push(bucket.last().0)[k] == path;
                if k < rest.len() {
                    assert(rest.contains(path));
                }
            }
            if rest.contains(path) {
                let k = choose|k: int| 0 <= k < rest.len() && rest[k] == path;
                assert(rest.push(bucket.last().0)[k] == path);
            }
            if bucket.last().0 == path {
                assert(rest.push(bucket.last().0)[rest.len() as int] == path);
            }
        }
        if exists|j: int| 0 <= j < bucket.len() && bucket[j].0 == path && is_near(query, distance, bucket[j].1) {
            let j = choose|j: int| 0 <= j < bucket.len() && bucket[j].0 == path && is_near(query, distance, bucket[j].1);
            if j < front.len() {
                assert(front[j] == bucket[j]);
            }
        }
        if exists|j: int| 0 <= j < front.len() && front[j].0 == path && is_near(query, distance, front[j].1) {
            let j = choose|j: int| 0 <= j < front.len() && front[j].0 == path && is_near(query, distance, front[j].1);
            assert(bucket[j] == front[j]);
        }
    }
}

/// A path is among the reported paths of buckets `from` to `to` exactly
/// when one of those buckets holds an entry with that path near `query`.
pub proof fn lemma_near_in_buckets_contains(
    buckets: Seq<Seq<FileView>>,
    from: int,
    to: int,
    query: u64,
    distance: u8,
    path: Seq<char>,
)
    requires
        0 <= from,
        to <= buckets.len(),
    ensures
        near_in_buckets(buckets, from, to, query, distance).contains(path) <==> exists|i: int, j: int|
            from <= i < to && 0 <= j < buckets[i].len() && buckets[i][j].0 == path && is_near(
                query,
                distance,
                buckets[i][j].1,
            ),
    decreases to - from,
{
    if to > from {
        lemma_near_in_buckets_contains(buckets, from, to - 1, query, distance, path);
        lemma_near_paths_contains(buckets[to - 1], query, distance, path);
        let a = near_in_buckets(buckets, from, to - 1, query, distance);
        let b = near_paths(buckets[to - 1], query, distance);
        if (a + b).contains(path) {
            let k = choose|k: int| 0 <= k < (a + b).len() && (a + b)[k] == path;
            if k < a.len() {
                assert(a[k] == path);
            } else {
                assert(b[k - a.len()] == path);
            }
        }
        if a.contains(path) {
            let k = choose|k: int| 0 <= k < a.len() && a[k] == path;
            assert((a + b)[k] == path);
        }
        if b.contains(path) {
            let k = choose|k: int| 0 <= k < b.len() && b[k] == path;
            assert((a + b)[a.len() + k] == path);
        }
    }
}

/// A search reports a path exactly when a stored entry with that path has
/// a count of set bits within the window of the search and is near the
/// query; nothing else is reported.
pub proof fn lemma_search_reports(buckets: Seq<Seq<FileView>>, query: u64, distance: u8, path: Seq<char>)
    requires
        buckets_wf(buckets),
    ensures
        search(buckets, query, distance).contains(path) <==> exists|i: int, j: int|
            0 <= i < buckets.len() && 0 <= j < buckets[i].len() && buckets[i][j].0 == path
                && window_bottom(query, distance) <= popcount(buckets[i][j].1) <= window_top(
                query,
                distance,
            ) && is_near(query, distance, buckets[i][j].1),
{
    let from = window_bottom(query, distance);
    let to = window_top(query, distance) + 1;
    lemma_near_in_buckets_contains(buckets, from, to, query, distance, path);
}

/// Adding an entry keeps each entry in the bucket of its count of set bits.
pub proof fn lemma_add_keeps_wf(buckets: Seq<Seq<FileView>>, path: Seq<char>, hash: u64)
    requires
        buckets_wf(buckets),
    ensures
        buckets_wf(add_to_buckets(buckets, path, hash)),
{
    lemma_popcount_bound(hash);
    let added = add_to_buckets(buckets, path, hash);
    let idx = popcount(hash) as int;
    assert forall|i: int, j: int| 0 <= i < added.len() && 0 <= j < added[i].len() implies popcount(
        #[trigger] added[i][j].1,
    ) == i by {
        if i == idx && j == buckets[i].len() {
        } else {
            assert(added[i][j] == buckets[i][j]);
        }
    }
}

/// After an image is added, a search reports its path exactly when the
/// search reported the path before, or the added hash lies within the
/// window of the search and is near the query.
pub proof fn lemma_added_image_reported(
    buckets: Seq<Seq<FileView>>,
    path: Seq<char>,
    hash: u64,
    query: u64,
    distance: u8,
)
    requires
        buckets_wf(buckets),
    ensures
        search(add_to_buckets(buckets, path, hash), query, distance).contains(path) <==> (search(
            buckets,
            query,
            distance,
        ).contains(path) || (window_bottom(query, distance) <= popcount(hash) <= window_top(
            query,
            distance,
        ) && is_near(query, distance, hash))),
{
    lemma_popcount_bound(hash);
    let added = add_to_buckets(buckets, path, hash);
    let idx = popcount(hash) as int;
    lemma_add_keeps_wf(buckets, path, hash);
    lemma_search_reports(buckets, query, distance, path);
    lemma_search_reports(added, query, distance, path);
    let lo = window_bottom(query, distance);
    let hi = window_top(query, distance);
    if search(added, query, distance).contains(path) {
        let (i, j) = choose|i: int, j: int|
            0 <= i < added.len() && 0 <= j < added[i].len() && added[i][j].0 == path && lo
                <= popcount(added[i][j].1) <= hi && is_near(query, distance, added[i][j].1);
        if !(i == idx && j == buckets[i].len()) {
            assert(added[i][j] == buckets[i][j]);
        }
    }
    if search(buckets, query, distance).contains(path) {
        let (i, j) = choose|i: int, j: int|
            0 <= i < buckets.len() && 0 <= j < buckets[i].len() && buckets[i][j].0 == path && lo
                <= popcount(buckets[i][j].1) <= hi && is_near(query, distance, buckets[i][j].1);
        assert(added[i][j] == buckets[i][j]);
    }
    if lo <= popcount(hash) <= hi && is_near(query, distance, hash) {
        assert(added[idx][buckets[idx].len() as int] == (path, hash));
    }
}

/// An entry is reported for `query` exactly when the two hashes agree in
/// at most `distance` of their 64 bit positions, that is when they differ
/// in at least `64 - distance` positions.
pub proof fn lemma_is_near_agreeing_bits(query: u64, distance: u8, hash: u64)
    ensures
        is_near(query, distance, hash) <==> 64 - hamming(query, hash) <= distance,
{
    lemma_popcount_not_xor(query, hash);
}

/// A stored hash equal to the query is reported only when `distance` is at
/// least 64.
pub proof fn lemma_equal_hash_not_near(query: u64, distance: u8)
    ensures
        is_near(query, distance, query) <==> distance >= 64,
{
    lemma_popcount_not_xor(query, query);
    assert(query ^ query == 0u64) by (bit_vector);
    assert(ones_below(0u64, 64) == 0) by {
        lemma_ones_below_zero(64);
    }
}

/// For distances below 128 the search is symmetric: a search from `a`
/// reports a stored `b` exactly when a search from `b` reports a stored
/// `a`.
pub proof fn lemma_near_symmetric(a: u64, b: u64, distance: u8)
    requires
        distance < 128,
    ensures
        (window_bottom(a, distance) <= popcount(b) <= window_top(a, distance) && is_near(a, distance, b))
            <==> (window_bottom(b, distance) <= popcount(a) <= window_top(b, distance) && is_near(
            b,
            distance,
            a,
        )),
{
    lemma_popcount_bound(a);
    lemma_popcount_bound(b);
    assert(a ^ b == b ^ a) by (bit_vector);
}

/// How often `path` occurs in `paths`.
pub open spec fn occurrences(paths: Seq<Seq<char>>, path: Seq<char>) -> nat
    decreases paths.len(),
{
    if paths.len() == 0 {
        0
    } else {
        occurrences(paths.drop_last(), path) + (if paths.last() == path { 1nat } else { 0nat })
    }
}

proof fn lemma_occurrences_concat(a: Seq<Seq<char>>, b: Seq<Seq<char>>, path: Seq<char>)
    ensures
        occurrences(a + b, path) == occurrences(a, path) + occurrences(b, path),
    decreases b.len(),
{
    if b.len() > 0 {
        lemma_occurrences_concat(a, b.drop_last(), path);
        assert((a + b).drop_last() =~= a + b.drop_last());
    } else {
        assert(a + b =~= a);
    }
}

proof fn lemma_near_paths_grow(bucket: Seq<FileView>, query: u64, d1: u8, d2: u8, path: Seq<char>)
    requires
        d1 <= d2,
    ensures
        occurrences(near_paths(bucket, query, d1), path) <= occurrences(near_paths(bucket, query, d2), path),
    decreases bucket.len(),
{
    if bucket.len() > 0 {
        lemma_near_paths_grow(bucket.drop_last(), query, d1, d2, path);
        let r1 = near_paths(bucket.drop_last(), query, d1);
        let r2 = near_paths(bucket.drop_last(), query, d2);
        assert(r1.push(bucket.last().0).drop_last() =~= r1);
        assert(r2.push(bucket.last().0).drop_last() =~= r2);
    }
}

proof fn lemma_near_in_buckets_grow(
    buckets: Seq<Seq<FileView>>,
    from: int,
    to: int,
    query: u64,
    d1: u8,
    d2: u8,
    path: Seq<char>,
)
    requires
        d1 <= d2,
    ensures
        occurrences(near_in_buckets(buckets, from, to, query, d1), path) <= occurrences(
            near_in_buckets(buckets, from, to, query, d2),
            path,
        ),
    decreases to - from,
{
    if to > from {
        lemma_near_in_buckets_grow(buckets, from, to - 1, query, d1, d2, path);
        lemma_near_paths_grow(buckets[to - 1], query, d1, d2, path);
        lemma_occurrences_concat(
            near_in_buckets(buckets, from, to - 1, query, d1),
            near_paths(buckets[to - 1], query, d1),
            path,
        );
        lemma_occurrences_concat(
            near_in_buckets(buckets, from, to - 1, query, d2),
            near_paths(buckets[to - 1], query, d2),
            path,
        );
    }
}

/// The reported paths of a range of buckets split at any bucket in between.
proof fn lemma_near_in_buckets_split(
    buckets: Seq<Seq<FileView>>,
    from: int,
    mid: int,
    to: int,
    query: u64,
    distance: u8,
)
    requires
        from <= mid <= to,
    ensures
        near_in_buckets(buckets, from, to, query, distance) =~= near_in_buckets(
            buckets,
            from,
            mid,
            query,
            distance,
        ) + near_in_buckets(buckets, mid, to, query, distance),
    decreases to - mid,
{
    if to > mid {
        lemma_near_in_buckets_split(buckets, from, mid, to - 1, query, distance);
    }
}

proof fn lemma_near_in_buckets_widen(
    buckets: Seq<Seq<FileView>>,
    from1: int,
    to1: int,
    from2: int,
    to2: int,
    query: u64,
    distance: u8,
    path: Seq<char>,
)
    requires
        from2 <= from1,
        to1 <= to2,
    ensures
        occurrences(near_in_buckets(buckets, from1, to1, query, distance), path) <= occurrences(
            near_in_buckets(buckets, from2, to2, query, distance),
            path,
        ),
{
    if from1 < to1 {
        lemma_near_in_buckets_split(buckets, from2, from1, to2, query, distance);
        lemma_near_in_buckets_split(buckets, from1, to1, to2, query, distance);
        let a = near_in_buckets(buckets, from2, from1, query, distance);
        let b = near_in_buckets(buckets, from1, to1, query, distance);
        let c = near_in_buckets(buckets, to1, to2, query, distance);
        lemma_occurrences_concat(b, c, path);
        lemma_occurrences_concat(a, b + c, path);
    }
}

/// A search with a larger distance (below 128) reports each path at least
/// as often as a search with a smaller one.
pub proof fn lemma_search_grows(buckets: Seq<Seq<FileView>>, query: u64, d1: u8, d2: u8, path: Seq<char>)
    requires
        d1 <= d2 <= 127,
    ensures
        occurrences(search(buckets, query, d1), path) <= occurrences(search(buckets, query, d2), path),
        search(buckets, query, d1).contains(path) ==> search(buckets, query, d2).contains(path),
{
    let from1 = window_bottom(query, d1);
    let to1 = window_top(query, d1) + 1;
    let from2 = window_bottom(query, d2);
    let to2 = window_top(query, d2) + 1;
    lemma_near_in_buckets_grow(buckets, from1, to1, query, d1, d2, path);
    lemma_near_in_buckets_widen(buckets, from1, to1, from2, to2, query, d2, path);
    lemma_occurrences_contains(search(buckets, query, d1), path);
    lemma_occurrences_contains(search(buckets, query, d2), path);
}

/// A path occurs in a sequence exactly when it is counted there.
pub proof fn lemma_occurrences_contains(paths: Seq<Seq<char>>, path: Seq<char>)
    ensures
        paths.contains(path) <==> occurrences(paths, path) > 0,
    decreases paths.len(),
{
    if paths.len() > 0 {
        let front = paths.drop_last();
        lemma_occurrences_contains(front, path);
        if front.contains(path) {
            let k = choose|k: int| 0 <= k < front.len() && front[k] == path;
            assert(paths[k] == path);
        }
        if paths.contains(path) {
            let k = choose|k: int| 0 <= k < paths.len() && paths[k] == path;
            if k < front.len() {
                assert(front[k] == path);
            }
        }
        if paths.last() == path {
            assert(paths[paths.len() - 1] == path);
        }
    }
}

/// Every path is stored at most once.
pub open spec fn paths_unique(buckets: Seq<Seq<FileView>>) -> bool {
    forall|i1: int, j1: int, i2: int, j2: int|
        0 <= i1 < buckets.len() && 0 <= j1 < buckets[i1].len() && 0 <= i2 < buckets.len() && 0 <= j2
            < buckets[i2].len() && #[trigger] buckets[i1][j1].0 == #[trigger] buckets[i2][j2].0 ==> i1
            == i2 && j1 == j2
}

/// The entry `(path, hash)` is stored.
pub open spec fn stores(buckets: Seq<Seq<FileView>>, path: Seq<char>, hash: u64) -> bool {
    exists|i: int, j: int| 0 <= i < buckets.len() && 0 <= j < buckets[i].len() && buckets[i][j] == (path, hash)
}

/// Between two stored images, each stored once, and for distances below
/// 128, a search from the hash of the one reports the other exactly when a
/// search from the hash of the other reports the one.
pub proof fn lemma_search_symmetric(
    buckets: Seq<Seq<FileView>>,
    pa: Seq<char>,
    ha: u64,
    pb: Seq<char>,
    hb: u64,
    distance: u8,
)
    requires
        buckets_wf(buckets),
        paths_unique(buckets),
        stores(buckets, pa, ha),
        stores(buckets, pb, hb),
        distance <= 127,
    ensures
        search(buckets, ha, distance).contains(pb) <==> search(buckets, hb, distance).contains(pa),
{
    lemma_search_reports(buckets, ha, distance, pb);
    lemma_search_reports(buckets, hb, distance, pa);
    lemma_near_symmetric(ha, hb, distance);
    let (ia, ja) = choose|i: int, j: int| 0 <= i < buckets.len() && 0 <= j < buckets[i].len() && buckets[i][j] == (pa, ha);
    let (ib, jb) = choose|i: int, j: int| 0 <= i < buckets.len() && 0 <= j < buckets[i].len() && buckets[i][j] == (pb, hb);
    if search(buckets, ha, distance).contains(pb) {
        let (i, j) = choose|i: int, j: int|
            0 <= i < buckets.len() && 0 <= j < buckets[i].len() && buckets[i][j].0 == pb
                && window_bottom(ha, distance) <= popcount(buckets[i][j].1) <= window_top(ha, distance)
                && is_near(ha, distance, buckets[i][j].1);
        assert(buckets[i][j].0 == buckets[ib][jb].0);
        assert(buckets[ia][ja].0 == pa);
    }
    if search(buckets, hb, distance).contains(pa) {
        let (i, j) = choose|i: int, j: int|
            0 <= i < buckets.len() && 0 <= j < buckets[i].len() && buckets[i][j].0 == pa
                && window_bottom(hb, distance) <= popcount(buckets[i][j].1) <= window_top(hb, distance)
                && is_near(hb, distance, buckets[i][j].1);
        assert(buckets[i][j].0 == buckets[ia][ja].0);
        assert(buckets[ib][jb].0 == pb);
    }
}

/// The window of a search reaches exactly `distance` counts of set bits on
/// each side of the query's: for distances below 128, a search reports a
/// path exactly when a stored entry with that path has a count of set bits
/// within `distance` of the query's, and agrees with the query in at most
/// `distance` bit positions.
pub proof fn lemma_search_window(buckets: Seq<Seq<FileView>>, query: u64, distance: u8, path: Seq<char>)
    requires
        buckets_wf(buckets),
        distance < 128,
    ensures
        search(buckets, query, distance).contains(path) <==> exists|i: int, j: int|
            0 <= i < buckets.len() && 0 <= j < buckets[i].len() && buckets[i][j].0 == path
                && popcount(query) - distance <= popcount(buckets[i][j].1) <= popcount(query) + distance
                && popcount(!(query ^ buckets[i][j].1)) <= distance,
{
    lemma_search_reports(buckets, query, distance, path);
    lemma_popcount_bound(query);
    if search(buckets, query, distance).contains(path) {
        let (i, j) = choose|i: int, j: int|
            0 <= i < buckets.len() && 0 <= j < buckets[i].len() && buckets[i][j].0 == path
                && window_bottom(query, distance) <= popcount(buckets[i][j].1) <= window_top(query, distance)
                && is_near(query, distance, buckets[i][j].1);
        lemma_popcount_bound(buckets[i][j].1);
    }
    if exists|i: int, j: int|
        0 <= i < buckets.len() && 0 <= j < buckets[i].len() && buckets[i][j].0 == path
            && popcount(query) - distance <= popcount(buckets[i][j].1) <= popcount(query) + distance
            && popcount(!(query ^ buckets[i][j].1)) <= distance {
        let (i, j) = choose|i: int, j: int|
            0 <= i < buckets.len() && 0 <= j < buckets[i].len() && buckets[i][j].0 == path
                && popcount(query) - distance <= popcount(buckets[i][j].1) <= popcount(query) + distance
                && popcount(!(query ^ buckets[i][j].1)) <= distance;
        lemma_popcount_bound(buckets[i][j].1);
        assert(window_bottom(query, distance) <= popcount(buckets[i][j].1) <= window_top(query, distance));
    }
}

/// A stored image: its path and hash.
struct FileInfo {
    filename: String,
    hash: u64,
}

spec fn file_view(f: FileInfo) -> FileView {
    (f.filename@, f.hash)
}

spec fn bucket_view(b: Vec<FileInfo>) -> Seq<FileView> {
    b@.map_values(|f: FileInfo| file_view(f))
}

/// Sixty-five empty buckets.
fn empty_lookup() -> (lookup: Vec<Vec<FileInfo>>)
    ensures
        lookup@.map_values(|b: Vec<FileInfo>| bucket_view(b)) == empty_buckets(),
{
    let mut lookup: Vec<Vec<FileInfo>> = Vec::new();
    let mut i: usize = 0;
    while i < BUCKETS
        invariant
            i <= BUCKETS,
            lookup@.len() == i,
            forall|j: int| 0 <= j < i ==> (#[trigger] lookup@[j])@.len() == 0,
        decreases BUCKETS - i,
    {
        lookup.push(Vec::new());
        i += 1;
    }
    let ghost view = lookup@.map_values(|b: Vec<FileInfo>| bucket_view(b));
    assert forall|j: int| 0 <= j < BUCKETS implies view[j] =~= empty_buckets()[j] by {
        assert(lookup@[j]@.len() == 0);
    }
    assert(view =~= empty_buckets());
    lookup
}

/// Hashes of images, bucketed by their count of set bits; the hash of an
/// image is taken from its `ImageData` by `hash_getter`.
pub struct DupFinderMap<G> {
    hash_getter: G,
    lookup: Vec<Vec<FileInfo>>,
}

impl<G> View for DupFinderMap<G> {
    type V = Seq<Seq<FileView>>;

    closed spec fn view(&self) -> Seq<Seq<FileView>> {
        self.lookup@.map_values(|b: Vec<FileInfo>| bucket_view(b))
    }
}

impl<G> DupFinderMap<G> {
    /// Each entry lies in the bucket of its count of set bits.
    #[verifier::type_invariant]
    closed spec fn bucketed(self) -> bool {
        buckets_wf(self@)
    }

    /// The function that takes an image's hash from its data.
    pub closed spec fn getter(&self) -> G {
        self.hash_getter
    }
}

impl<G: Fn(&ImageData) -> Option<u64>> DupFinderMap<G> {
    /// An empty map that takes hashes with `hash_getter`.
    pub fn new(hash_getter: G) -> (map: Self)
        ensures
            map@ == empty_buckets(),
            buckets_wf(map@),
            map.getter() == hash_getter,
    {
        let lookup = empty_lookup();
        let map = DupFinderMap { hash_getter, lookup };
        map
    }

    /// Adds the image at `path` when `hash_getter` yields a hash for its
    /// data, and returns that hash.
    pub fn add_image(&mut self, path: &str, image_data: &ImageData) -> (added: Option<u64>)
        requires
            call_requires(old(self).getter(), (image_data,)),
        ensures
            call_ensures(old(self).getter(), (image_data,), added),
            final(self).getter() == old(self).getter(),
            buckets_wf(old(self)@),
            buckets_wf(final(self)@),
            match added {
                Some(hash) => final(self)@ == add_to_buckets(old(self)@, path@, hash),
                None => final(self)@ == old(self)@,
            },
    {
        proof {
            use_type_invariant(&*self);
        }
        if let Some(hash) = (self.hash_getter)(image_data) {
            let bit_count = count_bits(hash);
            let idx = bit_count as usize;
            proof {
                lemma_popcount_bound(hash);
            }
            let mut lookup = empty_lookup();
            core::mem::swap(&mut lookup, &mut self.lookup);
            let ghost before = lookup@;
            assert(before.map_values(|b: Vec<FileInfo>| bucket_view(b)) == old(self)@);
            lookup[idx].push(FileInfo { filename: path.to_owned(), hash });
            proof {
                let old_view = old(self)@;
                assert(bucket_view(lookup@[idx as int]) =~= bucket_view(before[idx as int]).push(
                    (path@, hash),
                ));
                assert(lookup@.map_values(|b: Vec<FileInfo>| bucket_view(b)) =~= add_to_buckets(
                    old_view,
                    path@,
                    hash,
                ));
                lemma_add_keeps_wf(old_view, path@, hash);
            }
            self.lookup = lookup;
            Some(hash)
        } else {
            None
        }
    }

    /// The paths of the stored images reported for `hash`: the buckets from
    /// `window_bottom` to `window_top` in order, each in the order its
    /// images were added, keeping those for which the complement of the
    /// exclusive or with `hash` has at most `distance` set bits.
    pub fn find_near_images(&self, hash: u64, distance: u8) -> (found: Vec<String>)
        requires
            search_in_range(hash, distance),
        ensures
            buckets_wf(self@),
            found@.map_values(|p: String| p@) == search(self@, hash, distance),
    {
        proof {
            use_type_invariant(self);
        }
        let center = count_bits(hash);
        proof {
            assert(distance < 128 ==> (distance as i8) as int == distance as int) by (bit_vector);
            assert(distance >= 128 ==> (distance as i8) as int == distance as int - 256) by (bit_vector);
            assert(center <= 64 ==> (center as i8) as int == center as int) by (bit_vector);
        }
        let low: i8 = center as i8 - distance as i8;
        let bottom: usize = if low > 0 { low as usize } else { 0 };
        let high: u8 = center + distance;
        let top: usize = if high < 64 { high as usize } else { 64 };
        let ghost buckets = self@;
        let mut found: Vec<String> = Vec::new();
        let mut idx: usize = bottom;
        while idx <= top
            invariant
                buckets == self@,
                self.lookup@.len() == BUCKETS,
                top <= 64,
                bottom <= idx,
                idx <= top + 1 || idx == bottom,
                found@.map_values(|p: String| p@) == near_in_buckets(
                    buckets,
                    bottom as int,
                    idx as int,
                    hash,
                    distance,
                ),
            decreases top + 1 - idx,
        {
            let list = &self.lookup[idx];
            let ghost bucket = buckets[idx as int];
            assert(bucket == bucket_view(*list));
            let ghost done = near_in_buckets(buckets, bottom as int, idx as int, hash, distance);
            let mut j: usize = 0;
            while j < list.len()
                invariant
                    bucket == bucket_view(*list),
                    j <= list@.len(),
                    found@.map_values(|p: String| p@) == done + near_paths(
                        bucket.take(j as int),
                        hash,
                        distance,
                    ),
                decreases list@.len() - j,
            {
                let fi = &list[j];
                let xored = !(hash ^ fi.hash);
                let hamming = count_bits(xored);
                let ghost before = found@;
                if hamming <= distance {
                    found.push(fi.filename.clone());
                    assert(found@.map_values(|p: String| p@) =~= before.map_values(|p: String| p@).push(
                        fi.filename@,
                    ));
                }
                assert(bucket.take(j as int + 1).drop_last() =~= bucket.take(j as int));
                assert(bucket[j as int] == file_view(list@[j as int]));
                j += 1;
            }
            assert(bucket.take(list@.len() as int) =~= bucket);
            idx += 1;
        }
        found
    }
}

/// The paths among `names` whose data in `mgr` holds an average hash,
/// with that hash, in order.
pub open spec fn hashed_files(names: Seq<Seq<char>>, mgr: StatusView) -> Seq<FileView>
    decreases names.len(),
{
    if names.len() == 0 {
        Seq::empty()
    } else {
        let rest = hashed_files(names.drop_last(), mgr);
        match mgr.data_or_default(names.last()).a_hash {
            Some(hash) => rest.push((names.last(), hash)),
            None => rest,
        }
    }
}

/// The buckets that adding the entries in order to an empty map builds.
pub open spec fn buckets_of(entries: Seq<FileView>) -> Seq<Seq<FileView>>
    decreases entries.len(),
{
    if entries.len() == 0 {
        empty_buckets()
    } else {
        add_to_buckets(buckets_of(entries.drop_last()), entries.last().0, entries.last().1)
    }
}

proof fn lemma_buckets_of_wf(entries: Seq<FileView>)
    ensures
        buckets_wf(buckets_of(entries)),
    decreases entries.len(),
{
    if entries.len() > 0 {
        lemma_buckets_of_wf(entries.drop_last());
        lemma_add_keeps_wf(buckets_of(entries.drop_last()), entries.last().0, entries.last().1);
    }
}

/// For each entry in order whose search with `HAMMING_DISTANCE` in
/// `buckets` reports something, its path and what the search reports.
pub open spec fn reports(entries: Seq<FileView>, buckets: Seq<Seq<FileView>>) -> Seq<
    (Seq<char>, Seq<Seq<char>>),
>
    decreases entries.len(),
{
    if entries.len() == 0 {
        Seq::empty()
    } else {
        let rest = reports(entries.drop_last(), buckets);
        let found = search(buckets, entries.last().1, HAMMING_DISTANCE);
        if found.len() > 0 {
            rest.push((entries.last().0, found))
        } else {
            rest
        }
    }
}

/// The report of near duplicates among the images at `names`: every image
/// with an average hash in `mgr` is added to a map, then searched for with
/// `HAMMING_DISTANCE`, and the images for which the search reports
/// something are listed with what it reports.
pub open spec fn near_duplicate_report(names: Seq<Seq<char>>, mgr: StatusView) -> Seq<
    (Seq<char>, Seq<Seq<char>>),
> {
    let entries = hashed_files(names, mgr);
    reports(entries, buckets_of(entries))
}

/// A report as views.
pub open spec fn report_view(report: Seq<(String, Vec<String>)>) -> Seq<(Seq<char>, Seq<Seq<char>>)> {
    report.map_values(|r: (String, Vec<String>)| (r.0@, r.1@.map_values(|p: String| p@)))
}

/// Every name with an average hash is among the hashed files.
proof fn lemma_hashed_files_has(names: Seq<Seq<char>>, mgr: StatusView, j: int, hash: u64)
    requires
        0 <= j < names.len(),
        mgr.data_or_default(names[j]).a_hash == Some(hash),
    ensures
        exists|m: int| 0 <= m < hashed_files(names, mgr).len() && hashed_files(names, mgr)[m] == (names[j], hash),
    decreases names.len(),
{
    let front = names.drop_last();
    let rest = hashed_files(front, mgr);
    let all = hashed_files(names, mgr);
    if j == names.len() - 1 {
        assert(all == rest.push((names.last(), hash)));
        let m = rest.len() as int;
        assert(0 <= m < all.len() && all[m] == (names[j], hash));
    } else {
        assert(front[j] == names[j]);
        lemma_hashed_files_has(front, mgr, j, hash);
        let m = choose|m: int| 0 <= m < rest.len() && rest[m] == (names[j], hash);
        match mgr.data_or_default(names.last()).a_hash {
            Some(h) => {
                assert(all == rest.push((names.last(), h)));
                assert(all[m] == rest[m]);
            },
            None => {
                assert(all == rest);
            },
        }
        assert(0 <= m < all.len() && all[m] == (names[j], hash));
    }
}

/// The buckets built from entries store every entry.
proof fn lemma_buckets_of_stores(entries: Seq<FileView>, m: int)
    requires
        0 <= m < entries.len(),
    ensures
        stores(buckets_of(entries), entries[m].0, entries[m].1),
    decreases entries.len(),
{
    let front = entries.drop_last();
    let before = buckets_of(front);
    lemma_buckets_of_wf(front);
    let h = entries.last().1;
    lemma_popcount_bound(h);
    let idx = popcount(h) as int;
    let after = add_to_buckets(before, entries.last().0, h);
    assert(buckets_of(entries) == after);
    if m == entries.len() - 1 {
        assert(after[idx][before[idx].len() as int] == (entries[m].0, entries[m].1));
    } else {
        lemma_buckets_of_stores(front, m);
        assert(front[m] == entries[m]);
        let (i, j) = choose|i: int, j: int|
            0 <= i < before.len() && 0 <= j < before[i].len() && before[i][j] == (front[m].0, front[m].1);
        assert(after[i][j] == before[i][j]);
    }
}

/// Every entry whose search finds something is in the reports, with what
/// its search finds.
proof fn lemma_reports_has(entries: Seq<FileView>, buckets: Seq<Seq<FileView>>, m: int)
    requires
        0 <= m < entries.len(),
        search(buckets, entries[m].1, HAMMING_DISTANCE).len() > 0,
    ensures
        exists|k: int| 0 <= k < reports(entries, buckets).len() && reports(entries, buckets)[k] == (
            entries[m].0,
            search(buckets, entries[m].1, HAMMING_DISTANCE),
        ),
    decreases entries.len(),
{
    let front = entries.drop_last();
    let rest = reports(front, buckets);
    let found = search(buckets, entries.last().1, HAMMING_DISTANCE);
    if m == entries.len() - 1 {
        assert(reports(entries, buckets) == rest.push((entries.last().0, found)));
        assert(reports(entries, buckets)[rest.len() as int] == (entries[m].0, found));
    } else {
        assert(front[m] == entries[m]);
        lemma_reports_has(front, buckets, m);
        let k = choose|k: int| 0 <= k < rest.len() && rest[k] == (
            front[m].0,
            search(buckets, front[m].1, HAMMING_DISTANCE),
        );
        if found.len() > 0 {
            assert(reports(entries, buckets) == rest.push((entries.last().0, found)));
            assert(reports(entries, buckets)[k] == rest[k]);
        }
    }
}

/// Every pair of named images with average hashes whose counts of set bits
/// differ by at most 3 and that agree in at most 3 bit positions is
/// reported: the first is listed, and its finds hold the second.
pub proof fn lemma_report_finds_near_pairs(names: Seq<Seq<char>>, mgr: StatusView, i: int, j: int, hi: u64, hj: u64)
    requires
        0 <= i < names.len(),
        0 <= j < names.len(),
        mgr.data_or_default(names[i]).a_hash == Some(hi),
        mgr.data_or_default(names[j]).a_hash == Some(hj),
        popcount(hi) <= popcount(hj) + 3,
        popcount(hj) <= popcount(hi) + 3,
        popcount(!(hi ^ hj)) <= 3,
    ensures
        exists|k: int|
            0 <= k < near_duplicate_report(names, mgr).len() && near_duplicate_report(names, mgr)[k].0
                == names[i] && near_duplicate_report(names, mgr)[k].1.contains(names[j]),
{
    let entries = hashed_files(names, mgr);
    let buckets = buckets_of(entries);
    lemma_buckets_of_wf(entries);
    lemma_hashed_files_has(names, mgr, i, hi);
    lemma_hashed_files_has(names, mgr, j, hj);
    let mi = choose|m: int| 0 <= m < entries.len() && entries[m] == (names[i], hi);
    let mj = choose|m: int| 0 <= m < entries.len() && entries[m] == (names[j], hj);
    lemma_buckets_of_stores(entries, mj);
    let (bi, bj) = choose|a: int, b: int|
        0 <= a < buckets.len() && 0 <= b < buckets[a].len() && buckets[a][b] == (entries[mj].0, entries[mj].1);
    lemma_search_window(buckets, hi, HAMMING_DISTANCE, names[j]);
    assert(buckets[bi][bj].0 == names[j]);
    let found = search(buckets, hi, HAMMING_DISTANCE);
    assert(found.contains(names[j]));
    assert(found.len() > 0);
    assert(entries[mi].1 == hi && entries[mi].0 == names[i]);
    lemma_reports_has(entries, buckets, mi);
    let report = reports(entries, buckets);
    assert(near_duplicate_report(names, mgr) == report);
    let k = choose|k: int| 0 <= k < report.len() && report[k] == (entries[mi].0, search(buckets, entries[mi].1, HAMMING_DISTANCE));
    assert(report[k].0 == names[i]);
    assert(report[k].1 == found);
}

/// Finds near duplicates among the images at `filenames` by their average
/// hashes in `mgr` (an image without data counts as one without hashes).
pub fn near_duplicates(filenames: &Vec<String>, mgr: &StatusMgr) -> (report: Vec<(String, Vec<String>)>)
    ensures
        report_view(report@) == near_duplicate_report(filenames@.map_values(|f: String| f@), mgr@),
{
    let ghost names = filenames@.map_values(|f: String| f@);
    let getter = |id: &ImageData| -> (hash: Option<u64>)
        ensures
            hash == id.a_hash,
        { id.a_hash };
    assert(forall|d: &ImageData| call_requires(getter, (d,)));
    assert(forall|d: &ImageData, h: Option<u64>| call_ensures(getter, (d,), h) ==> h == d.a_hash);
    let mut map = DupFinderMap::new(getter);
    let mut hashed: Vec<(String, u64)> = Vec::new();
    let n = filenames.len();
    let mut i: usize = 0;
    while i < n
        invariant
            n == filenames@.len(),
            names == filenames@.map_values(|f: String| f@),
            i <= n,
            map.getter() == getter,
            forall|d: &ImageData| call_requires(getter, (d,)),
            forall|d: &ImageData, h: Option<u64>| call_ensures(getter, (d,), h) ==> h == d.a_hash,
            map@ == buckets_of(hashed@.map_values(|e: (String, u64)| (e.0@, e.1))),
            hashed@.map_values(|e: (String, u64)| (e.0@, e.1)) == hashed_files(names.take(i as int), mgr@),
        decreases n - i,
    {
        let ghost before = hashed@.map_values(|e: (String, u64)| (e.0@, e.1));
        proof {
            lemma_buckets_of_wf(before);
        }
        let data = match mgr.get_image_data(&filenames[i]) {
            Some(d) => *d,
            None => ImageData::default(),
        };
        assert(names.take(i as int + 1).drop_last() =~= names.take(i as int));
        assert(names[i as int] == filenames@[i as int]@);
        assert(data == mgr@.data_or_default(names[i as int]));
        let added = map.add_image(filenames[i].as_str(), &data);
        assert(added == data.a_hash);
        if let Some(hash) = added {
            hashed.push((filenames[i].clone(), hash));
            let ghost after = hashed@.map_values(|e: (String, u64)| (e.0@, e.1));
            assert(after =~= before.push((filenames@[i as int]@, hash)));
            assert(after.drop_last() =~= before);
        }
        i += 1;
    }
    assert(names.take(n as int) =~= names);
    let ghost entries = hashed@.map_values(|e: (String, u64)| (e.0@, e.1));
    proof {
        lemma_buckets_of_wf(entries);
    }
    let mut report: Vec<(String, Vec<String>)> = Vec::new();
    let mut k: usize = 0;
    while k < hashed.len()
        invariant
            entries == hashed@.map_values(|e: (String, u64)| (e.0@, e.1)),
            map@ == buckets_of(entries),
            buckets_wf(map@),
            k <= hashed@.len(),
            report_view(report@) == reports(entries.take(k as int), map@),
        decreases hashed@.len() - k,
    {
        let hash = hashed[k].1;
        proof {
            lemma_popcount_bound(hash);
        }
        let found = map.find_near_images(hash, HAMMING_DISTANCE);
        let ghost before = report@;
        assert(entries.take(k as int + 1).drop_last() =~= entries.take(k as int));
        assert(entries[k as int] == (hashed@[k as int].0@, hash));
        if found.len() > 0 {
            report.push((hashed[k].0.clone(), found));
            assert(report_view(report@) =~= report_view(before).push(
                (hashed@[k as int].0@, search(map@, hash, HAMMING_DISTANCE)),
            ));
        } else {
            assert(search(map@, hash, HAMMING_DISTANCE).len() == 0);
        }
        k += 1;
    }
    assert(entries.take(hashed@.len() as int) =~= entries);
    report
}

} // verus!
