use crate::types::AnnData;
use vstd::prelude::*;

verus! {

/// Why a buffer could not be locked.
#[derive(Clone, Copy, Debug, PartialEq, Eq, Structural)]
pub enum LockError {
    /// The sorted records change bucket more often than there are ranges
    /// to hold the runs.
    TooManyRanges,
}

/// The bucket of a hash prefix.
pub open spec fn bucket_id(hash_pfx: u64, ranges: usize) -> int
    recommends
        ranges > 0,
{
    hash_pfx as int % ranges as int
}

/// The records are in ascending order of hash prefix.
pub open spec fn sorted_by_pfx(s: Seq<AnnData>) -> bool {
    forall|i: int, j: int| 0 <= i <= j < s.len() ==> s[i].hash_pfx <= s[j].hash_pfx
}

/// The records in ascending order of hash prefix. Records of equal prefix
/// may stand in any order, which no range end depends on.
pub open spec fn in_pfx_order(s: Seq<AnnData>) -> Seq<AnnData> {
    choose|t: Seq<AnnData>| sorted_by_pfx(t) && t.to_multiset() == s.to_multiset()
}

/// A new run starts at `i`: the record there is in another bucket than the
/// record before it.
pub open spec fn is_boundary(s: Seq<AnnData>, ranges: usize, i: int) -> bool {
    0 < i < s.len() && bucket_id(s[i].hash_pfx, ranges) != bucket_id(s[i - 1].hash_pfx, ranges)
}

/// The positions below `m` at which a new run starts, ascending.
pub open spec fn boundaries_below(s: Seq<AnnData>, ranges: usize, m: int) -> Seq<usize>
    decreases m,
{
    if m <= 0 {
        Seq::empty()
    } else if is_boundary(s, ranges, m - 1) {
        boundaries_below(s, ranges, m - 1).push((m - 1) as usize)
    } else {
        boundaries_below(s, ranges, m - 1)
    }
}

/// The records fall into at most `ranges` runs of equal bucket id.
pub open spec fn fits_ranges(s: Seq<AnnData>, ranges: usize) -> bool {
    ranges > 0 && boundaries_below(s, ranges, s.len() as int).len() < ranges
}

/// The end offset of each of the `ranges` ranges: the start of every run but
/// the first, then the number of records for the last run and for every
/// range that is left unused.
pub open spec fn bucket_bounds(s: Seq<AnnData>, ranges: usize) -> Seq<usize> {
    let cuts = boundaries_below(s, ranges, s.len() as int);
    Seq::new(
        ranges as nat,
        |k: int|
            if k < cuts.len() {
                cuts[k]
            } else {
                s.len() as usize
            },
    )
}

/// Where range `k` starts: at 0, or where the range before it ends.
pub open spec fn range_start(bounds: Seq<usize>, k: int) -> int {
    if k <= 0 {
        0
    } else {
        bounds[k - 1] as int
    }
}

/// The number of records in the first `k` ranges together.
pub open spec fn range_count_sum(bounds: Seq<usize>, k: int) -> int
    decreases k,
{
    if k <= 0 {
        0
    } else {
        range_count_sum(bounds, k - 1) + (bounds[k - 1] - range_start(bounds, k - 1))
    }
}

/// The run starts below `m` are ascending and lie in `1..m`.
pub proof fn lemma_boundaries_ascending(s: Seq<AnnData>, ranges: usize, m: int)
    requires
        m <= s.len() <= usize::MAX,
    ensures
        forall|k: int|
            #![trigger boundaries_below(s, ranges, m)[k]]
            0 <= k < boundaries_below(s, ranges, m).len() ==> 0 < boundaries_below(s, ranges, m)[k]
                < m,
        forall|j: int, k: int|
            #![trigger boundaries_below(s, ranges, m)[j], boundaries_below(s, ranges, m)[k]]
            0 <= j < k < boundaries_below(s, ranges, m).len() ==> boundaries_below(s, ranges, m)[j]
                < boundaries_below(s, ranges, m)[k],
        forall|k: int|
            #![trigger boundaries_below(s, ranges, m)[k]]
            0 <= k < boundaries_below(s, ranges, m).len() ==> is_boundary(
                s,
                ranges,
                boundaries_below(s, ranges, m)[k] as int,
            ),
        m > 0 ==> boundaries_below(s, ranges, m).len() < m,
        m <= 0 ==> boundaries_below(s, ranges, m).len() == 0,
    decreases m,
{
    if m > 0 {
        lemma_boundaries_ascending(s, ranges, m - 1);
        let prev = boundaries_below(s, ranges, m - 1);
        let cur = boundaries_below(s, ranges, m);
        if is_boundary(s, ranges, m - 1) {
            assert(cur == prev.push((m - 1) as usize));
            assert forall|k: int| 0 <= k < cur.len() implies 0 < #[trigger] cur[k] < m by {
                if k < prev.len() {
                    assert(cur[k] == prev[k]);
                }
            }
            assert forall|k: int| 0 <= k < cur.len() implies is_boundary(
                s,
                ranges,
                #[trigger] cur[k] as int,
            ) by {
                if k < prev.len() {
                    assert(cur[k] == prev[k]);
                }
            }
            assert forall|j: int, k: int| 0 <= j < k < cur.len() implies #[trigger] cur[j]
                < #[trigger] cur[k] by {
                assert(cur[j] == prev[j]);
                if k < prev.len() {
                    assert(cur[k] == prev[k]);
                }
            }
        } else {
            assert(cur == prev);
        }
    }
}

/// The run starts below `m` begin with the run starts below any `n <= m`.
pub proof fn lemma_boundaries_prefix(s: Seq<AnnData>, ranges: usize, n: int, m: int)
    requires
        n <= m,
    ensures
        boundaries_below(s, ranges, n).len() <= boundaries_below(s, ranges, m).len(),
        boundaries_below(s, ranges, n) == boundaries_below(s, ranges, m).subrange(
            0,
            boundaries_below(s, ranges, n).len() as int,
        ),
    decreases m - n,
{
    if n < m {
        lemma_boundaries_prefix(s, ranges, n, m - 1);
    }
    assert(boundaries_below(s, ranges, n) =~= boundaries_below(s, ranges, m).subrange(
        0,
        boundaries_below(s, ranges, n).len() as int,
    ));
}

/// Every position below `m` at which a new run starts is listed.
pub proof fn lemma_boundary_listed(s: Seq<AnnData>, ranges: usize, m: int, x: int)
    requires
        x < m <= s.len() <= usize::MAX,
        is_boundary(s, ranges, x),
    ensures
        exists|q: int|
            0 <= q < boundaries_below(s, ranges, m).len() && #[trigger] boundaries_below(
                s,
                ranges,
                m,
            )[q] == x,
    decreases m,
{
    let cur = boundaries_below(s, ranges, m);
    if x == m - 1 {
        assert(cur[cur.len() - 1] == x);
    } else {
        lemma_boundary_listed(s, ranges, m - 1, x);
        let prev = boundaries_below(s, ranges, m - 1);
        let q = choose|q: int| 0 <= q < prev.len() && #[trigger] prev[q] == x;
        assert(cur[q] == x);
    }
}

/// Two orderings of the same records by hash prefix show the same prefix at
/// every position.
pub proof fn lemma_sorted_prefixes_agree(a: Seq<AnnData>, b: Seq<AnnData>)
    requires
        sorted_by_pfx(a),
        sorted_by_pfx(b),
        a.to_multiset() == b.to_multiset(),
    ensures
        a.len() == b.len(),
        forall|i: int| 0 <= i < a.len() ==> (#[trigger] a[i]).hash_pfx == b[i].hash_pfx,
    decreases a.len(),
{
    broadcast use vstd::seq_lib::group_to_multiset_ensures;

    assert(a.len() == a.to_multiset().len());
    assert(b.len() == b.to_multiset().len());
    if a.len() > 0 {
        assert(a.to_multiset().contains(a[0]));
        assert(b.to_multiset().contains(b[0]));
        assert(b.contains(a[0]));
        assert(a.contains(b[0]));
        let i = choose|i: int| 0 <= i < b.len() && b[i] == a[0];
        let j = choose|j: int| 0 <= j < a.len() && a[j] == b[0];
        assert(a[0].hash_pfx <= a[j].hash_pfx);
        assert(b[0].hash_pfx <= b[i].hash_pfx);
        let a1 = a.remove(0);
        let b1 = b.remove(i);
        assert(a1.to_multiset() =~= a.to_multiset().remove(a[0]));
        assert(b1.to_multiset() =~= b.to_multiset().remove(b[i]));
        assert(sorted_by_pfx(a1)) by {
            assert forall|x: int, y: int| 0 <= x <= y < a1.len() implies a1[x].hash_pfx
                <= a1[y].hash_pfx by {
                assert(a1[x] == a[x + 1] && a1[y] == a[y + 1]);
            }
        }
        assert(sorted_by_pfx(b1)) by {
            assert forall|x: int, y: int| 0 <= x <= y < b1.len() implies b1[x].hash_pfx
                <= b1[y].hash_pfx by {
                assert(b1[x] == b[if x < i { x } else { x + 1 }]);
                assert(b1[y] == b[if y < i { y } else { y + 1 }]);
            }
        }
        lemma_sorted_prefixes_agree(a1, b1);
        assert forall|k: int| 0 <= k < a.len() implies (#[trigger] a[k]).hash_pfx
            == b[k].hash_pfx by {
            if k > 0 {
                assert(a1[k - 1] == a[k]);
                assert(b1[k - 1] == b[if k - 1 < i { k - 1 } else { k }]);
                if k - 1 < i {
                    assert(b[0].hash_pfx <= b[k - 1].hash_pfx <= b[k].hash_pfx <= b[i].hash_pfx);
                }
            }
        }
    }
}

/// Two orderings of the same records by hash prefix start their runs at the
/// same positions, so they fit the same number of ranges and give the same
/// range ends.
pub proof fn lemma_sorted_same_bounds(a: Seq<AnnData>, b: Seq<AnnData>, ranges: usize, m: int)
    requires
        sorted_by_pfx(a),
        sorted_by_pfx(b),
        a.to_multiset() == b.to_multiset(),
    ensures
        boundaries_below(a, ranges, m) == boundaries_below(b, ranges, m),
        m == a.len() ==> fits_ranges(a, ranges) == fits_ranges(b, ranges) && bucket_bounds(
            a,
            ranges,
        ) == bucket_bounds(b, ranges),
    decreases m,
{
    lemma_sorted_prefixes_agree(a, b);
    if m > 0 {
        lemma_sorted_same_bounds(a, b, ranges, m - 1);
        if m - 1 < a.len() && m - 1 > 0 {
            assert(a[m - 1].hash_pfx == b[m - 1].hash_pfx);
            assert(a[m - 2].hash_pfx == b[m - 2].hash_pfx);
        }
        assert(is_boundary(a, ranges, m - 1) == is_boundary(b, ranges, m - 1));
    }
    if m == a.len() {
        assert(bucket_bounds(a, ranges) =~= bucket_bounds(b, ranges));
    }
}

/// The range ends never decrease, and the last range ends where the records
/// end.
pub proof fn lemma_bounds_monotone(s: Seq<AnnData>, ranges: usize)
    requires
        s.len() <= usize::MAX,
        fits_ranges(s, ranges),
    ensures
        bucket_bounds(s, ranges).len() == ranges,
        forall|j: int, k: int|
            0 <= j <= k < ranges ==> #[trigger] bucket_bounds(s, ranges)[j]
                <= #[trigger] bucket_bounds(s, ranges)[k],
        forall|k: int| 0 <= k < ranges ==> #[trigger] bucket_bounds(s, ranges)[k] <= s.len(),
        bucket_bounds(s, ranges)[ranges - 1] == s.len(),
{
    lemma_boundaries_ascending(s, ranges, s.len() as int);
}

/// All records of one range are in the same bucket.
pub proof fn lemma_range_one_bucket(s: Seq<AnnData>, ranges: usize, k: int, i: int, j: int)
    requires
        s.len() <= usize::MAX,
        fits_ranges(s, ranges),
        0 <= k < ranges,
        range_start(bucket_bounds(s, ranges), k) <= i <= j < bucket_bounds(s, ranges)[k],
    ensures
        bucket_id(s[i].hash_pfx, ranges) == bucket_id(s[j].hash_pfx, ranges),
    decreases j - i,
{
    if i < j {
        lemma_range_one_bucket(s, ranges, k, i, j - 1);
        lemma_bounds_monotone(s, ranges);
        lemma_boundaries_ascending(s, ranges, s.len() as int);
        let cuts = boundaries_below(s, ranges, s.len() as int);
        if is_boundary(s, ranges, j) {
            lemma_boundary_listed(s, ranges, s.len() as int, j);
            let q = choose|q: int| 0 <= q < cuts.len() && #[trigger] cuts[q] == j;
            if k < cuts.len() {
                assert(cuts[q] < cuts[k]);
                if q >= k {
                    assert(q == k || cuts[k] < cuts[q]);
                }
                if k > 0 {
                    assert(cuts[k - 1] < cuts[q]);
                    if q <= k - 1 {
                        assert(q == k - 1 || cuts[q] < cuts[k - 1]);
                    }
                }
                assert(false);
            } else if k > 0 && k - 1 < cuts.len() {
                assert(cuts[k - 1] < cuts[q]);
                if q < k - 1 {
                    assert(cuts[q] < cuts[k - 1]);
                }
                assert(false);
            } else {
                assert(false);
            }
        }
    }
}

/// The first `k` ranges hold together as many records as lie before the end
/// of range `k - 1`.
pub proof fn lemma_range_count_prefix(s: Seq<AnnData>, ranges: usize, k: int)
    requires
        s.len() <= usize::MAX,
        fits_ranges(s, ranges),
        0 < k <= ranges,
    ensures
        range_count_sum(bucket_bounds(s, ranges), k) == bucket_bounds(s, ranges)[k - 1],
    decreases k,
{
    if k > 1 {
        lemma_range_count_prefix(s, ranges, k - 1);
    } else {
        assert(range_count_sum(bucket_bounds(s, ranges), 0) == 0);
    }
}

/// The counts of all ranges add up to the number of records.
pub proof fn lemma_range_counts_sum(s: Seq<AnnData>, ranges: usize)
    requires
        s.len() <= usize::MAX,
        fits_ranges(s, ranges),
    ensures
        range_count_sum(bucket_bounds(s, ranges), ranges as int) == s.len(),
{
    lemma_range_count_prefix(s, ranges, ranges as int);
    lemma_bounds_monotone(s, ranges);
}

/// Cuts `records` into runs of equal bucket id and returns the end offset of
/// each of `ranges` ranges: one range for a run, in order, and an empty range
/// for each that is left over. Fails where there are more runs than ranges.
#[verifier::loop_isolation(false)]
pub fn bucket_ranges(records: &[AnnData], ranges: usize) -> (r: Result<Vec<usize>, LockError>)
    ensures
        r.is_ok() <==> fits_ranges(records@, ranges),
        r.is_ok() ==> r.unwrap()@ == bucket_bounds(records@, ranges),
        r.is_err() ==> r == Err::<Vec<usize>, LockError>(LockError::TooManyRanges),
{
    if ranges == 0 {
        return Err(LockError::TooManyRanges);
    }
    let last = records.len();
    let buckets = ranges as u64;
    let mut bounds: Vec<usize> = Vec::new();
    let mut i: usize = 0;
    while i < last
        invariant
            i <= last,
            bounds@.len() < ranges,
            bounds@ == boundaries_below(records@, ranges, i as int),
        decreases last - i,
    {
        if i > 0 && records[i].hash_pfx % buckets != records[i - 1].hash_pfx % buckets {
            assert(is_boundary(records@, ranges, i as int));
            if bounds.len() + 1 >= ranges {
                proof {
                    lemma_boundaries_prefix(records@, ranges, i + 1, last as int);
                }
                return Err(LockError::TooManyRanges);
            }
            bounds.push(i);
        } else {
            assert(!is_boundary(records@, ranges, i as int));
        }
        i += 1;
    }
    let ghost cuts = bounds@;
    while bounds.len() < ranges
        invariant
            cuts.len() <= bounds@.len() <= ranges,
            forall|q: int| 0 <= q < cuts.len() ==> bounds@[q] == cuts[q],
            forall|q: int| cuts.len() <= q < bounds@.len() ==> bounds@[q] == last,
        decreases ranges - bounds@.len(),
    {
        bounds.push(last);
    }
    assert(bounds@ =~= bucket_bounds(records@, ranges));
    Ok(bounds)
}

} // verus!
