use crate::databuf::AnnStore;
use crate::ranges::{
    bucket_bounds, bucket_id, bucket_ranges, fits_ranges, in_pfx_order, lemma_bounds_monotone,
    lemma_range_counts_sum, lemma_range_one_bucket, lemma_sorted_same_bounds, range_count_sum,
    range_start, sorted_by_pfx, LockError,
};
use crate::types::AnnData;
use rayon::slice::ParallelSliceMut;
use vstd::prelude::*;

verus! {

/// What an announcement buffer holds, as plain mathematical values.
pub struct AnnBufView {
    /// The location of the buffer's slot 0 in the byte store.
    pub base_offset: usize,
    /// The records claimed so far, in slot order.
    pub records: Seq<AnnData>,
    /// The end offset of every range; empty while the buffer is open.
    pub bounds: Seq<usize>,
    /// Whether the buffer is locked.
    pub locked: bool,
    /// What the byte store holds.
    pub store: Map<usize, (Seq<u8>, crate::types::Hash)>,
}

/// How many of `want` entries a buffer of `cap` slots takes when `cursor`
/// slots are claimed already.
pub open spec fn accepted(cursor: int, want: int, cap: int) -> int {
    if cursor + want <= cap {
        want
    } else if cursor <= cap {
        cap - cursor
    } else {
        0
    }
}

/// The records that an append writes: entry `j` of the selection goes to
/// slot `start + j`, with the prefix of the selected candidate's hash.
pub open spec fn pushed_records(
    base: usize,
    start: int,
    indexes: Seq<u32>,
    hashes: Seq<crate::types::Hash>,
    count: int,
) -> Seq<AnnData> {
    Seq::new(
        count as nat,
        |j: int|
            AnnData {
                hash_pfx: hashes[indexes[j] as int].prefix(),
                mloc: (base + start + j) as usize,
            },
    )
}

/// The byte store after an append: each of the `count` claimed locations
/// holds the selected candidate's bytes and hash, every other location what
/// it held.
pub open spec fn store_after(
    store: Map<usize, (Seq<u8>, crate::types::Hash)>,
    first: int,
    anns: Seq<&[u8]>,
    indexes: Seq<u32>,
    hashes: Seq<crate::types::Hash>,
    count: int,
) -> Map<usize, (Seq<u8>, crate::types::Hash)> {
    Map::new(
        |l: usize| store.contains_key(l) || first <= l < first + count,
        |l: usize|
            if first <= l < first + count {
                (anns[indexes[l - first] as int]@, hashes[indexes[l - first] as int])
            } else {
                store[l]
            },
    )
}

/// Every record points into the buffer's window of the store, at a location
/// of its own, where the store keeps the announcement whose hash prefix the
/// record carries.
pub open spec fn records_stored(
    records: Seq<AnnData>,
    base_offset: usize,
    store: Map<usize, (Seq<u8>, crate::types::Hash)>,
) -> bool {
    &&& forall|i: int|
        0 <= i < records.len() ==> {
            &&& base_offset <= (#[trigger] records[i]).mloc < base_offset + records.len()
            &&& store.contains_key(records[i].mloc)
            &&& store[records[i].mloc].1.prefix() == records[i].hash_pfx
        }
    &&& forall|i: int, j: int|
        0 <= i < j < records.len() ==> (#[trigger] records[i]).mloc != (#[trigger] records[j]).mloc
}

/// Records that are stored stay so in any other order.
pub proof fn lemma_reorder_keeps_stored(
    a: Seq<AnnData>,
    b: Seq<AnnData>,
    base_offset: usize,
    store: Map<usize, (Seq<u8>, crate::types::Hash)>,
)
    requires
        records_stored(a, base_offset, store),
        a.to_multiset() == b.to_multiset(),
    ensures
        records_stored(b, base_offset, store),
{
    broadcast use vstd::seq_lib::group_to_multiset_ensures;

    assert(a.len() == a.to_multiset().len());
    assert(b.len() == b.to_multiset().len());
    assert(a.no_duplicates());
    a.lemma_multiset_has_no_duplicates();
    b.lemma_multiset_has_no_duplicates_conv();
    assert forall|i: int| 0 <= i < b.len() implies {
        &&& base_offset <= (#[trigger] b[i]).mloc < base_offset + b.len()
        &&& store.contains_key(b[i].mloc)
        &&& store[b[i].mloc].1.prefix() == b[i].hash_pfx
    } by {
        assert(b.contains(b[i]));
        assert(b.to_multiset().count(b[i]) > 0);
        assert(a.contains(b[i]));
        let p = choose|p: int| 0 <= p < a.len() && a[p] == b[i];
        assert(a[p] == b[i]);
    }
    assert forall|i: int, j: int| 0 <= i < j < b.len() implies (#[trigger] b[i]).mloc != (
    #[trigger] b[j]).mloc by {
        assert(b.contains(b[i]));
        assert(b.to_multiset().count(b[i]) > 0);
        assert(a.contains(b[i]));
        assert(b.contains(b[j]));
        assert(b.to_multiset().count(b[j]) > 0);
        assert(a.contains(b[j]));
        let p = choose|p: int| 0 <= p < a.len() && a[p] == b[i];
        let q = choose|q: int| 0 <= q < a.len() && a[q] == b[j];
        assert(b[i] != b[j]);
        assert(p != q);
        assert(a[p].mloc != a[q].mloc);
    }
}

impl AnnBufView {
    /// An open buffer without records.
    pub open spec fn fresh(
        base_offset: usize,
        store: Map<usize, (Seq<u8>, crate::types::Hash)>,
    ) -> AnnBufView {
        AnnBufView { base_offset, records: Seq::empty(), bounds: Seq::empty(), locked: false, store }
    }

    /// The buffer after an append of the selected candidates.
    pub open spec fn push(
        self,
        anns: Seq<&[u8]>,
        indexes: Seq<u32>,
        hashes: Seq<crate::types::Hash>,
        cap: usize,
    ) -> AnnBufView {
        let start = self.records.len() as int;
        let count = accepted(start, indexes.len() as int, cap as int);
        AnnBufView {
            records: self.records + pushed_records(
                self.base_offset,
                start,
                indexes,
                hashes,
                count,
            ),
            store: store_after(self.store, self.base_offset + start, anns, indexes, hashes, count),
            ..self
        }
    }

    /// What holds of every buffer of `cap` slots and `ranges` ranges.
    pub open spec fn valid(self, cap: usize, ranges: usize) -> bool {
        &&& self.records.len() <= cap
        &&& self.base_offset + cap <= usize::MAX
        &&& records_stored(self.records, self.base_offset, self.store)
        &&& !self.locked ==> self.bounds.len() == 0
        &&& self.locked ==> {
            &&& sorted_by_pfx(self.records)
            &&& fits_ranges(self.records, ranges)
            &&& self.bounds == bucket_bounds(self.records, ranges)
        }
    }
}

/// The number of entries asked for by a series of appends.
pub open spec fn total_wanted(wants: Seq<nat>) -> nat
    decreases wants.len(),
{
    if wants.len() == 0 {
        0
    } else {
        wants[0] + total_wanted(wants.drop_first())
    }
}

/// The number of entries that a series of appends gets into a buffer of
/// `cap` slots, of which `cursor` are claimed at the start: the sum of what
/// each append returns.
pub open spec fn total_accepted(cursor: int, wants: Seq<nat>, cap: int) -> int
    decreases wants.len(),
{
    if wants.len() == 0 {
        0
    } else {
        accepted(cursor, wants[0] as int, cap) + total_accepted(
            cursor + accepted(cursor, wants[0] as int, cap),
            wants.drop_first(),
            cap,
        )
    }
}

/// A series of appends gets every entry in where all of them fit, and
/// exactly as many as there were free slots where they do not. An append to a
/// full buffer takes nothing.
pub proof fn lemma_appends_fill(cursor: int, wants: Seq<nat>, cap: int)
    requires
        0 <= cursor <= cap,
    ensures
        cursor + total_wanted(wants) <= cap ==> total_accepted(cursor, wants, cap) == total_wanted(
            wants,
        ),
        cursor + total_wanted(wants) > cap ==> total_accepted(cursor, wants, cap) == cap - cursor,
        forall|want: nat| accepted(cap, want as int, cap) == 0,
    decreases wants.len(),
{
    if wants.len() > 0 {
        lemma_appends_fill(cursor + accepted(cursor, wants[0] as int, cap), wants.drop_first(), cap);
    }
}

/// An append to a buffer that was just made or reset leaves exactly the
/// records of that append, from slot 0 on, whatever the buffer held before.
pub proof fn lemma_fresh_push(
    base_offset: usize,
    store: Map<usize, (Seq<u8>, crate::types::Hash)>,
    anns: Seq<&[u8]>,
    indexes: Seq<u32>,
    hashes: Seq<crate::types::Hash>,
    cap: usize,
)
    ensures
        AnnBufView::fresh(base_offset, store).push(anns, indexes, hashes, cap).records
            == pushed_records(
            base_offset,
            0,
            indexes,
            hashes,
            accepted(0, indexes.len() as int, cap as int),
        ),
        AnnBufView::fresh(base_offset, store).push(anns, indexes, hashes, cap).locked == false,
{
    assert(AnnBufView::fresh(base_offset, store).push(anns, indexes, hashes, cap).records
        =~= pushed_records(
        base_offset,
        0,
        indexes,
        hashes,
        accepted(0, indexes.len() as int, cap as int),
    ));
}

/// A buffer of `ANNBUF_SZ` record slots that come out in `RANGES` ranges.
pub struct AnnBuf<S, const ANNBUF_SZ: usize, const RANGES: usize> {
    db: S,
    pub base_offset: usize,
    /// The slot of the next append.
    next_ann_index: usize,
    ann_data: Vec<AnnData>,
    /// Range k ends at ranges[k] and starts where range k-1 ends.
    ranges: Vec<usize>,
    locked: bool,
}

impl<S: AnnStore, const ANNBUF_SZ: usize, const RANGES: usize> View for AnnBuf<
    S,
    ANNBUF_SZ,
    RANGES,
> {
    type V = AnnBufView;

    closed spec fn view(&self) -> AnnBufView {
        AnnBufView {
            base_offset: self.base_offset,
            records: self.ann_data@.subrange(0, self.next_ann_index as int),
            bounds: if self.locked {
                self.ranges@
            } else {
                Seq::empty()
            },
            locked: self.locked,
            store: self.db.contents(),
        }
    }
}

/// Sorts the first `last` records with rayon's `par_sort_unstable_by_key`,
/// the key being the hash prefix. Taken on trust: afterwards these records
/// are the same records in ascending order of hash prefix, and the records
/// behind them are untouched.
#[verifier::external_body]
fn par_sort_by_hash_pfx(data: &mut Vec<AnnData>, last: usize)
    requires
        last <= old(data)@.len(),
    ensures
        final(data)@.len() == old(data)@.len(),
        sorted_by_pfx(final(data)@.subrange(0, last as int)),
        final(data)@.subrange(0, last as int).to_multiset() == old(data)@.subrange(
            0,
            last as int,
        ).to_multiset(),
        final(data)@.subrange(last as int, old(data)@.len() as int) == old(data)@.subrange(
            last as int,
            old(data)@.len() as int,
        ),
{
    data[..last].par_sort_unstable_by_key(|d| d.hash_pfx);
}

impl<S: AnnStore, const ANNBUF_SZ: usize, const RANGES: usize> AnnBuf<S, ANNBUF_SZ, RANGES> {
    /// The buffer is laid out as it should be and its view is valid.
    pub closed spec fn wf(&self) -> bool {
        &&& self.ann_data@.len() == ANNBUF_SZ
        &&& self.ranges@.len() == RANGES
        &&& self.next_ann_index <= ANNBUF_SZ
        &&& self@.valid(ANNBUF_SZ, RANGES)
    }

    /// A well-formed buffer has a valid view.
    pub proof fn lemma_wf_valid(&self)
        requires
            self.wf(),
        ensures
            self@.valid(ANNBUF_SZ, RANGES),
    {
    }

    /// An open buffer without records, whose slot 0 is location
    /// `base_offset` of the store `db`.
    pub fn new(db: S, base_offset: usize) -> (buf: Self)
        requires
            base_offset + ANNBUF_SZ <= usize::MAX,
        ensures
            buf.wf(),
            buf@ == AnnBufView::fresh(base_offset, db.contents()),
    {
        let mut ann_data: Vec<AnnData> = Vec::new();
        let mut i: usize = 0;
        while i < ANNBUF_SZ
            invariant
                i <= ANNBUF_SZ,
                ann_data@.len() == i,
            decreases ANNBUF_SZ - i,
        {
            ann_data.push(AnnData { hash_pfx: 0, mloc: 0 });
            i += 1;
        }
        let mut ranges: Vec<usize> = Vec::new();
        let mut k: usize = 0;
        while k < RANGES
            invariant
                k <= RANGES,
                ranges@.len() == k,
            decreases RANGES - k,
        {
            ranges.push(0);
            k += 1;
        }
        let buf = AnnBuf { db, base_offset, next_ann_index: 0, ann_data, ranges, locked: false };
        assert(buf@.records =~= Seq::<AnnData>::empty());
        buf
    }

    /// The number of slots claimed so far.
    pub fn next_ann_index(&self) -> (n: usize)
        requires
            self.wf(),
        ensures
            n == self@.records.len(),
            n <= ANNBUF_SZ,
    {
        self.next_ann_index
    }

    /// The byte store that the buffer writes to.
    pub fn store(&self) -> (db: &S)
        ensures
            db.contents() == self@.store,
    {
        &self.db
    }

    /// Whether the buffer is locked.
    pub fn is_locked(&self) -> (b: bool)
        ensures
            b == self@.locked,
    {
        self.locked
    }

    /// Clears the buffer for another round: it is open and holds no record.
    pub fn reset(&mut self)
        requires
            old(self).wf(),
        ensures
            final(self).wf(),
            final(self)@ == AnnBufView::fresh(old(self)@.base_offset, old(self)@.store),
    {
        self.next_ann_index = 0;
        self.locked = false;
        assert(self@.records =~= Seq::<AnnData>::empty());
    }

    /// Appends the candidates that `indexes` selects from `anns`, each with
    /// its hash from `hashes`, and returns how many were taken: all of them
    /// where they fit, else as many as there are free slots, after which the
    /// buffer is full.
    pub fn push_anns(
        &mut self,
        anns: &[&[u8]],
        indexes: &[u32],
        hashes: &Vec<crate::types::Hash>,
    ) -> (n: usize)
        requires
            old(self).wf(),
            !old(self)@.locked,
            forall|j: int|
                0 <= j < accepted(
                    old(self)@.records.len() as int,
                    indexes@.len() as int,
                    ANNBUF_SZ as int,
                ) ==> (#[trigger] indexes@[j]) < anns@.len() && indexes@[j] < hashes@.len(),
        ensures
            final(self).wf(),
            n == accepted(old(self)@.records.len() as int, indexes@.len() as int, ANNBUF_SZ as int),
            final(self)@ == old(self)@.push(anns@, indexes@, hashes@, ANNBUF_SZ),
    {
        let start = self.next_ann_index;
        if start >= ANNBUF_SZ {
            assert(self@.records =~= old(self)@.push(anns@, indexes@, hashes@, ANNBUF_SZ).records);
            assert(self@.store =~= old(self)@.push(anns@, indexes@, hashes@, ANNBUF_SZ).store);
            return 0;
        }
        let remaining = ANNBUF_SZ - start;
        let count = if indexes.len() > remaining {
            remaining
        } else {
            indexes.len()
        };
        let base = self.base_offset;
        let ghost store0 = self.db.contents();
        let mut j: usize = 0;
        while j < count
            invariant
                j <= count,
                old(self).wf(),
                start == old(self).next_ann_index,
                start + count <= ANNBUF_SZ,
                count <= indexes@.len(),
                base + ANNBUF_SZ <= usize::MAX,
                base == self.base_offset,
                self.next_ann_index == start,
                self.locked == old(self).locked,
                self.ranges == old(self).ranges,
                self.ann_data@.len() == ANNBUF_SZ,
                store0 == old(self).db.contents(),
                forall|k: int| 0 <= k < start ==> self.ann_data@[k] == old(self).ann_data@[k],
                forall|k: int|
                    0 <= k < j ==> self.ann_data@[start + k] == pushed_records(
                        base,
                        start as int,
                        indexes@,
                        hashes@,
                        count as int,
                    )[k],
                self.db.contents() == store_after(
                    store0,
                    base + start,
                    anns@,
                    indexes@,
                    hashes@,
                    j as int,
                ),
                forall|k: int|
                    0 <= k < count ==> (#[trigger] indexes@[k]) < anns@.len() && indexes@[k]
                        < hashes@.len(),
            decreases count - j,
        {
            let ci = indexes[j] as usize;
            let slot = start + j;
            let hash = &hashes[ci];
            self.ann_data[slot] = AnnData { hash_pfx: hash.to_u64(), mloc: base + slot };
            self.db.put_ann(base + slot, anns[ci], hash);
            assert(self.db.contents() =~= store_after(
                store0,
                base + start,
                anns@,
                indexes@,
                hashes@,
                j + 1,
            ));
            j += 1;
        }
        self.next_ann_index = start + count;
        assert(self@.records =~= old(self)@.push(anns@, indexes@, hashes@, ANNBUF_SZ).records);
        assert(records_stored(self@.records, base, self@.store)) by {
            assert forall|i: int| 0 <= i < start implies self@.records[i] == old(self)@.records[i] by {}
        }
        count
    }

    /// Sorts the records by hash prefix and cuts them into runs of equal
    /// bucket id, one range for each run. Fails, with the records sorted and
    /// the buffer still open, where there are more runs than ranges.
    pub fn lock(&mut self) -> (r: Result<(), LockError>)
        requires
            old(self).wf(),
            !old(self)@.locked,
        ensures
            final(self).wf(),
            final(self)@.base_offset == old(self)@.base_offset,
            final(self)@.store == old(self)@.store,
            final(self)@.records.len() == old(self)@.records.len(),
            final(self)@.records.to_multiset() == old(self)@.records.to_multiset(),
            sorted_by_pfx(final(self)@.records),
            r.is_ok() <==> fits_ranges(in_pfx_order(old(self)@.records), RANGES),
            r.is_ok() <==> fits_ranges(final(self)@.records, RANGES),
            r.is_err() ==> r == Err::<(), LockError>(LockError::TooManyRanges),
            final(self)@.locked == r.is_ok(),
            r.is_ok() ==> final(self)@.bounds == bucket_bounds(final(self)@.records, RANGES),
            r.is_ok() ==> final(self)@.bounds == bucket_bounds(
                in_pfx_order(old(self)@.records),
                RANGES,
            ),
            r.is_err() ==> final(self)@.bounds == Seq::<usize>::empty(),
    {
        let last = self.next_ann_index;
        par_sort_by_hash_pfx(&mut self.ann_data, last);
        let ghost recs = self.ann_data@.subrange(0, last as int);
        assert(self@.records == recs);
        proof {
            lemma_reorder_keeps_stored(
                old(self)@.records,
                recs,
                self.base_offset,
                self.db.contents(),
            );
            lemma_sorted_same_bounds(
                recs,
                in_pfx_order(old(self)@.records),
                RANGES,
                recs.len() as int,
            );
        }
        let filled = vstd::slice::slice_subrange(self.ann_data.as_slice(), 0, last);
        match bucket_ranges(filled, RANGES) {
            Ok(bounds) => {
                self.ranges = bounds;
                self.locked = true;
                Ok(())
            },
            Err(e) => Err(e),
        }
    }

    /// In a locked buffer the records are in ascending order of hash prefix,
    /// every range holds records of one bucket only, and the counts of all
    /// ranges add up to the number of records.
    pub proof fn lemma_locked_ranges(&self)
        requires
            self.wf(),
            self@.locked,
        ensures
            sorted_by_pfx(self@.records),
            self@.bounds.len() == RANGES,
            range_count_sum(self@.bounds, RANGES as int) == self@.records.len(),
            forall|k: int, i: int, j: int|
                0 <= k < RANGES && range_start(self@.bounds, k) <= i <= j < #[trigger] self@.bounds[k]
                    ==> bucket_id(#[trigger] self@.records[i].hash_pfx, RANGES) == bucket_id(
                    #[trigger] self@.records[j].hash_pfx,
                    RANGES,
                ),
    {
        let recs = self@.records;
        lemma_bounds_monotone(recs, RANGES);
        lemma_range_counts_sum(recs, RANGES);
        assert forall|k: int, i: int, j: int|
            0 <= k < RANGES && range_start(self@.bounds, k) <= i <= j
                < #[trigger] self@.bounds[k] implies bucket_id(
            #[trigger] recs[i].hash_pfx,
            RANGES,
        ) == bucket_id(#[trigger] recs[j].hash_pfx, RANGES) by {
            lemma_range_one_bucket(recs, RANGES, k, i, j);
        }
    }

    /// Where range `range` starts and ends.
    fn range(&self, range: usize) -> (r: (usize, usize))
        requires
            self.wf(),
            self@.locked,
            range < RANGES,
        ensures
            r.0 == range_start(self@.bounds, range as int),
            r.1 == self@.bounds[range as int],
            r.0 <= r.1 <= self@.records.len(),
    {
        proof {
            lemma_bounds_monotone(self@.records, RANGES);
        }
        if range == 0 {
            (0, self.ranges[0])
        } else {
            (self.ranges[range - 1], self.ranges[range])
        }
    }

    /// The number of records in range `range`.
    pub fn range_count(&self, range: usize) -> (n: usize)
        requires
            self.wf(),
            self@.locked,
            range < RANGES,
        ensures
            n == self@.bounds[range as int] - range_start(self@.bounds, range as int),
    {
        let (begin, end) = self.range(range);
        end - begin
    }

    /// The records of range `range`, in ascending order of hash prefix.
    pub fn iter(&self, range: usize) -> (v: Vec<AnnData>)
        requires
            self.wf(),
            self@.locked,
            range < RANGES,
        ensures
            v@ == self@.records.subrange(
                range_start(self@.bounds, range as int),
                self@.bounds[range as int] as int,
            ),
    {
        let (begin, end) = self.range(range);
        let mut v: Vec<AnnData> = Vec::new();
        let mut i: usize = begin;
        while i < end
            invariant
                begin <= i <= end <= self.next_ann_index <= self.ann_data@.len(),
                v@ == self.ann_data@.subrange(begin as int, i as int),
            decreases end - i,
        {
            v.push(self.ann_data[i]);
            assert(v@ =~= self.ann_data@.subrange(begin as int, i + 1));
            i += 1;
        }
        assert(v@ =~= self@.records.subrange(begin as int, end as int));
        v
    }

    /// Copies all records, in ascending order of hash prefix, to the front
    /// of `out`, and leaves the rest of `out` as it was.
    pub fn read_ready_anns(&self, out: &mut [AnnData])
        requires
            self.wf(),
            self@.locked,
            old(out)@.len() >= self@.records.len(),
        ensures
            final(out)@.len() == old(out)@.len(),
            final(out)@.subrange(0, self@.records.len() as int) == self@.records,
            final(out)@.subrange(self@.records.len() as int, old(out)@.len() as int) == old(
                out,
            )@.subrange(self@.records.len() as int, old(out)@.len() as int),
            sorted_by_pfx(self@.records),
    {
        let last = self.next_ann_index;
        let mut i: usize = 0;
        while i < last
            invariant
                i <= last <= self.ann_data@.len(),
                last <= out@.len(),
                out@.len() == old(out)@.len(),
                forall|k: int| 0 <= k < i ==> out@[k] == self.ann_data@[k],
                forall|k: int| i <= k < out@.len() ==> out@[k] == old(out)@[k],
            decreases last - i,
        {
            out[i] = self.ann_data[i];
            i += 1;
        }
        assert(out@.subrange(0, last as int) =~= self@.records);
        assert(out@.subrange(last as int, out@.len() as int) =~= old(out)@.subrange(
            last as int,
            out@.len() as int,
        ));
    }
}

} // verus!
