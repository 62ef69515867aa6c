use packetcrypt_blkmine::ann_buf::AnnBuf;
use packetcrypt_blkmine::ranges::{bucket_ranges, LockError};
use packetcrypt_blkmine::databuf::{AnnStore, MemStore};
use packetcrypt_blkmine::types::AnnData;
use std::sync::Mutex;

fn hash_of(pfx: u64) -> packetcrypt_blkmine::types::Hash {
    let mut bytes = [0u8; 32];
    bytes[..8].copy_from_slice(&pfx.to_le_bytes());
    bytes[31] = 0xee;
    packetcrypt_blkmine::types::Hash { bytes }
}

fn hashes_of(pfxs: &[u64]) -> Vec<packetcrypt_blkmine::types::Hash> {
    pfxs.iter().map(|p| hash_of(*p)).collect()
}

fn payloads(n: usize, tag: u8) -> Vec<Vec<u8>> {
    (0..n).map(|i| vec![tag, i as u8, 0xaa]).collect()
}

fn all_indexes(n: usize) -> Vec<u32> {
    (0..n as u32).collect()
}

fn push_all<const C: usize, const R: usize>(
    buf: &mut AnnBuf<MemStore, C, R>,
    pfxs: &[u64],
    tag: u8,
) -> usize {
    let data = payloads(pfxs.len(), tag);
    let anns: Vec<&[u8]> = data.iter().map(|d| d.as_slice()).collect();
    let hashes = hashes_of(pfxs);
    buf.push_anns(&anns, &all_indexes(pfxs.len()), &hashes)
}

fn read_pfxs<const C: usize, const R: usize>(buf: &AnnBuf<MemStore, C, R>) -> Vec<u64> {
    let mut out = vec![AnnData { hash_pfx: 0, mloc: 0 }; buf.next_ann_index()];
    buf.read_ready_anns(&mut out);
    out.iter().map(|d| d.hash_pfx).collect()
}

#[test]
fn hash_prefix_is_little_endian() {
    let mut bytes = [0u8; 32];
    for i in 0..32 {
        bytes[i] = (i + 1) as u8;
    }
    let h = packetcrypt_blkmine::types::Hash { bytes };
    assert_eq!(h.to_u64(), 0x0807_0605_0403_0201);
    assert_eq!(hash_of(u64::MAX).to_u64(), u64::MAX);
    assert_eq!(hash_of(0).to_u64(), 0);
    assert_eq!(hash_of(40).to_u64(), 40);
}

#[test]
fn new_buffer_is_open_and_empty() {
    let buf = AnnBuf::<MemStore, 8, 4>::new(MemStore::new(), 100);
    assert_eq!(buf.next_ann_index(), 0);
    assert!(!buf.is_locked());
    assert_eq!(buf.base_offset, 100);
    assert_eq!(buf.store().len(), 0);
}

#[test]
fn four_records_three_ranges() {
    let mut buf = AnnBuf::<MemStore, 8, 4>::new(MemStore::new(), 0);
    assert_eq!(push_all(&mut buf, &[40, 17, 33, 8], 1), 4);
    assert_eq!(buf.next_ann_index(), 4);
    assert_eq!(buf.lock(), Ok(()));
    assert!(buf.is_locked());
    assert_eq!(read_pfxs(&buf), vec![8, 17, 33, 40]);
    assert_eq!(buf.range_count(0), 1);
    assert_eq!(buf.range_count(1), 2);
    assert_eq!(buf.range_count(2), 1);
    assert_eq!(buf.range_count(3), 0);
    assert_eq!(buf.iter(0), vec![AnnData { hash_pfx: 8, mloc: 3 }]);
    assert_eq!(
        buf.iter(1),
        vec![AnnData { hash_pfx: 17, mloc: 1 }, AnnData { hash_pfx: 33, mloc: 2 }]
    );
    assert_eq!(buf.iter(2), vec![AnnData { hash_pfx: 40, mloc: 0 }]);
    assert_eq!(buf.iter(3), Vec::<AnnData>::new());
}

#[test]
fn bucket_ranges_of_sorted_records() {
    let recs: Vec<AnnData> =
        [8u64, 17, 33, 40].iter().map(|p| AnnData { hash_pfx: *p, mloc: 0 }).collect();
    assert_eq!(bucket_ranges(&recs, 4), Ok(vec![1, 3, 4, 4]));
    assert_eq!(bucket_ranges(&recs, 3), Ok(vec![2, 3, 4]));
    assert_eq!(bucket_ranges(&recs, 2), Err(LockError::TooManyRanges));
    assert_eq!(bucket_ranges(&recs, 5), Ok(vec![1, 2, 3, 4, 4]));
    assert_eq!(bucket_ranges(&recs, 1), Ok(vec![4]));
    assert_eq!(bucket_ranges(&recs, 0), Err(LockError::TooManyRanges));
    assert_eq!(bucket_ranges(&[], 3), Ok(vec![0, 0, 0]));
    assert_eq!(bucket_ranges(&[], 0), Err(LockError::TooManyRanges));
}

#[test]
fn bucket_ranges_rejects_too_many_runs() {
    let recs: Vec<AnnData> =
        [1u64, 2, 3].iter().map(|p| AnnData { hash_pfx: *p, mloc: 0 }).collect();
    assert_eq!(bucket_ranges(&recs, 2), Err(LockError::TooManyRanges));
    assert_eq!(bucket_ranges(&recs, 3), Ok(vec![1, 2, 3]));
    assert_eq!(bucket_ranges(&recs, 4), Ok(vec![1, 2, 3, 3]));
    let recs: Vec<AnnData> =
        [1u64, 3, 5, 6].iter().map(|p| AnnData { hash_pfx: *p, mloc: 0 }).collect();
    assert_eq!(bucket_ranges(&recs, 2), Ok(vec![3, 4]));
}

#[test]
fn lock_fails_with_more_runs_than_ranges() {
    let mut buf = AnnBuf::<MemStore, 4, 2>::new(MemStore::new(), 0);
    assert_eq!(push_all(&mut buf, &[3, 1, 2], 1), 3);
    assert_eq!(buf.lock(), Err(LockError::TooManyRanges));
    assert!(!buf.is_locked());
    assert_eq!(buf.next_ann_index(), 3);
    // still open: a further append is taken
    assert_eq!(push_all(&mut buf, &[9], 2), 1);
    assert_eq!(buf.next_ann_index(), 4);
}

#[test]
fn lock_fails_without_ranges() {
    let mut buf = AnnBuf::<MemStore, 4, 0>::new(MemStore::new(), 0);
    assert_eq!(buf.lock(), Err(LockError::TooManyRanges));
    assert!(!buf.is_locked());
}

#[test]
fn lock_of_empty_buffer() {
    let mut buf = AnnBuf::<MemStore, 4, 3>::new(MemStore::new(), 0);
    assert_eq!(buf.lock(), Ok(()));
    assert!(buf.is_locked());
    for k in 0..3 {
        assert_eq!(buf.range_count(k), 0);
        assert!(buf.iter(k).is_empty());
    }
    let mut out: Vec<AnnData> = Vec::new();
    buf.read_ready_anns(&mut out);
    assert!(out.is_empty());
}

#[test]
fn lock_sorts_what_was_appended() {
    let mut buf = AnnBuf::<MemStore, 16, 1>::new(MemStore::new(), 0);
    let input = [900u64, 5, 77, 5, 1234567890123, 0, 42];
    assert_eq!(push_all(&mut buf, &input, 1), input.len());
    // before the lock the records stand in slot order
    assert_eq!(buf.lock(), Ok(()));
    let got = read_pfxs(&buf);
    assert_ne!(got, input.to_vec());
    assert_eq!(got, vec![0, 5, 5, 42, 77, 900, 1234567890123]);
    assert_eq!(buf.range_count(0), 7);
}

#[test]
fn appends_within_capacity_are_all_taken() {
    let mut buf = AnnBuf::<MemStore, 10, 10>::new(MemStore::new(), 0);
    assert_eq!(push_all(&mut buf, &[50, 20], 1), 2);
    assert_eq!(push_all(&mut buf, &[], 2), 0);
    assert_eq!(push_all(&mut buf, &[30, 20, 10], 3), 3);
    assert_eq!(push_all(&mut buf, &[70, 60, 40, 80, 90], 4), 5);
    assert_eq!(buf.next_ann_index(), 10);
    assert_eq!(buf.lock(), Ok(()));
    assert_eq!(read_pfxs(&buf), vec![10, 20, 20, 30, 40, 50, 60, 70, 80, 90]);
}

#[test]
fn appends_beyond_capacity_fill_exactly() {
    let mut buf = AnnBuf::<MemStore, 5, 1>::new(MemStore::new(), 0);
    let mut total = 0;
    total += push_all(&mut buf, &[1, 2, 3], 1);
    assert_eq!(total, 3);
    let n = push_all(&mut buf, &[4, 5, 6, 7], 2);
    assert_eq!(n, 2);
    total += n;
    assert_eq!(buf.next_ann_index(), 5);
    for _ in 0..3 {
        let n = push_all(&mut buf, &[8, 9], 3);
        assert_eq!(n, 0);
        total += n;
    }
    assert_eq!(push_all(&mut buf, &[10], 4), 0);
    assert_eq!(total, 5);
    assert_eq!(buf.next_ann_index(), 5);
    assert_eq!(buf.lock(), Ok(()));
    assert_eq!(read_pfxs(&buf), vec![1, 2, 3, 4, 5]);
}

#[test]
fn two_batches_of_three_into_four_slots() {
    let mut buf = AnnBuf::<MemStore, 4, 1>::new(MemStore::new(), 0);
    let a = push_all(&mut buf, &[11, 12, 13], 1);
    let b = push_all(&mut buf, &[21, 22, 23], 2);
    assert_eq!((a, b), (3, 1));
    assert_eq!(a + b, 4);
    assert_eq!(buf.lock(), Ok(()));
    assert_eq!(read_pfxs(&buf), vec![11, 12, 13, 21]);
}

#[test]
fn two_concurrent_batches_of_three_into_four_slots() {
    let buf = Mutex::new(AnnBuf::<MemStore, 4, 1>::new(MemStore::new(), 0));
    let first = [11u64, 12, 13];
    let second = [21u64, 22, 23];
    let (a, b) = rayon::join(
        || push_all(&mut buf.lock().unwrap(), &first, 1),
        || push_all(&mut buf.lock().unwrap(), &second, 2),
    );
    assert_eq!(a + b, 4);
    assert!((a, b) == (3, 1) || (a, b) == (1, 3));
    let mut buf = buf.into_inner().unwrap();
    assert_eq!(buf.next_ann_index(), 4);
    assert_eq!(buf.lock(), Ok(()));
    let got = read_pfxs(&buf);
    let expected = if a == 3 { vec![11, 12, 13, 21] } else { vec![11, 21, 22, 23] };
    assert_eq!(got, expected);
    let mut out = vec![AnnData { hash_pfx: 0, mloc: 0 }; 4];
    buf.read_ready_anns(&mut out);
    let mut mlocs: Vec<usize> = out.iter().map(|d| d.mloc).collect();
    mlocs.sort();
    assert_eq!(mlocs, vec![0, 1, 2, 3]);
}

#[test]
fn selection_picks_candidates_and_their_hashes() {
    let mut buf = AnnBuf::<MemStore, 8, 8>::new(MemStore::new(), 1000);
    let data = payloads(5, 7);
    let anns: Vec<&[u8]> = data.iter().map(|d| d.as_slice()).collect();
    let hashes = hashes_of(&[500, 400, 300, 200, 100]);
    assert_eq!(buf.push_anns(&anns, &[4, 1, 1], &hashes), 3);
    assert_eq!(buf.next_ann_index(), 3);
    // the store got each selected candidate at the location of its slot
    let store = buf.store();
    assert_eq!(store.len(), 3);
    assert_eq!(store.get(1000), Some(&(vec![7u8, 4, 0xaa], hash_of(100))));
    assert_eq!(store.get(1001), Some(&(vec![7u8, 1, 0xaa], hash_of(400))));
    assert_eq!(store.get(1002), Some(&(vec![7u8, 1, 0xaa], hash_of(400))));
    assert_eq!(store.get(1003), None);
    assert_eq!(store.get(0), None);
    assert_eq!(buf.lock(), Ok(()));
    let mut out = vec![AnnData { hash_pfx: 0, mloc: 0 }; 3];
    buf.read_ready_anns(&mut out);
    assert_eq!(out[0], AnnData { hash_pfx: 100, mloc: 1000 });
    assert_eq!(out[1].hash_pfx, 400);
    assert_eq!(out[2].hash_pfx, 400);
    let mut tail = vec![out[1].mloc, out[2].mloc];
    tail.sort();
    assert_eq!(tail, vec![1001, 1002]);
}

#[test]
fn clamped_append_writes_only_what_fits() {
    let mut buf = AnnBuf::<MemStore, 2, 1>::new(MemStore::new(), 10);
    let data = payloads(3, 9);
    let anns: Vec<&[u8]> = data.iter().map(|d| d.as_slice()).collect();
    let hashes = hashes_of(&[3, 2, 1]);
    // the third selected index is never read: it need not be in range
    assert_eq!(buf.push_anns(&anns, &[2, 0, 77], &hashes), 2);
    assert_eq!(buf.store().len(), 2);
    assert_eq!(buf.store().get(10), Some(&(vec![9u8, 2, 0xaa], hash_of(1))));
    assert_eq!(buf.store().get(11), Some(&(vec![9u8, 0, 0xaa], hash_of(3))));
    assert_eq!(buf.store().get(12), None);
    assert_eq!(buf.push_anns(&anns, &[99, 98], &hashes), 0);
    assert_eq!(buf.store().len(), 2);
}

#[test]
fn every_range_holds_one_bucket_and_counts_add_up() {
    let mut buf = AnnBuf::<MemStore, 32, 8>::new(MemStore::new(), 0);
    // bucket ids of the sorted prefixes: 0 0 1 1 2 5 5 7
    let input = [26u64, 8, 39, 17, 16, 37, 25, 29];
    assert_eq!(push_all(&mut buf, &input, 1), input.len());
    assert_eq!(buf.lock(), Ok(()));
    let mut total = 0;
    let mut counts = Vec::new();
    for k in 0..8 {
        let recs = buf.iter(k);
        assert_eq!(recs.len(), buf.range_count(k));
        for r in recs.iter() {
            assert_eq!(r.hash_pfx % 8, recs[0].hash_pfx % 8);
        }
        for w in recs.windows(2) {
            assert!(w[0].hash_pfx <= w[1].hash_pfx);
        }
        total += buf.range_count(k);
        counts.push(buf.range_count(k));
    }
    assert_eq!(total, input.len());
    assert_eq!(counts, vec![2, 2, 1, 2, 1, 0, 0, 0]);
}

#[test]
fn readout_is_sorted_and_leaves_the_rest() {
    let mut buf = AnnBuf::<MemStore, 8, 8>::new(MemStore::new(), 0);
    assert_eq!(push_all(&mut buf, &[u64::MAX, 0, 1 << 63, 12345, 12344], 1), 5);
    assert_eq!(buf.lock(), Ok(()));
    let marker = AnnData { hash_pfx: 4242, mloc: 4242 };
    let mut out = vec![marker; 7];
    buf.read_ready_anns(&mut out);
    let got: Vec<u64> = out.iter().map(|d| d.hash_pfx).collect();
    assert_eq!(got, vec![0, 12344, 12345, 1 << 63, u64::MAX, 4242, 4242]);
    for w in out[..5].windows(2) {
        assert!(w[0].hash_pfx <= w[1].hash_pfx);
    }
    assert_eq!(out[5], marker);
    assert_eq!(out[6], marker);
}

#[test]
fn reset_gives_a_buffer_like_new() {
    let mut used = AnnBuf::<MemStore, 4, 4>::new(MemStore::new(), 0);
    assert_eq!(push_all(&mut used, &[9, 8, 7, 6], 1), 4);
    assert_eq!(used.lock(), Ok(()));
    used.reset();
    assert_eq!(used.next_ann_index(), 0);
    assert!(!used.is_locked());

    let mut fresh = AnnBuf::<MemStore, 4, 4>::new(MemStore::new(), 0);
    assert_eq!(push_all(&mut used, &[5, 2], 2), 2);
    assert_eq!(push_all(&mut fresh, &[5, 2], 2), 2);
    assert_eq!(push_all(&mut used, &[4, 3, 1], 3), 2);
    assert_eq!(push_all(&mut fresh, &[4, 3, 1], 3), 2);
    assert_eq!(used.next_ann_index(), fresh.next_ann_index());
    assert_eq!(used.lock(), Ok(()));
    assert_eq!(fresh.lock(), Ok(()));
    assert_eq!(read_pfxs(&used), vec![2, 3, 4, 5]);
    assert_eq!(read_pfxs(&used), read_pfxs(&fresh));
    for k in 0..4 {
        assert_eq!(used.range_count(k), fresh.range_count(k));
        assert_eq!(used.iter(k), fresh.iter(k));
    }
}

#[test]
fn reset_of_open_buffer_drops_its_records() {
    let mut buf = AnnBuf::<MemStore, 3, 1>::new(MemStore::new(), 0);
    assert_eq!(push_all(&mut buf, &[1, 2, 3], 1), 3);
    assert_eq!(push_all(&mut buf, &[4], 1), 0);
    buf.reset();
    assert_eq!(buf.next_ann_index(), 0);
    assert_eq!(push_all(&mut buf, &[4], 1), 1);
    assert_eq!(buf.lock(), Ok(()));
    assert_eq!(read_pfxs(&buf), vec![4]);
}

#[test]
fn mem_store_keeps_the_last_write() {
    let mut store = MemStore::new();
    assert_eq!(store.len(), 0);
    assert_eq!(store.get(5), None);
    store.put_ann(5, &[1, 2, 3], &hash_of(1));
    store.put_ann(6, &[], &hash_of(2));
    store.put_ann(5, &[4], &hash_of(3));
    assert_eq!(store.len(), 2);
    assert_eq!(store.get(5), Some(&(vec![4u8], hash_of(3))));
    assert_eq!(store.get(6), Some(&(Vec::new(), hash_of(2))));
}

#[test]
fn records_point_at_their_announcements() {
    let mut buf = AnnBuf::<MemStore, 6, 6>::new(MemStore::new(), 500);
    let data = payloads(4, 3);
    let anns: Vec<&[u8]> = data.iter().map(|d| d.as_slice()).collect();
    let hashes = hashes_of(&[44, 11, 33, 22]);
    assert_eq!(buf.push_anns(&anns, &[0, 1], &hashes), 2);
    assert_eq!(buf.push_anns(&anns, &[3, 2], &hashes), 2);
    assert_eq!(buf.lock(), Ok(()));
    let mut out = vec![AnnData { hash_pfx: 0, mloc: 0 }; 4];
    buf.read_ready_anns(&mut out);
    assert_eq!(
        out,
        vec![
            AnnData { hash_pfx: 11, mloc: 501 },
            AnnData { hash_pfx: 22, mloc: 502 },
            AnnData { hash_pfx: 33, mloc: 503 },
            AnnData { hash_pfx: 44, mloc: 500 },
        ]
    );
    for d in out.iter() {
        let (bytes, hash) = buf.store().get(d.mloc).unwrap();
        assert_eq!(hash.to_u64(), d.hash_pfx);
        assert_eq!(bytes.len(), 3);
    }
    assert_eq!(buf.store().get(502), Some(&(vec![3u8, 3, 0xaa], hash_of(22))));
}

#[test]
fn reset_after_failed_lock() {
    let mut buf = AnnBuf::<MemStore, 4, 2>::new(MemStore::new(), 0);
    assert_eq!(push_all(&mut buf, &[3, 1, 2], 1), 3);
    assert_eq!(buf.lock(), Err(LockError::TooManyRanges));
    buf.reset();
    assert_eq!(push_all(&mut buf, &[4, 2, 7, 6], 2), 4);
    assert_eq!(buf.lock(), Ok(()));
    assert_eq!(read_pfxs(&buf), vec![2, 4, 6, 7]);
    assert_eq!(buf.range_count(0), 3);
    assert_eq!(buf.range_count(1), 1);
}
