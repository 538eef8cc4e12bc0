use memmap::{Mmap, MmapMut};
use rs_intervalset::common::{mmap_read_payload, mmap_read_u32, parse_offsets};
use rs_intervalset::ilistmap::MmapIntervalListMapping;
use rs_intervalset::isetmap::MmapIntervalSetMapping;
use rs_intervalset::StoreError;

fn make_mmap(bytes: &[u8]) -> Mmap {
    assert!(!bytes.is_empty());
    let mut m = MmapMut::map_anon(bytes.len()).unwrap();
    m[..].copy_from_slice(bytes);
    m.make_read_only().unwrap()
}

fn push_u32(v: &mut Vec<u8>, x: u32) {
    v.extend_from_slice(&x.to_le_bytes());
}

/// Set-store image: one record per (id, intervals) pair.
fn set_image(records: &[(u32, &[(u32, u32)])]) -> Vec<u8> {
    let mut v = Vec::new();
    for (id, ivs) in records {
        push_u32(&mut v, *id);
        push_u32(&mut v, ivs.len() as u32);
        for (s, e) in ivs.iter() {
            push_u32(&mut v, *s);
            push_u32(&mut v, *e);
        }
    }
    v
}

/// List-store image with the given payload width.
fn list_image(payload_len: usize, records: &[(u32, &[(u32, u32, u64)])]) -> Vec<u8> {
    let mut v = Vec::new();
    for (id, ivs) in records {
        push_u32(&mut v, *id);
        push_u32(&mut v, ivs.len() as u32);
        for (s, e, p) in ivs.iter() {
            push_u32(&mut v, *s);
            push_u32(&mut v, *e);
            v.extend_from_slice(&p.to_le_bytes()[..payload_len]);
        }
    }
    v
}

fn sample_set_store() -> MmapIntervalSetMapping {
    let img = set_image(&[(1, &[(10, 20), (30, 40)])]);
    MmapIntervalSetMapping::new(Some(make_mmap(&img))).unwrap()
}

fn sample_list_store() -> MmapIntervalListMapping {
    let img = list_image(1, &[(2, &[(0, 10, 1), (5, 15, 2)])]);
    MmapIntervalListMapping::new(make_mmap(&img), 1).unwrap()
}

#[test]
fn read_u32_is_little_endian() {
    let m = make_mmap(&[0x78, 0x56, 0x34, 0x12, 0xff, 0x00, 0x00, 0x00]);
    assert_eq!(mmap_read_u32(&m, 0), 0x1234_5678);
    assert_eq!(mmap_read_u32(&m, 4), 0xff);
}

#[test]
fn read_payload_widths() {
    let m = make_mmap(&[0x01, 0x02, 0x03, 0x04, 0x05, 0x06, 0x07, 0x08]);
    assert_eq!(mmap_read_payload(&m, 0, 0), 0);
    assert_eq!(mmap_read_payload(&m, 0, 1), 0x01);
    assert_eq!(mmap_read_payload(&m, 0, 3), 0x03_0201);
    assert_eq!(mmap_read_payload(&m, 0, 8), 0x0807_0605_0403_0201);
}

#[test]
fn parse_offsets_scans_records() {
    let img = set_image(&[(7, &[(1, 2)]), (9, &[(3, 4), (5, 6)])]);
    let m = make_mmap(&img);
    let ix = parse_offsets(&m, 0).unwrap();
    assert_eq!(ix.len(), 2);
    assert!(ix.contains(7));
    assert!(ix.contains(9));
    assert!(!ix.contains(8));
    assert_eq!(ix.get(7), Some((8, 1)));
    assert_eq!(ix.get(9), Some((24, 2)));
}

#[test]
fn parse_offsets_rejects_overrun_and_underrun() {
    // A record that claims five entries in an eight-byte buffer overruns.
    let mut img = Vec::new();
    push_u32(&mut img, 1);
    push_u32(&mut img, 5);
    assert!(parse_offsets(&make_mmap(&img), 0).is_none());
    // A trailing half header stops the scan short of the end.
    let mut img2 = set_image(&[(1, &[(1, 2)])]);
    push_u32(&mut img2, 3);
    assert!(parse_offsets(&make_mmap(&img2), 0).is_none());
}

#[test]
fn duplicate_identifier_last_record_wins() {
    let img = set_image(&[(5, &[(1, 2)]), (5, &[(7, 9)])]);
    let s = MmapIntervalSetMapping::new(Some(make_mmap(&img))).unwrap();
    assert_eq!(s.len(), 1);
    assert_eq!(s.get_intervals(5, false).unwrap(), vec![(7, 9)]);
}

#[test]
fn empty_set_store_defaults() {
    let s = MmapIntervalSetMapping::new(None).unwrap();
    assert_eq!(s.len(), 0);
    assert_eq!(s.sum(), 0);
    assert!(s.get_ids().is_empty());
    assert!(!s.has_id(3));
    assert_eq!(s.get_intervals(3, true).unwrap(), Vec::<(u32, u32)>::new());
    assert_eq!(s.is_contained(3, 10, true).unwrap(), false);
    assert_eq!(s.has_intersection(3, 0, 100, true).unwrap(), false);
    assert_eq!(s.intersect(3, vec![(0, 5)], true).unwrap(), Vec::<(u32, u32)>::new());
    assert_eq!(s.intersect_sum(3, &vec![(0, 5)], true).unwrap(), 0);
    assert_eq!(s.minus(3, vec![(0, 5)], true).unwrap(), vec![(0, 5)]);
}

#[test]
fn set_store_errors_without_default() {
    let s = sample_set_store();
    assert_eq!(s.get_interval_count(99), Err(StoreError::NotFound));
    assert_eq!(s.get_interval(99, 0), Err(StoreError::NotFound));
    assert_eq!(s.get_interval(1, 2), Err(StoreError::OutOfRange));
    assert_eq!(s.get_intervals(99, false), Err(StoreError::NotFound));
    assert_eq!(s.is_contained(99, 1, false), Err(StoreError::NotFound));
    assert_eq!(s.has_intersection(99, 1, 2, false), Err(StoreError::NotFound));
    assert_eq!(s.intersect(99, vec![], false), Err(StoreError::NotFound));
    assert_eq!(s.intersect_sum(99, &vec![], false), Err(StoreError::NotFound));
    assert_eq!(s.minus(99, vec![], false), Err(StoreError::NotFound));
}

#[test]
fn set_store_rejects_unaligned_length() {
    let mut img = set_image(&[(1, &[(1, 2)])]);
    img.push(0);
    assert_eq!(
        MmapIntervalSetMapping::new(Some(make_mmap(&img))).err(),
        Some(StoreError::Format)
    );
}

#[test]
fn set_store_rejects_bad_record_lengths() {
    let mut img = Vec::new();
    push_u32(&mut img, 1);
    push_u32(&mut img, 5);
    assert_eq!(
        MmapIntervalSetMapping::new(Some(make_mmap(&img))).err(),
        Some(StoreError::Format)
    );
}

#[test]
fn set_store_scenario() {
    let s = sample_set_store();
    assert_eq!(s.len(), 1);
    assert!(s.has_id(1));
    assert_eq!(s.get_ids(), vec![1]);
    assert_eq!(s.get_interval_count(1).unwrap(), 2);
    assert_eq!(s.get_interval(1, 0).unwrap(), (10, 20));
    assert_eq!(s.get_interval(1, 1).unwrap(), (30, 40));
    assert_eq!(s.get_intervals(1, false).unwrap(), vec![(10, 20), (30, 40)]);
    assert_eq!(s.sum(), 20);
    assert_eq!(s.is_contained(1, 15, false).unwrap(), true);
    assert_eq!(s.is_contained(1, 25, false).unwrap(), false);
    assert_eq!(s.intersect(1, vec![(5, 35)], false).unwrap(), vec![(10, 20), (30, 35)]);
    assert_eq!(s.minus(1, vec![(5, 35)], false).unwrap(), vec![(5, 10), (20, 30)]);
    assert_eq!(s.intersect_sum(1, &vec![(5, 35)], false).unwrap(), 15);
}

#[test]
fn set_store_containment_edges() {
    let s = sample_set_store();
    assert_eq!(s.is_contained(1, 10, false).unwrap(), true);
    assert_eq!(s.is_contained(1, 19, false).unwrap(), true);
    assert_eq!(s.is_contained(1, 20, false).unwrap(), false);
    assert_eq!(s.is_contained(1, 9, false).unwrap(), false);
    assert_eq!(s.is_contained(1, 40, false).unwrap(), false);
}

#[test]
fn set_store_range_intersection_matches_scan() {
    let s = sample_set_store();
    let stored = s.get_intervals(1, false).unwrap();
    for start in 0..50u32 {
        for end in start..50u32 {
            let expect = stored
                .iter()
                .any(|&(bs, be)| start.max(bs) < end.min(be));
            assert_eq!(
                s.has_intersection(1, start, end, false).unwrap(),
                expect,
                "range [{start},{end})"
            );
        }
    }
}

#[test]
fn set_store_intersect_matches_brute_force() {
    let s = sample_set_store();
    let query = vec![(0, 12), (14, 16), (19, 31), (39, 45)];
    let stored = s.get_intervals(1, false).unwrap();
    let mut brute = Vec::new();
    for &(qs, qe) in &query {
        for &(bs, be) in &stored {
            let st = qs.max(bs);
            let en = qe.min(be);
            if st < en {
                brute.push((st, en));
            }
        }
    }
    assert_eq!(s.intersect(1, query, false).unwrap(), brute);
}

#[test]
fn set_store_minus_and_intersect_partition_the_query() {
    let s = sample_set_store();
    let query = vec![(5, 35), (38, 42)];
    let inter = s.intersect(1, query.clone(), false).unwrap();
    let minus = s.minus(1, query.clone(), false).unwrap();
    let covered = |v: &Vec<(u32, u32)>, x: u32| v.iter().any(|&(a, b)| a <= x && x < b);
    for x in 0..60u32 {
        let in_q = covered(&query, x);
        assert_eq!(in_q, covered(&inter, x) || covered(&minus, x), "point {x}");
        assert!(!(covered(&inter, x) && covered(&minus, x)), "point {x}");
    }
}

#[test]
fn set_store_sum_consistency() {
    let s = sample_set_store();
    let query = vec![(5, 35), (38, 42)];
    let inter = s.intersect(1, query.clone(), false).unwrap();
    let total: u64 = inter.iter().map(|&(a, b)| (b - a) as u64).sum();
    assert_eq!(s.intersect_sum(1, &query, false).unwrap() as u64, total);
}

#[test]
fn empty_record_is_valid() {
    let img = set_image(&[(4, &[])]);
    let s = MmapIntervalSetMapping::new(Some(make_mmap(&img))).unwrap();
    assert_eq!(s.get_interval_count(4).unwrap(), 0);
    assert_eq!(s.get_intervals(4, false).unwrap(), Vec::<(u32, u32)>::new());
    assert_eq!(s.is_contained(4, 0, false).unwrap(), false);
}

#[test]
fn list_store_scenario() {
    let s = sample_list_store();
    assert_eq!(s.len(), 1);
    assert!(s.has_id(2));
    assert_eq!(s.get_ids(), vec![2]);
    assert_eq!(s.get_interval_count(2, 0xff, 1).unwrap(), 1);
    assert_eq!(s.get_interval_count(2, 0, 0).unwrap(), 2);
    assert_eq!(s.sum(0, 0), 20);
    assert_eq!(s.sum(0xff, 2), 10);
    assert_eq!(
        s.get_intervals_with_payload(2, false).unwrap(),
        vec![(0, 10, 1), (5, 15, 2)]
    );
    assert_eq!(s.get_intervals(2, 0xff, 1, false).unwrap(), vec![(0, 10)]);
    assert_eq!(s.get_intervals(2, 0, 0, false).unwrap(), vec![(0, 10), (5, 15)]);
}

#[test]
fn list_store_errors_without_default() {
    let s = sample_list_store();
    assert_eq!(s.get_interval_count(9, 0, 0), Err(StoreError::NotFound));
    assert_eq!(s.get_intervals(9, 0, 0, false), Err(StoreError::NotFound));
    assert_eq!(s.get_intervals_with_payload(9, false), Err(StoreError::NotFound));
    assert_eq!(s.is_contained(9, 0, 0, 0, false, 10), Err(StoreError::NotFound));
    assert_eq!(s.intersect(9, vec![], 0, 0, false), Err(StoreError::NotFound));
    assert_eq!(s.intersect_sum(9, &vec![], 0, 0, false), Err(StoreError::NotFound));
    assert_eq!(s.get_intervals(9, 0, 0, true).unwrap(), Vec::<(u32, u32)>::new());
}

#[test]
fn list_store_rejects_bad_record_lengths() {
    let mut img = list_image(1, &[(2, &[(0, 10, 1)])]);
    img.pop();
    assert_eq!(
        MmapIntervalListMapping::new(make_mmap(&img), 1).err(),
        Some(StoreError::Format)
    );
}

#[test]
fn list_store_windowed_containment() {
    // Overlapping record sorted by start; interval lengths are at most 10.
    let img = list_image(1, &[(2, &[(0, 10, 1), (5, 15, 2)])]);
    let s = MmapIntervalListMapping::new(make_mmap(&img), 1).unwrap();
    // With a window at least the longest interval, every covered point with a
    // matching payload is found.
    for t in 0..10u32 {
        assert_eq!(s.is_contained(2, t, 0xff, 1, false, 10).unwrap(), true, "t={t}");
    }
    for t in 5..15u32 {
        assert_eq!(s.is_contained(2, t, 0xff, 2, false, 10).unwrap(), true, "t={t}");
    }
    assert_eq!(s.is_contained(2, 12, 0xff, 1, false, 10).unwrap(), false);
    assert_eq!(s.is_contained(2, 15, 0, 0, false, 10).unwrap(), false);
    assert_eq!(s.is_contained(2, 3, 0, 0, false, 10).unwrap(), true);
}

#[test]
fn list_store_intersect_coalesces_overlaps() {
    let img = list_image(1, &[(2, &[(0, 10, 1), (5, 15, 1)])]);
    let s = MmapIntervalListMapping::new(make_mmap(&img), 1).unwrap();
    // The two raw overlaps [0,10) and [5,14) strictly overlap and coalesce.
    assert_eq!(s.intersect(2, vec![(0, 14)], 0xff, 1, false).unwrap(), vec![(0, 14)]);
    // Disjoint query pieces stay apart.
    assert_eq!(
        s.intersect(2, vec![(0, 2), (12, 20)], 0xff, 1, false).unwrap(),
        vec![(0, 2), (12, 15)]
    );
}

#[test]
fn list_store_sum_consistency_on_disjoint_record() {
    let img = list_image(1, &[(2, &[(0, 10, 1), (20, 30, 1)])]);
    let s = MmapIntervalListMapping::new(make_mmap(&img), 1).unwrap();
    let query = vec![(5, 25)];
    let inter = s.intersect(2, query.clone(), 0xff, 1, false).unwrap();
    let total: u64 = inter.iter().map(|&(a, b)| (b - a) as u64).sum();
    assert_eq!(s.intersect_sum(2, &query, 0xff, 1, false).unwrap(), total);
    assert_eq!(total, 10);
}

#[test]
fn list_store_intersect_sum_counts_each_pair() {
    // A record stored twice over the same span: the sum counts both copies,
    // while the coalesced intersection covers the span once.
    let img = list_image(0, &[(3, &[(0, 10, 0), (0, 10, 0)])]);
    let s = MmapIntervalListMapping::new(make_mmap(&img), 0).unwrap();
    assert_eq!(s.intersect_sum(3, &vec![(0, 10)], 0, 0, false).unwrap(), 20);
    assert_eq!(s.intersect(3, vec![(0, 10)], 0, 0, false).unwrap(), vec![(0, 10)]);
}

#[test]
fn list_store_zero_payload_width() {
    let img = list_image(0, &[(6, &[(2, 4, 0), (8, 12, 0)])]);
    let s = MmapIntervalListMapping::new(make_mmap(&img), 0).unwrap();
    assert_eq!(s.get_interval_count(6, 0, 0).unwrap(), 2);
    assert_eq!(s.sum(0, 0), 6);
    assert_eq!(s.get_intervals_with_payload(6, false).unwrap(), vec![(2, 4, 0), (8, 12, 0)]);
}

#[test]
fn list_store_eight_byte_payload() {
    let big = u64::MAX - 1;
    let img = list_image(8, &[(1, &[(1, 3, big)])]);
    let s = MmapIntervalListMapping::new(make_mmap(&img), 8).unwrap();
    assert_eq!(s.get_intervals_with_payload(1, false).unwrap(), vec![(1, 3, big)]);
    assert_eq!(s.get_interval_count(1, u64::MAX, big).unwrap(), 1);
}

#[test]
fn minus_of_disjoint_record_is_identity() {
    let img = set_image(&[(1, &[(20, 30)])]);
    let s = MmapIntervalSetMapping::new(Some(make_mmap(&img))).unwrap();
    let query = vec![(0, 5), (10, 15)];
    assert_eq!(s.minus(1, query.clone(), false).unwrap(), query);
}

#[test]
fn minus_splits_on_empty_stored_interval() {
    // A zero-length stored interval removes no point but still splits the
    // query interval it falls inside.
    let img = set_image(&[(1, &[(5, 5)])]);
    let s = MmapIntervalSetMapping::new(Some(make_mmap(&img))).unwrap();
    assert_eq!(s.minus(1, vec![(0, 10)], false).unwrap(), vec![(0, 5), (5, 10)]);
}

#[test]
fn multiple_records_sum_across_ids() {
    let img = set_image(&[(1, &[(0, 5)]), (2, &[(10, 20)]), (3, &[])]);
    let s = MmapIntervalSetMapping::new(Some(make_mmap(&img))).unwrap();
    assert_eq!(s.len(), 3);
    assert_eq!(s.sum(), 15);
    let mut ids = s.get_ids();
    ids.sort_unstable();
    assert_eq!(ids, vec![1, 2, 3]);
}
