use imsearch::hamming::{byte_distance_exec, hamming_distance};
use imsearch::index::{bucket_of, select_nearest, IndexError, LshIndex, LshParams, Neighbor};

fn pseudo_rows(seed: u64, count: usize, len: usize) -> Vec<Vec<u8>> {
    let mut state = seed.wrapping_mul(6364136223846793005).wrapping_add(1442695040888963407);
    let mut rows = Vec::new();
    for _ in 0..count {
        let mut row = Vec::new();
        for _ in 0..len {
            state = state.wrapping_mul(6364136223846793005).wrapping_add(1442695040888963407);
            row.push((state >> 33) as u8);
        }
        rows.push(row);
    }
    rows
}

fn params() -> LshParams {
    LshParams { table_count: 6, key_size: 12, probe_level: 1, checks: 1000 }
}

#[test]
fn byte_distances() {
    assert_eq!(byte_distance_exec(0xFF, 0x00), 8);
    assert_eq!(byte_distance_exec(0b1010, 0b0110), 2);
    assert_eq!(byte_distance_exec(7, 7), 0);
}

#[test]
fn hamming_of_byte_strings() {
    assert_eq!(hamming_distance(&[0xFF, 0x0F], &[0x00, 0x0F]), 8);
    assert_eq!(hamming_distance(&[0x01, 0x80, 0x55], &[0x00, 0x00, 0xAA]), 10);
    assert_eq!(hamming_distance(&[], &[]), 0);
}

#[test]
fn bucket_key_reads_sampled_bits() {
    // bits 0 and 9 set; positions 9, 0, 1 give key 0b110
    let d = vec![0b0000_0001u8, 0b0000_0010u8];
    assert_eq!(bucket_of(&d, &vec![9, 0, 1]), 0b110);
    assert_eq!(bucket_of(&d, &vec![1, 2]), 0);
}

#[test]
fn select_nearest_orders_by_distance_then_offset() {
    let q = vec![0u8];
    let data = vec![vec![0x03u8], vec![0x01u8], vec![0x80u8], vec![0xFFu8], vec![0x00u8]];
    let cands = vec![0usize, 1, 2, 3, 4];
    let r = select_nearest(&q, &data, 100, &cands, 3);
    assert_eq!(
        r,
        vec![
            Neighbor { offset: 104, distance: 0 },
            Neighbor { offset: 101, distance: 1 },
            Neighbor { offset: 102, distance: 1 },
        ]
    );
    assert!(select_nearest(&q, &data, 0, &cands, 0).is_empty());
    assert_eq!(select_nearest(&q, &data, 0, &vec![3usize], 5), vec![Neighbor { offset: 3, distance: 8 }]);
}

#[test]
fn build_rejects_bad_parameters() {
    let rows = pseudo_rows(1, 4, 32);
    let bad = LshParams { key_size: 65, ..params() };
    assert_eq!(LshIndex::build(rows.clone(), 0, 32, bad).err(), Some(IndexError::IndexBuildFailure));
    assert_eq!(LshIndex::build(rows.clone(), 0, 16, params()).err(), Some(IndexError::IndexBuildFailure));
    assert_eq!(LshIndex::build(rows, 0, 0, params()).err(), Some(IndexError::IndexBuildFailure));
}

#[test]
fn query_finds_the_identical_row_first() {
    let rows = pseudo_rows(9, 200, 32);
    let ix = LshIndex::build(rows.clone(), 50, 32, params()).unwrap();
    for l in [0usize, 17, 199] {
        let r = ix.query(&rows[l], 3);
        assert!(!r.is_empty() && r.len() <= 3);
        assert_eq!(r[0], Neighbor { offset: 50 + l, distance: 0 });
        for w in r.windows(2) {
            assert!((w[0].distance, w[0].offset) < (w[1].distance, w[1].offset));
        }
    }
}

#[test]
fn candidates_respect_the_checks_cap() {
    let rows = vec![vec![0u8; 32]; 10];
    let p = LshParams { checks: 4, ..params() };
    let ix = LshIndex::build(rows.clone(), 0, 32, p).unwrap();
    let c = ix.candidates(&rows[0]);
    assert_eq!(c, vec![0, 1, 2, 3]);
    let r = ix.query(&rows[0], 10);
    assert_eq!(r.len(), 4);
}

#[test]
fn candidates_hold_every_copy_of_the_query() {
    let mut rows = pseudo_rows(11, 50, 32);
    let copy = rows[7].clone();
    rows[30] = copy.clone();
    rows[44] = copy.clone();
    let ix = LshIndex::build(rows, 0, 32, params()).unwrap();
    let c = ix.candidates(&copy);
    for l in [7usize, 30, 44] {
        assert!(c.contains(&l));
    }
    let r = ix.query(&copy, 3);
    assert_eq!(
        r,
        vec![
            Neighbor { offset: 7, distance: 0 },
            Neighbor { offset: 30, distance: 0 },
            Neighbor { offset: 44, distance: 0 },
        ]
    );
}

#[test]
fn wide_keys_and_no_tables_are_accepted() {
    let rows = pseudo_rows(3, 20, 32);
    let wide = LshParams { key_size: 30, checks: 32, ..params() };
    let ix = LshIndex::build(rows.clone(), 0, 32, wide).unwrap();
    assert_eq!(ix.query(&rows[5], 1), vec![Neighbor { offset: 5, distance: 0 }]);
    let none = LshParams { table_count: 0, ..params() };
    let ix = LshIndex::build(rows.clone(), 0, 32, none).unwrap();
    assert!(ix.query(&rows[5], 1).is_empty());
}

#[test]
fn probe_level_flips_that_many_key_bits() {
    // a row differing from the query only in the last sampled bit of table 0
    let p = LshParams { table_count: 1, key_size: 3, probe_level: 0, checks: 100 };
    let ix = LshIndex::build(vec![vec![0u8; 32]], 0, 32, p).unwrap();
    let pos = ix.positions[0].clone();
    let mut q = vec![0u8; 32];
    q[pos[2] / 8] |= 1 << (pos[2] % 8);
    assert!(ix.candidates(&q).is_empty());
    let ix1 = LshIndex::build(vec![vec![0u8; 32]], 0, 32, LshParams { probe_level: 1, ..p }).unwrap();
    assert_eq!(ix1.candidates(&q), vec![0]);
}

#[test]
fn repeated_queries_agree_when_checks_cut_the_scan() {
    let rows = vec![vec![0u8; 32]; 12];
    let p = LshParams { checks: 5, ..params() };
    let ix = LshIndex::build(rows.clone(), 3, 32, p).unwrap();
    let first = ix.query(&rows[0], 2);
    assert_eq!(first, ix.query(&rows[0], 2));
    assert_eq!(first, vec![Neighbor { offset: 3, distance: 0 }, Neighbor { offset: 4, distance: 0 }]);
}
