use imsearch::store::{DescriptorStore, StoreError};

fn pseudo_rows(seed: u64, count: usize, len: usize) -> Vec<Vec<u8>> {
    let mut state = seed.wrapping_mul(6364136223846793005).wrapping_add(1442695040888963407);
    let mut rows = Vec::new();
    for _ in 0..count {
        let mut row = Vec::new();
        for _ in 0..len {
            state = state.wrapping_mul(6364136223846793005).wrapping_add(1442695040888963407);
            row.push((state >> 33) as u8);
        }
        rows.push(row);
    }
    rows
}

#[test]
fn new_store_is_empty() {
    let s = DescriptorStore::new(32);
    assert_eq!(s.image_count(), 0);
    assert_eq!(s.descriptor_count(), 0);
    assert!(s.iterate_batches(4).is_empty());
}

#[test]
fn append_then_get_round_trip() {
    let mut s = DescriptorStore::new(32);
    let a = pseudo_rows(1, 5, 32);
    let b = pseudo_rows(2, 3, 32);
    assert_eq!(s.append(10, b"a.jpg".to_vec(), a.clone()), Ok(()));
    assert_eq!(s.append(20, b"b.png".to_vec(), b.clone()), Ok(()));
    assert_eq!(s.get(10), Ok(a));
    assert_eq!(s.get(20), Ok(b));
    assert_eq!(s.image_count(), 2);
    assert_eq!(s.descriptor_count(), 8);
    assert_eq!(s.records[1].start, 5);
    assert_eq!(s.records[1].end, 8);
}

#[test]
fn get_unknown_is_not_found() {
    let s = DescriptorStore::new(32);
    assert_eq!(s.get(7), Err(StoreError::NotFound));
}

#[test]
fn duplicate_append_leaves_store_unchanged() {
    let mut s = DescriptorStore::new(32);
    s.append(1, b"x".to_vec(), pseudo_rows(3, 4, 32)).unwrap();
    let r = s.append(1, b"y".to_vec(), pseudo_rows(4, 2, 32));
    assert_eq!(r, Err(StoreError::DuplicateImage));
    assert_eq!(s.image_count(), 1);
    assert_eq!(s.descriptor_count(), 4);
    assert_eq!(s.records[0].source, b"x".to_vec());
}

#[test]
fn wrong_length_descriptor_is_rejected() {
    let mut s = DescriptorStore::new(32);
    let mut rows = pseudo_rows(5, 3, 32);
    rows[2].push(0);
    assert_eq!(s.append(1, b"x".to_vec(), rows), Err(StoreError::DescriptorLength));
    assert_eq!(s.image_count(), 0);
    assert_eq!(s.descriptor_count(), 0);
}

#[test]
fn empty_image_is_stored() {
    let mut s = DescriptorStore::new(32);
    assert_eq!(s.append(3, b"blank".to_vec(), Vec::new()), Ok(()));
    assert!(s.contains(3));
    assert_eq!(s.get(3), Ok(Vec::new()));
}

#[test]
fn owner_of_maps_offsets_to_images() {
    let mut s = DescriptorStore::new(32);
    s.append(10, b"a".to_vec(), pseudo_rows(1, 2, 32)).unwrap();
    s.append(20, b"b".to_vec(), Vec::new()).unwrap();
    s.append(30, b"c".to_vec(), pseudo_rows(2, 3, 32)).unwrap();
    assert_eq!(s.owner_of(0), Some(10));
    assert_eq!(s.owner_of(1), Some(10));
    assert_eq!(s.owner_of(2), Some(30));
    assert_eq!(s.owner_of(4), Some(30));
    assert_eq!(s.owner_of(5), None);
    assert_eq!(s.record_index_of(3), Some(2));
}

#[test]
fn batches_cover_the_store_for_any_size() {
    let mut s = DescriptorStore::new(32);
    s.append(1, b"a".to_vec(), pseudo_rows(1, 4, 32)).unwrap();
    s.append(2, b"b".to_vec(), pseudo_rows(2, 3, 32)).unwrap();
    let all: Vec<Vec<u8>> = s.log.clone();
    for size in [1usize, 2, 3, 7, 100] {
        let batches = s.iterate_batches(size);
        let mut rows = Vec::new();
        let mut owners = Vec::new();
        for b in &batches {
            assert!(!b.descriptors.is_empty() && b.descriptors.len() <= size);
            rows.extend(b.descriptors.iter().cloned());
            owners.extend(b.owners.iter().cloned());
        }
        assert_eq!(rows, all);
        assert_eq!(owners, vec![1, 1, 1, 1, 2, 2, 2]);
    }
    assert_eq!(s.iterate_batches(3).len(), 3);
}

#[test]
fn batch_at_stops_at_the_end() {
    let mut s = DescriptorStore::new(32);
    s.append(1, b"a".to_vec(), pseudo_rows(1, 5, 32)).unwrap();
    let b = s.batch_at(3, 10);
    assert_eq!(b.start, 3);
    assert_eq!(b.descriptors.len(), 2);
    assert_eq!(b.owners, vec![1, 1]);
}
