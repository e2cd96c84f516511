use imsearch::config::{ConfigError, OutputFormat, Settings};
use imsearch::index::{IndexError, LshParams};
use imsearch::dbfile::{decode_store, encode_block, encode_header, LoadError};
use imsearch::matching::match_descriptors;
use imsearch::search::{build_snapshot_index, rank, rebuild_index, search, tally, ScoredImage, SearchError, SearchParams};
use imsearch::store::DescriptorStore;

fn pseudo_rows(seed: u64, count: usize, len: usize) -> Vec<Vec<u8>> {
    let mut state = seed.wrapping_mul(6364136223846793005).wrapping_add(1442695040888963407);
    let mut rows = Vec::new();
    for _ in 0..count {
        let mut row = Vec::new();
        for _ in 0..len {
            state = state.wrapping_mul(6364136223846793005).wrapping_add(1442695040888963407);
            row.push((state >> 33) as u8);
        }
        rows.push(row);
    }
    rows
}

fn search_params(batch_size: usize) -> SearchParams {
    SearchParams {
        lsh: LshParams { table_count: 6, key_size: 12, probe_level: 1, checks: 1000 },
        batch_size,
        knn_k: 3,
        output_count: 10,
    }
}

fn settings() -> Settings {
    Settings {
        orb_nfeatures: 500,
        orb_nlevels: 8,
        orb_ini_th_fast: 20,
        orb_min_th_fast: 7,
        flann_table_number: 6,
        flann_key_size: 12,
        flann_probe_level: 1,
        flann_checks: 32,
        batch_size: 5000000,
        output_count: 10,
        output_format: OutputFormat::Table,
        knn_k: 3,
    }
}

#[test]
fn tally_counts_lists_holding_each_image() {
    let lists = vec![vec![0usize, 2], vec![2], vec![], vec![1, 2]];
    assert_eq!(tally(&lists, 4), vec![1, 1, 3, 0]);
}

#[test]
fn rank_orders_by_votes_then_identifier() {
    let items = vec![
        ScoredImage { id: 5, score: 2 },
        ScoredImage { id: 3, score: 0 },
        ScoredImage { id: 9, score: 4 },
        ScoredImage { id: 1, score: 2 },
    ];
    assert_eq!(
        rank(&items, 10),
        vec![ScoredImage { id: 9, score: 4 }, ScoredImage { id: 1, score: 2 }, ScoredImage { id: 5, score: 2 }]
    );
    assert_eq!(rank(&items, 1), vec![ScoredImage { id: 9, score: 4 }]);
    assert!(rank(&items, 0).is_empty());
}

#[test]
fn self_match_ranks_the_image_first() {
    let mut s = DescriptorStore::new(32);
    s.append(7, b"a".to_vec(), pseudo_rows(1, 40, 32)).unwrap();
    let b = pseudo_rows(2, 60, 32);
    s.append(3, b"b".to_vec(), b.clone()).unwrap();
    s.append(12, b"c".to_vec(), pseudo_rows(3, 30, 32)).unwrap();
    for batch in [1usize, 7, 1000] {
        let r = search(&s, &b, search_params(batch)).unwrap();
        assert_eq!(r[0], ScoredImage { id: 3, score: 60 });
        assert!(r.len() <= 10);
    }
}

#[test]
fn search_on_empty_store_is_empty() {
    let s = DescriptorStore::new(32);
    assert_eq!(s.image_count(), 0);
    let r = search(&s, &pseudo_rows(1, 5, 32), search_params(10)).unwrap();
    assert!(r.is_empty());
}

#[test]
fn search_rejects_bad_input() {
    let s = DescriptorStore::new(32);
    assert_eq!(search(&s, &pseudo_rows(1, 2, 16), search_params(10)), Err(SearchError::InvalidImage));
    assert_eq!(search(&s, &pseudo_rows(1, 2, 32), search_params(0)), Err(SearchError::IndexBuildFailure));
}

#[test]
fn ingest_then_search_scenario() {
    let mut s = DescriptorStore::new(32);
    assert_eq!(s.image_count(), 0);
    let features = pseudo_rows(42, 500, 32);
    s.append(1, b"one.jpg".to_vec(), features.clone()).unwrap();
    assert!(s.descriptor_count() <= 500);
    let p = settings().search_params().unwrap();
    let r = search(&s, &features, SearchParams { output_count: 1, ..p }).unwrap();
    assert_eq!(r[0].id, 1);
}

#[test]
fn snapshot_index_results_belong_to_stored_images() {
    let mut s = DescriptorStore::new(32);
    s.append(4, b"a".to_vec(), pseudo_rows(5, 20, 32)).unwrap();
    s.append(8, b"b".to_vec(), pseudo_rows(6, 20, 32)).unwrap();
    let ix = build_snapshot_index(&s, search_params(1).lsh).unwrap();
    for q in pseudo_rows(7, 10, 32).iter().chain(s.log.clone().iter()) {
        for n in ix.query(q, 5) {
            assert!(s.owner_of(n.offset).is_some());
        }
    }
}

#[test]
fn unrelated_images_have_few_matches() {
    let a = pseudo_rows(100, 200, 32);
    let b = pseudo_rows(200, 200, 32);
    let m = match_descriptors(&a, &b, 32, 40);
    assert!(m.len() < 10);
    let same = match_descriptors(&a, &a, 32, 40);
    assert_eq!(same.len(), 200);
    assert!(same.iter().enumerate().all(|(i, x)| x.query == i && x.train == i && x.distance == 0));
}

#[test]
fn output_format_parses() {
    assert_eq!(OutputFormat::parse("json"), Ok(OutputFormat::Json));
    assert_eq!(OutputFormat::parse("table"), Ok(OutputFormat::Table));
    assert_eq!(OutputFormat::parse("xml"), Err(ConfigError::ConfigInvalid));
    assert_eq!("table".parse::<OutputFormat>(), Ok(OutputFormat::Table));
}

#[test]
fn settings_are_checked() {
    let p = settings().search_params().unwrap();
    assert_eq!(p.lsh, LshParams { table_count: 6, key_size: 12, probe_level: 1, checks: 32 });
    assert_eq!(p.knn_k, 3);
    assert_eq!(Settings { knn_k: -1, ..settings() }.search_params(), Err(ConfigError::ConfigInvalid));
    assert_eq!(Settings { flann_key_size: 65, ..settings() }.search_params(), Err(ConfigError::ConfigInvalid));
    assert_eq!(Settings { flann_table_number: -1, ..settings() }.search_params(), Err(ConfigError::ConfigInvalid));
    let wide = Settings { flann_key_size: 30, flann_table_number: 100, ..settings() }.search_params().unwrap();
    assert_eq!(wide.lsh, LshParams { table_count: 100, key_size: 30, probe_level: 1, checks: 32 });
    assert_eq!(Settings { batch_size: 0, ..settings() }.search_params(), Err(ConfigError::ConfigInvalid));
    assert_eq!(Settings { orb_min_th_fast: 30, ..settings() }.search_params(), Err(ConfigError::ConfigInvalid));
}

#[test]
fn failed_rebuild_keeps_the_published_index() {
    let mut s = DescriptorStore::new(32);
    s.append(1, b"a".to_vec(), pseudo_rows(1, 10, 32)).unwrap();
    let mut published = None;
    assert_eq!(rebuild_index(&mut published, &s, search_params(1).lsh), Ok(()));
    assert_eq!(published.as_ref().map(|ix| ix.data.len()), Some(10));
    s.append(2, b"b".to_vec(), pseudo_rows(2, 5, 32)).unwrap();
    let bad = LshParams { key_size: 65, ..search_params(1).lsh };
    assert_eq!(rebuild_index(&mut published, &s, bad), Err(IndexError::IndexBuildFailure));
    assert_eq!(published.as_ref().map(|ix| ix.data.len()), Some(10));
    assert_eq!(rebuild_index(&mut published, &s, search_params(1).lsh), Ok(()));
    assert_eq!(published.as_ref().map(|ix| ix.data.len()), Some(15));
}

#[test]
fn default_settings_still_vote() {
    let mut s = DescriptorStore::new(32);
    let a = pseudo_rows(8, 30, 32);
    s.append(5, b"a".to_vec(), a.clone()).unwrap();
    let p = settings().search_params().unwrap();
    let r = search(&s, &a, p).unwrap();
    assert_eq!(r[0].id, 5);
    assert!(r[0].score >= 1);
}

#[test]
fn database_file_round_trip() {
    let a = pseudo_rows(1, 3, 32);
    let b = pseudo_rows(2, 2, 32);
    let mut bytes = encode_header(32);
    assert_eq!(bytes, vec![32, 0, 0, 0, 0, 0, 0, 0]);
    bytes.extend(encode_block(7, &b"x.jpg".to_vec(), &a));
    bytes.extend(encode_block(9, &b"y.png".to_vec(), &b));
    assert_eq!(bytes.len(), 8 + (24 + 5 + 96) + (24 + 5 + 64));
    let s = decode_store(&bytes, 32).unwrap();
    assert_eq!(s.image_count(), 2);
    assert_eq!(s.get(7), Ok(a.clone()));
    assert_eq!(s.get(9), Ok(b));
    assert_eq!(s.records[1].source, b"y.png".to_vec());
    // a truncated file, a wrong header and a repeated identifier are corrupt
    assert_eq!(decode_store(&bytes[..bytes.len() - 1].to_vec(), 32).err(), Some(LoadError::DatabaseCorrupt));
    assert_eq!(decode_store(&bytes, 16).err(), Some(LoadError::DatabaseCorrupt));
    let mut dup = encode_header(32);
    dup.extend(encode_block(7, &b"x".to_vec(), &a));
    dup.extend(encode_block(7, &b"z".to_vec(), &a));
    assert_eq!(decode_store(&dup, 32).err(), Some(LoadError::DatabaseCorrupt));
    assert_eq!(decode_store(&encode_header(32), 32).map(|s| s.image_count()), Ok(0));
}
