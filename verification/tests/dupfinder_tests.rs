use dupwalker::dupfinder::{near_duplicates, DupFinderMap, HAMMING_DISTANCE};
use dupwalker::status_mgr::{ImageData, StatusMgr};

fn with_ahash(h: u64) -> ImageData {
    ImageData { a_hash: Some(h), d_hash: None }
}

#[test]
fn add_image_returns_the_hash_it_takes() {
    let mut map = DupFinderMap::new(|d: &ImageData| d.a_hash);
    assert_eq!(map.add_image("a", &with_ahash(5)), Some(5));
    assert_eq!(map.add_image("b", &ImageData { a_hash: None, d_hash: Some(9) }), None);
}

#[test]
fn add_image_uses_the_given_getter() {
    let mut map = DupFinderMap::new(|d: &ImageData| d.d_hash);
    assert_eq!(map.add_image("a", &with_ahash(5)), None);
    assert_eq!(map.add_image("b", &ImageData { a_hash: None, d_hash: Some(9) }), Some(9));
}

#[test]
fn empty_map_finds_nothing() {
    let map = DupFinderMap::new(|d: &ImageData| d.a_hash);
    assert!(map.find_near_images(0x1234, 3).is_empty());
}

#[test]
fn equal_hash_is_not_reported() {
    let q = 0x0000_0000_FFFF_FFFFu64;
    let mut map = DupFinderMap::new(|d: &ImageData| d.a_hash);
    map.add_image("same", &with_ahash(q));
    assert!(map.find_near_images(q, HAMMING_DISTANCE).is_empty());
}

#[test]
fn hash_agreeing_in_few_bits_is_reported() {
    let q = 0x0000_0000_FFFF_FFFFu64;
    let mut map = DupFinderMap::new(|d: &ImageData| d.a_hash);
    map.add_image("complement", &with_ahash(!q));
    // Agrees with q in 2 positions, differs in 62.
    map.add_image("close", &with_ahash(!q ^ 0b11));
    // Agrees with q in 4 positions.
    map.add_image("far", &with_ahash(!q ^ 0b11 ^ (0b11 << 40)));
    assert_eq!(map.find_near_images(q, 3), vec!["complement".to_string(), "close".to_string()]);
}

#[test]
fn search_skips_buckets_outside_the_window() {
    let mut map = DupFinderMap::new(|d: &ImageData| d.a_hash);
    // Agrees with 0 in no position, but has 64 set bits, outside the window 0..=3.
    map.add_image("all", &with_ahash(u64::MAX));
    assert!(map.find_near_images(0, 3).is_empty());
    // With distance 64 the window reaches bucket 64.
    assert_eq!(map.find_near_images(0, 64), vec!["all".to_string()]);
}

#[test]
fn search_reports_by_bucket_then_insertion_order() {
    let q = 0x0000_0000_FFFF_FFFFu64;
    let mut map = DupFinderMap::new(|d: &ImageData| d.a_hash);
    // 33 set bits, agreeing with q in 1 position.
    let more = !q | 1u64 << 0;
    // 32 set bits, agreeing in none.
    let same = !q;
    map.add_image("more", &with_ahash(more));
    map.add_image("same1", &with_ahash(same));
    map.add_image("same2", &with_ahash(same));
    assert_eq!(
        map.find_near_images(q, 3),
        vec!["same1".to_string(), "same2".to_string(), "more".to_string()]
    );
}

#[test]
fn near_duplicates_pairs_complementary_hashes() {
    let q = 0x0F0F_0F0F_0F0F_0F0Fu64;
    let mut mgr = StatusMgr::default();
    mgr.ahash("a".to_string(), q);
    mgr.ahash("b".to_string(), !q);
    mgr.dhash("c".to_string(), q);
    mgr.ahash("d".to_string(), 0);
    let names = vec!["a".to_string(), "b".to_string(), "c".to_string(), "d".to_string(), "e".to_string()];
    let report = near_duplicates(&names, &mgr);
    assert_eq!(
        report,
        vec![("a".to_string(), vec!["b".to_string()]), ("b".to_string(), vec!["a".to_string()])]
    );
}

#[test]
fn near_duplicates_of_nothing_is_empty() {
    let mgr = StatusMgr::default();
    assert!(near_duplicates(&Vec::new(), &mgr).is_empty());
}

#[test]
fn larger_distance_reports_at_least_as_much() {
    let q = 0x0000_0000_FFFF_FFFFu64;
    let mut map = DupFinderMap::new(|d: &ImageData| d.a_hash);
    map.add_image("agree0", &with_ahash(!q));
    map.add_image("agree2", &with_ahash(!q ^ 0b11));
    map.add_image("agree4", &with_ahash(!q ^ 0b11 ^ (0b11 << 40)));
    let small = map.find_near_images(q, 1);
    let large = map.find_near_images(q, 4);
    assert_eq!(small, vec!["agree0".to_string()]);
    for p in &small {
        assert!(large.contains(p));
    }
    assert_eq!(large.len(), 3);
}

#[test]
fn search_is_symmetric_between_stored_images() {
    let ha = 0x0F0F_0F0F_0F0F_0F0Fu64;
    let hb = !ha ^ 1;
    let hc = 0u64;
    let mut map = DupFinderMap::new(|d: &ImageData| d.a_hash);
    map.add_image("a", &with_ahash(ha));
    map.add_image("b", &with_ahash(hb));
    map.add_image("c", &with_ahash(hc));
    let from_a = map.find_near_images(ha, 3);
    let from_b = map.find_near_images(hb, 3);
    let from_c = map.find_near_images(hc, 3);
    assert!(from_a.contains(&"b".to_string()));
    assert!(from_b.contains(&"a".to_string()));
    assert_eq!(from_a.contains(&"c".to_string()), from_c.contains(&"a".to_string()));
}
