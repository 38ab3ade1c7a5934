use dupwalker::engine::init_engine;
use dupwalker::status::{api_noop, api_status, DWStatus};
use dupwalker::status_mgr::{ImageData, StatusMgr, StatusMgrMsg};

#[test]
fn default_manager_is_empty() {
    let mgr = StatusMgr::default();
    assert_eq!(mgr.len(), 0);
    assert!(mgr.paths().is_empty());
    assert!(!mgr.scan_finished());
    assert!(!mgr.is_dirty());
    assert_eq!(mgr.last_scanned(), None);
    assert_eq!(mgr.cache_path(), "");
}

#[test]
fn ahash_then_get_reads_back() {
    let mut mgr = StatusMgr::default();
    mgr.ahash("x".to_string(), 11);
    assert_eq!(mgr.get_image_data(&"x".to_string()), Some(&ImageData { a_hash: Some(11), d_hash: None }));
    assert_eq!(mgr.get_image_data(&"y".to_string()), None);
    assert_eq!(mgr.last_scanned(), Some("x".to_string()));
    assert!(mgr.is_dirty());
    assert_eq!(mgr.len(), 1);
}

#[test]
fn both_hashes_make_data_complete() {
    let mut mgr = StatusMgr::default();
    mgr.dhash("x".to_string(), 2);
    assert!(!mgr.get_image_data(&"x".to_string()).unwrap().is_complete());
    mgr.ahash("x".to_string(), 1);
    let data = *mgr.get_image_data(&"x".to_string()).unwrap();
    assert_eq!(data, ImageData { a_hash: Some(1), d_hash: Some(2) });
    assert!(data.is_complete());
    assert_eq!(mgr.len(), 1);
}

#[test]
fn storing_again_replaces_the_hash() {
    let mut mgr = StatusMgr::default();
    mgr.ahash("x".to_string(), 1);
    mgr.ahash("y".to_string(), 2);
    mgr.ahash("x".to_string(), 3);
    assert_eq!(mgr.len(), 2);
    assert_eq!(mgr.get_image_data(&"x".to_string()).unwrap().a_hash, Some(3));
    assert_eq!(mgr.last_scanned(), Some("x".to_string()));
    let mut paths = mgr.paths();
    paths.sort();
    assert_eq!(paths, vec!["x".to_string(), "y".to_string()]);
}

#[test]
fn messages_store_hashes() {
    let mut mgr = StatusMgr::default();
    mgr.apply(StatusMgrMsg::AHash("p".to_string(), 4));
    mgr.apply(StatusMgrMsg::DHash("p".to_string(), 5));
    assert_eq!(mgr.get_image_data(&"p".to_string()), Some(&ImageData { a_hash: Some(4), d_hash: Some(5) }));
}

#[test]
fn restore_keeps_the_later_entry() {
    let entries = vec![
        ("a".to_string(), ImageData { a_hash: Some(1), d_hash: None }),
        ("b".to_string(), ImageData { a_hash: None, d_hash: Some(2) }),
        ("a".to_string(), ImageData { a_hash: Some(3), d_hash: Some(4) }),
    ];
    let mgr = StatusMgr::restore(entries, "cache.json".to_string());
    assert_eq!(mgr.len(), 2);
    assert_eq!(mgr.get_image_data(&"a".to_string()), Some(&ImageData { a_hash: Some(3), d_hash: Some(4) }));
    assert_eq!(mgr.cache_path(), "cache.json");
    assert!(!mgr.is_dirty());
    assert_eq!(mgr.last_scanned(), None);
}

#[test]
fn finish_and_save_flags() {
    let mut mgr = StatusMgr::default();
    mgr.ahash("a".to_string(), 1);
    mgr.finish_scan();
    assert!(mgr.scan_finished());
    assert!(mgr.is_dirty());
    mgr.mark_saved();
    assert!(!mgr.is_dirty());
    assert!(mgr.scan_finished());
}

#[test]
fn image_data_default_is_incomplete() {
    let d = ImageData::default();
    assert_eq!(d, ImageData { a_hash: None, d_hash: None });
    assert!(!d.is_complete());
    assert!(!ImageData { a_hash: Some(1), d_hash: None }.is_complete());
}

#[test]
fn api_noop_answers_noop() {
    assert_eq!(api_noop(), "NoOp");
}

#[test]
fn api_status_scanning_then_comparing() {
    let mut mgr = StatusMgr::default();
    mgr.ahash("/a.png".to_string(), 1);
    mgr.dhash("/b.png".to_string(), 2);
    match api_status(&mgr) {
        DWStatus::Scanning(s) => {
            assert_eq!(s.count, 2);
            assert_eq!(s.last_scanned, Some("/b.png".to_string()));
        }
        _ => panic!("expected scanning"),
    }
    mgr.finish_scan();
    match api_status(&mgr) {
        DWStatus::Comparing(c) => {
            assert_eq!(c.total_images, 2);
            assert_eq!(c.image_scanning, 0);
        }
        _ => panic!("expected comparing"),
    }
}

#[test]
fn default_status_is_initializing() {
    assert!(matches!(DWStatus::default(), DWStatus::Initializing));
}

#[test]
fn engine_can_be_made() {
    let _engine = init_engine();
}

#[test]
fn restoring_the_listing_gives_back_the_data() {
    let mut mgr = StatusMgr::default();
    mgr.ahash("a".to_string(), 1);
    mgr.dhash("a".to_string(), 2);
    mgr.dhash("b".to_string(), 3);
    let entries: Vec<(String, ImageData)> = mgr
        .paths()
        .into_iter()
        .map(|p| {
            let d = *mgr.get_image_data(&p).unwrap();
            (p, d)
        })
        .collect();
    let restored = StatusMgr::restore(entries, "c.json".to_string());
    assert_eq!(restored.len(), mgr.len());
    for p in mgr.paths() {
        assert_eq!(restored.get_image_data(&p), mgr.get_image_data(&p));
    }
}

#[test]
fn entries_restore_to_the_same_data() {
    let mut mgr = StatusMgr::default();
    mgr.ahash("a".to_string(), 1);
    mgr.dhash("b".to_string(), 2);
    mgr.ahash("a".to_string(), 3);
    let entries = mgr.entries();
    assert_eq!(entries.len(), 2);
    let restored = StatusMgr::restore(entries, "c.json".to_string());
    assert_eq!(restored.len(), 2);
    assert_eq!(restored.get_image_data(&"a".to_string()), Some(&ImageData { a_hash: Some(3), d_hash: None }));
    assert_eq!(restored.get_image_data(&"b".to_string()), Some(&ImageData { a_hash: None, d_hash: Some(2) }));
}
