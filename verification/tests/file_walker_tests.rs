use dupwalker::file_walker::{has_image_type, is_image_file, is_image_path, skip_lightroom, walk_roots};

#[test]
fn lightroom_extensions_are_skipped() {
    assert!(!skip_lightroom(Some("lrdata")));
    assert!(!skip_lightroom(Some("lrcat")));
    assert!(!skip_lightroom(Some("lrcat-data")));
}

#[test]
fn other_extensions_are_walked() {
    assert!(skip_lightroom(Some("jpg")));
    assert!(skip_lightroom(Some("LRCAT")));
    assert!(skip_lightroom(None));
}

#[test]
fn image_paths_are_recognised() {
    assert!(is_image_path("/photos/a.jpg"));
    assert!(is_image_path("b.PNG"));
    assert!(is_image_path("c.gif"));
    assert!(!is_image_path("notes.txt"));
    assert!(!is_image_path("movie.mp4"));
    assert!(!is_image_path("no_extension"));
}

#[test]
fn directories_are_not_reported() {
    assert!(!is_image_file(Some(true), "album.jpg"));
    assert!(is_image_file(Some(false), "album.jpg"));
    assert!(is_image_file(None, "album.jpg"));
    assert!(!is_image_file(Some(false), "album.doc"));
}

#[test]
fn image_type_is_found_among_types() {
    assert!(has_image_type(&vec!["text".to_string(), "image".to_string()]));
    assert!(!has_image_type(&vec!["text".to_string(), "video".to_string()]));
    assert!(!has_image_type(&Vec::new()));
    assert!(!has_image_type(&vec!["Image".to_string()]));
}

#[test]
fn no_roots_walks_current_directory() {
    assert_eq!(walk_roots(&Vec::new()), vec![".".to_string()]);
    let roots = vec!["/a".to_string(), "/b".to_string()];
    assert_eq!(walk_roots(&roots), roots);
}
