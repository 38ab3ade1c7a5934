use dupwalker::status::{DWComparingStatus, DWScanningStatus, DWStatus};
use dupwalker::summary::{decimal_text, last_image_name, poll_interval, progress_text};

#[test]
fn decimal_text_matches_to_string() {
    for n in [0usize, 7, 10, 99, 100, 12345, 1_000_000, usize::MAX] {
        assert_eq!(decimal_text(n), n.to_string());
    }
}

#[test]
fn progress_text_shows_scanned_over_total() {
    let c = DWComparingStatus { total_images: 120, image_scanning: 7 };
    assert_eq!(progress_text(&c), "7 / 120");
    assert_eq!(progress_text(&DWComparingStatus::default()), "0 / 0");
}

#[test]
fn last_image_name_is_the_file_name() {
    let s = DWScanningStatus { count: 3, last_scanned: Some("/photos/2020/beach.jpg".to_string()) };
    assert_eq!(last_image_name(&s), "beach.jpg");
}

#[test]
fn last_image_name_is_empty_without_image() {
    assert_eq!(last_image_name(&DWScanningStatus::default()), "");
    let s = DWScanningStatus { count: 1, last_scanned: Some("/".to_string()) };
    assert_eq!(last_image_name(&s), "");
    let s = DWScanningStatus { count: 1, last_scanned: Some("/photos/..".to_string()) };
    assert_eq!(last_image_name(&s), "");
}

#[test]
fn front_end_polls_until_comparing() {
    assert_eq!(poll_interval(&DWStatus::Initializing), 500);
    assert_eq!(poll_interval(&DWStatus::Scanning(DWScanningStatus::default())), 500);
    assert_eq!(poll_interval(&DWStatus::Comparing(DWComparingStatus::default())), 0);
    assert_eq!(poll_interval(&DWStatus::Ready), 0);
}

fn name_of(path: &str) -> String {
    last_image_name(&DWScanningStatus { count: 1, last_scanned: Some(path.to_string()) })
}

#[test]
fn last_image_name_follows_path_components() {
    assert_eq!(name_of("a/."), "a");
    assert_eq!(name_of("a/b/"), "b");
    assert_eq!(name_of("a//b//"), "b");
    assert_eq!(name_of("a/./."), "a");
    assert_eq!(name_of("./a"), "a");
    assert_eq!(name_of("."), "");
    assert_eq!(name_of("./"), "");
    assert_eq!(name_of("/."), "");
    assert_eq!(name_of(""), "");
    assert_eq!(name_of("a/.."), "");
    assert_eq!(name_of("..a"), "..a");
    assert_eq!(name_of("x/.b"), ".b");
}
