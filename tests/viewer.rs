use kitti_format::names::{frame_stem, indices_from_file_names, parse_index, IndexError};
use kitti_format::objects::read_ann_file_in;
use kitti_format::viewer::{ViewerKey, ViewerState, FRAME_PERIOD_MS};
use kitti_format::PcdFormat;

#[test]
fn viewer_starts_on_first_frame() {
    let s = ViewerState::new(3, false, true, false);
    assert_eq!(s.frame_idx, 0);
    assert!(s.show_bbox);
    assert!(!s.mark_points_in_boxes);
    assert!(!s.record);
    assert!(ViewerState::new(3, true, true, true).record);
}

#[test]
fn viewer_keys_wrap_and_toggle() {
    let mut s = ViewerState::new(3, false, false, true);
    let out = s.step(&vec![ViewerKey::Previous], true, 0);
    assert_eq!(s.frame_idx, 2);
    assert!(!out.close);
    s.step(&vec![ViewerKey::Next, ViewerKey::Next], true, 0);
    assert_eq!(s.frame_idx, 1);
    s.step(&vec![ViewerKey::ShowBoxes, ViewerKey::MarkPoints], true, 0);
    assert!(!s.show_bbox);
    assert!(s.mark_points_in_boxes);
    let out = s.step(&vec![ViewerKey::Quit], true, 0);
    assert!(out.close);
}

#[test]
fn viewer_record_warning() {
    let mut s = ViewerState::new(2, false, false, false);
    let out = s.step(&vec![ViewerKey::Record], false, 0);
    assert!(out.warn_no_screencast_dir);
    assert!(s.record);
    let out = s.step(&vec![ViewerKey::Record], false, 0);
    assert!(!out.warn_no_screencast_dir);
    assert!(!s.record);
    let out = s.step(&vec![ViewerKey::Record], true, 0);
    assert!(!out.warn_no_screencast_dir);
}

#[test]
fn viewer_autoplay_catches_up_by_whole_periods() {
    let mut s = ViewerState::new(5, true, false, false);
    s.step(&vec![], false, 1000);
    assert_eq!(s.next_tick, Some(1000 + FRAME_PERIOD_MS));
    assert_eq!(s.frame_idx, 0);
    s.step(&vec![], false, 1050);
    assert_eq!(s.frame_idx, 0);
    s.step(&vec![], false, 1350);
    assert_eq!(s.frame_idx, 1);
    assert_eq!(s.next_tick, Some(1400));
    s.step(&vec![], false, 1400);
    assert_eq!(s.frame_idx, 2);
    assert_eq!(s.next_tick, Some(1500));
}

#[test]
fn viewer_autoplay_stops_at_last_frame_and_on_navigation() {
    let mut s = ViewerState::new(2, true, false, false);
    s.step(&vec![], false, 0);
    s.step(&vec![], false, 100);
    assert_eq!(s.frame_idx, 1);
    assert!(s.play);
    s.step(&vec![], false, 200);
    assert_eq!(s.frame_idx, 1);
    assert!(!s.play);
    let mut s = ViewerState::new(4, true, false, false);
    s.step(&vec![ViewerKey::Next], false, 0);
    assert!(!s.play);
    assert_eq!(s.frame_idx, 1);
}

#[test]
fn frame_stems_are_zero_padded() {
    assert_eq!(frame_stem(0), b"000000".to_vec());
    assert_eq!(frame_stem(42), b"000042".to_vec());
    assert_eq!(frame_stem(123456), b"123456".to_vec());
    assert_eq!(frame_stem(1234567), b"1234567".to_vec());
}

#[test]
fn indices_from_names() {
    let names: Vec<Vec<u8>> = ["000000.txt", "000001.bin", "000007.txt", ".txt", "readme", "+12.txt"]
        .iter()
        .map(|s| s.as_bytes().to_vec())
        .collect();
    assert_eq!(indices_from_file_names(&names), Ok(vec![0, 7, 12]));
    let bad = vec![b"abc.txt".to_vec()];
    assert_eq!(indices_from_file_names(&bad), Err(IndexError::InvalidIndex));
    assert_eq!(parse_index(b"18446744073709551616"), None);
    assert_eq!(parse_index(b"007"), Some(7));
    assert_eq!(parse_index(b""), None);
    assert_eq!(parse_index(b"+"), None);
}

#[test]
fn format_selects_parser() {
    let line = b"Car 0 0 0 10 20 110 220 1.5 1.6 3.8 5 1.7 30 1.57";
    let a = read_ann_file_in(PcdFormat::Libpcl, line, &vec![]).unwrap();
    let b = read_ann_file_in(PcdFormat::Philly, line, &vec![]).unwrap();
    assert_ne!(a[0].bbox3d, b[0].bbox3d);
    assert_eq!(a[0].bbox2d, b[0].bbox2d);
}
