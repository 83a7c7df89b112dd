use linkfield::file_cache::frame::{
    has_record_frame, read_number, skip_number, skip_optional_number, skip_optional_text, skip_text,
};

#[test]
fn numbers_of_each_width() {
    assert_eq!(read_number(&[7], 0), Some((7, 1)));
    assert_eq!(read_number(&[250], 0), Some((250, 1)));
    assert_eq!(read_number(&[0, 251, 0x34, 0x12], 1), Some((0x1234, 4)));
    assert_eq!(read_number(&[252, 4, 3, 2, 1], 0), Some((0x01020304, 5)));
    assert_eq!(
        read_number(&[253, 8, 7, 6, 5, 4, 3, 2, 1], 0),
        Some((0x0102030405060708, 9))
    );
    assert_eq!(read_number(&[253, 255, 255, 255, 255, 255, 255, 255, 255], 0), Some((u64::MAX, 9)));
}

#[test]
fn numbers_that_are_not_whole() {
    assert_eq!(read_number(&[], 0), None);
    assert_eq!(read_number(&[7], 1), None);
    assert_eq!(read_number(&[251, 1], 0), None);
    assert_eq!(read_number(&[252, 1, 2, 3], 0), None);
    assert_eq!(read_number(&[253, 1, 2, 3, 4, 5, 6, 7], 0), None);
    assert_eq!(read_number(&[254, 0, 0, 0, 0, 0, 0, 0, 0, 0, 0, 0, 0, 0, 0, 0, 0], 0), None);
    assert_eq!(read_number(&[255, 0], 0), None);
}

#[test]
fn fields_are_skipped() {
    assert_eq!(skip_number(&[251, 1, 2, 9], 0), Some(3));
    assert_eq!(skip_text(&[2, b'a', b'b', 9], 0), Some(3));
    assert_eq!(skip_text(&[0], 0), Some(1));
    assert_eq!(skip_text(&[3, b'a', b'b'], 0), None);
    assert_eq!(skip_optional_number(&[0, 9], 0), Some(1));
    assert_eq!(skip_optional_number(&[1, 9], 0), Some(2));
    assert_eq!(skip_optional_number(&[2, 9], 0), None);
    assert_eq!(skip_optional_number(&[1], 0), None);
    assert_eq!(skip_optional_text(&[0], 0), Some(1));
    assert_eq!(skip_optional_text(&[1, 1, b'x'], 0), Some(3));
    assert_eq!(skip_optional_text(&[1, 2, b'x'], 0), None);
    assert_eq!(skip_optional_text(&[], 0), None);
}

#[test]
fn frame_of_a_record() {
    assert!(has_record_frame(&[2, b'a', b'b', 5, 1, 7, 0, 1, 1, b'c']));
    assert!(has_record_frame(&[0, 0, 0, 0, 0]));
    assert!(has_record_frame(&[0, 0, 0, 0, 0, 77]));
    assert!(!has_record_frame(&[0, 0, 0, 0]));
    assert!(!has_record_frame(&[]));
    assert!(!has_record_frame(&[253, 255, 255, 255, 255, 255, 255, 255, 255]));
    assert!(!has_record_frame(&[0, 0, 0, 0, 1, 5, b'x']));
}
