use exiftime::date;
use exiftime::error::ExifError;
use exiftime::exif::extract_exif_bytes;
use exiftime::json::{capture_time_to_json, json_escape};

#[test]
fn extract_exif_bytes_dispatches_on_file_type() {
    let jpeg_no_exif = vec![0xFF, 0xD8, 0xFF, 0xDA, 0x00, 0x0C];
    assert!(matches!(
        extract_exif_bytes(&jpeg_no_exif),
        Err(ExifError::NoExif)
    ));

    let little_endian_tiff = vec![b'I', b'I', 0x2A, 0x00, 0x08, 0x00, 0x00, 0x00];
    assert!(matches!(extract_exif_bytes(&little_endian_tiff), Ok(_)));

    let big_endian_tiff = vec![b'M', b'M', 0x00, 0x2A, 0x00, 0x00, 0x00, 0x08];
    assert!(matches!(extract_exif_bytes(&big_endian_tiff), Ok(_)));

    let neither = vec![0x00, 0x01, 0x02, 0x03];
    assert!(matches!(
        extract_exif_bytes(&neither),
        Err(ExifError::UnsupportedFormat)
    ));

    let too_short = vec![b'I', b'I'];
    assert!(matches!(
        extract_exif_bytes(&too_short),
        Err(ExifError::UnsupportedFormat)
    ));
}

#[test]
fn json_escape_handles_quotes_backslashes_and_control_chars() {
    assert_eq!(json_escape("a\"b\\c\nd"), "a\\\"b\\\\c\\nd");
    assert_eq!(json_escape("\u{7}"), "\\u0007");
    assert_eq!(json_escape("plain"), "plain");
}

#[test]
fn capture_time_to_json_includes_null_subsec_and_offset_when_absent() {
    let t = date::parse("2023:07:04 14:22:09", None, None).unwrap();
    assert_eq!(
        capture_time_to_json(&t),
        "{\"timestamp\":\"2023-07-04 14:22:09\",\"year\":2023,\"month\":7,\"day\":4,\
         \"hour\":14,\"minute\":22,\"second\":9,\"subsec\":null,\"offset\":null}"
    );
}

#[test]
fn capture_time_to_json_includes_subsec_and_offset_when_present() {
    let t = date::parse("2023:07:04 14:22:09", Some("500"), Some("-07:00")).unwrap();
    let json = capture_time_to_json(&t);
    assert!(json.contains("\"subsec\":\"500\""));
    assert!(json.contains("\"offset\":\"-07:00\""));
}
