use exiftime::cli::parse_args;
use exiftime::date::parse;
use exiftime::error::ExifError;
use exiftime::exif::{extract_exif_bytes, read_capture_time};
use exiftime::jpeg::find_exif_segment;
use exiftime::json::{json_escape, report};
use exiftime::tiff::{find_capture_time_raw, TAG_DATE_TIME, TYPE_ASCII};

fn tiff_with_date_entry(field_type: u16, count: u32, value: [u8; 4], tail: &[u8]) -> Vec<u8> {
    let mut data = vec![b'I', b'I', 42, 0, 8, 0, 0, 0];
    data.extend_from_slice(&1u16.to_le_bytes());
    data.extend_from_slice(&TAG_DATE_TIME.to_le_bytes());
    data.extend_from_slice(&field_type.to_le_bytes());
    data.extend_from_slice(&count.to_le_bytes());
    data.extend_from_slice(&value);
    data.extend_from_slice(tail);
    data
}

fn tiff_with_date(date: &[u8]) -> Vec<u8> {
    let offset = (8 + 2 + 12) as u32;
    tiff_with_date_entry(TYPE_ASCII, date.len() as u32, offset.to_le_bytes(), date)
}

fn jpeg_around(tiff: &[u8]) -> Vec<u8> {
    let mut d = vec![0xFF, 0xD8];
    let mut payload = b"Exif\0\0".to_vec();
    payload.extend_from_slice(tiff);
    d.extend_from_slice(&[0xFF, 0xE1]);
    d.extend_from_slice(&((payload.len() + 2) as u16).to_be_bytes());
    d.extend_from_slice(&payload);
    d.extend_from_slice(&[0xFF, 0xD9]);
    d
}

#[test]
fn parse_error_messages_name_the_problem() {
    assert_eq!(parse("2023:07:04 14:22", None, None).unwrap_err(), "expected 19 characters, got 16");
    assert_eq!(
        parse("2023-07-04 14:22:09", None, None).unwrap_err(),
        "does not match YYYY:MM:DD HH:MM:SS layout"
    );
    assert_eq!(parse("202a:07:04 14:22:09", None, None).unwrap_err(), "'202a' is not a number");
    assert_eq!(parse("2023:07:x4 14:22:09", None, None).unwrap_err(), "'x4' is not a number");
    assert_eq!(
        parse("0000:00:00 00:00:00", None, None).unwrap_err(),
        "camera recorded an unknown date (all zero)"
    );
    assert_eq!(parse("2023:13:01 00:00:01", None, None).unwrap_err(), "month 13 out of range");
    assert_eq!(parse("2023:07:00 00:00:00", None, None).unwrap_err(), "day 0 out of range");
    assert_eq!(parse("2023:07:32 00:00:00", None, None).unwrap_err(), "day 32 out of range");
    assert_eq!(parse("2023:07:04 24:00:00", None, None).unwrap_err(), "hour 24 out of range");
    assert_eq!(parse("2023:07:04 00:60:00", None, None).unwrap_err(), "minute 60 out of range");
    assert_eq!(parse("2023:07:04 00:00:61", None, None).unwrap_err(), "second 61 out of range");
}

#[test]
fn fields_read_like_unsigned_integers() {
    // An explicit plus sign is what u32 parsing accepts.
    let t = parse("+023:07:04 14:22:09", None, None).unwrap();
    assert_eq!(t.year, 23);
    assert_eq!(t.to_string(), "0023-07-04 14:22:09");
    // A minus sign is not.
    assert_eq!(parse("-023:07:04 14:22:09", None, None).unwrap_err(), "'-023' is not a number");
    // Zero year with a real month and day is a real (if odd) date.
    assert_eq!(parse("0000:01:01 00:00:00", None, None).unwrap().to_string(), "0000-01-01 00:00:00");
}

#[test]
fn non_ascii_field_is_rejected_without_panicking() {
    // "é" takes two bytes, so the string still has nineteen bytes.
    let raw = "20\u{e9}:07:04 14:22:09";
    assert_eq!(raw.len(), 19);
    assert_eq!(parse(raw, None, None).unwrap_err(), "'20\u{e9}' is not a number");
}

#[test]
fn plain_dates_display_as_written() {
    for raw in ["2023:07:04 14:22:09", "1999:12:31 23:59:60", "0001:01:01 00:00:00"] {
        let shown = parse(raw, None, None).unwrap().to_string();
        let mut want = raw.to_string();
        want.replace_range(4..5, "-");
        want.replace_range(7..8, "-");
        assert_eq!(shown, want);
    }
}

#[test]
fn supplements_never_decide_the_parse() {
    let raw = "2023:07:04 14:22:09";
    let plain = parse(raw, None, None).unwrap();
    let with_junk = parse(raw, Some(""), Some("+99:99")).unwrap();
    assert_eq!(with_junk.subsec, None);
    assert_eq!(with_junk.offset, None);
    assert_eq!(plain, with_junk);
    assert_eq!(
        parse("2023:13:04 14:22:09", Some("5"), Some("Z")).unwrap_err(),
        parse("2023:13:04 14:22:09", None, None).unwrap_err()
    );
}

#[test]
fn offsets_in_and_out_of_range() {
    let raw = "2023:07:04 14:22:09";
    assert_eq!(parse(raw, None, Some("z")).unwrap().to_string(), "2023-07-04 14:22:09+00:00");
    assert_eq!(parse(raw, None, Some("-14:59")).unwrap().to_string(), "2023-07-04 14:22:09-14:59");
    assert_eq!(parse(raw, None, Some("+14:60")).unwrap().offset, None);
    assert_eq!(parse(raw, None, Some("05:30")).unwrap().offset, None);
    assert_eq!(parse(raw, None, Some("*05:30")).unwrap().offset, None);
    assert_eq!(parse(raw, None, Some("+05:3a")).unwrap().offset, None);
    let t = parse(raw, Some("007"), Some("+01:00")).unwrap();
    assert_eq!(t.to_string(), "2023-07-04 14:22:09.007+01:00");
}

#[test]
fn jpeg_scan_skips_standalone_markers_and_junk() {
    let mut d = vec![0xFF, 0xD8, 0x00, 0x13, 0xFF, 0xD0, 0xFF, 0xD7];
    // An APP1 segment that is not EXIF (an XMP packet, say) is passed over.
    d.extend_from_slice(&[0xFF, 0xE1, 0x00, 0x05, b'h', b't', b't']);
    d.extend_from_slice(&[0xFF, 0xE1, 0x00, 0x0C]);
    d.extend_from_slice(b"Exif\0\0II*\0");
    let block = find_exif_segment(&d).unwrap();
    assert_eq!(block, b"II*\0");
    // The block starts right behind the Exif header of an APP1 segment.
    let start = d.len() - block.len();
    assert_eq!(&d[start - 6..start], b"Exif\0\0");
    assert_eq!(&d[start - 10..start - 8], &[0xFF, 0xE1]);
}

#[test]
fn jpeg_scan_failures() {
    assert!(matches!(find_exif_segment(&[0xFF, 0xD8, 0xFF]), Err(ExifError::NotJpeg)));
    // A length that cannot cover itself.
    assert!(matches!(
        find_exif_segment(&[0xFF, 0xD8, 0xFF, 0xE1, 0x00, 0x01]),
        Err(ExifError::Malformed(m)) if m == "segment length runs past end of file"
    ));
    // No room left for a length.
    assert!(matches!(find_exif_segment(&[0xFF, 0xD8, 0xFF, 0xE1, 0x00]), Err(ExifError::NoExif)));
    // An EXIF segment after start-of-scan is never reached.
    let mut d = vec![0xFF, 0xD8, 0xFF, 0xDA, 0x00, 0x02];
    d.extend_from_slice(&[0xFF, 0xE1, 0x00, 0x08]);
    d.extend_from_slice(b"Exif\0\0");
    assert!(matches!(find_exif_segment(&d), Err(ExifError::NoExif)));
}

#[test]
fn tiff_inline_and_unterminated_values() {
    // Fewer than four bytes are stored in the entry itself.
    let data = tiff_with_date_entry(TYPE_ASCII, 3, [b'a', b'b', 0, 0], &[]);
    assert_eq!(find_capture_time_raw(&data).unwrap().date, "ab");
    // A missing terminator means the whole value is used.
    let data = tiff_with_date(b"2023:07:04 14:22:09");
    assert_eq!(find_capture_time_raw(&data).unwrap().date, "2023:07:04 14:22:09");
    // A value that is all NUL is no value.
    let data = tiff_with_date(b"\0\0\0\0\0");
    assert!(matches!(find_capture_time_raw(&data), Err(ExifError::NoDateTag)));
    // Only ASCII entries count, and only with a nonzero count.
    let data = tiff_with_date_entry(3, 1, [1, 0, 0, 0], &[]);
    assert!(matches!(find_capture_time_raw(&data), Err(ExifError::NoDateTag)));
    let data = tiff_with_date_entry(TYPE_ASCII, 0, [b'a', 0, 0, 0], &[]);
    assert!(matches!(find_capture_time_raw(&data), Err(ExifError::NoDateTag)));
}

#[test]
fn invalid_utf8_in_a_tag_is_replaced() {
    let data = tiff_with_date(b"20\xff3\0");
    assert_eq!(find_capture_time_raw(&data).unwrap().date, "20\u{fffd}3");
}

#[test]
fn tiff_error_messages() {
    let msg = |d: &[u8]| match find_capture_time_raw(d) {
        Err(ExifError::Malformed(m)) => m,
        _ => panic!("expected a malformed error"),
    };
    assert_eq!(msg(&[b'I', b'I', 42, 0]), "tiff header too short");
    assert_eq!(msg(&[b'I', b'M', 42, 0, 8, 0, 0, 0]), "unrecognized tiff byte order marker");
    assert_eq!(msg(&[b'M', b'M', 42, 0, 0, 0, 0, 8]), "bad tiff magic number");
    assert_eq!(msg(&[b'I', b'I', 42, 0, 7, 0, 0, 0]), "ifd offset past end of data");
    assert_eq!(msg(&[b'I', b'I', 42, 0, 8, 0, 0, 0, 1, 0]), "ifd entry table past end of data");
}

#[test]
fn whole_file_to_capture_time() {
    let tiff = tiff_with_date(b"2023:07:04 14:22:09\0");
    let jpeg = jpeg_around(&tiff);
    assert_eq!(extract_exif_bytes(&jpeg).unwrap(), &tiff[..]);
    assert_eq!(extract_exif_bytes(&tiff).unwrap(), &tiff[..]);
    assert_eq!(read_capture_time(&jpeg).unwrap().to_string(), "2023-07-04 14:22:09");
    assert_eq!(read_capture_time(&tiff).unwrap().to_string(), "2023-07-04 14:22:09");

    let bad = tiff_with_date(b"2023:07:04 25:22:09\0");
    assert!(matches!(
        read_capture_time(&bad),
        Err(ExifError::Malformed(m)) if m == "hour 25 out of range"
    ));
    assert!(matches!(read_capture_time(b"GIF89a"), Err(ExifError::UnsupportedFormat)));
}

#[test]
fn error_messages() {
    assert_eq!(ExifError::Io("gone".to_string()).message(), "could not read file: gone");
    assert_eq!(
        ExifError::UnsupportedFormat.message(),
        "not a JPEG or TIFF-based file (no SOI marker or TIFF byte order marker found)"
    );
    assert_eq!(ExifError::NotJpeg.message(), "not a JPEG file (no SOI marker found)");
    assert_eq!(ExifError::NoExif.message(), "no EXIF (APP1) segment found");
    assert_eq!(
        ExifError::NoDateTag.message(),
        "EXIF data has no DateTimeOriginal or DateTime tag"
    );
    assert_eq!(
        ExifError::Malformed("x".to_string()).message(),
        "malformed EXIF data: x"
    );
}

#[test]
fn json_escape_laws_on_examples() {
    let all_controls: String = (0u8..0x20).map(|b| b as char).collect();
    let escaped = json_escape(&all_controls);
    assert!(escaped.chars().all(|c| c as u32 >= 0x20));
    assert!(escaped.starts_with("\\u0000\\u0001"));
    assert!(escaped.contains("\\t\\n\\u000b\\u000c\\r"));
    assert!(escaped.ends_with("\\u001f"));
    assert_eq!(json_escape("caf\u{e9} 2023-07-04"), "caf\u{e9} 2023-07-04");
}

#[test]
fn reports_in_both_forms() {
    let ok = parse("2023:07:04 14:22:09", None, Some("-07:00"));
    let ok = ok.map_err(ExifError::Malformed);
    let r = report("a \"b\".jpg", &ok, true);
    assert!(!r.to_stderr);
    assert_eq!(
        r.line,
        "{\"path\":\"a \\\"b\\\".jpg\",\"ok\":true,\"result\":{\"timestamp\":\"2023-07-04 14:22:09-07:00\",\
         \"year\":2023,\"month\":7,\"day\":4,\"hour\":14,\"minute\":22,\"second\":9,\
         \"subsec\":null,\"offset\":\"-07:00\"}}"
    );
    let r = report("p.jpg", &ok, false);
    assert!(!r.to_stderr);
    assert_eq!(r.line, "2023-07-04 14:22:09-07:00");

    let err = Err(ExifError::NoExif);
    let r = report("p.jpg", &err, false);
    assert!(r.to_stderr);
    assert_eq!(r.line, "p.jpg: no EXIF (APP1) segment found");
    let r = report("p.jpg", &err, true);
    assert!(!r.to_stderr);
    assert_eq!(
        r.line,
        "{\"path\":\"p.jpg\",\"ok\":false,\"error\":\"no EXIF (APP1) segment found\"}"
    );
}

#[test]
fn command_line_arguments() {
    let args = |v: &[&str]| v.iter().map(|s| s.to_string()).collect::<Vec<String>>();
    let c = parse_args(&args(&["photo.jpg"])).unwrap();
    assert!(!c.json);
    assert_eq!(c.path, "photo.jpg");
    let c = parse_args(&args(&["--json", "photo.jpg", "--json"])).unwrap();
    assert!(c.json);
    assert_eq!(c.path, "photo.jpg");
    assert!(parse_args(&args(&[])).is_none());
    assert!(parse_args(&args(&["--json"])).is_none());
    assert!(parse_args(&args(&["a.jpg", "b.jpg"])).is_none());
}
