use vstd::prelude::*;
use crate::date::{
    all_digits, date_fields, offset_of, parse, parse_spec, CaptureTime, CaptureTimeView,
};
use vstd::utf8::encode_utf8;
use crate::error::{ExifError, ExifFailure};
use crate::jpeg::{exif_segment_range, find_exif_segment};
use crate::tiff::{capture_time_raw, find_capture_time_raw};

verus! {

/// The file starts with a JPEG start-of-image marker.
pub open spec fn starts_as_jpeg(data: Seq<u8>) -> bool {
    data.len() >= 2 && data[0] == 0xFF && data[1] == 0xD8
}

/// The file is long enough for a TIFF header and starts with its `II` or `MM`
/// byte order marker.
pub open spec fn starts_as_tiff(data: Seq<u8>) -> bool {
    data.len() >= 4 && ((data[0] == 0x49 && data[1] == 0x49) || (data[0] == 0x4D && data[1]
        == 0x4D))
}

/// Where the TIFF-structured EXIF bytes of a file lie: inside the APP1
/// segment of a JPEG, or the whole of a bare TIFF or TIFF-based RAW file.
pub open spec fn exif_bytes_range(data: Seq<u8>) -> Result<(int, int), ExifFailure> {
    if starts_as_jpeg(data) {
        exif_segment_range(data)
    } else if starts_as_tiff(data) {
        Ok((0, data.len() as int))
    } else {
        Err(ExifFailure::UnsupportedFormat)
    }
}

/// Locates the TIFF-structured EXIF bytes in a file, however they're
/// wrapped. A JPEG carries them inside an APP1 segment; a bare TIFF or
/// TIFF-based RAW file (CR2, NEF, ORF, DNG, ...) *is* that structure from
/// byte zero, since they all share the same header format.
pub fn extract_exif_bytes(data: &[u8]) -> (res: Result<&[u8], ExifError>)
    ensures
        res matches Ok(block) ==> exists|start: int, end: int|
            exif_bytes_range(data@) == Ok::<(int, int), ExifFailure>((start, end)) && block@
                == data@.subrange(start, end),
        res matches Err(e) ==> exif_bytes_range(data@) == Err::<(int, int), ExifFailure>(e@),
{
    if data.len() >= 2 && data[0] == 0xFF && data[1] == 0xD8 {
        find_exif_segment(data)
    } else if data.len() >= 4 && ((data[0] == 0x49 && data[1] == 0x49) || (data[0] == 0x4D
        && data[1] == 0x4D)) {
        assert(data@.subrange(0, data@.len() as int) =~= data@);
        Ok(data)
    } else {
        Err(ExifError::UnsupportedFormat)
    }
}

/// The capture time recorded in a file's bytes, or why there is none: a date
/// that does not parse is reported as malformed EXIF data, with the parser's
/// message.
pub open spec fn capture_time_in(data: Seq<u8>) -> Result<CaptureTimeView, ExifFailure> {
    match exif_bytes_range(data) {
        Err(e) => Err(e),
        Ok(range) => match capture_time_raw(data.subrange(range.0, range.1)) {
            Err(e) => Err(e),
            Ok(raw) => match parse_spec(raw.date, raw.subsec, raw.offset) {
                Ok(t) => Ok(t),
                Err(m) => Err(ExifFailure::Malformed(m)),
            },
        },
    }
}

/// Reads the capture time out of the bytes of a JPEG or TIFF-based file.
pub fn read_capture_time(data: &[u8]) -> (res: Result<CaptureTime, ExifError>)
    ensures
        res matches Ok(t) ==> capture_time_in(data@) == Ok::<CaptureTimeView, ExifFailure>(t@),
        res matches Err(e) ==> capture_time_in(data@) == Err::<CaptureTimeView, ExifFailure>(e@),
{
    let exif = match extract_exif_bytes(data) {
        Ok(b) => b,
        Err(e) => return Err(e),
    };
    let raw = match find_capture_time_raw(exif) {
        Ok(r) => r,
        Err(e) => return Err(e),
    };
    let subsec = match &raw.subsec {
        Some(s) => Some(s.as_str()),
        None => None,
    };
    let offset = match &raw.offset {
        Some(s) => Some(s.as_str()),
        None => None,
    };
    match parse(raw.date.as_str(), subsec, offset) {
        Ok(t) => Ok(t),
        Err(m) => Err(ExifError::Malformed(m)),
    }
}

/// A bare TIFF or TIFF-based RAW file is its own EXIF block, whole; a JPEG's
/// EXIF block is the one its marker segments lead to.
pub proof fn lemma_where_exif_bytes_lie(data: Seq<u8>)
    ensures
        starts_as_tiff(data) ==> exif_bytes_range(data) == Ok::<(int, int), ExifFailure>(
            (0, data.len() as int),
        ),
        starts_as_jpeg(data) ==> exif_bytes_range(data) == exif_segment_range(data),
        !starts_as_tiff(data) && !starts_as_jpeg(data) ==> exif_bytes_range(data) == Err::<
            (int, int),
            ExifFailure,
        >(ExifFailure::UnsupportedFormat),
{
}

/// A failure to find the EXIF block or its strings is the failure reported.
/// Each raw string found in the EXIF data goes to its own place: the date
/// string alone decides whether there is a capture time and gives its
/// fields (a date that fails to parse is reported as malformed, with the
/// parser's message); the subsecond string is kept exactly when it is a
/// nonempty run of digits; the offset is what offset parsing makes of the
/// raw offset string, or nothing when that fails.
pub proof fn lemma_raw_strings_keep_their_places(data: Seq<u8>)
    ensures
        exif_bytes_range(data) matches Err(e) ==> capture_time_in(data) == Err::<
            CaptureTimeView,
            ExifFailure,
        >(e),
        exif_bytes_range(data) matches Ok(r) ==> (capture_time_raw(data.subrange(r.0, r.1))
            matches Err(e) ==> capture_time_in(data) == Err::<CaptureTimeView, ExifFailure>(e)),
        exif_bytes_range(data) matches Ok(r) ==> (capture_time_raw(data.subrange(r.0, r.1))
            matches Ok(raw) ==> match date_fields(encode_utf8(raw.date)) {
            Err(m) => capture_time_in(data) == Err::<CaptureTimeView, ExifFailure>(
                ExifFailure::Malformed(m),
            ),
            Ok(f) => capture_time_in(data) matches Ok(t) && t.year == f.year as u16 && t.month
                == f.month as u8 && t.day == f.day as u8 && t.hour == f.hour as u8 && t.minute
                == f.minute as u8 && t.second == f.second as u8 && t.subsec == (match raw.subsec {
                Some(s) => if encode_utf8(s).len() > 0 && all_digits(encode_utf8(s)) {
                    Some(s)
                } else {
                    None
                },
                None => None,
            }) && t.offset == (match raw.offset {
                Some(s) => match offset_of(s) {
                    Ok(o) => Some(o),
                    Err(_) => None,
                },
                None => None,
            }),
        }),
{
}

} // verus!
