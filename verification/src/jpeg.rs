use vstd::prelude::*;
use crate::error::{ExifError, ExifFailure};
use crate::text::owned;

verus! {

/// The six bytes `Exif\0\0` that open the EXIF payload of an APP1 segment.
pub open spec fn exif_header() -> Seq<u8> {
    seq![0x45u8, 0x78u8, 0x69u8, 0x66u8, 0x00u8, 0x00u8]
}

/// A marker that carries no length or payload: SOI, EOI and the restart
/// markers.
pub open spec fn is_standalone_marker(m: u8) -> bool {
    m == 0xD8 || m == 0xD9 || (0xD0 <= m <= 0xD7)
}

/// A big-endian 16-bit number.
pub open spec fn be16(hi: u8, lo: u8) -> nat {
    hi as nat * 256 + lo as nat
}

/// The message for a segment whose length runs past the data.
pub open spec fn overrun_message() -> Seq<char> {
    "segment length runs past end of file"@
}

/// Walks the marker segments of `data` from `pos` on, and gives the byte
/// range of the EXIF block (the APP1 payload after its `Exif\0\0` header)
/// of the first segment that carries one. Bytes that are not `0xFF` between
/// segments are skipped; the walk stops, without a result, at start-of-scan
/// or when too few bytes remain for a marker or a length.
pub open spec fn scan_segments(data: Seq<u8>, pos: int) -> Result<(int, int), ExifFailure>
    decreases data.len() - pos,
{
    if !(0 <= pos && pos + 1 < data.len()) {
        Err(ExifFailure::NoExif)
    } else if data[pos] != 0xFF {
        scan_segments(data, pos + 1)
    } else {
        let marker = data[pos + 1];
        let p = pos + 2;
        if is_standalone_marker(marker) {
            scan_segments(data, p)
        } else if marker == 0xDA {
            Err(ExifFailure::NoExif)
        } else if p + 2 > data.len() {
            Err(ExifFailure::NoExif)
        } else {
            let seg_len = be16(data[p], data[p + 1]);
            if seg_len < 2 || p + seg_len > data.len() {
                Err(ExifFailure::Malformed(overrun_message()))
            } else if marker == 0xE1 && seg_len >= 8 && data.subrange(p + 2, p + 8)
                == exif_header() {
                Ok((p + 8, p + seg_len))
            } else {
                scan_segments(data, p + seg_len)
            }
        }
    }
}

/// The byte range of the EXIF block of a JPEG, or why there is none.
pub open spec fn exif_segment_range(data: Seq<u8>) -> Result<(int, int), ExifFailure> {
    if data.len() < 4 || data[0] != 0xFF || data[1] != 0xD8 {
        Err(ExifFailure::NotJpeg)
    } else {
        scan_segments(data, 2)
    }
}

/// Scans a JPEG's marker segments and returns the bytes of the EXIF block
/// (everything after the "Exif\0\0" header inside the APP1 segment).
///
/// Stops scanning once it reaches the start-of-scan marker, since no more
/// metadata segments follow the image data.
pub fn find_exif_segment(data: &[u8]) -> (res: Result<&[u8], ExifError>)
    ensures
        res matches Ok(block) ==> exists|start: int, end: int|
            exif_segment_range(data@) == Ok::<(int, int), ExifFailure>((start, end))
                && block@ == data@.subrange(start, end),
        res matches Err(e) ==> exif_segment_range(data@) == Err::<(int, int), ExifFailure>(e@),
{
    if data.len() < 4 || data[0] != 0xFF || data[1] != 0xD8 {
        return Err(ExifError::NotJpeg);
    }

    let mut pos: usize = 2;
    while pos < data.len() - 1
        invariant
            4 <= data.len(),
            2 <= pos <= data.len(),
            scan_segments(data@, pos as int) == exif_segment_range(data@),
        decreases data.len() - pos,
    {
        if data[pos] != 0xFF {
            pos = pos + 1;
            continue;
        }
        let marker = data[pos + 1];
        pos = pos + 2;

        // Markers with no payload: standalone codes and restart markers.
        if marker == 0xD8 || marker == 0xD9 || (0xD0 <= marker && marker <= 0xD7) {
            continue;
        }
        if marker == 0xDA {
            // Start of scan: image data follows, no more segments to check.
            return Err(ExifError::NoExif);
        }
        if pos > data.len() - 2 {
            return Err(ExifError::NoExif);
        }

        let seg_len = (data[pos] as usize) * 256 + (data[pos + 1] as usize);
        if seg_len < 2 || seg_len > data.len() - pos {
            return Err(ExifError::Malformed(owned("segment length runs past end of file")));
        }

        if marker == 0xE1 && seg_len >= 8 && data[pos + 2] == 0x45 && data[pos + 3] == 0x78
            && data[pos + 4] == 0x69 && data[pos + 5] == 0x66 && data[pos + 6] == 0x00
            && data[pos + 7] == 0x00 {
            assert(data@.subrange(pos + 2, pos + 8) =~= exif_header());
            return Ok(&data[pos + 8..pos + seg_len]);
        }
        proof {
            if marker == 0xE1 && seg_len >= 8 {
                assert(data@.subrange(pos + 2, pos + 8)[0] == data@[pos + 2]);
                assert(data@.subrange(pos + 2, pos + 8)[1] == data@[pos + 3]);
                assert(data@.subrange(pos + 2, pos + 8)[2] == data@[pos + 4]);
                assert(data@.subrange(pos + 2, pos + 8)[3] == data@[pos + 5]);
                assert(data@.subrange(pos + 2, pos + 8)[4] == data@[pos + 6]);
                assert(data@.subrange(pos + 2, pos + 8)[5] == data@[pos + 7]);
                assert(data@.subrange(pos + 2, pos + 8) != exif_header());
            }
        }
        pos = pos + seg_len;
    }

    Err(ExifError::NoExif)
}

proof fn lemma_scan_finds_app1_payload(data: Seq<u8>, pos: int)
    requires
        0 <= pos,
    ensures
        scan_segments(data, pos) matches Ok((start, end)) ==> {
            &&& pos + 10 <= start <= end <= data.len()
            &&& data[start - 10] == 0xFF
            &&& data[start - 9] == 0xE1
            &&& be16(data[start - 8], data[start - 7]) == end - start + 8
            &&& data.subrange(start - 6, start) == exif_header()
        },
    decreases data.len() - pos,
{
    if 0 <= pos && pos + 1 < data.len() {
        if data[pos] != 0xFF {
            lemma_scan_finds_app1_payload(data, pos + 1);
        } else {
            let marker = data[pos + 1];
            let p = pos + 2;
            if is_standalone_marker(marker) {
                lemma_scan_finds_app1_payload(data, p);
            } else if marker != 0xDA && p + 2 <= data.len() {
                let seg_len = be16(data[p], data[p + 1]);
                if 2 <= seg_len && p + seg_len <= data.len() {
                    lemma_scan_finds_app1_payload(data, p + seg_len);
                }
            }
        }
    }
}

/// The EXIF block that a JPEG yields is the tail of an APP1 segment: it is
/// preceded by the marker `FF E1`, a length that covers it exactly, and the
/// `Exif\0\0` header.
pub proof fn lemma_exif_block_is_app1_payload(data: Seq<u8>)
    ensures
        exif_segment_range(data) matches Ok((start, end)) ==> {
            &&& 10 <= start <= end <= data.len()
            &&& data[start - 10] == 0xFF
            &&& data[start - 9] == 0xE1
            &&& be16(data[start - 8], data[start - 7]) == end - start + 8
            &&& data.subrange(start - 6, start) == exif_header()
        },
{
    lemma_scan_finds_app1_payload(data, 2);
}

/// Every marker segment other than start-of-scan is stepped over whole: at a
/// `0xFF` byte followed by a marker that is neither standalone nor `0xDA`,
/// whose big-endian length `L` (at least 2) stays inside the data, and that is
/// not an APP1 segment opening with `Exif\0\0`, the walk goes on right after
/// the segment, at `pos + 2 + L`.
pub proof fn lemma_other_segments_are_skipped(data: Seq<u8>, pos: int)
    requires
        0 <= pos,
        pos + 4 <= data.len(),
        data[pos] == 0xFF,
        !(data[pos + 1] == 0xD8 || data[pos + 1] == 0xD9 || (0xD0 <= data[pos + 1] <= 0xD7)),
        data[pos + 1] != 0xDA,
        2 <= data[pos + 2] as int * 256 + data[pos + 3] as int,
        pos + 2 + data[pos + 2] as int * 256 + data[pos + 3] as int <= data.len(),
        !(data[pos + 1] == 0xE1 && data[pos + 2] as int * 256 + data[pos + 3] as int >= 8
            && data[pos + 4] == 0x45 && data[pos + 5] == 0x78 && data[pos + 6] == 0x69
            && data[pos + 7] == 0x66 && data[pos + 8] == 0 && data[pos + 9] == 0),
    ensures
        scan_segments(data, pos) == scan_segments(
            data,
            pos + 2 + data[pos + 2] as int * 256 + data[pos + 3] as int,
        ),
{
    let p = pos + 2;
    let seg_len = be16(data[p], data[p + 1]);
    if data[pos + 1] == 0xE1 && seg_len >= 8 {
        let h = data.subrange(p + 2, p + 8);
        if h == exif_header() {
            assert(h[0] == data[pos + 4]);
            assert(h[1] == data[pos + 5]);
            assert(h[2] == data[pos + 6]);
            assert(h[3] == data[pos + 7]);
            assert(h[4] == data[pos + 8]);
            assert(h[5] == data[pos + 9]);
        }
    }
}

/// An EXIF APP1 segment is found right after a JFIF APP0 segment (or any
/// other non-EXIF segment) at the start of a JPEG: with `FF D8`, a segment
/// of length `L` at offset 2, then `FF E1`, a length `M` of at least 8 and
/// `Exif\0\0`, the EXIF block is the rest of that APP1 segment.
pub proof fn lemma_exif_after_first_segment_is_found(data: Seq<u8>)
    requires
        data.len() >= 4,
        data[0] == 0xFF,
        data[1] == 0xD8,
        data[2] == 0xFF,
        !(data[3] == 0xD8 || data[3] == 0xD9 || (0xD0 <= data[3] <= 0xD7)),
        data[3] != 0xDA,
        data[3] != 0xE1,
        2 <= data[4] as int * 256 + data[5] as int,
        ({
            let q = 4 + data[4] as int * 256 + data[5] as int;
            &&& q + 10 <= data.len()
            &&& data[q] == 0xFF
            &&& data[q + 1] == 0xE1
            &&& 8 <= data[q + 2] as int * 256 + data[q + 3] as int
            &&& q + 2 + data[q + 2] as int * 256 + data[q + 3] as int <= data.len()
            &&& data[q + 4] == 0x45 && data[q + 5] == 0x78 && data[q + 6] == 0x69
            &&& data[q + 7] == 0x66 && data[q + 8] == 0 && data[q + 9] == 0
        }),
    ensures
        ({
            let q = 4 + data[4] as int * 256 + data[5] as int;
            exif_segment_range(data) == Ok::<(int, int), ExifFailure>(
                (q + 10, q + 2 + data[q + 2] as int * 256 + data[q + 3] as int),
            )
        }),
{
    lemma_other_segments_are_skipped(data, 2);
    let q = 4 + data[4] as int * 256 + data[5] as int;
    assert(data.subrange(q + 4, q + 10) =~= exif_header());
}

/// What the walk does at each position, in terms of the bytes there: it
/// ends without EXIF when fewer than two bytes remain, moves one byte on past
/// anything but `0xFF`, steps over standalone markers, ends without EXIF at
/// start-of-scan or when no length fits, fails on a length below 2 or past
/// the end, and yields the rest of an APP1 segment that opens with
/// `Exif\0\0`.
pub proof fn lemma_scan_step(data: Seq<u8>, pos: int)
    requires
        0 <= pos,
    ensures
        pos + 1 >= data.len() ==> scan_segments(data, pos) == Err::<(int, int), ExifFailure>(
            ExifFailure::NoExif,
        ),
        pos + 1 < data.len() && data[pos] != 0xFF ==> scan_segments(data, pos) == scan_segments(
            data,
            pos + 1,
        ),
        pos + 1 < data.len() && data[pos] == 0xFF && (data[pos + 1] == 0xD8 || data[pos + 1]
            == 0xD9 || (0xD0 <= data[pos + 1] <= 0xD7)) ==> scan_segments(data, pos)
            == scan_segments(data, pos + 2),
        pos + 1 < data.len() && data[pos] == 0xFF && data[pos + 1] == 0xDA ==> scan_segments(
            data,
            pos,
        ) == Err::<(int, int), ExifFailure>(ExifFailure::NoExif),
        pos + 1 < data.len() && pos + 4 > data.len() && data[pos] == 0xFF && !(data[pos + 1]
            == 0xD8 || data[pos + 1] == 0xD9 || (0xD0 <= data[pos + 1] <= 0xD7)) ==> scan_segments(
            data,
            pos,
        ) == Err::<(int, int), ExifFailure>(ExifFailure::NoExif),
        pos + 4 <= data.len() && data[pos] == 0xFF && !(data[pos + 1] == 0xD8 || data[pos + 1]
            == 0xD9 || (0xD0 <= data[pos + 1] <= 0xD7)) && data[pos + 1] != 0xDA && (data[pos
            + 2] as int * 256 + data[pos + 3] as int) < 2 ==> scan_segments(data, pos) == Err::<
            (int, int),
            ExifFailure,
        >(ExifFailure::Malformed(overrun_message())),
        pos + 4 <= data.len() && data[pos] == 0xFF && !(data[pos + 1] == 0xD8 || data[pos + 1]
            == 0xD9 || (0xD0 <= data[pos + 1] <= 0xD7)) && data[pos + 1] != 0xDA && pos + 2
            + data[pos + 2] as int * 256 + data[pos + 3] as int > data.len() ==> scan_segments(
            data,
            pos,
        ) == Err::<(int, int), ExifFailure>(ExifFailure::Malformed(overrun_message())),
        pos + 10 <= data.len() && data[pos] == 0xFF && data[pos + 1] == 0xE1 && 8 <= data[pos
            + 2] as int * 256 + data[pos + 3] as int && pos + 2 + data[pos + 2] as int * 256
            + data[pos + 3] as int <= data.len() && data[pos + 4] == 0x45 && data[pos + 5] == 0x78
            && data[pos + 6] == 0x69 && data[pos + 7] == 0x66 && data[pos + 8] == 0 && data[pos
            + 9] == 0 ==> scan_segments(data, pos) == Ok::<(int, int), ExifFailure>(
            (pos + 10, pos + 2 + data[pos + 2] as int * 256 + data[pos + 3] as int),
        ),
{
    if pos + 10 <= data.len() && data[pos + 4] == 0x45 && data[pos + 5] == 0x78 && data[pos + 6]
        == 0x69 && data[pos + 7] == 0x66 && data[pos + 8] == 0 && data[pos + 9] == 0 {
        assert(data.subrange(pos + 4, pos + 10) =~= exif_header());
    }
}

} // verus!
