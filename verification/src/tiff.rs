use vstd::prelude::*;
use vstd::utf8::{decode_utf8, valid_utf8};
use crate::error::{ExifError, ExifFailure};
use crate::text::owned;

verus! {

pub const TAG_EXIF_IFD_POINTER: u16 = 0x8769;
pub const TAG_DATE_TIME_ORIGINAL: u16 = 0x9003;
pub const TAG_DATE_TIME: u16 = 0x0132;
pub const TAG_OFFSET_TIME: u16 = 0x9010;
pub const TAG_OFFSET_TIME_ORIGINAL: u16 = 0x9011;
pub const TAG_SUBSEC_TIME: u16 = 0x9290;
pub const TAG_SUBSEC_TIME_ORIGINAL: u16 = 0x9291;
pub const TYPE_ASCII: u16 = 2;

/// The raw strings backing a capture time, before `date::parse` validates
/// them. Subsecond and offset tags live in the Exif sub-IFD regardless of
/// whether the date itself came from DateTimeOriginal or IFD0's DateTime.
pub struct RawCaptureTime {
    pub date: String,
    pub subsec: Option<String>,
    pub offset: Option<String>,
}

/// The mathematical value of a [`RawCaptureTime`].
pub struct RawCaptureTimeView {
    pub date: Seq<char>,
    pub subsec: Option<Seq<char>>,
    pub offset: Option<Seq<char>>,
}

impl View for RawCaptureTime {
    type V = RawCaptureTimeView;

    open spec fn view(&self) -> RawCaptureTimeView {
        RawCaptureTimeView {
            date: self.date@,
            subsec: crate::date::opt_chars(self.subsec),
            offset: crate::date::opt_chars(self.offset),
        }
    }
}

/// The byte order a TIFF header declares.
#[derive(Clone, Copy, PartialEq, Eq, Structural)]
pub enum ByteOrder {
    Little,
    Big,
}

/// The 16-bit number at `s[i..i + 2]`.
pub open spec fn read16(order: ByteOrder, s: Seq<u8>, i: int) -> nat {
    match order {
        ByteOrder::Little => s[i] as nat + 256 * s[i + 1] as nat,
        ByteOrder::Big => 256 * s[i] as nat + s[i + 1] as nat,
    }
}

/// The 32-bit number at `s[i..i + 4]`.
pub open spec fn read32(order: ByteOrder, s: Seq<u8>, i: int) -> nat {
    match order {
        ByteOrder::Little => s[i] as nat + 256 * s[i + 1] as nat + 65536 * s[i + 2] as nat
            + 16777216 * s[i + 3] as nat,
        ByteOrder::Big => 16777216 * s[i] as nat + 65536 * s[i + 1] as nat + 256 * s[i + 2] as nat
            + s[i + 3] as nat,
    }
}

impl ByteOrder {
    fn u16(self, b: &[u8]) -> (r: u16)
        requires
            b@.len() >= 2,
        ensures
            r == read16(self, b@, 0),
    {
        match self {
            ByteOrder::Little => (b[0] as u16) + (b[1] as u16) * 256,
            ByteOrder::Big => (b[0] as u16) * 256 + (b[1] as u16),
        }
    }

    fn u32(self, b: &[u8]) -> (r: u32)
        requires
            b@.len() >= 4,
        ensures
            r == read32(self, b@, 0),
    {
        match self {
            ByteOrder::Little => (b[0] as u32) + (b[1] as u32) * 256 + (b[2] as u32) * 65536 + (
            b[3] as u32) * 16777216,
            ByteOrder::Big => (b[0] as u32) * 16777216 + (b[1] as u32) * 65536 + (b[2] as u32)
                * 256 + (b[3] as u32),
        }
    }
}

/// One 12-byte IFD entry: tag, field type, value count, and the four bytes
/// that hold the value itself or the offset where it is stored.
#[derive(Clone, Copy)]
pub struct IfdEntry {
    pub tag: u16,
    pub field_type: u16,
    pub count: u32,
    pub value: [u8; 4],
}

/// The mathematical value of an [`IfdEntry`].
pub struct EntryView {
    pub tag: nat,
    pub field_type: nat,
    pub count: nat,
    pub value: Seq<u8>,
}

impl View for IfdEntry {
    type V = EntryView;

    open spec fn view(&self) -> EntryView {
        EntryView {
            tag: self.tag as nat,
            field_type: self.field_type as nat,
            count: self.count as nat,
            value: self.value@,
        }
    }
}

/// The entry whose 12 bytes start at `start`.
pub open spec fn entry_at(data: Seq<u8>, order: ByteOrder, start: int) -> EntryView {
    EntryView {
        tag: read16(order, data, start),
        field_type: read16(order, data, start + 2),
        count: read32(order, data, start + 4),
        value: data.subrange(start + 8, start + 12),
    }
}

/// The entries of the IFD at `offset`: a 16-bit count, then that many
/// 12-byte entries, all of which must lie inside `data`.
pub open spec fn ifd_entries(data: Seq<u8>, order: ByteOrder, offset: int) -> Result<
    Seq<EntryView>,
    ExifFailure,
> {
    if offset + 2 > data.len() {
        Err(ExifFailure::Malformed("ifd offset past end of data"@))
    } else {
        let count = read16(order, data, offset);
        let start = offset + 2;
        if start + 12 * count > data.len() {
            Err(ExifFailure::Malformed("ifd entry table past end of data"@))
        } else {
            Ok(Seq::new(count, |i: int| entry_at(data, order, start + 12 * i)))
        }
    }
}

/// The first entry with the given tag.
pub open spec fn find_entry(entries: Seq<EntryView>, tag: nat) -> Option<EntryView>
    decreases entries.len(),
{
    if entries.len() == 0 {
        None
    } else if entries[0].tag == tag {
        Some(entries[0])
    } else {
        find_entry(entries.drop_first(), tag)
    }
}

/// The length of `b` up to its first NUL byte (all of it if there is none).
pub open spec fn nul_end(b: Seq<u8>) -> nat
    decreases b.len(),
{
    if b.len() == 0 || b[0] == 0 {
        0
    } else {
        1 + nul_end(b.drop_first())
    }
}

/// The bytes of the ASCII value of the first entry with `tag`: the value
/// bytes themselves when the count is below four, otherwise the bytes at
/// the offset they hold, which must lie inside `data`.
pub open spec fn ascii_bytes(
    data: Seq<u8>,
    order: ByteOrder,
    entries: Seq<EntryView>,
    tag: nat,
) -> Option<Seq<u8>> {
    match find_entry(entries, tag) {
        None => None,
        Some(e) => if e.field_type != 2 || e.count == 0 {
            None
        } else if e.count < 4 {
            Some(e.value.subrange(0, e.count as int))
        } else {
            let offset = read32(order, e.value, 0);
            if offset + e.count > data.len() {
                None
            } else {
                Some(data.subrange(offset as int, (offset + e.count) as int))
            }
        },
    }
}

/// What `String::from_utf8_lossy` makes of a byte string.
pub uninterp spec fn lossy_utf8(bytes: Seq<u8>) -> Seq<char>;

/// Decodes `bytes` as UTF-8, putting U+FFFD in place of invalid sequences
/// (`String::from_utf8_lossy`). Claimed of it: the result depends on the
/// bytes alone, and valid UTF-8 comes back as exactly the characters it
/// encodes. What an invalid sequence turns into is left unstated.
#[verifier::external_body]
fn utf8_lossy(bytes: &[u8]) -> (s: String)
    ensures
        s@ == lossy_utf8(bytes@),
        valid_utf8(bytes@) ==> s@ == decode_utf8(bytes@),
{
    String::from_utf8_lossy(bytes).into_owned()
}

/// The text of the ASCII value of the first entry with `tag`, cut at the
/// first NUL; nothing if that leaves no bytes.
pub open spec fn ascii_text(
    data: Seq<u8>,
    order: ByteOrder,
    entries: Seq<EntryView>,
    tag: nat,
) -> Option<Seq<char>> {
    match ascii_bytes(data, order, entries, tag) {
        None => None,
        Some(b) => {
            let trimmed = b.subrange(0, nul_end(b) as int);
            if trimmed.len() == 0 {
                None
            } else {
                Some(lossy_utf8(trimmed))
            }
        },
    }
}

/// Which byte order a TIFF header's first two bytes name: `II` little,
/// `MM` big.
pub open spec fn byte_order_of(b0: u8, b1: u8) -> Option<ByteOrder> {
    if b0 == 0x49 && b1 == 0x49 {
        Some(ByteOrder::Little)
    } else if b0 == 0x4D && b1 == 0x4D {
        Some(ByteOrder::Big)
    } else {
        None
    }
}

/// The entries of the Exif sub-IFD that IFD0 points to, if it points to one
/// that can be read.
pub open spec fn exif_sub_ifd(data: Seq<u8>, order: ByteOrder, ifd0: Seq<EntryView>) -> Option<
    Seq<EntryView>,
> {
    match find_entry(ifd0, TAG_EXIF_IFD_POINTER as nat) {
        None => None,
        Some(e) => match ifd_entries(data, order, read32(order, e.value, 0) as int) {
            Ok(x) => Some(x),
            Err(_) => None,
        },
    }
}

/// The capture-time strings of a TIFF structure: DateTimeOriginal from the
/// Exif sub-IFD with SubSecTimeOriginal and OffsetTimeOriginal beside it;
/// failing that, DateTime from IFD0 with SubSecTime and OffsetTime from the
/// Exif sub-IFD, if there is one.
pub open spec fn capture_time_raw(data: Seq<u8>) -> Result<RawCaptureTimeView, ExifFailure> {
    if data.len() < 8 {
        Err(ExifFailure::Malformed("tiff header too short"@))
    } else {
        match byte_order_of(data[0], data[1]) {
            None => Err(ExifFailure::Malformed("unrecognized tiff byte order marker"@)),
            Some(order) => if read16(order, data, 2) != 42 {
                Err(ExifFailure::Malformed("bad tiff magic number"@))
            } else {
                match ifd_entries(data, order, read32(order, data, 4) as int) {
                    Err(e) => Err(e),
                    Ok(ifd0) => {
                        let exif = exif_sub_ifd(data, order, ifd0);
                        if exif is Some && ascii_text(
                            data,
                            order,
                            exif->0,
                            TAG_DATE_TIME_ORIGINAL as nat,
                        ) is Some {
                            let x = exif->0;
                            Ok(
                                RawCaptureTimeView {
                                    date: ascii_text(data, order, x, TAG_DATE_TIME_ORIGINAL as nat)->0,
                                    subsec: ascii_text(data, order, x, TAG_SUBSEC_TIME_ORIGINAL as nat),
                                    offset: ascii_text(data, order, x, TAG_OFFSET_TIME_ORIGINAL as nat),
                                },
                            )
                        } else {
                            match ascii_text(data, order, ifd0, TAG_DATE_TIME as nat) {
                                None => Err(ExifFailure::NoDateTag),
                                Some(date) => Ok(
                                    RawCaptureTimeView {
                                        date,
                                        subsec: match exif {
                                            Some(x) => ascii_text(data, order, x, TAG_SUBSEC_TIME as nat),
                                            None => None,
                                        },
                                        offset: match exif {
                                            Some(x) => ascii_text(data, order, x, TAG_OFFSET_TIME as nat),
                                            None => None,
                                        },
                                    },
                                ),
                            }
                        }
                    },
                }
            },
        }
    }
}

/// The views of a list of entries.
pub open spec fn entries_view(entries: Seq<IfdEntry>) -> Seq<EntryView> {
    entries.map_values(|e: IfdEntry| e@)
}

/// A parsed IFD: its entries, with the data and byte order that any value
/// stored elsewhere is read from.
struct Ifd<'a> {
    data: &'a [u8],
    order: ByteOrder,
    entries: Vec<IfdEntry>,
}

fn read_ifd(data: &[u8], order: ByteOrder, offset: usize) -> (res: Result<Ifd<'_>, ExifError>)
    ensures
        res matches Ok(ifd) ==> ifd.data@ == data@ && ifd.order == order && ifd_entries(
            data@,
            order,
            offset as int,
        ) == Ok::<Seq<EntryView>, ExifFailure>(entries_view(ifd.entries@)),
        res matches Err(e) ==> ifd_entries(data@, order, offset as int) == Err::<
            Seq<EntryView>,
            ExifFailure,
        >(e@),
{
    if offset > data.len() || data.len() - offset < 2 {
        return Err(ExifError::Malformed(owned("ifd offset past end of data")));
    }
    let count = order.u16(&data[offset..offset + 2]) as usize;
    let entries_start = offset + 2;
    if count * 12 > data.len() - entries_start {
        return Err(ExifError::Malformed(owned("ifd entry table past end of data")));
    }

    let mut entries: Vec<IfdEntry> = Vec::new();
    let mut i: usize = 0;
    while i < count
        invariant
            i <= count,
            count == read16(order, data@, offset as int),
            entries_start == offset + 2,
            entries_start + 12 * count <= data.len(),
            entries@.len() == i,
            forall|j: int|
                0 <= j < i ==> (#[trigger] entries@[j])@ == entry_at(
                    data@,
                    order,
                    entries_start + 12 * j,
                ),
        decreases count - i,
    {
        assert(i * 12 + 12 <= 12 * count) by (nonlinear_arith)
            requires
                i < count,
        ;
        let start = entries_start + i * 12;
        let e = &data[start..start + 12];
        let tag = order.u16(&e[0..2]);
        let field_type = order.u16(&e[2..4]);
        let value_count = order.u32(&e[4..8]);
        let value: [u8; 4] = [e[8], e[9], e[10], e[11]];
        proof {
            assert(e@ == data@.subrange(start as int, start + 12));
            assert(value@ =~= data@.subrange(start + 8, start + 12));
        }
        entries.push(IfdEntry { tag, field_type, count: value_count, value });
        i = i + 1;
    }
    proof {
        assert(entries_view(entries@) =~= Seq::new(
            count as nat,
            |j: int| entry_at(data@, order, entries_start + 12 * j),
        ));
    }
    Ok(Ifd { data, order, entries })
}

/// The first entry with the given tag.
fn find(entries: &Vec<IfdEntry>, tag: u16) -> (r: Option<IfdEntry>)
    ensures
        r matches Some(e) ==> find_entry(entries_view(entries@), tag as nat) == Some(e@),
        r is None ==> find_entry(entries_view(entries@), tag as nat) is None,
{
    let ghost all = entries_view(entries@);
    let mut i: usize = 0;
    assert(all.subrange(0, all.len() as int) =~= all);
    while i < entries.len()
        invariant
            i <= entries@.len(),
            all == entries_view(entries@),
            find_entry(all, tag as nat) == find_entry(all.subrange(i as int, all.len() as int), tag as nat),
        decreases entries.len() - i,
    {
        let ghost rest = all.subrange(i as int, all.len() as int);
        assert(rest[0] == entries@[i as int]@);
        if entries[i].tag == tag {
            return Some(entries[i]);
        }
        assert(rest.drop_first() =~= all.subrange(i + 1, all.len() as int));
        i = i + 1;
    }
    assert(all.subrange(i as int, all.len() as int).len() == 0);
    None
}

proof fn lemma_nul_end(b: Seq<u8>, k: int)
    requires
        0 <= k <= b.len(),
        forall|j: int| 0 <= j < k ==> b[j] != 0,
        k == b.len() || b[k] == 0,
    ensures
        nul_end(b) == k,
    decreases k,
{
    if k > 0 {
        lemma_nul_end(b.drop_first(), k - 1);
    }
}

/// The text of an ASCII tag of an IFD, cut at its first NUL.
fn ascii_value(ifd: &Ifd, tag: u16) -> (r: Option<String>)
    ensures
        crate::date::opt_chars(r) == ascii_text(
            ifd.data@,
            ifd.order,
            entries_view(ifd.entries@),
            tag as nat,
        ),
{
    let e = match find(&ifd.entries, tag) {
        Some(e) => e,
        None => return None,
    };
    if e.field_type != TYPE_ASCII || e.count == 0 {
        return None;
    }
    let count = e.count as usize;
    let value = e.value;
    let bytes: &[u8] = if count < 4 {
        let v = value.as_slice();
        &v[0..count]
    } else {
        let offset = ifd.order.u32(value.as_slice()) as usize;
        if count > ifd.data.len() || offset > ifd.data.len() - count {
            return None;
        }
        &ifd.data[offset..offset + count]
    };
    let ghost b = bytes@;
    assert(ascii_bytes(ifd.data@, ifd.order, entries_view(ifd.entries@), tag as nat) == Some(b));

    // EXIF ASCII strings are meant to be NUL-terminated, but not every
    // writer bothers, so treat a missing terminator as "use it all".
    let mut end: usize = 0;
    while end < bytes.len() && bytes[end] != 0
        invariant
            end <= bytes@.len(),
            forall|j: int| 0 <= j < end ==> bytes@[j] != 0,
        decreases bytes.len() - end,
    {
        end = end + 1;
    }
    proof {
        lemma_nul_end(b, end as int);
    }
    let trimmed = &bytes[0..end];
    if end == 0 {
        None
    } else {
        Some(utf8_lossy(trimmed))
    }
}

/// Walks IFD0 and the Exif sub-IFD to find the raw capture-time strings.
/// Returns them unparsed; `date::parse` is responsible for validating them.
pub fn find_capture_time_raw(data: &[u8]) -> (res: Result<RawCaptureTime, ExifError>)
    ensures
        res matches Ok(raw) ==> capture_time_raw(data@) == Ok::<RawCaptureTimeView, ExifFailure>(
            raw@,
        ),
        res matches Err(e) ==> capture_time_raw(data@) == Err::<RawCaptureTimeView, ExifFailure>(
            e@,
        ),
{
    if data.len() < 8 {
        return Err(ExifError::Malformed(owned("tiff header too short")));
    }
    let order = if data[0] == 0x49 && data[1] == 0x49 {
        ByteOrder::Little
    } else if data[0] == 0x4D && data[1] == 0x4D {
        ByteOrder::Big
    } else {
        return Err(ExifError::Malformed(owned("unrecognized tiff byte order marker")));
    };
    if order.u16(&data[2..4]) != 42 {
        return Err(ExifError::Malformed(owned("bad tiff magic number")));
    }

    let ifd0_offset = order.u32(&data[4..8]) as usize;
    let ifd0 = match read_ifd(data, order, ifd0_offset) {
        Ok(ifd) => ifd,
        Err(e) => return Err(e),
    };

    let exif_ifd = match find(&ifd0.entries, TAG_EXIF_IFD_POINTER) {
        Some(e) => match read_ifd(data, order, order.u32(e.value.as_slice()) as usize) {
            Ok(x) => Some(x),
            Err(_) => None,
        },
        None => None,
    };

    match &exif_ifd {
        Some(x) => {
            match ascii_value(x, TAG_DATE_TIME_ORIGINAL) {
                Some(date) => {
                    return Ok(
                        RawCaptureTime {
                            date,
                            subsec: ascii_value(x, TAG_SUBSEC_TIME_ORIGINAL),
                            offset: ascii_value(x, TAG_OFFSET_TIME_ORIGINAL),
                        },
                    );
                },
                None => {},
            }
        },
        None => {},
    }

    let date = match ascii_value(&ifd0, TAG_DATE_TIME) {
        Some(d) => d,
        None => return Err(ExifError::NoDateTag),
    };
    let (subsec, offset) = match &exif_ifd {
        Some(x) => (ascii_value(x, TAG_SUBSEC_TIME), ascii_value(x, TAG_OFFSET_TIME)),
        None => (None, None),
    };
    Ok(RawCaptureTime { date, subsec, offset })
}

/// The header of `data` is a valid TIFF header of the given byte order
/// whose IFD0 reads as `ifd0`.
pub open spec fn reads_ifd0(data: Seq<u8>, order: ByteOrder, ifd0: Seq<EntryView>) -> bool {
    &&& data.len() >= 8
    &&& byte_order_of(data[0], data[1]) == Some(order)
    &&& read16(order, data, 2) == 42
    &&& ifd_entries(data, order, read32(order, data, 4) as int) == Ok::<
        Seq<EntryView>,
        ExifFailure,
    >(ifd0)
}

/// DateTimeOriginal in the Exif sub-IFD wins over IFD0's DateTime, and the
/// subsecond and offset strings are then the "Original" ones beside it.
pub proof fn lemma_date_time_original_wins(
    data: Seq<u8>,
    order: ByteOrder,
    ifd0: Seq<EntryView>,
    exif: Seq<EntryView>,
)
    requires
        reads_ifd0(data, order, ifd0),
        exif_sub_ifd(data, order, ifd0) == Some(exif),
        ascii_text(data, order, exif, TAG_DATE_TIME_ORIGINAL as nat) is Some,
    ensures
        capture_time_raw(data) == Ok::<RawCaptureTimeView, ExifFailure>(
            RawCaptureTimeView {
                date: ascii_text(data, order, exif, TAG_DATE_TIME_ORIGINAL as nat)->0,
                subsec: ascii_text(data, order, exif, TAG_SUBSEC_TIME_ORIGINAL as nat),
                offset: ascii_text(data, order, exif, TAG_OFFSET_TIME_ORIGINAL as nat),
            },
        ),
{
}

/// Without a DateTimeOriginal in a readable Exif sub-IFD, the date is IFD0's
/// DateTime, with the plain SubSecTime and OffsetTime of the sub-IFD if there
/// is one; without that either, there is no date tag.
pub proof fn lemma_date_time_fallback(data: Seq<u8>, order: ByteOrder, ifd0: Seq<EntryView>)
    requires
        reads_ifd0(data, order, ifd0),
        exif_sub_ifd(data, order, ifd0) matches Some(exif) ==> ascii_text(
            data,
            order,
            exif,
            TAG_DATE_TIME_ORIGINAL as nat,
        ) is None,
    ensures
        ascii_text(data, order, ifd0, TAG_DATE_TIME as nat) is None ==> capture_time_raw(data)
            == Err::<RawCaptureTimeView, ExifFailure>(ExifFailure::NoDateTag),
        ascii_text(data, order, ifd0, TAG_DATE_TIME as nat) matches Some(date) ==> capture_time_raw(
            data,
        ) == Ok::<RawCaptureTimeView, ExifFailure>(
            RawCaptureTimeView {
                date,
                subsec: match exif_sub_ifd(data, order, ifd0) {
                    Some(exif) => ascii_text(data, order, exif, TAG_SUBSEC_TIME as nat),
                    None => None,
                },
                offset: match exif_sub_ifd(data, order, ifd0) {
                    Some(exif) => ascii_text(data, order, exif, TAG_OFFSET_TIME as nat),
                    None => None,
                },
            },
        ),
{
}

/// Every string read from an IFD is the value's bytes up to (not
/// including) their first NUL, or all of them when there is none, decoded;
/// there is a string exactly when that leaves at least one byte.
pub proof fn lemma_ascii_text_stops_at_nul(
    data: Seq<u8>,
    order: ByteOrder,
    entries: Seq<EntryView>,
    tag: nat,
)
    ensures
        ascii_bytes(data, order, entries, tag) is None ==> ascii_text(data, order, entries, tag)
            is None,
        ascii_bytes(data, order, entries, tag) matches Some(b) ==> (ascii_text(
            data,
            order,
            entries,
            tag,
        ) is None <==> (b.len() == 0 || b[0] == 0)),
        ascii_text(data, order, entries, tag) matches Some(text) ==> ascii_bytes(
            data,
            order,
            entries,
            tag,
        ) matches Some(b) && exists|n: int|
            #![trigger b.subrange(0, n)]
            0 < n <= b.len() && (n == b.len() || b[n] == 0) && (forall|i: int|
                0 <= i < n ==> #[trigger] b[i] != 0) && text == lossy_utf8(b.subrange(0, n)),
{
    if let Some(b) = ascii_bytes(data, order, entries, tag) {
        lemma_nul_end_prefix(b);
        let n = nul_end(b) as int;
        if n > 0 {
            assert(b[0] != 0);
        }
        if ascii_text(data, order, entries, tag) is Some {
            assert(0 < n <= b.len() && (n == b.len() || b[n] == 0));
            assert(b.subrange(0, n).len() == n);
        }
    }
}

/// Which bytes an ASCII tag's value is read from: nothing without an entry
/// for the tag, or when its first entry is not of ASCII type or has no
/// count; the entry's own value bytes when fewer than four; otherwise the
/// bytes at the offset that the value bytes spell in the file's byte order,
/// when they lie inside the data, and nothing when they do not.
pub proof fn lemma_ascii_value_source(
    data: Seq<u8>,
    order: ByteOrder,
    entries: Seq<EntryView>,
    tag: nat,
    j: int,
)
    requires
        0 <= j < entries.len(),
        entries[j].tag == tag,
        forall|i: int| 0 <= i < j ==> (#[trigger] entries[i]).tag != tag,
        entries[j].value.len() == 4,
    ensures
        ({
            let e = entries[j];
            let v = e.value;
            let k = match order {
                ByteOrder::Little => v[0] as int + 256 * v[1] as int + 65536 * v[2] as int
                    + 16777216 * v[3] as int,
                ByteOrder::Big => 16777216 * v[0] as int + 65536 * v[1] as int + 256 * v[2] as int
                    + v[3] as int,
            };
            &&& (e.field_type != 2 || e.count == 0) ==> ascii_bytes(data, order, entries, tag)
                is None
            &&& (e.field_type == 2 && 0 < e.count < 4) ==> ascii_bytes(data, order, entries, tag)
                == Some(v.subrange(0, e.count as int))
            &&& (e.field_type == 2 && e.count >= 4 && k + e.count <= data.len()) ==> ascii_bytes(
                data,
                order,
                entries,
                tag,
            ) == Some(data.subrange(k, k + e.count))
            &&& (e.field_type == 2 && e.count >= 4 && k + e.count > data.len()) ==> ascii_bytes(
                data,
                order,
                entries,
                tag,
            ) is None
        }),
{
    lemma_find_entry_first(entries, tag, j);
}

/// Without any entry for a tag there is no value for it.
pub proof fn lemma_missing_tag_has_no_value(
    data: Seq<u8>,
    order: ByteOrder,
    entries: Seq<EntryView>,
    tag: nat,
)
    requires
        forall|i: int| 0 <= i < entries.len() ==> (#[trigger] entries[i]).tag != tag,
    ensures
        ascii_text(data, order, entries, tag) is None,
{
    lemma_find_absent(entries, tag);
}

proof fn lemma_find_absent(entries: Seq<EntryView>, tag: nat)
    requires
        forall|i: int| 0 <= i < entries.len() ==> (#[trigger] entries[i]).tag != tag,
    ensures
        find_entry(entries, tag) is None,
    decreases entries.len(),
{
    if entries.len() > 0 {
        let rest = entries.drop_first();
        assert forall|i: int| 0 <= i < rest.len() implies (#[trigger] rest[i]).tag != tag by {
            assert(rest[i] == entries[i + 1]);
        }
        assert(entries[0].tag != tag);
        lemma_find_absent(rest, tag);
    }
}

proof fn lemma_nul_end_prefix(b: Seq<u8>)
    ensures
        nul_end(b) <= b.len(),
        forall|i: int| 0 <= i < nul_end(b) ==> #[trigger] b[i] != 0,
        nul_end(b) < b.len() ==> b[nul_end(b) as int] == 0,
    decreases b.len(),
{
    if b.len() > 0 && b[0] != 0 {
        lemma_nul_end_prefix(b.drop_first());
        if nul_end(b) < b.len() {
            assert(b[nul_end(b) as int] == b.drop_first()[nul_end(b) - 1]);
        }
        assert forall|i: int| 0 <= i < nul_end(b) implies #[trigger] b[i] != 0 by {
            if i > 0 {
                assert(b[i] == b.drop_first()[i - 1]);
            }
        }
    }
}

/// The first entry with a tag is the one `find_entry` gives.
proof fn lemma_find_entry_first(entries: Seq<EntryView>, tag: nat, j: int)
    requires
        0 <= j < entries.len(),
        entries[j].tag == tag,
        forall|i: int| 0 <= i < j ==> (#[trigger] entries[i]).tag != tag,
    ensures
        find_entry(entries, tag) == Some(entries[j]),
    decreases j,
{
    if j > 0 {
        let rest = entries.drop_first();
        assert(entries[0].tag != tag);
        assert forall|i: int| 0 <= i < j - 1 implies (#[trigger] rest[i]).tag != tag by {
            assert(rest[i] == entries[i + 1]);
        }
        lemma_find_entry_first(rest, tag, j - 1);
    }
}

/// The Exif sub-IFD is the IFD at the offset that IFD0's first
/// ExifIFDPointer entry holds, read in the file's own byte order: if its
/// four value bytes spell `k` (least significant first for `II`, most
/// significant first for `MM`) and the IFD at `k` reads as `sub`, the
/// sub-IFD is `sub`.
pub proof fn lemma_sub_ifd_follows_pointer(
    data: Seq<u8>,
    order: ByteOrder,
    ifd0: Seq<EntryView>,
    j: int,
    k: int,
    sub: Seq<EntryView>,
)
    requires
        0 <= j < ifd0.len(),
        ifd0[j].tag == 0x8769,
        forall|i: int| 0 <= i < j ==> (#[trigger] ifd0[i]).tag != 0x8769,
        ifd0[j].value.len() == 4,
        ({
            let v = ifd0[j].value;
            match order {
                ByteOrder::Little => k == v[0] as int + 256 * v[1] as int + 65536 * v[2] as int
                    + 16777216 * v[3] as int,
                ByteOrder::Big => k == 16777216 * v[0] as int + 65536 * v[1] as int + 256
                    * v[2] as int + v[3] as int,
            }
        }),
        ifd_entries(data, order, k) == Ok::<Seq<EntryView>, ExifFailure>(sub),
    ensures
        exif_sub_ifd(data, order, ifd0) == Some(sub),
{
    lemma_find_entry_first(ifd0, TAG_EXIF_IFD_POINTER as nat, j);
}

/// With a valid header, a sub-IFD reached from IFD0's pointer in the file's
/// byte order, and a DateTimeOriginal in it, that DateTimeOriginal is the
/// date found, in either byte order.
pub proof fn lemma_date_time_original_through_pointer(
    data: Seq<u8>,
    order: ByteOrder,
    ifd0: Seq<EntryView>,
    j: int,
    k: int,
    sub: Seq<EntryView>,
)
    requires
        reads_ifd0(data, order, ifd0),
        0 <= j < ifd0.len(),
        ifd0[j].tag == 0x8769,
        forall|i: int| 0 <= i < j ==> (#[trigger] ifd0[i]).tag != 0x8769,
        ifd0[j].value.len() == 4,
        ({
            let v = ifd0[j].value;
            match order {
                ByteOrder::Little => k == v[0] as int + 256 * v[1] as int + 65536 * v[2] as int
                    + 16777216 * v[3] as int,
                ByteOrder::Big => k == 16777216 * v[0] as int + 65536 * v[1] as int + 256
                    * v[2] as int + v[3] as int,
            }
        }),
        ifd_entries(data, order, k) == Ok::<Seq<EntryView>, ExifFailure>(sub),
        ascii_text(data, order, sub, 0x9003) is Some,
    ensures
        capture_time_raw(data) matches Ok(raw) && raw.date == ascii_text(data, order, sub, 0x9003)->0
            && raw.subsec == ascii_text(data, order, sub, 0x9291) && raw.offset == ascii_text(
            data,
            order,
            sub,
            0x9011,
        ),
{
    lemma_sub_ifd_follows_pointer(data, order, ifd0, j, k, sub);
    lemma_date_time_original_wins(data, order, ifd0, sub);
}

/// A 16-bit number spelled by two bytes in a byte order.
pub open spec fn spelled16(order: ByteOrder, b0: u8, b1: u8) -> int {
    match order {
        ByteOrder::Little => b0 as int + 256 * b1 as int,
        ByteOrder::Big => 256 * b0 as int + b1 as int,
    }
}

/// An IFD at `off` is a count of entries in the file's byte order followed
/// by that many 12-byte entries: tag, type, 32-bit count and four value
/// bytes. It fails when the count or the table runs past the data.
pub proof fn lemma_ifd_layout(data: Seq<u8>, order: ByteOrder, off: int)
    requires
        0 <= off,
    ensures
        off + 2 > data.len() ==> ifd_entries(data, order, off) is Err,
        off + 2 <= data.len() && off + 2 + 12 * spelled16(order, data[off], data[off + 1])
            > data.len() ==> ifd_entries(data, order, off) is Err,
        ifd_entries(data, order, off) matches Ok(es) ==> {
            &&& off + 2 + 12 * es.len() <= data.len()
            &&& es.len() == spelled16(order, data[off], data[off + 1])
            &&& forall|i: int|
                #![trigger es[i]]
                0 <= i < es.len() ==> {
                    let at = off + 2 + 12 * i;
                    &&& es[i].tag == spelled16(order, data[at], data[at + 1])
                    &&& es[i].field_type == spelled16(order, data[at + 2], data[at + 3])
                    &&& es[i].value == data.subrange(at + 8, at + 12)
                    &&& es[i].value.len() == 4
                }
        },
{
}

/// A 32-bit number spelled by four bytes in a byte order.
pub open spec fn spelled32(order: ByteOrder, b: Seq<u8>, i: int) -> int {
    match order {
        ByteOrder::Little => b[i] as int + 256 * b[i + 1] as int + 65536 * b[i + 2] as int
            + 16777216 * b[i + 3] as int,
        ByteOrder::Big => 16777216 * b[i] as int + 65536 * b[i + 1] as int + 256 * b[i + 2] as int
            + b[i + 3] as int,
    }
}

/// The TIFF header: at least eight bytes, `II` (little-endian) or `MM`
/// (big-endian), the number 42 in that order, then the offset of IFD0 in
/// that order. A header that breaks any of these is malformed; otherwise a
/// failure to read IFD0 is the failure reported, and a readable IFD0 is the
/// one the walk starts from.
pub proof fn lemma_tiff_header(data: Seq<u8>)
    ensures
        data.len() < 8 ==> capture_time_raw(data) matches Err(ExifFailure::Malformed(_)),
        data.len() >= 8 && !(data[0] == 0x49 && data[1] == 0x49) && !(data[0] == 0x4D && data[1]
            == 0x4D) ==> capture_time_raw(data) matches Err(ExifFailure::Malformed(_)),
        ({
            let order = if data.len() >= 2 && data[0] == 0x49 && data[1] == 0x49 {
                ByteOrder::Little
            } else {
                ByteOrder::Big
            };
            data.len() >= 8 && ((data[0] == 0x49 && data[1] == 0x49) || (data[0] == 0x4D
                && data[1] == 0x4D)) ==> {
                &&& (spelled16(order, data[2], data[3]) != 42 ==> (capture_time_raw(data) matches Err(
                    ExifFailure::Malformed(_),
                )))
                &&& spelled16(order, data[2], data[3]) == 42 ==> match ifd_entries(
                    data,
                    order,
                    spelled32(order, data, 4),
                ) {
                    Err(e) => capture_time_raw(data) == Err::<RawCaptureTimeView, ExifFailure>(e),
                    Ok(es) => reads_ifd0(data, order, es),
                }
            }
        }),
{
}

} // verus!
