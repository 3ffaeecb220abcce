use vstd::prelude::*;
use vstd::string::StringSliceAdditionalSpecFns;
use vstd::utf8::encode_utf8;
use crate::text::{
    chars_of, decimal, lemma_no_continuation_after_ascii, lemma_str_bytes, owned, push,
    push_decimal, push_str, push_zero_padded, substring, zero_padded,
};

verus! {

/// A UTC offset from OffsetTime/OffsetTimeOriginal, e.g. `-07:00`.
#[derive(Debug, PartialEq, Eq, Structural, Clone, Copy)]
pub struct Offset {
    pub negative: bool,
    pub hours: u8,
    pub minutes: u8,
}

/// A validated EXIF capture time. Deliberately not tied to any calendar
/// library: EXIF timestamps have no timezone by default and only need to be
/// displayed back out, not compared or arithmetic'd on.
#[derive(Debug, PartialEq, Eq)]
pub struct CaptureTime {
    pub year: u16,
    pub month: u8,
    pub day: u8,
    pub hour: u8,
    pub minute: u8,
    pub second: u8,
    pub subsec: Option<String>,
    pub offset: Option<Offset>,
}

/// The mathematical value of a [`CaptureTime`]: its strings as characters.
pub struct CaptureTimeView {
    pub year: u16,
    pub month: u8,
    pub day: u8,
    pub hour: u8,
    pub minute: u8,
    pub second: u8,
    pub subsec: Option<Seq<char>>,
    pub offset: Option<Offset>,
}

/// The characters of an optional string.
pub open spec fn opt_chars(s: Option<String>) -> Option<Seq<char>> {
    match s {
        Some(s) => Some(s@),
        None => None,
    }
}

impl View for CaptureTime {
    type V = CaptureTimeView;

    open spec fn view(&self) -> CaptureTimeView {
        CaptureTimeView {
            year: self.year,
            month: self.month,
            day: self.day,
            hour: self.hour,
            minute: self.minute,
            second: self.second,
            subsec: opt_chars(self.subsec),
            offset: self.offset,
        }
    }
}

// ---------------------------------------------------------------------------
// Display

/// How an offset is written: sign, two-digit hours, `:`, two-digit minutes.
pub open spec fn offset_text(o: Offset) -> Seq<char> {
    seq![if o.negative { '-' } else { '+' }] + zero_padded(o.hours as nat, 2) + seq![':']
        + zero_padded(o.minutes as nat, 2)
}

/// How a capture time is written: `YYYY-MM-DD HH:MM:SS`, then `.` and the
/// subsecond digits if there are any, then the offset if there is one.
pub open spec fn capture_time_text(t: CaptureTimeView) -> Seq<char> {
    zero_padded(t.year as nat, 4) + seq!['-'] + zero_padded(t.month as nat, 2) + seq!['-']
        + zero_padded(t.day as nat, 2) + seq![' '] + zero_padded(t.hour as nat, 2) + seq![':']
        + zero_padded(t.minute as nat, 2) + seq![':'] + zero_padded(t.second as nat, 2) + (
    match t.subsec {
        Some(s) => seq!['.'] + s,
        None => Seq::empty(),
    }) + (match t.offset {
        Some(o) => offset_text(o),
        None => Seq::empty(),
    })
}

impl Offset {
    /// The offset as text, e.g. `-07:00`.
    pub fn to_string(&self) -> (s: String)
        ensures
            s@ == offset_text(*self),
    {
        let mut s = String::new();
        push(&mut s, if self.negative { '-' } else { '+' });
        push_zero_padded(&mut s, self.hours as u64, 2);
        push(&mut s, ':');
        push_zero_padded(&mut s, self.minutes as u64, 2);
        assert(s@ =~= offset_text(*self));
        s
    }
}

impl CaptureTime {
    /// The capture time as text, e.g. `2023-07-04 14:22:09.500-07:00`.
    pub fn to_string(&self) -> (s: String)
        ensures
            s@ == capture_time_text(self@),
    {
        let mut s = String::new();
        push_zero_padded(&mut s, self.year as u64, 4);
        push(&mut s, '-');
        push_zero_padded(&mut s, self.month as u64, 2);
        push(&mut s, '-');
        push_zero_padded(&mut s, self.day as u64, 2);
        push(&mut s, ' ');
        push_zero_padded(&mut s, self.hour as u64, 2);
        push(&mut s, ':');
        push_zero_padded(&mut s, self.minute as u64, 2);
        push(&mut s, ':');
        push_zero_padded(&mut s, self.second as u64, 2);
        match &self.subsec {
            Some(sub) => {
                push(&mut s, '.');
                push_str(&mut s, sub.as_str());
            },
            None => {},
        }
        match &self.offset {
            Some(o) => {
                let text = o.to_string();
                push_str(&mut s, text.as_str());
            },
            None => {},
        }
        assert(s@ =~= capture_time_text(self@));
        s
    }
}

// ---------------------------------------------------------------------------
// Numeric fields

pub open spec fn is_ascii_digit(b: u8) -> bool {
    48 <= b <= 57
}

pub open spec fn all_digits(s: Seq<u8>) -> bool {
    forall|i: int| 0 <= i < s.len() ==> is_ascii_digit(#[trigger] s[i])
}

/// The number that a string of decimal digits spells.
pub open spec fn digits_value(s: Seq<u8>) -> nat
    decreases s.len(),
{
    if s.len() == 0 {
        0
    } else {
        digits_value(s.drop_last()) * 10 + (if is_ascii_digit(s.last()) {
            (s.last() - 48) as nat
        } else {
            0
        })
    }
}

/// The digits of an unsigned number: everything after an optional leading `+`.
pub open spec fn unsigned_digits(s: Seq<u8>) -> Seq<u8> {
    if s.len() > 0 && s[0] == 43 {
        s.drop_first()
    } else {
        s
    }
}

/// What `u32::from_str` accepts: an optional `+` followed by at least one
/// decimal digit and nothing else, with a value that fits in a `u32`.
pub open spec fn unsigned_value(s: Seq<u8>) -> Option<nat> {
    let d = unsigned_digits(s);
    if d.len() > 0 && all_digits(d) && digits_value(d) <= u32::MAX {
        Some(digits_value(d))
    } else {
        None
    }
}

/// The message for a field that is not a number.
pub open spec fn not_a_number(field: Seq<char>) -> Seq<char> {
    "'"@ + field + "' is not a number"@
}

/// The field at `start..end` of `b`, or the message that rejects it.
pub open spec fn field_at(b: Seq<u8>, start: int, end: int) -> Result<nat, Seq<char>> {
    match unsigned_value(b.subrange(start, end)) {
        Some(v) => Ok(v),
        None => Err(not_a_number(chars_of(b.subrange(start, end)))),
    }
}

proof fn lemma_digits_value_prefix(s: Seq<u8>, k: int)
    requires
        0 <= k <= s.len(),
    ensures
        digits_value(s.subrange(0, k)) <= digits_value(s),
    decreases s.len() - k,
{
    if k < s.len() {
        lemma_digits_value_prefix(s.drop_last(), k);
        assert(s.drop_last().subrange(0, k) =~= s.subrange(0, k));
    } else {
        assert(s.subrange(0, k) =~= s);
    }
}

pub open spec fn pow10(n: nat) -> nat
    decreases n,
{
    if n == 0 {
        1
    } else {
        10 * pow10((n - 1) as nat)
    }
}

proof fn lemma_digits_value_pow10(s: Seq<u8>)
    requires
        all_digits(s),
    ensures
        digits_value(s) < pow10(s.len()),
    decreases s.len(),
{
    if s.len() > 0 {
        assert(all_digits(s.drop_last())) by {
            assert forall|i: int| 0 <= i < s.len() - 1 implies is_ascii_digit(
                #[trigger] s.drop_last()[i],
            ) by {
                assert(s.drop_last()[i] == s[i]);
            }
        }
        assert(is_ascii_digit(s[s.len() - 1]));
        lemma_digits_value_pow10(s.drop_last());
    }
}

proof fn lemma_digits_value_bound(s: Seq<u8>)
    requires
        all_digits(s),
    ensures
        s.len() <= 4 ==> digits_value(s) < 10000,
        s.len() <= 2 ==> digits_value(s) < 100,
{
    lemma_digits_value_pow10(s);
    reveal_with_fuel(pow10, 5);
    if s.len() <= 4 {
        assert(pow10(s.len()) <= 10000);
    }
}

/// Parses an unsigned decimal number the way `u32::from_str` does.
fn parse_unsigned(b: &[u8]) -> (r: Option<u32>)
    ensures
        r matches Some(v) ==> unsigned_value(b@) == Some(v as nat),
        r is None ==> unsigned_value(b@) is None,
{
    let start: usize = if b.len() > 0 && b[0] == 43 {
        1
    } else {
        0
    };
    let ghost d = b@.subrange(start as int, b@.len() as int);
    assert(d =~= unsigned_digits(b@));
    if start == b.len() {
        return None;
    }
    let mut v: u64 = 0;
    let mut i: usize = start;
    while i < b.len()
        invariant
            start <= i <= b.len(),
            d == b@.subrange(start as int, b@.len() as int),
            d == unsigned_digits(b@),
            v == digits_value(b@.subrange(start as int, i as int)),
            all_digits(b@.subrange(start as int, i as int)),
            v <= u32::MAX,
        decreases b.len() - i,
    {
        let c = b[i];
        if c < 48 || c > 57 {
            assert(!is_ascii_digit(d[i - start]));
            return None;
        }
        let ghost prev = b@.subrange(start as int, i as int);
        let ghost next = b@.subrange(start as int, i + 1);
        assert(next.drop_last() =~= prev);
        v = v * 10 + (c - 48) as u64;
        i = i + 1;
        if v > 0xffff_ffff {
            proof {
                assert(d.subrange(0, i - start) =~= next);
                lemma_digits_value_prefix(d, i - start);
            }
            return None;
        }
    }
    assert(b@.subrange(start as int, i as int) =~= d);
    Some(v as u32)
}

/// Parses one numeric field of a date, time or offset.
fn parse_field(s: &str) -> (r: Result<u32, String>)
    ensures
        r matches Ok(v) ==> unsigned_value(s.spec_bytes()) == Some(v as nat),
        r matches Err(e) ==> unsigned_value(s.spec_bytes()) is None && e@ == not_a_number(s@),
{
    match parse_unsigned(s.as_bytes()) {
        Some(v) => Ok(v),
        None => {
            let mut m = owned("'");
            push_str(&mut m, s);
            push_str(&mut m, "' is not a number");
            Err(m)
        },
    }
}

// ---------------------------------------------------------------------------
// The date and time

/// The six numbers of a `YYYY:MM:DD HH:MM:SS` string.
pub struct DateFields {
    pub year: nat,
    pub month: nat,
    pub day: nat,
    pub hour: nat,
    pub minute: nat,
    pub second: nat,
}

/// The separators sit where `YYYY:MM:DD HH:MM:SS` puts them.
pub open spec fn has_date_layout(b: Seq<u8>) -> bool {
    &&& b[4] == 58
    &&& b[7] == 58
    &&& b[10] == 32
    &&& b[13] == 58
    &&& b[16] == 58
}

/// Reads the six fields of a 19-byte string with the right layout, in
/// order, stopping at the first that is not a number.
pub open spec fn read_fields(b: Seq<u8>) -> Result<DateFields, Seq<char>> {
    match field_at(b, 0, 4) {
        Err(e) => Err(e),
        Ok(year) => match field_at(b, 5, 7) {
            Err(e) => Err(e),
            Ok(month) => match field_at(b, 8, 10) {
                Err(e) => Err(e),
                Ok(day) => match field_at(b, 11, 13) {
                    Err(e) => Err(e),
                    Ok(hour) => match field_at(b, 14, 16) {
                        Err(e) => Err(e),
                        Ok(minute) => match field_at(b, 17, 19) {
                            Err(e) => Err(e),
                            Ok(second) => Ok(DateFields { year, month, day, hour, minute, second }),
                        },
                    },
                },
            },
        },
    }
}

/// `"<what> <n> out of range"`.
pub open spec fn out_of_range(what: Seq<char>, n: nat) -> Seq<char> {
    what + seq![' '] + decimal(n) + " out of range"@
}

/// Rejects the all-zero "unknown date" and any field outside its range, in
/// the order the fields are written; a second of 60 (a leap second) passes.
pub open spec fn check_ranges(f: DateFields) -> Result<DateFields, Seq<char>> {
    if f.year == 0 && f.month == 0 && f.day == 0 {
        Err("camera recorded an unknown date (all zero)"@)
    } else if !(1 <= f.month <= 12) {
        Err(out_of_range("month"@, f.month))
    } else if !(1 <= f.day <= 31) {
        Err(out_of_range("day"@, f.day))
    } else if f.hour > 23 {
        Err(out_of_range("hour"@, f.hour))
    } else if f.minute > 59 {
        Err(out_of_range("minute"@, f.minute))
    } else if f.second > 60 {
        Err(out_of_range("second"@, f.second))
    } else {
        Ok(f)
    }
}

/// The validated fields of a raw `YYYY:MM:DD HH:MM:SS` date, or the message
/// that rejects it.
pub open spec fn date_fields(b: Seq<u8>) -> Result<DateFields, Seq<char>> {
    if b.len() != 19 {
        Err("expected 19 characters, got "@ + decimal(b.len()))
    } else if !has_date_layout(b) {
        Err("does not match YYYY:MM:DD HH:MM:SS layout"@)
    } else {
        match read_fields(b) {
            Err(e) => Err(e),
            Ok(f) => check_ranges(f),
        }
    }
}

// ---------------------------------------------------------------------------
// Subseconds and offsets

/// A subsecond string is kept when it is a nonempty run of ASCII digits.
pub open spec fn subsec_of(raw: Seq<char>) -> Option<Seq<char>> {
    if encode_utf8(raw).len() > 0 && all_digits(encode_utf8(raw)) {
        Some(raw)
    } else {
        None
    }
}

/// The offset `+00:00`.
pub open spec fn utc() -> Offset {
    Offset { negative: false, hours: 0, minutes: 0 }
}

/// Parses `+HH:MM`, `-HH:MM`, or `z`/`Z` for UTC.
pub open spec fn offset_of(raw: Seq<char>) -> Result<Offset, Seq<char>> {
    let b = encode_utf8(raw);
    if b == seq![122u8] || b == seq![90u8] {
        Ok(utc())
    } else if b.len() != 6 || b[3] != 58 {
        Err("'"@ + raw + "' does not match +HH:MM layout"@)
    } else if b[0] != 43 && b[0] != 45 {
        Err("'"@ + raw + "' has no leading sign"@)
    } else {
        match field_at(b, 1, 3) {
            Err(e) => Err(e),
            Ok(hours) => match field_at(b, 4, 6) {
                Err(e) => Err(e),
                Ok(minutes) => if hours > 14 {
                    Err(out_of_range("offset hours"@, hours))
                } else if minutes > 59 {
                    Err(out_of_range("offset minutes"@, minutes))
                } else {
                    Ok(Offset { negative: b[0] == 45, hours: hours as u8, minutes: minutes as u8 })
                },
            },
        }
    }
}

/// The subsecond value kept for an optional raw string.
pub open spec fn kept_subsec(subsec: Option<Seq<char>>) -> Option<Seq<char>> {
    match subsec {
        Some(s) => subsec_of(s),
        None => None,
    }
}

/// The offset kept for an optional raw string: a malformed one is dropped.
pub open spec fn kept_offset(offset: Option<Seq<char>>) -> Option<Offset> {
    match offset {
        Some(s) => match offset_of(s) {
            Ok(o) => Some(o),
            Err(_) => None,
        },
        None => None,
    }
}

/// The characters of an optional string slice.
pub open spec fn opt_str(s: Option<&str>) -> Option<Seq<char>> {
    match s {
        Some(s) => Some(s@),
        None => None,
    }
}

/// What [`parse`] returns.
pub open spec fn parse_spec(
    raw: Seq<char>,
    subsec: Option<Seq<char>>,
    offset: Option<Seq<char>>,
) -> Result<CaptureTimeView, Seq<char>> {
    match date_fields(encode_utf8(raw)) {
        Err(e) => Err(e),
        Ok(f) => Ok(
            CaptureTimeView {
                year: f.year as u16,
                month: f.month as u8,
                day: f.day as u8,
                hour: f.hour as u8,
                minute: f.minute as u8,
                second: f.second as u8,
                subsec: kept_subsec(subsec),
                offset: kept_offset(offset),
            },
        ),
    }
}

/// The field of `raw` at `start..end`, where both ends sit next to ASCII bytes.
fn field(raw: &str, start: usize, end: usize) -> (r: Result<u32, String>)
    requires
        0 < start < end <= raw.spec_bytes().len(),
        raw.spec_bytes()[start - 1] < 0x80,
        end < raw.spec_bytes().len() ==> raw.spec_bytes()[end as int] < 0x80,
    ensures
        r matches Ok(v) ==> field_at(raw.spec_bytes(), start as int, end as int) == Ok::<
            nat,
            Seq<char>,
        >(v as nat),
        r matches Err(e) ==> field_at(raw.spec_bytes(), start as int, end as int) == Err::<
            nat,
            Seq<char>,
        >(e@),
{
    proof {
        lemma_str_bytes(raw);
        lemma_no_continuation_after_ascii(raw.spec_bytes(), start as int);
    }
    let piece = substring(raw, start, end);
    parse_field(piece)
}

/// The first field, which starts the string.
fn first_field(raw: &str, end: usize) -> (r: Result<u32, String>)
    requires
        0 < end < raw.spec_bytes().len(),
        raw.spec_bytes()[end as int] < 0x80,
    ensures
        r matches Ok(v) ==> field_at(raw.spec_bytes(), 0, end as int) == Ok::<nat, Seq<char>>(
            v as nat,
        ),
        r matches Err(e) ==> field_at(raw.spec_bytes(), 0, end as int) == Err::<nat, Seq<char>>(
            e@,
        ),
{
    proof {
        lemma_str_bytes(raw);
    }
    let piece = substring(raw, 0, end);
    parse_field(piece)
}

/// `"<what> <n> out of range"`.
fn out_of_range_message(what: &str, n: u32) -> (m: String)
    ensures
        m@ == out_of_range(what@, n as nat),
{
    let mut m = owned(what);
    push(&mut m, ' ');
    push_decimal(&mut m, n as u64);
    push_str(&mut m, " out of range");
    assert(m@ =~= out_of_range(what@, n as nat));
    m
}

/// Parses the raw `YYYY:MM:DD HH:MM:SS` string EXIF stores DateTimeOriginal
/// and DateTime as, plus the optional SubSecTime(Original) and
/// OffsetTime(Original) strings that accompany it. Rejects the all-zero date
/// some cameras write when they have no clock set, and any date/time field
/// outside its calendar range, rather than silently passing bad data
/// through. A malformed subsecond or offset value is dropped rather than
/// failing the whole parse: they're supplementary precision, not required
/// to answer "when was this taken".
pub fn parse(raw: &str, subsec: Option<&str>, offset: Option<&str>) -> (res: Result<
    CaptureTime,
    String,
>)
    ensures
        res matches Ok(t) ==> parse_spec(raw@, opt_str(subsec), opt_str(offset)) == Ok::<CaptureTimeView, Seq<char>>(
            t@,
        ),
        res matches Err(e) ==> parse_spec(raw@, opt_str(subsec), opt_str(offset)) == Err::<CaptureTimeView, Seq<char>>(
            e@,
        ),
{
    let bytes = raw.as_bytes();
    if bytes.len() != 19 {
        let mut m = owned("expected 19 characters, got ");
        push_decimal(&mut m, bytes.len() as u64);
        return Err(m);
    }
    if bytes[4] != 58 || bytes[7] != 58 || bytes[10] != 32 || bytes[13] != 58 || bytes[16] != 58 {
        return Err(owned("does not match YYYY:MM:DD HH:MM:SS layout"));
    }
    let year = match first_field(raw, 4) {
        Ok(v) => v,
        Err(e) => return Err(e),
    };
    let month = match field(raw, 5, 7) {
        Ok(v) => v,
        Err(e) => return Err(e),
    };
    let day = match field(raw, 8, 10) {
        Ok(v) => v,
        Err(e) => return Err(e),
    };
    let hour = match field(raw, 11, 13) {
        Ok(v) => v,
        Err(e) => return Err(e),
    };
    let minute = match field(raw, 14, 16) {
        Ok(v) => v,
        Err(e) => return Err(e),
    };
    let second = match field(raw, 17, 19) {
        Ok(v) => v,
        Err(e) => return Err(e),
    };

    if year == 0 && month == 0 && day == 0 {
        return Err(owned("camera recorded an unknown date (all zero)"));
    }
    if month < 1 || month > 12 {
        return Err(out_of_range_message("month", month));
    }
    if day < 1 || day > 31 {
        return Err(out_of_range_message("day", day));
    }
    if hour > 23 {
        return Err(out_of_range_message("hour", hour));
    }
    if minute > 59 {
        return Err(out_of_range_message("minute", minute));
    }
    if second > 60 {
        // 60 is allowed: some encoders record a leap second this way.
        return Err(out_of_range_message("second", second));
    }

    let kept_subsec = match subsec {
        Some(s) => valid_subsec(s),
        None => None,
    };
    let kept_offset = match offset {
        Some(s) => match parse_offset(s) {
            Ok(o) => Some(o),
            Err(_) => None,
        },
        None => None,
    };
    Ok(
        CaptureTime {
            year: year as u16,
            month: month as u8,
            day: day as u8,
            hour: hour as u8,
            minute: minute as u8,
            second: second as u8,
            subsec: kept_subsec,
            offset: kept_offset,
        },
    )
}

/// EXIF's subsecond tags are a decimal fraction stored as digit characters
/// (e.g. "500" means .500), not a fixed-width field, so any nonempty numeric
/// string is accepted as-is.
fn valid_subsec(raw: &str) -> (r: Option<String>)
    ensures
        opt_chars(r) == subsec_of(raw@),
{
    let bytes = raw.as_bytes();
    if bytes.len() == 0 {
        return None;
    }
    let mut i: usize = 0;
    while i < bytes.len()
        invariant
            i <= bytes.len(),
            bytes@ == raw.spec_bytes(),
            forall|j: int| 0 <= j < i ==> is_ascii_digit(#[trigger] bytes@[j]),
        decreases bytes.len() - i,
    {
        if bytes[i] < 48 || bytes[i] > 57 {
            assert(!is_ascii_digit(bytes@[i as int]));
            return None;
        }
        i = i + 1;
    }
    Some(owned(raw))
}

/// Parses an OffsetTime/OffsetTimeOriginal value: `+HH:MM`, `-HH:MM`, or the
/// nonstandard but occasionally seen `Z` for UTC.
fn parse_offset(raw: &str) -> (r: Result<Offset, String>)
    ensures
        r matches Ok(o) ==> offset_of(raw@) == Ok::<Offset, Seq<char>>(o),
        r matches Err(e) ==> offset_of(raw@) == Err::<Offset, Seq<char>>(e@),
{
    let bytes = raw.as_bytes();
    if bytes.len() == 1 && (bytes[0] == 122 || bytes[0] == 90) {
        assert(bytes@ =~= seq![bytes[0]]);
        return Ok(Offset { negative: false, hours: 0, minutes: 0 });
    }
    assert(bytes@ != seq![122u8] && bytes@ != seq![90u8]) by {
        if bytes@ == seq![122u8] || bytes@ == seq![90u8] {
            assert(bytes@.len() == 1);
        }
    }
    if bytes.len() != 6 || bytes[3] != 58 {
        let mut m = owned("'");
        push_str(&mut m, raw);
        push_str(&mut m, "' does not match +HH:MM layout");
        return Err(m);
    }
    let negative = if bytes[0] == 43 {
        false
    } else if bytes[0] == 45 {
        true
    } else {
        let mut m = owned("'");
        push_str(&mut m, raw);
        push_str(&mut m, "' has no leading sign");
        return Err(m);
    };
    let hours = match field(raw, 1, 3) {
        Ok(v) => v,
        Err(e) => return Err(e),
    };
    let minutes = match field(raw, 4, 6) {
        Ok(v) => v,
        Err(e) => return Err(e),
    };
    if hours > 14 {
        return Err(out_of_range_message("offset hours", hours));
    }
    if minutes > 59 {
        return Err(out_of_range_message("offset minutes", minutes));
    }
    Ok(Offset { negative, hours: hours as u8, minutes: minutes as u8 })
}

} // verus!

verus! {

// ---------------------------------------------------------------------------
// Laws

/// Every parsed capture time lies in its calendar ranges: a four-digit year,
/// month 1 to 12, day 1 to 31, hour at most 23, minute at most 59, second at
/// most 60 (a leap second); a kept subsecond value is a nonempty run of
/// digits, and a kept offset is at most 14 hours and 59 minutes.
pub proof fn lemma_parsed_time_in_range(
    raw: Seq<char>,
    subsec: Option<Seq<char>>,
    offset: Option<Seq<char>>,
)
    ensures
        parse_spec(raw, subsec, offset) matches Ok(t) ==> {
            &&& t.year <= 9999
            &&& 1 <= t.month <= 12
            &&& 1 <= t.day <= 31
            &&& t.hour <= 23
            &&& t.minute <= 59
            &&& t.second <= 60
            &&& (t.subsec matches Some(s) ==> encode_utf8(s).len() > 0 && all_digits(
                encode_utf8(s),
            ))
            &&& (t.offset matches Some(o) ==> o.hours <= 14 && o.minutes <= 59)
        },
{
    let b = encode_utf8(raw);
    if let Ok(t) = parse_spec(raw, subsec, offset) {
        lemma_field_below(b, 0, 4);
        if let Some(s) = offset {
            let ob = encode_utf8(s);
            if ob.len() == 6 {
                lemma_field_below(ob, 1, 3);
                lemma_field_below(ob, 4, 6);
            }
        }
    }
}

/// A field that reads as a number has no more digits than bytes.
proof fn lemma_field_below(b: Seq<u8>, start: int, end: int)
    requires
        0 <= start <= end <= b.len(),
    ensures
        field_at(b, start, end) matches Ok(v) ==> (end - start <= 4 ==> v < 10000) && (end
            - start <= 2 ==> v < 100),
{
    let d = unsigned_digits(b.subrange(start, end));
    if field_at(b, start, end) is Ok {
        lemma_digits_value_bound(d);
    }
}

/// A malformed or missing subsecond or offset value never decides whether a
/// date parses: the date parses, or fails with the same message, exactly as
/// it does on its own, and the date and time fields are the same.
pub proof fn lemma_supplements_never_fail(
    raw: Seq<char>,
    subsec: Option<Seq<char>>,
    offset: Option<Seq<char>>,
)
    ensures
        parse_spec(raw, subsec, offset) is Ok <==> parse_spec(raw, None, None) is Ok,
        parse_spec(raw, subsec, offset) matches Err(e) ==> parse_spec(raw, None, None) == Err::<
            CaptureTimeView,
            Seq<char>,
        >(e),
        parse_spec(raw, subsec, offset) matches Ok(t) ==> parse_spec(raw, None, None) matches Ok(
            u,
        ) && t.year == u.year && t.month == u.month && t.day == u.day && t.hour == u.hour
            && t.minute == u.minute && t.second == u.second && t.subsec == kept_subsec(subsec)
            && t.offset == kept_offset(offset),
{
}

/// A date written with plain digits and the EXIF separators.
pub open spec fn is_plain_date(raw: Seq<char>) -> bool {
    &&& raw.len() == 19
    &&& forall|i: int|
        0 <= i < 19 ==> if i == 4 || i == 7 || i == 13 || i == 16 {
            #[trigger] raw[i] == ':'
        } else if i == 10 {
            raw[i] == ' '
        } else {
            '0' <= raw[i] <= '9'
        }
}

/// The last `k` decimal digits of `n`, zeros included.
pub open spec fn fixed_width(n: nat, k: nat) -> Seq<char>
    decreases k,
{
    if k == 0 {
        Seq::empty()
    } else {
        fixed_width(n / 10, (k - 1) as nat).push(crate::text::digit_char(n % 10))
    }
}

proof fn lemma_fixed_width_of_digits(d: Seq<u8>)
    requires
        all_digits(d),
    ensures
        fixed_width(digits_value(d), d.len()) == d.map_values(|x: u8| x as char),
    decreases d.len(),
{
    if d.len() > 0 {
        let p = d.drop_last();
        assert(all_digits(p)) by {
            assert forall|i: int| 0 <= i < p.len() implies is_ascii_digit(#[trigger] p[i]) by {
                assert(p[i] == d[i]);
            }
        }
        lemma_fixed_width_of_digits(p);
        let x = d.last();
        assert(is_ascii_digit(x));
        let r = (x - 48) as nat;
        let v = digits_value(p);
        assert((v * 10 + r) / 10 == v && (v * 10 + r) % 10 == r) by (nonlinear_arith)
            requires
                r < 10,
        ;
        assert(d.map_values(|x: u8| x as char) =~= p.map_values(|x: u8| x as char).push(
            x as char,
        ));
    }
}

proof fn lemma_decimal_len_below(n: nat, k: nat)
    requires
        k >= 1,
        n < pow10(k),
    ensures
        decimal(n).len() <= k,
    decreases k,
{
    if n >= 10 {
        assert(k >= 2) by {
            if k == 1 {
                reveal_with_fuel(pow10, 2);
            }
        }
        lemma_decimal_len_below(n / 10, (k - 1) as nat);
    }
}

proof fn lemma_fixed_width_of_zero(k: nat)
    ensures
        fixed_width(0, k) == Seq::new(k, |_i: int| '0'),
    decreases k,
{
    if k > 0 {
        lemma_fixed_width_of_zero((k - 1) as nat);
        assert(fixed_width(0, k) =~= Seq::new(k, |_i: int| '0'));
    }
}

proof fn lemma_zero_padded_is_fixed_width(n: nat, k: nat)
    requires
        k >= 1,
        n < pow10(k),
    ensures
        zero_padded(n, k) == fixed_width(n, k),
    decreases k,
{
    if n < 10 {
        lemma_fixed_width_of_zero((k - 1) as nat);
        assert(zero_padded(n, k) =~= fixed_width(n, k));
    } else {
        assert(k >= 2) by {
            if k == 1 {
                reveal_with_fuel(pow10, 2);
            }
        }
        lemma_zero_padded_is_fixed_width(n / 10, (k - 1) as nat);
        lemma_decimal_len_below(n / 10, (k - 1) as nat);
        assert(zero_padded(n, k) =~= zero_padded(n / 10, (k - 1) as nat).push(
            crate::text::digit_char(n % 10),
        ));
    }
}

/// A field of plain digits is written back exactly as it was read.
proof fn lemma_plain_field(raw: Seq<char>, start: int, end: int)
    requires
        0 <= start < end <= raw.len(),
        end - start <= 4,
        forall|i: int| start <= i < end ==> '0' <= #[trigger] raw[i] <= '9',
        forall|i: int| 0 <= i < raw.len() ==> '\0' <= #[trigger] raw[i] <= '\u{7f}',
    ensures
        field_at(encode_utf8(raw), start, end) matches Ok(v) && zero_padded(v, (end - start) as nat)
            == raw.subrange(start, end),
{
    let b = encode_utf8(raw);
    assert(vstd::utf8::is_ascii_chars(raw));
    vstd::utf8::is_ascii_chars_encode_utf8(raw);
    let s = b.subrange(start, end);
    assert(all_digits(s)) by {
        assert forall|i: int| 0 <= i < s.len() implies is_ascii_digit(#[trigger] s[i]) by {
            assert(s[i] == b[start + i]);
            assert(raw[start + i] as u8 == b[start + i]);
        }
    }
    assert(unsigned_digits(s) == s) by {
        assert(is_ascii_digit(s[0]));
    }
    lemma_digits_value_pow10(s);
    reveal_with_fuel(pow10, 5);
    lemma_fixed_width_of_digits(s);
    lemma_zero_padded_is_fixed_width(digits_value(s), s.len());
    assert(s.map_values(|x: u8| x as char) =~= raw.subrange(start, end)) by {
        assert forall|i: int| 0 <= i < s.len() implies s.map_values(|x: u8| x as char)[i]
            == raw.subrange(start, end)[i] by {
            assert(raw[start + i] as u8 == b[start + i]);
        }
    }
}

/// A date written with plain digits displays as the same digits, with `-`
/// in place of the two `:` of the date part.
pub proof fn lemma_plain_date_displays_as_written(raw: Seq<char>)
    requires
        is_plain_date(raw),
    ensures
        parse_spec(raw, None, None) matches Ok(t) ==> capture_time_text(t) == raw.update(
            4,
            '-',
        ).update(7, '-'),
{
    if let Ok(t) = parse_spec(raw, None, None) {
        assert forall|i: int| 0 <= i < raw.len() implies '\0' <= #[trigger] raw[i] <= '\u{7f}' by {
            assert(raw[i] == ':' || raw[i] == ' ' || '0' <= raw[i] <= '9');
        }
        assert forall|i: int| 0 <= i < 4 implies '0' <= #[trigger] raw[i] <= '9' by {}
        assert(raw[5] != ':' && raw[6] != ':');
        lemma_plain_field(raw, 0, 4);
        lemma_plain_field(raw, 5, 7);
        lemma_plain_field(raw, 8, 10);
        lemma_plain_field(raw, 11, 13);
        lemma_plain_field(raw, 14, 16);
        lemma_plain_field(raw, 17, 19);
        lemma_parsed_time_in_range(raw, None, None);
        let b = encode_utf8(raw);
        lemma_field_below(b, 0, 4);
        lemma_field_below(b, 5, 7);
        lemma_field_below(b, 8, 10);
        lemma_field_below(b, 11, 13);
        lemma_field_below(b, 14, 16);
        lemma_field_below(b, 17, 19);
        assert(zero_padded(t.year as nat, 4) == raw.subrange(0, 4));
        assert(zero_padded(t.month as nat, 2) == raw.subrange(5, 7));
        assert(zero_padded(t.day as nat, 2) == raw.subrange(8, 10));
        assert(zero_padded(t.hour as nat, 2) == raw.subrange(11, 13));
        assert(zero_padded(t.minute as nat, 2) == raw.subrange(14, 16));
        assert(zero_padded(t.second as nat, 2) == raw.subrange(17, 19));
        assert(capture_time_text(t) =~= raw.update(4, '-').update(7, '-'));
    }
}

/// An offset written as a sign, two digits, `:` and two digits.
pub open spec fn is_plain_offset(raw: Seq<char>) -> bool {
    &&& raw.len() == 6
    &&& (raw[0] == '+' || raw[0] == '-')
    &&& raw[3] == ':'
    &&& '0' <= raw[1] <= '9'
    &&& '0' <= raw[2] <= '9'
    &&& '0' <= raw[4] <= '9'
    &&& '0' <= raw[5] <= '9'
}

/// A plain offset that is kept displays exactly as it was written.
pub proof fn lemma_plain_offset_displays_as_written(raw: Seq<char>)
    requires
        is_plain_offset(raw),
    ensures
        offset_of(raw) matches Ok(o) ==> offset_text(o) == raw,
{
    if let Ok(o) = offset_of(raw) {
        assert forall|i: int| 0 <= i < raw.len() implies '\0' <= #[trigger] raw[i] <= '\u{7f}' by {
            assert(i == 0 || i == 1 || i == 2 || i == 3 || i == 4 || i == 5);
        }
        assert(vstd::utf8::is_ascii_chars(raw));
        vstd::utf8::is_ascii_chars_encode_utf8(raw);
        let b = encode_utf8(raw);
        assert(raw[0] as u8 == b[0]);
        assert(raw[3] as u8 == b[3]);
        assert(b.len() == 6);
        assert(b != seq![122u8] && b != seq![90u8]) by {
            if b == seq![122u8] || b == seq![90u8] {
                assert(b.len() == 1);
            }
        }
        assert forall|i: int| 1 <= i < 3 implies '0' <= #[trigger] raw[i] <= '9' by {}
        assert forall|i: int| 4 <= i < 6 implies '0' <= #[trigger] raw[i] <= '9' by {}
        lemma_plain_field(raw, 1, 3);
        lemma_plain_field(raw, 4, 6);
        lemma_field_below(b, 1, 3);
        lemma_field_below(b, 4, 6);
        assert(offset_text(o) =~= raw);
    }
}

/// The value of a run of ASCII digits read from the front: each digit
/// multiplies what came before by ten.
proof fn lemma_digits_value_front(s: Seq<u8>)
    requires
        all_digits(s),
        1 <= s.len() <= 4,
    ensures
        s.len() == 1 ==> digits_value(s) == s[0] - 48,
        s.len() == 2 ==> digits_value(s) == 10 * (s[0] - 48) + (s[1] - 48),
        s.len() == 3 ==> digits_value(s) == 100 * (s[0] - 48) + 10 * (s[1] - 48) + (s[2] - 48),
        s.len() == 4 ==> digits_value(s) == 1000 * (s[0] - 48) + 100 * (s[1] - 48) + 10 * (s[2]
            - 48) + (s[3] - 48),
    decreases s.len(),
{
    let p = s.drop_last();
    assert(is_ascii_digit(s[s.len() - 1]));
    if s.len() > 1 {
        assert(all_digits(p)) by {
            assert forall|i: int| 0 <= i < p.len() implies is_ascii_digit(#[trigger] p[i]) by {
                assert(p[i] == s[i]);
            }
        }
        lemma_digits_value_front(p);
        assert(p[0] == s[0]);
        if s.len() > 2 {
            assert(p[1] == s[1]);
        }
        if s.len() > 3 {
            assert(p[2] == s[2]);
        }
    } else {
        assert(p.len() == 0);
        assert(digits_value(p) == 0);
        assert(s.last() == s[0]);
    }
}

/// The number written by the two digit characters at `i`.
pub open spec fn two_digit_number(raw: Seq<char>, i: int) -> int {
    10 * (raw[i] as int - 48) + (raw[i + 1] as int - 48)
}

/// Every date with the EXIF layout, digit fields and every field in its
/// calendar range (any day from 1 to 31 in any month, a second of up to 60)
/// parses, with exactly the numbers its digits spell, whatever the
/// subsecond and offset strings beside it.
pub proof fn lemma_valid_plain_dates_parse(
    raw: Seq<char>,
    subsec: Option<Seq<char>>,
    offset: Option<Seq<char>>,
)
    requires
        is_plain_date(raw),
        1 <= two_digit_number(raw, 5) <= 12,
        1 <= two_digit_number(raw, 8) <= 31,
        two_digit_number(raw, 11) <= 23,
        two_digit_number(raw, 14) <= 59,
        two_digit_number(raw, 17) <= 60,
    ensures
        parse_spec(raw, subsec, offset) matches Ok(t) && t.year == 100 * two_digit_number(raw, 0)
            + two_digit_number(raw, 2) && t.month == two_digit_number(raw, 5) && t.day
            == two_digit_number(raw, 8) && t.hour == two_digit_number(raw, 11) && t.minute
            == two_digit_number(raw, 14) && t.second == two_digit_number(raw, 17)
            && t.subsec == kept_subsec(subsec) && t.offset == kept_offset(offset),
{
    assert forall|i: int| 0 <= i < raw.len() implies '\0' <= #[trigger] raw[i] <= '\u{7f}' by {
        assert(raw[i] == ':' || raw[i] == ' ' || '0' <= raw[i] <= '9');
    }
    assert(vstd::utf8::is_ascii_chars(raw));
    vstd::utf8::is_ascii_chars_encode_utf8(raw);
    let b = encode_utf8(raw);
    assert forall|i: int| 0 <= i < 19 implies (#[trigger] b[i]) as int == raw[i] as int by {
        assert(raw[i] as u8 == b[i]);
        assert(raw[i] as int <= 127);
    }
    assert(b[4] as int == raw[4] as int);
    assert(b[7] as int == raw[7] as int);
    assert(b[10] as int == raw[10] as int);
    assert(b[13] as int == raw[13] as int);
    assert(b[16] as int == raw[16] as int);
    assert(has_date_layout(b));
    assert forall|i: int| 0 <= i < 4 implies '0' <= #[trigger] raw[i] <= '9' by {}
    assert(raw[5] != ':' && raw[6] != ':');
    lemma_plain_field(raw, 0, 4);
    lemma_plain_field(raw, 5, 7);
    lemma_plain_field(raw, 8, 10);
    lemma_plain_field(raw, 11, 13);
    lemma_plain_field(raw, 14, 16);
    lemma_plain_field(raw, 17, 19);
    lemma_field_value_2(raw, b, 5);
    lemma_field_value_2(raw, b, 8);
    lemma_field_value_2(raw, b, 11);
    lemma_field_value_2(raw, b, 14);
    lemma_field_value_2(raw, b, 17);
    lemma_field_value_4(raw, b);
    lemma_field_below(b, 0, 4);
    lemma_field_below(b, 5, 7);
    lemma_field_below(b, 8, 10);
    lemma_field_below(b, 11, 13);
    lemma_field_below(b, 14, 16);
    lemma_field_below(b, 17, 19);
}

proof fn lemma_field_value_2(raw: Seq<char>, b: Seq<u8>, start: int)
    requires
        0 <= start,
        start + 2 <= raw.len(),
        b.len() == raw.len(),
        forall|i: int| 0 <= i < raw.len() ==> (#[trigger] b[i]) as int == raw[i] as int,
        field_at(b, start, start + 2) is Ok,
        is_ascii_digit(b[start]),
        is_ascii_digit(b[start + 1]),
    ensures
        field_at(b, start, start + 2) == Ok::<nat, Seq<char>>(two_digit_number(raw, start) as nat),
{
    let s = b.subrange(start, start + 2);
    assert(s[0] == b[start] && s[1] == b[start + 1]);
    assert(b[start] as int == raw[start] as int);
    assert(b[start + 1] as int == raw[start + 1] as int);
    assert(unsigned_digits(s) == s);
    assert(all_digits(s)) by {
        assert forall|i: int| 0 <= i < 2 implies is_ascii_digit(#[trigger] s[i]) by {}
    }
    lemma_digits_value_front(s);
}

proof fn lemma_field_value_4(raw: Seq<char>, b: Seq<u8>)
    requires
        4 <= raw.len(),
        b.len() == raw.len(),
        forall|i: int| 0 <= i < raw.len() ==> (#[trigger] b[i]) as int == raw[i] as int,
        field_at(b, 0, 4) is Ok,
        forall|i: int| 0 <= i < 4 ==> is_ascii_digit(#[trigger] b[i]),
    ensures
        field_at(b, 0, 4) == Ok::<nat, Seq<char>>(
            (100 * two_digit_number(raw, 0) + two_digit_number(raw, 2)) as nat,
        ),
{
    let s = b.subrange(0, 4);
    assert(s[0] == b[0] && s[1] == b[1] && s[2] == b[2] && s[3] == b[3]);
    assert(b[0] as int == raw[0] as int);
    assert(b[1] as int == raw[1] as int);
    assert(b[2] as int == raw[2] as int);
    assert(b[3] as int == raw[3] as int);
    assert(is_ascii_digit(b[0]));
    assert(unsigned_digits(s) == s);
    assert(all_digits(s)) by {
        assert forall|i: int| 0 <= i < 4 implies is_ascii_digit(#[trigger] s[i]) by {
            assert(s[i] == b[i]);
        }
    }
    lemma_digits_value_front(s);
}

/// Every offset written as a sign, two digits, `:` and two digits, with at
/// most 14 hours and 59 minutes, is kept with exactly that sign and those
/// numbers; `Z` and `z` mean UTC.
pub proof fn lemma_valid_plain_offsets_parse(raw: Seq<char>)
    ensures
        is_plain_offset(raw) && two_digit_number(raw, 1) <= 14 && two_digit_number(raw, 4) <= 59
            ==> offset_of(raw) == Ok::<Offset, Seq<char>>(
            Offset {
                negative: raw[0] == '-',
                hours: two_digit_number(raw, 1) as u8,
                minutes: two_digit_number(raw, 4) as u8,
            },
        ),
        raw == seq!['Z'] || raw == seq!['z'] ==> offset_of(raw) == Ok::<Offset, Seq<char>>(
            Offset { negative: false, hours: 0, minutes: 0 },
        ),
{
    if raw == seq!['Z'] || raw == seq!['z'] {
        reveal_with_fuel(encode_utf8, 2);
        assert(vstd::utf8::is_ascii_chars(raw));
        vstd::utf8::is_ascii_chars_encode_utf8(raw);
        let b = encode_utf8(raw);
        assert(b.len() == 1);
        assert(raw[0] as u8 == b[0]);
        assert(b =~= seq![b[0]]);
    }
    if is_plain_offset(raw) && two_digit_number(raw, 1) <= 14 && two_digit_number(raw, 4) <= 59 {
        assert forall|i: int| 0 <= i < raw.len() implies '\0' <= #[trigger] raw[i] <= '\u{7f}' by {
            assert(i == 0 || i == 1 || i == 2 || i == 3 || i == 4 || i == 5);
        }
        assert(vstd::utf8::is_ascii_chars(raw));
        vstd::utf8::is_ascii_chars_encode_utf8(raw);
        let b = encode_utf8(raw);
        assert forall|i: int| 0 <= i < 6 implies (#[trigger] b[i]) as int == raw[i] as int by {
            assert(raw[i] as u8 == b[i]);
            assert(raw[i] as int <= 127);
        }
        assert(b[0] as int == raw[0] as int);
        assert(b[3] as int == raw[3] as int);
        assert(b != seq![122u8] && b != seq![90u8]) by {
            if b == seq![122u8] || b == seq![90u8] {
                assert(b.len() == 1);
            }
        }
        assert forall|i: int| 1 <= i < 3 implies '0' <= #[trigger] raw[i] <= '9' by {}
        assert forall|i: int| 4 <= i < 6 implies '0' <= #[trigger] raw[i] <= '9' by {}
        lemma_plain_field(raw, 1, 3);
        lemma_plain_field(raw, 4, 6);
        assert(b[1] as int == raw[1] as int && b[2] as int == raw[2] as int);
        assert(b[4] as int == raw[4] as int && b[5] as int == raw[5] as int);
        lemma_field_value_2(raw, b, 1);
        lemma_field_value_2(raw, b, 4);
    }
}

} // verus!
