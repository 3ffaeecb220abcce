use vstd::prelude::*;
use vstd::string::StringExecFns;
use vstd::string::StringSliceAdditionalSpecFns;
use vstd::utf8::*;

verus! {

broadcast use vstd::utf8::group_utf8_lib;

/// The ASCII character of a digit below ten.
pub open spec fn digit_char(d: nat) -> char {
    (d + 48) as char
}

/// The decimal digits of `n`, most significant first, with no leading zeros
/// (zero itself is the single digit `0`).
pub open spec fn decimal(n: nat) -> Seq<char>
    decreases n,
{
    if n < 10 {
        seq![digit_char(n)]
    } else {
        decimal(n / 10).push(digit_char(n % 10))
    }
}

/// `n` in decimal, left-padded with zeros to at least `width` characters
/// (what `{:0width$}` prints).
pub open spec fn zero_padded(n: nat, width: nat) -> Seq<char> {
    let digits = decimal(n);
    if digits.len() < width {
        Seq::new((width - digits.len()) as nat, |_i: int| '0') + digits
    } else {
        digits
    }
}

/// Appends `c` to `s` (`String::push`).
#[verifier::external_body]
fn push_char(s: &mut String, c: char)
    ensures
        final(s)@ == old(s)@.push(c),
{
    s.push(c);
}

/// Appends a character to a string.
pub fn push(s: &mut String, c: char)
    ensures
        final(s)@ == old(s)@.push(c),
{
    push_char(s, c);
}

/// Appends a string slice to a string.
pub fn push_str(s: &mut String, t: &str)
    ensures
        final(s)@ == old(s)@ + t@,
{
    s.append(t);
}

/// Appends the digit `d` as an ASCII character.
pub fn push_digit(s: &mut String, d: u64)
    requires
        d < 10,
    ensures
        final(s)@ == old(s)@.push(digit_char(d as nat)),
{
    let c = ((d as u8) + 48) as char;
    push_char(s, c);
}

/// Appends `n` in decimal.
pub fn push_decimal(s: &mut String, n: u64)
    ensures
        final(s)@ == old(s)@ + decimal(n as nat),
    decreases n,
{
    if n >= 10 {
        push_decimal(s, n / 10);
    }
    push_digit(s, n % 10);
    assert(s@ =~= old(s)@ + decimal(n as nat));
}

/// The number of decimal digits of `n`.
fn decimal_len(n: u64) -> (len: u64)
    ensures
        len == decimal(n as nat).len(),
        1 <= len <= n + 1,
    decreases n,
{
    if n < 10 {
        1
    } else {
        decimal_len(n / 10) + 1
    }
}

/// Appends `n` in decimal, left-padded with zeros to `width` characters.
pub fn push_zero_padded(s: &mut String, n: u64, width: u64)
    ensures
        final(s)@ == old(s)@ + zero_padded(n as nat, width as nat),
{
    let len = decimal_len(n);
    let mut i: u64 = len;
    while i < width
        invariant
            len <= i,
            len == decimal(n as nat).len(),
            s@ =~= old(s)@ + Seq::new((i - len) as nat, |_j: int| '0'),
            len < width ==> i <= width,
            len >= width ==> i == len,
        decreases width - i,
    {
        push_char(s, '0');
        i = i + 1;
    }
    let ghost zeros = Seq::new((i - len) as nat, |_j: int| '0');
    push_decimal(s, n);
    assert(s@ =~= old(s)@ + (zeros + decimal(n as nat)));
    assert(zero_padded(n as nat, width as nat) =~= zeros + decimal(n as nat));
}

/// The characters that a valid UTF-8 byte range decodes to.
pub open spec fn chars_of(bytes: Seq<u8>) -> Seq<char> {
    decode_utf8(bytes)
}

/// The bytes of `s` from `from` up to `to`, as a string slice; both ends must
/// fall on character boundaries, which holds wherever the byte there (if any)
/// is not a UTF-8 continuation byte.
pub fn substring(s: &str, from: usize, to: usize) -> (r: &str)
    requires
        from <= to <= s.spec_bytes().len(),
        from < s.spec_bytes().len() ==> !is_continuation_byte(s.spec_bytes()[from as int]),
        to < s.spec_bytes().len() ==> !is_continuation_byte(s.spec_bytes()[to as int]),
    ensures
        r.spec_bytes() == s.spec_bytes().subrange(from as int, to as int),
        r@ == chars_of(s.spec_bytes().subrange(from as int, to as int)),
{
    let ghost b = s.spec_bytes();
    proof {
        assert(valid_utf8(b));
        is_char_boundary_start_end_of_seq(b);
        if to < b.len() {
            is_char_boundary_iff_not_is_continuation_byte(b, to as int);
        }
    }
    let (head, _) = s.split_at(to);
    let ghost h = head.spec_bytes();
    proof {
        assert(valid_utf8(h));
        is_char_boundary_start_end_of_seq(h);
        if from < to {
            assert(h[from as int] == b[from as int]);
            is_char_boundary_iff_not_is_continuation_byte(h, from as int);
        }
    }
    let (_, mid) = head.split_at(from);
    proof {
        assert(mid.spec_bytes() =~= b.subrange(from as int, to as int));
        assert(decode_utf8(encode_utf8(mid@)) == mid@);
    }
    mid
}

/// An owned copy of a string slice.
pub fn owned(s: &str) -> (r: String)
    ensures
        r@ == s@,
{
    String::from_str(s)
}

/// In valid UTF-8, a byte that follows an ASCII byte starts a character.
pub proof fn lemma_no_continuation_after_ascii(b: Seq<u8>, j: int)
    requires
        valid_utf8(b),
        0 < j < b.len(),
        b[j - 1] < 0x80,
    ensures
        !is_continuation_byte(b[j]),
    decreases b.len(),
{
    let l = length_of_first_scalar(b);
    let rest = pop_first_scalar(b);
    if is_continuation_byte(b[j]) && j >= l {
        assert(rest[j - l] == b[j]);
        if j > l {
            assert(rest[j - l - 1] == b[j - 1]);
            lemma_no_continuation_after_ascii(rest, j - l);
        }
    }
}

/// The bytes of a string slice are valid UTF-8 and decode back to its characters.
pub proof fn lemma_str_bytes(s: &str)
    ensures
        valid_utf8(s.spec_bytes()),
        chars_of(s.spec_bytes()) == s@,
{
}

} // verus!
