use vstd::prelude::*;
use crate::date::{capture_time_text, offset_text, CaptureTime, CaptureTimeView};
use crate::error::{failure_message, ExifError};
use crate::text::{decimal, owned, push, push_decimal, push_str};

verus! {

/// The lowercase hexadecimal digit of a number below sixteen.
pub open spec fn hex_digit(d: nat) -> char {
    if d < 10 {
        (d + 48) as char
    } else {
        (d + 87) as char
    }
}

/// How one character is written inside a JSON string.
pub open spec fn escape_char(c: char) -> Seq<char> {
    if c == '"' {
        seq!['\\', '"']
    } else if c == '\\' {
        seq!['\\', '\\']
    } else if c == '\n' {
        seq!['\\', 'n']
    } else if c == '\r' {
        seq!['\\', 'r']
    } else if c == '\t' {
        seq!['\\', 't']
    } else if (c as u32) < 0x20 {
        seq!['\\', 'u', '0', '0', hex_digit((c as u32 / 16) as nat), hex_digit((c as u32 % 16) as nat)]
    } else {
        seq![c]
    }
}

/// A string escaped for a JSON string literal, character by character.
pub open spec fn json_escaped(s: Seq<char>) -> Seq<char>
    decreases s.len(),
{
    if s.len() == 0 {
        Seq::empty()
    } else {
        json_escaped(s.drop_last()) + escape_char(s.last())
    }
}

fn push_hex_digit(out: &mut String, d: u32)
    requires
        d < 16,
    ensures
        final(out)@ == old(out)@.push(hex_digit(d as nat)),
{
    let c = if d < 10 {
        ((d as u8) + 48) as char
    } else {
        ((d as u8) + 87) as char
    };
    push(out, c);
}

/// Appends the escaped form of one character.
fn push_escaped(out: &mut String, c: char)
    ensures
        final(out)@ == old(out)@ + escape_char(c),
{
    let ghost start = out@;
    if c == '"' {
        push(out, '\\');
        push(out, '"');
    } else if c == '\\' {
        push(out, '\\');
        push(out, '\\');
    } else if c == '\n' {
        push(out, '\\');
        push(out, 'n');
    } else if c == '\r' {
        push(out, '\\');
        push(out, 'r');
    } else if c == '\t' {
        push(out, '\\');
        push(out, 't');
    } else if (c as u32) < 0x20 {
        push(out, '\\');
        push(out, 'u');
        push(out, '0');
        push(out, '0');
        push_hex_digit(out, (c as u32) / 16);
        push_hex_digit(out, (c as u32) % 16);
    } else {
        push(out, c);
    }
    assert(out@ =~= start + escape_char(c));
}

/// Minimal escaping for the handful of characters that can actually show up
/// in our output: a file path (in error JSON) or the parts of a CaptureTime.
/// Not a general-purpose JSON string encoder.
pub fn json_escape(s: &str) -> (out: String)
    ensures
        out@ == json_escaped(s@),
{
    let mut out = String::new();
    for c in it: s.chars()
        invariant
            it.seq() == s@,
            out@ == json_escaped(s@.take(it.index() as int)),
    {
        let ghost i = it.index() as int;
        assert(s@.take(i + 1).drop_last() =~= s@.take(i));
        push_escaped(&mut out, c);
    }
    assert(s@.take(s@.len() as int) =~= s@);
    out
}

/// `"` + the escaped text + `"`.
pub open spec fn json_string(s: Seq<char>) -> Seq<char> {
    seq!['"'] + json_escaped(s) + seq!['"']
}

/// The JSON object that describes a capture time: the whole timestamp as
/// text, each field as a number, and the subsecond digits and offset as
/// strings, or `null` where there are none.
pub open spec fn capture_time_json(t: CaptureTimeView) -> Seq<char> {
    "{\"timestamp\":"@ + json_string(capture_time_text(t)) + ",\"year\":"@ + decimal(
        t.year as nat,
    ) + ",\"month\":"@ + decimal(t.month as nat) + ",\"day\":"@ + decimal(t.day as nat)
        + ",\"hour\":"@ + decimal(t.hour as nat) + ",\"minute\":"@ + decimal(t.minute as nat)
        + ",\"second\":"@ + decimal(t.second as nat) + ",\"subsec\":"@ + (match t.subsec {
        Some(s) => json_string(s),
        None => "null"@,
    }) + ",\"offset\":"@ + (match t.offset {
        Some(o) => json_string(offset_text(o)),
        None => "null"@,
    }) + seq!['}']
}

/// Appends `text` as a JSON string literal.
fn push_json_string(out: &mut String, text: &str)
    ensures
        final(out)@ == old(out)@ + json_string(text@),
{
    push(out, '"');
    let escaped = json_escape(text);
    push_str(out, escaped.as_str());
    push(out, '"');
    assert(out@ =~= old(out)@ + json_string(text@));
}

/// A capture time as a JSON object.
pub fn capture_time_to_json(t: &CaptureTime) -> (json: String)
    ensures
        json@ == capture_time_json(t@),
{
    let mut out = owned("{\"timestamp\":");
    let text = t.to_string();
    push_json_string(&mut out, text.as_str());
    push_str(&mut out, ",\"year\":");
    push_decimal(&mut out, t.year as u64);
    push_str(&mut out, ",\"month\":");
    push_decimal(&mut out, t.month as u64);
    push_str(&mut out, ",\"day\":");
    push_decimal(&mut out, t.day as u64);
    push_str(&mut out, ",\"hour\":");
    push_decimal(&mut out, t.hour as u64);
    push_str(&mut out, ",\"minute\":");
    push_decimal(&mut out, t.minute as u64);
    push_str(&mut out, ",\"second\":");
    push_decimal(&mut out, t.second as u64);
    push_str(&mut out, ",\"subsec\":");
    match &t.subsec {
        Some(s) => push_json_string(&mut out, s.as_str()),
        None => push_str(&mut out, "null"),
    }
    push_str(&mut out, ",\"offset\":");
    match &t.offset {
        Some(o) => {
            let text = o.to_string();
            push_json_string(&mut out, text.as_str());
        },
        None => push_str(&mut out, "null"),
    }
    push(&mut out, '}');
    assert(out@ =~= capture_time_json(t@));
    out
}

/// One line of output for one file, and whether it belongs on standard
/// error rather than standard output.
pub struct Report {
    pub line: String,
    pub to_stderr: bool,
}

/// The JSON line for one file: its path, whether a time was found, and the
/// time or the reason there is none.
pub open spec fn json_report(path: Seq<char>, result: Result<CaptureTimeView, Seq<char>>) -> Seq<
    char,
> {
    "{\"path\":"@ + json_string(path) + seq![','] + (match result {
        Ok(t) => "\"ok\":true,\"result\":"@ + capture_time_json(t),
        Err(message) => "\"ok\":false,\"error\":"@ + json_string(message),
    }) + seq!['}']
}

/// The plain line for one file: the time on standard output, or the path
/// and the reason on standard error.
pub open spec fn text_report(path: Seq<char>, result: Result<CaptureTimeView, Seq<char>>) -> (
    Seq<char>,
    bool,
) {
    match result {
        Ok(t) => (capture_time_text(t), false),
        Err(message) => (path + seq![':', ' '] + message, true),
    }
}

/// A result as the time or the message that explains the failure.
pub open spec fn outcome(result: Result<CaptureTime, ExifError>) -> Result<
    CaptureTimeView,
    Seq<char>,
> {
    match result {
        Ok(t) => Ok(t@),
        Err(e) => Err(failure_message(e@)),
    }
}

/// Renders the outcome for one file, as a JSON object on standard output or
/// as plain text.
pub fn report(path: &str, result: &Result<CaptureTime, ExifError>, json: bool) -> (r: Report)
    ensures
        json ==> r.line@ == json_report(path@, outcome(*result)) && !r.to_stderr,
        !json ==> (r.line@, r.to_stderr) == text_report(path@, outcome(*result)),
{
    if json {
        let mut line = owned("{\"path\":");
        push_json_string(&mut line, path);
        push(&mut line, ',');
        match result {
            Ok(t) => {
                push_str(&mut line, "\"ok\":true,\"result\":");
                let body = capture_time_to_json(t);
                push_str(&mut line, body.as_str());
            },
            Err(e) => {
                push_str(&mut line, "\"ok\":false,\"error\":");
                let message = e.message();
                push_json_string(&mut line, message.as_str());
            },
        }
        push(&mut line, '}');
        assert(line@ =~= json_report(path@, outcome(*result)));
        Report { line, to_stderr: false }
    } else {
        match result {
            Ok(t) => Report { line: t.to_string(), to_stderr: false },
            Err(e) => {
                let mut line = owned(path);
                push(&mut line, ':');
                push(&mut line, ' ');
                let message = e.message();
                push_str(&mut line, message.as_str());
                assert(line@ =~= path@ + seq![':', ' '] + failure_message(e@));
                Report { line, to_stderr: true }
            },
        }
    }
}

// ---------------------------------------------------------------------------
// Laws

/// A character that may stand in a JSON string without an escape.
pub open spec fn is_plain_json_char(c: char) -> bool {
    c != '"' && c != '\\' && (c as u32) >= 0x20
}

proof fn lemma_escaped_concat(a: Seq<char>, b: Seq<char>)
    ensures
        json_escaped(a + b) == json_escaped(a) + json_escaped(b),
    decreases b.len(),
{
    if b.len() == 0 {
        assert(a + b =~= a);
        assert(json_escaped(b) =~= Seq::<char>::empty());
        assert(json_escaped(a) + json_escaped(b) =~= json_escaped(a));
    } else {
        lemma_escaped_concat(a, b.drop_last());
        assert((a + b).drop_last() =~= a + b.drop_last());
        assert(json_escaped(a + b) =~= json_escaped(a) + json_escaped(b));
    }
}

proof fn lemma_escaped_front(s: Seq<char>)
    requires
        s.len() > 0,
    ensures
        json_escaped(s) == escape_char(s[0]) + json_escaped(s.drop_first()),
{
    assert(s =~= seq![s[0]] + s.drop_first());
    lemma_escaped_concat(seq![s[0]], s.drop_first());
    let one = seq![s[0]];
    assert(one.drop_last() =~= Seq::<char>::empty());
    assert(one.last() == s[0]);
    assert(json_escaped(one.drop_last()).len() == 0);
    assert(json_escaped(one) =~= escape_char(s[0]));
}

/// Escaping leaves no control character in the text.
pub proof fn lemma_escaped_has_no_control_chars(s: Seq<char>)
    ensures
        forall|i: int|
            0 <= i < json_escaped(s).len() ==> (#[trigger] json_escaped(s)[i] as u32) >= 0x20,
    decreases s.len(),
{
    if s.len() > 0 {
        lemma_escaped_has_no_control_chars(s.drop_last());
        let c = s.last();
        let e = escape_char(c);
        assert forall|i: int| 0 <= i < e.len() implies (#[trigger] e[i] as u32) >= 0x20 by {
            if (c as u32) < 0x20 && c != '\n' && c != '\r' && c != '\t' {
                let hi = (c as u32 / 16) as nat;
                let lo = (c as u32 % 16) as nat;
                assert(hi < 16 && lo < 16);
            }
        }
        let p = json_escaped(s.drop_last());
        assert forall|i: int| 0 <= i < json_escaped(s).len() implies (
        #[trigger] json_escaped(s)[i] as u32) >= 0x20 by {
            if i < p.len() {
                assert(json_escaped(s)[i] == p[i]);
            } else {
                assert(json_escaped(s)[i] == e[i - p.len()]);
            }
        }
    }
}

/// Text without quotes, backslashes or control characters is its own
/// escaped form.
pub proof fn lemma_plain_text_is_unchanged(s: Seq<char>)
    requires
        forall|i: int| 0 <= i < s.len() ==> is_plain_json_char(#[trigger] s[i]),
    ensures
        json_escaped(s) == s,
    decreases s.len(),
{
    if s.len() > 0 {
        assert(is_plain_json_char(s[s.len() - 1]));
        lemma_plain_text_is_unchanged(s.drop_last());
        assert(json_escaped(s) =~= s);
    }
}

/// The value of a lowercase hexadecimal digit.
pub open spec fn hex_value(c: char) -> Option<nat> {
    if '0' <= c <= '9' {
        Some((c as u32 - 48) as nat)
    } else if 'a' <= c <= 'f' {
        Some((c as u32 - 87) as nat)
    } else {
        None
    }
}

/// Reads a JSON string body back into the text it stands for; `None` where
/// it is not one that escaping produces.
pub open spec fn json_unescaped(s: Seq<char>) -> Option<Seq<char>>
    decreases s.len(),
{
    if s.len() == 0 {
        Some(Seq::empty())
    } else if s[0] != '\\' {
        if !is_plain_json_char(s[0]) {
            None
        } else {
            match json_unescaped(s.drop_first()) {
                Some(r) => Some(seq![s[0]] + r),
                None => None,
            }
        }
    } else if s.len() < 2 {
        None
    } else {
        let decoded: Option<(char, int)> = if s[1] == '"' {
            Some(('"', 2))
        } else if s[1] == '\\' {
            Some(('\\', 2))
        } else if s[1] == 'n' {
            Some(('\n', 2))
        } else if s[1] == 'r' {
            Some(('\r', 2))
        } else if s[1] == 't' {
            Some(('\t', 2))
        } else if s[1] == 'u' && s.len() >= 6 && s[2] == '0' && s[3] == '0' && hex_value(s[4]) is Some
            && hex_value(s[5]) is Some {
            Some(((hex_value(s[4])->0 * 16 + hex_value(s[5])->0) as char, 6))
        } else {
            None
        };
        match decoded {
            None => None,
            Some((c, n)) => match json_unescaped(s.subrange(n, s.len() as int)) {
                Some(r) => Some(seq![c] + r),
                None => None,
            },
        }
    }
}

proof fn lemma_unescape_one(c: char, rest: Seq<char>)
    ensures
        json_unescaped(escape_char(c) + rest) == match json_unescaped(rest) {
            Some(r) => Some(seq![c] + r),
            None => None::<Seq<char>>,
        },
{
    let e = escape_char(c);
    let s = e + rest;
    if c == '"' || c == '\\' || c == '\n' || c == '\r' || c == '\t' {
        assert(s.subrange(2, s.len() as int) =~= rest);
    } else if (c as u32) < 0x20 {
        let v = c as u32;
        let hi = (v / 16) as nat;
        let lo = (v % 16) as nat;
        assert(hi <= 1 && lo < 16);
        assert(hex_value(hex_digit(hi)) == Some(hi));
        assert(hex_value(hex_digit(lo)) == Some(lo));
        assert(hi * 16 + lo == v);
        assert(((hi * 16 + lo) as char) == c) by {
            vstd::utf8::char_u32_cast(c, v);
        }
        assert(s.subrange(6, s.len() as int) =~= rest);
    } else {
        assert(s.drop_first() =~= rest);
    }
}

/// Reading an escaped string back gives the original text.
pub proof fn lemma_unescape_escaped(s: Seq<char>)
    ensures
        json_unescaped(json_escaped(s)) == Some(s),
    decreases s.len(),
{
    if s.len() == 0 {
        assert(json_escaped(s) =~= Seq::<char>::empty());
    } else {
        lemma_escaped_front(s);
        lemma_unescape_escaped(s.drop_first());
        lemma_unescape_one(s[0], json_escaped(s.drop_first()));
        assert(seq![s[0]] + s.drop_first() =~= s);
    }
}

} // verus!
