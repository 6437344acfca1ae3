//! The `KEY: value` line reader and the fields that several records share.
use vstd::prelude::*;
use super::error::ParseError;
use super::text::{
    after, bytes, bytes_at, has_prefix, lemma_after_append, lemma_holds_at_append, rest_ascii,
    slice_ascii,
};
use chrono::{Datelike, Timelike};

verus! {

/// A calendar timestamp with time of day, to the second, taken as UTC.
#[derive(Debug, Clone, Copy, PartialEq, Eq, Structural)]
pub struct DateTime {
    pub year: i32,
    pub month: u32,
    pub day: u32,
    pub hour: u32,
    pub minute: u32,
    pub second: u32,
}

impl DateTime {
    /// Every component lies in its calendar range.
    pub open spec fn in_range(self) -> bool {
        &&& 1 <= self.month <= 12
        &&& 1 <= self.day <= 31
        &&& self.hour <= 23
        &&& self.minute <= 59
        &&& self.second <= 59
    }

    pub fn new(year: i32, month: u32, day: u32, hour: u32, minute: u32, second: u32) -> (r: DateTime)
        ensures
            r == (DateTime { year, month, day, hour, minute, second }),
    {
        DateTime { year, month, day, hour, minute, second }
    }
}

/// The layout of every timestamp in an export: month/day/year hour:minute:second.
pub const DATE_FORMAT: &'static str = "%m/%d/%Y %H:%M:%S";

/// The timestamp that chrono reads from `text` with the strftime-style `format`.
pub uninterp spec fn parsed_timestamp(text: Seq<u8>, format: Seq<u8>) -> Option<DateTime>;

/// Relies on chrono's `NaiveDateTime::parse_from_str`, which reads `text` against
/// `format` and fails on any deviation, and on chrono's `Datelike` and `Timelike`
/// accessors, whose documented ranges are those of `DateTime::in_range`.
#[verifier::external_body]
fn parse_timestamp(text: &str, format: &str) -> (r: Option<DateTime>)
    ensures
        r == parsed_timestamp(bytes(text), bytes(format)),
        r matches Some(d) ==> d.in_range(),
{
    chrono::NaiveDateTime::parse_from_str(text, format).ok().map(|t| DateTime {
        year: t.year(),
        month: t.month(),
        day: t.day(),
        hour: t.hour(),
        minute: t.minute(),
        second: t.second(),
    })
}

pub open spec fn is_blank(c: u8) -> bool {
    c == 0x20 || c == 0x09
}

pub open spec fn is_line_break(c: u8) -> bool {
    c == 0x0d || c == 0x0a
}

/// The position just past the run of spaces and tabs that starts at `i`.
pub open spec fn blanks_end(b: Seq<u8>, i: int) -> int
    decreases b.len() - i,
{
    if 0 <= i < b.len() && is_blank(b[i]) {
        blanks_end(b, i + 1)
    } else {
        i
    }
}

/// The position of the first carriage return or line feed at or after `i`, or the end.
pub open spec fn line_end(b: Seq<u8>, i: int) -> int
    decreases b.len() - i,
{
    if 0 <= i < b.len() && !is_line_break(b[i]) {
        line_end(b, i + 1)
    } else {
        i
    }
}

/// Reads the line `KEY:`, optional spaces and tabs, a value, and a line terminator
/// (`\n` or `\r\n`) from the front of `b`: what is left after the line, and the value.
#[verifier::opaque]
pub open spec fn read_field(b: Seq<u8>, key: Seq<u8>) -> Option<(Seq<u8>, Seq<u8>)> {
    let k = key.len() as int;
    if has_prefix(b, key) && k < b.len() && b[k] == 0x3a {
        let s = blanks_end(b, k + 1);
        let e = line_end(b, s);
        if e < b.len() && b[e] == 0x0a {
            Some((after(b, e + 1), b.subrange(s, e)))
        } else if e + 1 < b.len() && b[e] == 0x0d && b[e + 1] == 0x0a {
            Some((after(b, e + 2), b.subrange(s, e)))
        } else {
            None
        }
    } else {
        None
    }
}

/// What the field reader's result says in terms of bytes.
pub open spec fn field_view(r: Result<(&str, &str), ParseError>) -> Option<(Seq<u8>, Seq<u8>)> {
    match r {
        Ok((rest, value)) => Some((bytes(rest), bytes(value))),
        Err(_) => None,
    }
}

/// The result of a reader whose failures are all `MalformedField`.
pub open spec fn field_outcome(r: Result<(&str, &str), ParseError>, b: Seq<u8>, key: Seq<u8>) -> bool {
    &&& field_view(r) == read_field(b, key)
    &&& r matches Err(e) ==> e == ParseError::MalformedField
}

/// Reads the line `key: value` from the front of `input`; returns the rest of the
/// input, after the line terminator, and the value.
pub fn key_value<'a>(input: &'a str, key: &str) -> (r: Result<(&'a str, &'a str), ParseError>)
    ensures
        field_outcome(r, bytes(input), bytes(key)),
        r matches Ok((rest, _)) ==> bytes(rest).len() < bytes(input).len(),
{
    proof {
        reveal(read_field);
    }
    let b = input.as_bytes();
    let k = key.as_bytes();
    if !bytes_at(b, 0, k) || k.len() >= b.len() || b[k.len()] != 0x3a {
        return Err(ParseError::MalformedField);
    }
    let mut s: usize = k.len() + 1;
    while s < b.len() && (b[s] == 0x20 || b[s] == 0x09)
        invariant
            k@.len() + 1 <= s <= b@.len(),
            b@[s - 1] < 0x80,
            blanks_end(b@, k@.len() + 1int) == blanks_end(b@, s as int),
        decreases b@.len() - s,
    {
        s = s + 1;
    }
    let mut e: usize = s;
    while e < b.len() && b[e] != 0x0d && b[e] != 0x0a
        invariant
            s <= e <= b@.len(),
            line_end(b@, s as int) == line_end(b@, e as int),
        decreases b@.len() - e,
    {
        e = e + 1;
    }
    if e < b.len() && b[e] == 0x0a {
        let value = slice_ascii(input, s, e);
        let rest = rest_ascii(input, e + 1);
        Ok((rest, value))
    } else if e < b.len() - 1 && b[e] == 0x0d && b[e + 1] == 0x0a {
        let value = slice_ascii(input, s, e);
        let rest = rest_ascii(input, e + 2);
        Ok((rest, value))
    } else {
        Err(ParseError::MalformedField)
    }
}

proof fn lemma_line_end(b: Seq<u8>, i: int, e: int)
    requires
        0 <= i <= e <= b.len(),
        forall|j: int| i <= j < e ==> !is_line_break(#[trigger] b[j]),
        e == b.len() || is_line_break(b[e]),
    ensures
        line_end(b, i) == e,
    decreases e - i,
{
    if i < e {
        lemma_line_end(b, i + 1, e);
    }
}

/// A line made of a key, a colon, one space, a value that neither starts with a
/// blank nor holds a line break, and a line feed reads back as exactly that value,
/// and leaves exactly what follows the line.
pub proof fn lemma_read_field_line(key: Seq<u8>, value: Seq<u8>, rest: Seq<u8>)
    requires
        value.len() > 0 ==> !is_blank(value[0]),
        forall|i: int| 0 <= i < value.len() ==> !is_line_break(#[trigger] value[i]),
    ensures
        read_field(key + seq![0x3au8, 0x20u8] + value + seq![0x0au8] + rest, key)
            == Some((rest, value)),
{
    reveal(read_field);
    let b = key + seq![0x3au8, 0x20u8] + value + seq![0x0au8] + rest;
    let k = key.len() as int;
    let s = k + 2;
    let e = s + value.len();
    assert(b.subrange(0, k) =~= key);
    assert(b[k] == 0x3a);
    assert(b[k + 1] == 0x20);
    assert(blanks_end(b, k + 2) == s);
    assert(blanks_end(b, k + 1) == s);
    assert forall|j: int| s <= j < e implies !is_line_break(#[trigger] b[j]) by {
        assert(b[j] == value[j - s]);
    }
    assert(b[e] == 0x0a);
    lemma_line_end(b, s, e);
    assert(b.subrange(s, e) =~= value);
    assert(after(b, e + 1) =~= rest);
}

proof fn lemma_blanks_end_append(a: Seq<u8>, x: Seq<u8>, i: int)
    requires
        0 <= i,
        blanks_end(a, i) < a.len(),
    ensures
        blanks_end(a + x, i) == blanks_end(a, i),
    decreases a.len() - i,
{
    if i < a.len() && is_blank(a[i]) {
        lemma_blanks_end_append(a, x, i + 1);
    }
}

proof fn lemma_line_end_append(a: Seq<u8>, x: Seq<u8>, i: int)
    requires
        0 <= i,
        line_end(a, i) < a.len(),
    ensures
        line_end(a + x, i) == line_end(a, i),
    decreases a.len() - i,
{
    if i < a.len() && !is_line_break(a[i]) {
        lemma_line_end_append(a, x, i + 1);
    }
}

proof fn lemma_scan_ends_after(b: Seq<u8>, i: int)
    requires
        0 <= i,
    ensures
        i <= blanks_end(b, i),
        i <= line_end(b, i),
    decreases b.len() - i,
{
    if i < b.len() {
        lemma_scan_ends_after(b, i + 1);
    }
}

/// A line read from `a` reads the same once more input follows it.
pub proof fn lemma_read_field_append(a: Seq<u8>, x: Seq<u8>, key: Seq<u8>)
    ensures
        read_field(a, key) matches Some((r, v)) ==> read_field(a + x, key) == Some((r + x, v)),
{
    reveal(read_field);
    if read_field(a, key) is None {
        return;
    }
    let b = a + x;
    let k = key.len() as int;
    lemma_holds_at_append(a, x, 0, key);
    let s = blanks_end(a, k + 1);
    lemma_scan_ends_after(a, k + 1);
    lemma_scan_ends_after(a, s);
    let e = line_end(a, s);
    lemma_blanks_end_append(a, x, k + 1);
    lemma_line_end_append(a, x, s);
    assert(b[k] == a[k]);
    assert(b[e] == a[e]);
    if e + 1 < a.len() {
        assert(b[e + 1] == a[e + 1]);
    }
    assert(b.subrange(s, e) =~= a.subrange(s, e));
    if a[e] == 0x0a {
        lemma_after_append(a, x, e + 1);
    } else {
        lemma_after_append(a, x, e + 2);
    }
}

/// A line whose first byte differs from the key's is no field, whatever follows.
pub proof fn lemma_read_field_miss(r: Seq<u8>, key: Seq<u8>)
    requires
        r.len() > 0,
        key.len() > 0,
        r[0] != key[0],
    ensures
        read_field(r, key) is None,
{
    reveal(read_field);
    if has_prefix(r, key) {
        assert(r.subrange(0, key.len() as int)[0] == r[0]);
    }
}

/// A timestamp line read from `a` reads the same once more input follows it.
pub proof fn lemma_read_date_append(a: Seq<u8>, x: Seq<u8>)
    ensures
        read_date(a) matches Ok((r, d)) ==> read_date(a + x) == Ok::<_, ParseError>((r + x, d)),
{
    reveal(read_date);
    lemma_read_field_append(a, x, bytes("DATE"));
}

/// Reads the `AUTHOR` line.
pub fn author<'a>(input: &'a str) -> (r: Result<(&'a str, &'a str), ParseError>)
    ensures
        field_outcome(r, bytes(input), bytes("AUTHOR")),
        r matches Ok((rest, _)) ==> bytes(rest).len() < bytes(input).len(),
{
    key_value(input, "AUTHOR")
}

/// Reads the `DATE` line and decodes its value as a timestamp.
#[verifier::opaque]
pub open spec fn read_date(b: Seq<u8>) -> Result<(Seq<u8>, DateTime), ParseError> {
    match read_field(b, bytes("DATE")) {
        None => Err(ParseError::MalformedField),
        Some((rest, v)) => match parsed_timestamp(v, bytes(DATE_FORMAT)) {
            Some(d) => Ok((rest, d)),
            None => Err(ParseError::MalformedDate),
        },
    }
}

/// Reads the `DATE` line and decodes its value as a timestamp.
pub fn date<'a>(input: &'a str) -> (r: Result<(&'a str, DateTime), ParseError>)
    ensures
        match r {
            Ok((rest, d)) => read_date(bytes(input)) == Ok::<_, ParseError>((bytes(rest), d)) && d.in_range()
                && bytes(rest).len() < bytes(input).len(),
            Err(e) => read_date(bytes(input)) == Err::<(Seq<u8>, DateTime), _>(e),
        },
{
    proof {
        reveal(read_date);
    }
    let (rest, value) = key_value(input, "DATE")?;
    match parse_timestamp(value, DATE_FORMAT) {
        Some(d) => Ok((rest, d)),
        None => Err(ParseError::MalformedDate),
    }
}

} // verus!
