//! The header of a post: its `KEY: value` lines in their fixed order.
use vstd::prelude::*;
use super::common::{
    author, date, key_value, lemma_read_date_append, lemma_read_field_append, lemma_read_field_miss,
    read_date, read_field, DateTime,
};
use super::error::ParseError;
use super::text::{
    all_digits, bytes, is_digit, lemma_first_byte, lemma_prefix_first,
};

verus! {

/// A post's header; its texts borrow from the export.
#[derive(Debug, PartialEq)]
pub struct Metadata<'a> {
    pub author: &'a str,
    pub title: &'a str,
    pub basename: &'a str,
    pub status: &'a str,
    pub allow_comments: bool,
    pub convert_breaks: bool,
    pub date: DateTime,
    pub image: Option<&'a str>,
    pub category: Vec<&'a str>,
}

/// A header with its texts as UTF-8 bytes.
pub struct MetadataModel {
    pub author: Seq<u8>,
    pub title: Seq<u8>,
    pub basename: Seq<u8>,
    pub status: Seq<u8>,
    pub allow_comments: bool,
    pub convert_breaks: bool,
    pub date: DateTime,
    pub image: Option<Seq<u8>>,
    pub category: Seq<Seq<u8>>,
}

pub open spec fn texts_view(s: Seq<&str>) -> Seq<Seq<u8>> {
    s.map_values(|t: &str| bytes(t))
}

pub open spec fn optional_text_view(t: Option<&str>) -> Option<Seq<u8>> {
    match t {
        Some(t) => Some(bytes(t)),
        None => None,
    }
}

impl<'a> View for Metadata<'a> {
    type V = MetadataModel;

    open spec fn view(&self) -> MetadataModel {
        MetadataModel {
            author: bytes(self.author),
            title: bytes(self.title),
            basename: bytes(self.basename),
            status: bytes(self.status),
            allow_comments: self.allow_comments,
            convert_breaks: self.convert_breaks,
            date: self.date,
            image: optional_text_view(self.image),
            category: texts_view(self.category@),
        }
    }
}

/// A flag's value: an unsigned integer written in decimal digits, true exactly when
/// it is not zero, that is when some digit is not `0`.
pub open spec fn decode_flag(v: Seq<u8>) -> Option<bool> {
    if v.len() > 0 && all_digits(v) {
        Some(exists|j: int| 0 <= j < v.len() && v[j] != 0x30)
    } else {
        None
    }
}

/// Reads the line `key: value` and decodes its value as a flag. Both failures are
/// `MalformedField`.
#[verifier::opaque]
pub open spec fn read_flag(b: Seq<u8>, key: Seq<u8>) -> Result<(Seq<u8>, bool), ParseError> {
    match read_field(b, key) {
        None => Err(ParseError::MalformedField),
        Some((rest, v)) => match decode_flag(v) {
            Some(f) => Ok((rest, f)),
            None => Err(ParseError::MalformedField),
        },
    }
}

/// Reads as many `CATEGORY` lines as follow one another.
pub open spec fn read_categories(b: Seq<u8>) -> (Seq<u8>, Seq<Seq<u8>>)
    decreases b.len(),
{
    match read_field(b, bytes("CATEGORY")) {
        Some((rest, v)) => if rest.len() < b.len() {
            let (last, vs) = read_categories(rest);
            (last, seq![v] + vs)
        } else {
            (b, Seq::empty())
        },
        None => (b, Seq::empty()),
    }
}

/// Reads an `IMAGE` line where one stands.
pub open spec fn read_image(b: Seq<u8>) -> (Seq<u8>, Option<Seq<u8>>) {
    match read_field(b, bytes("IMAGE")) {
        Some((rest, v)) => (rest, Some(v)),
        None => (b, None),
    }
}

/// Reads a post's header: `AUTHOR`, `TITLE`, `BASENAME`, `STATUS`, `ALLOW COMMENTS`,
/// `CONVERT BREAKS` and `DATE` in this order, then any `CATEGORY` lines, then an
/// optional `IMAGE` line. Stops at the first field it cannot read.
#[verifier::opaque]
pub open spec fn read_metadata(b: Seq<u8>) -> Result<(Seq<u8>, MetadataModel), ParseError> {
    match read_field(b, bytes("AUTHOR")) {
        None => Err(ParseError::MalformedField),
        Some((r1, author)) => match read_field(r1, bytes("TITLE")) {
            None => Err(ParseError::MalformedField),
            Some((r2, title)) => match read_field(r2, bytes("BASENAME")) {
                None => Err(ParseError::MalformedField),
                Some((r3, basename)) => match read_field(r3, bytes("STATUS")) {
                    None => Err(ParseError::MalformedField),
                    Some((r4, status)) => match read_flag(r4, bytes("ALLOW COMMENTS")) {
                        Err(e) => Err(e),
                        Ok((r5, allow_comments)) => match read_flag(r5, bytes("CONVERT BREAKS")) {
                            Err(e) => Err(e),
                            Ok((r6, convert_breaks)) => match read_date(r6) {
                                Err(e) => Err(e),
                                Ok((r7, date)) => {
                                    let (r8, category) = read_categories(r7);
                                    let (r9, image) = read_image(r8);
                                    Ok((
                                        r9,
                                        MetadataModel {
                                            author,
                                            title,
                                            basename,
                                            status,
                                            allow_comments,
                                            convert_breaks,
                                            date,
                                            image,
                                            category,
                                        },
                                    ))
                                },
                            },
                        },
                    },
                },
            },
        },
    }
}

proof fn lemma_read_flag_append(a: Seq<u8>, x: Seq<u8>, key: Seq<u8>)
    ensures
        read_flag(a, key) matches Ok((r, f)) ==> read_flag(a + x, key) == Ok::<_, ParseError>((r + x, f)),
{
    reveal(read_flag);
    lemma_read_field_append(a, x, key);
}

proof fn lemma_read_categories_append(a: Seq<u8>, x: Seq<u8>)
    requires
        read_categories(a).0.len() > 0,
        read_categories(a).0[0] != bytes("CATEGORY")[0],
    ensures
        read_categories(a + x) == (read_categories(a).0 + x, read_categories(a).1),
    decreases a.len(),
{
    reveal_strlit("CATEGORY");
    lemma_first_byte("CATEGORY");
    match read_field(a, bytes("CATEGORY")) {
        Some((rest, v)) => {
            if rest.len() < a.len() {
                lemma_read_field_append(a, x, bytes("CATEGORY"));
                lemma_read_categories_append(rest, x);
            } else {
                reveal(read_field);
                lemma_prefix_first(a, bytes("CATEGORY"));
            }
        },
        None => {
            lemma_read_field_miss(a + x, bytes("CATEGORY"));
        },
    }
}

/// A header read from `a`, with the body block to follow, reads the same once more
/// input follows it.
pub proof fn lemma_read_metadata_append(a: Seq<u8>, x: Seq<u8>)
    ensures
        read_metadata(a) matches Ok((r, m)) ==> (r.len() > 0 && r[0] == 0x2d ==> read_metadata(a + x)
            == Ok::<_, ParseError>((r + x, m))),
{
    reveal(read_metadata);
    if !(read_metadata(a) matches Ok((r, _)) && r.len() > 0 && r[0] == 0x2d) {
        return;
    }
    reveal_strlit("CATEGORY");
    reveal_strlit("IMAGE");
    lemma_first_byte("CATEGORY");
    lemma_first_byte("IMAGE");
    let (r1, _) = read_field(a, bytes("AUTHOR")).unwrap();
    lemma_read_field_append(a, x, bytes("AUTHOR"));
    let (r2, _) = read_field(r1, bytes("TITLE")).unwrap();
    lemma_read_field_append(r1, x, bytes("TITLE"));
    let (r3, _) = read_field(r2, bytes("BASENAME")).unwrap();
    lemma_read_field_append(r2, x, bytes("BASENAME"));
    let (r4, _) = read_field(r3, bytes("STATUS")).unwrap();
    lemma_read_field_append(r3, x, bytes("STATUS"));
    let (r5, _) = read_flag(r4, bytes("ALLOW COMMENTS")).unwrap();
    lemma_read_flag_append(r4, x, bytes("ALLOW COMMENTS"));
    let (r6, _) = read_flag(r5, bytes("CONVERT BREAKS")).unwrap();
    lemma_read_flag_append(r5, x, bytes("CONVERT BREAKS"));
    let (r7, _) = read_date(r6).unwrap();
    lemma_read_date_append(r6, x);
    let (r8, _) = read_categories(r7);
    match read_field(r8, bytes("IMAGE")) {
        Some((r9, _)) => {
            reveal(read_field);
            lemma_prefix_first(r8, bytes("IMAGE"));
            lemma_read_categories_append(r7, x);
            lemma_read_field_append(r8, x, bytes("IMAGE"));
        },
        None => {
            lemma_read_categories_append(r7, x);
            lemma_read_field_miss(r8 + x, bytes("IMAGE"));
        },
    }
}

/// Decodes a flag's value.
pub fn flag_value(v: &str) -> (r: Option<bool>)
    ensures
        r == decode_flag(bytes(v)),
{
    let b = v.as_bytes();
    if b.len() == 0 {
        return None;
    }
    let mut nonzero = false;
    let mut i: usize = 0;
    while i < b.len()
        invariant
            b@ == bytes(v),
            i <= b@.len(),
            forall|j: int| 0 <= j < i ==> is_digit(#[trigger] b@[j]),
            nonzero == (exists|j: int| 0 <= j < i && b@[j] != 0x30),
        decreases b@.len() - i,
    {
        if b[i] < 0x30 || b[i] > 0x39 {
            assert(!is_digit(b@[i as int]));
            assert(!all_digits(b@));
            return None;
        }
        if b[i] != 0x30 {
            nonzero = true;
        }
        i = i + 1;
    }
    Some(nonzero)
}

fn flag<'a>(input: &'a str, key: &str) -> (r: Result<(&'a str, bool), ParseError>)
    ensures
        match r {
            Ok((rest, f)) => read_flag(bytes(input), bytes(key)) == Ok::<_, ParseError>((bytes(rest), f)),
            Err(e) => read_flag(bytes(input), bytes(key)) == Err::<(Seq<u8>, bool), _>(e),
        },
{
    proof {
        reveal(read_flag);
    }
    let (rest, value) = key_value(input, key)?;
    match flag_value(value) {
        Some(f) => Ok((rest, f)),
        None => Err(ParseError::MalformedField),
    }
}

/// Reads the `TITLE` line.
pub fn title<'a>(input: &'a str) -> (r: Result<(&'a str, &'a str), ParseError>)
    ensures
        super::common::field_outcome(r, bytes(input), bytes("TITLE")),
{
    key_value(input, "TITLE")
}

/// Reads the `BASENAME` line.
pub fn basename<'a>(input: &'a str) -> (r: Result<(&'a str, &'a str), ParseError>)
    ensures
        super::common::field_outcome(r, bytes(input), bytes("BASENAME")),
{
    key_value(input, "BASENAME")
}

/// Reads the `STATUS` line.
pub fn status<'a>(input: &'a str) -> (r: Result<(&'a str, &'a str), ParseError>)
    ensures
        super::common::field_outcome(r, bytes(input), bytes("STATUS")),
{
    key_value(input, "STATUS")
}

/// Reads the `ALLOW COMMENTS` line as a flag.
pub fn allow_comments<'a>(input: &'a str) -> (r: Result<(&'a str, bool), ParseError>)
    ensures
        match r {
            Ok((rest, f)) => read_flag(bytes(input), bytes("ALLOW COMMENTS")) == Ok::<_, ParseError>((bytes(rest), f)),
            Err(e) => read_flag(bytes(input), bytes("ALLOW COMMENTS")) == Err::<(Seq<u8>, bool), _>(e),
        },
{
    flag(input, "ALLOW COMMENTS")
}

/// Reads the `CONVERT BREAKS` line as a flag.
pub fn convert_breaks<'a>(input: &'a str) -> (r: Result<(&'a str, bool), ParseError>)
    ensures
        match r {
            Ok((rest, f)) => read_flag(bytes(input), bytes("CONVERT BREAKS")) == Ok::<_, ParseError>((bytes(rest), f)),
            Err(e) => read_flag(bytes(input), bytes("CONVERT BREAKS")) == Err::<(Seq<u8>, bool), _>(e),
        },
{
    flag(input, "CONVERT BREAKS")
}

/// Reads the run of `CATEGORY` lines at the front of `input`, possibly empty; returns
/// the rest of the input and the categories in order of appearance.
pub fn category<'a>(input: &'a str) -> (r: (&'a str, Vec<&'a str>))
    ensures
        read_categories(bytes(input)) == (bytes(r.0), texts_view(r.1@)),
{
    let mut rest = input;
    let mut found: Vec<&'a str> = Vec::new();
    loop
        invariant
            ({
                let (last, vs) = read_categories(bytes(rest));
                read_categories(bytes(input)) == (last, texts_view(found@) + vs)
            }),
        decreases bytes(rest).len(),
    {
        match key_value(rest, "CATEGORY") {
            Ok((next, v)) => {
                let ghost before = found@;
                found.push(v);
                proof {
                    let (last, vs) = read_categories(bytes(next));
                    assert(texts_view(before) + (seq![bytes(v)] + vs) =~= texts_view(found@) + vs);
                }
                rest = next;
            },
            Err(_) => {
                assert(texts_view(found@) + Seq::<Seq<u8>>::empty() =~= texts_view(found@));
                return (rest, found);
            },
        }
    }
}

/// Reads an `IMAGE` line where one stands at the front of `input`.
pub fn image<'a>(input: &'a str) -> (r: (&'a str, Option<&'a str>))
    ensures
        read_image(bytes(input)) == (bytes(r.0), optional_text_view(r.1)),
{
    match key_value(input, "IMAGE") {
        Ok((rest, v)) => (rest, Some(v)),
        Err(_) => (input, None),
    }
}

/// Reads a post's header from the front of `input`; returns the rest of the input and
/// the header.
pub fn metadata<'a>(input: &'a str) -> (r: Result<(&'a str, Metadata<'a>), ParseError>)
    ensures
        match r {
            Ok((rest, m)) => read_metadata(bytes(input)) == Ok::<_, ParseError>((bytes(rest), m@)),
            Err(e) => read_metadata(bytes(input)) == Err::<(Seq<u8>, MetadataModel), _>(e),
        },
{
    proof {
        reveal(read_metadata);
    }
    let (input, author) = author(input)?;
    let (input, title) = title(input)?;
    let (input, basename) = basename(input)?;
    let (input, status) = status(input)?;
    let (input, allow_comments) = allow_comments(input)?;
    let (input, convert_breaks) = convert_breaks(input)?;
    let (input, date) = date(input)?;
    let (input, category) = category(input);
    let (input, image) = image(input);
    Ok((
        input,
        Metadata { author, title, basename, status, allow_comments, convert_breaks, date, image, category },
    ))
}

} // verus!
