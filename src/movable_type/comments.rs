//! The comment block of a post: reader comments, each with author, IP address,
//! timestamp and free text.
use vstd::prelude::*;
use super::common::{
    author, date, lemma_read_date_append, lemma_read_field_append, read_date, read_field, DateTime,
};
use super::error::ParseError;
use super::text::{
    after, bytes, bytes_at, decimal, digits_end, find_bytes, find_from, has_prefix,
    lemma_after_append, lemma_ascii_bytes, lemma_digits_end_append, lemma_find_from,
    lemma_find_from_append, lemma_first_byte, lemma_holds_at_append, lemma_prefix_first,
    read_small_number, rest_ascii, slice_ascii,
};

verus! {

/// An IPv4 address.
#[derive(Debug, Clone, Copy, PartialEq, Eq, Structural)]
pub struct IP(pub u8, pub u8, pub u8, pub u8);

impl IP {
    pub fn new(i: u8, j: u8, k: u8, l: u8) -> (r: IP)
        ensures
            r == IP(i, j, k, l),
    {
        IP(i, j, k, l)
    }
}

/// A reader comment; its texts borrow from the export.
#[derive(Debug, PartialEq)]
pub struct Comment<'a> {
    pub author: &'a str,
    pub ip: IP,
    pub date: DateTime,
    pub body: &'a str,
}

/// A comment with its texts as UTF-8 bytes.
pub struct CommentModel {
    pub author: Seq<u8>,
    pub ip: IP,
    pub date: DateTime,
    pub body: Seq<u8>,
}

impl<'a> View for Comment<'a> {
    type V = CommentModel;

    open spec fn view(&self) -> CommentModel {
        CommentModel { author: bytes(self.author), ip: self.ip, date: self.date, body: bytes(self.body) }
    }
}

/// Reads a number that fits in a byte at `i`, followed by the byte `sep`: the position
/// after `sep`, and the number.
pub open spec fn read_octet(b: Seq<u8>, i: int, sep: u8) -> Option<(int, u8)> {
    let e = digits_end(b, i);
    if i < e && decimal(b.subrange(i, e)) <= 255 && e < b.len() && b[e] == sep {
        Some((e + 1, decimal(b.subrange(i, e)) as u8))
    } else {
        None
    }
}

/// Reads the line `IP: a.b.c.d` ended by a line feed. Without the `IP: ` key the
/// error is `MalformedField`; any fault after it is `MalformedIp`.
#[verifier::opaque]
pub open spec fn read_ip(b: Seq<u8>) -> Result<(Seq<u8>, IP), ParseError> {
    let key = bytes("IP: ");
    if !has_prefix(b, key) {
        Err(ParseError::MalformedField)
    } else {
        match read_octet(b, key.len() as int, 0x2e) {
            None => Err(ParseError::MalformedIp),
            Some((n1, x1)) => match read_octet(b, n1, 0x2e) {
                None => Err(ParseError::MalformedIp),
                Some((n2, x2)) => match read_octet(b, n2, 0x2e) {
                    None => Err(ParseError::MalformedIp),
                    Some((n3, x3)) => match read_octet(b, n3, 0x0a) {
                        None => Err(ParseError::MalformedIp),
                        Some((n4, x4)) => Ok((after(b, n4), IP(x1, x2, x3, x4))),
                    },
                },
            },
        }
    }
}

fn octet(b: &[u8], i: usize, sep: u8) -> (r: Option<(usize, u8)>)
    requires
        i <= b@.len(),
    ensures
        match r {
            Some((p, v)) => read_octet(b@, i as int, sep) == Some((p as int, v)) && i < p <= b@.len()
                && b@[p - 1] == sep,
            None => read_octet(b@, i as int, sep) is None,
        },
{
    match read_small_number(b, i) {
        Some((e, v)) => {
            if e < b.len() && b[e] == sep {
                Some((e + 1, v))
            } else {
                None
            }
        },
        None => None,
    }
}

/// Reads the `IP` line.
pub fn ip<'a>(input: &'a str) -> (r: Result<(&'a str, IP), ParseError>)
    ensures
        match r {
            Ok((rest, a)) => read_ip(bytes(input)) == Ok::<_, ParseError>((bytes(rest), a))
                && bytes(rest).len() < bytes(input).len(),
            Err(e) => read_ip(bytes(input)) == Err::<(Seq<u8>, IP), _>(e),
        },
{
    let key = "IP: ";
    proof {
        reveal(read_ip);
        reveal_strlit("IP: ");
        assert(vstd::string::is_ascii(key));
        lemma_ascii_bytes(key);
    }
    let b = input.as_bytes();
    if !bytes_at(b, 0, key.as_bytes()) {
        return Err(ParseError::MalformedField);
    }
    let (n1, x1) = match octet(b, key.as_bytes().len(), 0x2e) {
        Some(o) => o,
        None => return Err(ParseError::MalformedIp),
    };
    let (n2, x2) = match octet(b, n1, 0x2e) {
        Some(o) => o,
        None => return Err(ParseError::MalformedIp),
    };
    let (n3, x3) = match octet(b, n2, 0x2e) {
        Some(o) => o,
        None => return Err(ParseError::MalformedIp),
    };
    let (n4, x4) = match octet(b, n3, 0x0a) {
        Some(o) => o,
        None => return Err(ParseError::MalformedIp),
    };
    Ok((rest_ascii(input, n4), IP::new(x1, x2, x3, x4)))
}

/// Reads a comment's free text: everything up to the delimiter line `-----` that
/// starts a line, either at once or after a line feed, which stays with the text.
#[verifier::opaque]
pub open spec fn read_comment_body(b: Seq<u8>) -> Option<(Seq<u8>, Seq<u8>)> {
    if has_prefix(b, bytes("-----\n")) {
        Some((b, Seq::empty()))
    } else {
        match find_from(b, bytes("\n-----\n"), 0) {
            Some(k) => Some((after(b, k + 1), b.subrange(0, k + 1))),
            None => None,
        }
    }
}

fn comment_body<'a>(input: &'a str) -> (r: Result<(&'a str, &'a str), ParseError>)
    ensures
        match r {
            Ok((rest, text)) => read_comment_body(bytes(input)) == Some((bytes(rest), bytes(text)))
                && bytes(rest).len() <= bytes(input).len(),
            Err(e) => read_comment_body(bytes(input)) is None && e == ParseError::MalformedField,
        },
{
    let delimiter = "-----\n";
    let marker = "\n-----\n";
    proof {
        reveal(read_comment_body);
        reveal_strlit("-----\n");
        reveal_strlit("\n-----\n");
        assert(vstd::string::is_ascii(delimiter));
        assert(vstd::string::is_ascii(marker));
        lemma_ascii_bytes(delimiter);
        lemma_ascii_bytes(marker);
    }
    let b = input.as_bytes();
    if bytes_at(b, 0, delimiter.as_bytes()) {
        let text = slice_ascii(input, 0, 0);
        assert(bytes(input).subrange(0, 0) =~= Seq::<u8>::empty());
        return Ok((input, text));
    }
    match find_bytes(b, marker.as_bytes(), 0) {
        Some(k) => {
            assert(b@[k as int] == b@.subrange(k as int, k + 7)[0]);
            assert(k + 1 <= b.len());
            Ok((rest_ascii(input, k + 1), slice_ascii(input, 0, k + 1)))
        },
        None => Err(ParseError::MalformedField),
    }
}

/// Reads one comment record: the line `COMMENT:`, the `AUTHOR`, `IP` and `DATE` lines,
/// the free text, and the delimiter line `-----` that ends it.
#[verifier::opaque]
pub open spec fn read_comment(b: Seq<u8>) -> Result<(Seq<u8>, CommentModel), ParseError> {
    let marker = bytes("COMMENT:\n");
    if !has_prefix(b, marker) {
        Err(ParseError::MalformedField)
    } else {
        match read_field(after(b, marker.len() as int), bytes("AUTHOR")) {
            None => Err(ParseError::MalformedField),
            Some((r1, who)) => match read_ip(r1) {
                Err(e) => Err(e),
                Ok((r2, address)) => match read_date(r2) {
                    Err(e) => Err(e),
                    Ok((r3, when)) => match read_comment_body(r3) {
                        None => Err(ParseError::MalformedField),
                        Some((r4, text)) => if has_prefix(r4, bytes("-----\n")) {
                            Ok((
                                after(r4, bytes("-----\n").len() as int),
                                CommentModel { author: who, ip: address, date: when, body: text },
                            ))
                        } else {
                            Err(ParseError::MalformedField)
                        },
                    },
                },
            },
        }
    }
}

/// Consumes `marker` from the front of `input`, where it stands there.
fn skip_marker<'a>(input: &'a str, marker: &str) -> (r: Option<&'a str>)
    requires
        vstd::string::is_ascii(marker),
    ensures
        match r {
            Some(rest) => has_prefix(bytes(input), bytes(marker)) && bytes(rest) == after(bytes(input), bytes(marker).len() as int),
            None => !has_prefix(bytes(input), bytes(marker)),
        },
{
    proof {
        lemma_ascii_bytes(marker);
    }
    let b = input.as_bytes();
    let m = marker.as_bytes();
    if !bytes_at(b, 0, m) {
        return None;
    }
    if m.len() > 0 {
        assert(b@[m.len() - 1] == b@.subrange(0, m@.len() as int)[m.len() - 1]);
    }
    Some(rest_ascii(input, m.len()))
}

/// Reads one comment record.
pub fn comment<'a>(input: &'a str) -> (r: Result<(&'a str, Comment<'a>), ParseError>)
    ensures
        match r {
            Ok((rest, c)) => read_comment(bytes(input)) == Ok::<_, ParseError>((bytes(rest), c@))
                && bytes(rest).len() < bytes(input).len(),
            Err(e) => read_comment(bytes(input)) == Err::<(Seq<u8>, CommentModel), _>(e),
        },
{
    proof {
        reveal_strlit("COMMENT:\n");
        reveal_strlit("-----\n");
        reveal(read_comment);
    }
    let r0 = match skip_marker(input, "COMMENT:\n") {
        Some(rest) => rest,
        None => return Err(ParseError::MalformedField),
    };
    assert(bytes(r0).len() < bytes(input).len());
    let (r1, who) = author(r0)?;
    assert(bytes(r1).len() <= bytes(r0).len());
    let (r2, address) = ip(r1)?;
    assert(bytes(r2).len() <= bytes(r1).len());
    let (r3, when) = date(r2)?;
    assert(bytes(r3).len() <= bytes(r2).len());
    let (r4, text) = comment_body(r3)?;
    assert(bytes(r4).len() <= bytes(r3).len());
    let r5 = match skip_marker(r4, "-----\n") {
        Some(rest) => rest,
        None => return Err(ParseError::MalformedField),
    };
    Ok((r5, Comment { author: who, ip: address, date: when, body: text }))
}

proof fn lemma_read_octet_append(a: Seq<u8>, x: Seq<u8>, i: int, sep: u8)
    requires
        0 <= i,
    ensures
        read_octet(a, i, sep) matches Some(o) ==> read_octet(a + x, i, sep) == Some(o),
{
    let e = digits_end(a, i);
    if read_octet(a, i, sep) is Some {
        lemma_digits_end_append(a, x, i);
        assert((a + x).subrange(i, e) =~= a.subrange(i, e));
        assert((a + x)[e] == a[e]);
    }
}

proof fn lemma_read_ip_append(a: Seq<u8>, x: Seq<u8>)
    ensures
        read_ip(a) matches Ok((r, v)) ==> read_ip(a + x) == Ok::<_, ParseError>((r + x, v)),
{
    reveal(read_ip);
    if read_ip(a) is Err {
        return;
    }
    let key = bytes("IP: ");
    lemma_holds_at_append(a, x, 0, key);
    let (n1, _) = read_octet(a, key.len() as int, 0x2e)->Some_0;
    lemma_read_octet_append(a, x, key.len() as int, 0x2e);
    let (n2, _) = read_octet(a, n1, 0x2e)->Some_0;
    lemma_read_octet_append(a, x, n1, 0x2e);
    let (n3, _) = read_octet(a, n2, 0x2e)->Some_0;
    lemma_read_octet_append(a, x, n2, 0x2e);
    let (n4, _) = read_octet(a, n3, 0x0a)->Some_0;
    lemma_read_octet_append(a, x, n3, 0x0a);
    lemma_after_append(a, x, n4);
}

proof fn lemma_read_comment_body_append(a: Seq<u8>, x: Seq<u8>)
    ensures
        read_comment_body(a) matches Some((r, t)) ==> read_comment_body(a + x) == Some((r + x, t)),
{
    reveal(read_comment_body);
    if read_comment_body(a) is None {
        return;
    }
    let delimiter = bytes("-----\n");
    let marker = bytes("\n-----\n");
    if has_prefix(a, delimiter) {
        lemma_holds_at_append(a, x, 0, delimiter);
    } else {
        reveal_strlit("-----\n");
        reveal_strlit("\n-----\n");
        vstd::string::is_ascii_spec_bytes("-----\n");
        vstd::string::is_ascii_spec_bytes("\n-----\n");
        let k = find_from(a, marker, 0)->Some_0;
        lemma_find_from(a, marker, 0);
        lemma_find_from_append(a, x, marker, 0);
        assert(k + 7 <= a.len());
        if has_prefix(a + x, delimiter) {
            assert((a + x).subrange(0, 6) =~= a.subrange(0, 6));
        }
        assert((a + x).subrange(0, k + 1) =~= a.subrange(0, k + 1));
        lemma_after_append(a, x, k + 1);
    }
}

/// A comment record read from `a` reads the same once more input follows it.
pub proof fn lemma_read_comment_append(a: Seq<u8>, x: Seq<u8>)
    ensures
        read_comment(a) matches Ok((r, c)) ==> read_comment(a + x) == Ok::<_, ParseError>((r + x, c))
            && has_prefix(a, bytes("COMMENT:\n")),
{
    reveal(read_comment);
    if read_comment(a) is Err {
        return;
    }
    let marker = bytes("COMMENT:\n");
    lemma_holds_at_append(a, x, 0, marker);
    let r0 = after(a, marker.len() as int);
    lemma_after_append(a, x, marker.len() as int);
    let (r1, _) = read_field(r0, bytes("AUTHOR")).unwrap();
    lemma_read_field_append(r0, x, bytes("AUTHOR"));
    let (r2, _) = read_ip(r1).unwrap();
    lemma_read_ip_append(r1, x);
    let (r3, _) = read_date(r2).unwrap();
    lemma_read_date_append(r2, x);
    let (r4, _) = read_comment_body(r3).unwrap();
    lemma_read_comment_body_append(r3, x);
    lemma_holds_at_append(r4, x, 0, bytes("-----\n"));
    lemma_after_append(r4, x, bytes("-----\n").len() as int);
}

/// Puts the comments already read in front of what the rest of the list gives.
pub open spec fn prepend(
    seen: Seq<CommentModel>,
    r: Result<(Seq<u8>, Seq<CommentModel>), ParseError>,
) -> Result<(Seq<u8>, Seq<CommentModel>), ParseError> {
    match r {
        Ok((rest, cs)) => Ok((rest, seen + cs)),
        Err(e) => Err(e),
    }
}

/// Reads comment records until the terminator line `--------`.
pub open spec fn read_comment_list(b: Seq<u8>) -> Result<(Seq<u8>, Seq<CommentModel>), ParseError>
    decreases b.len(),
{
    let end = bytes("--------\n");
    if has_prefix(b, end) {
        Ok((after(b, end.len() as int), Seq::empty()))
    } else {
        match read_comment(b) {
            Err(e) => Err(e),
            Ok((rest, c)) => if rest.len() < b.len() {
                prepend(seq![c], read_comment_list(rest))
            } else {
                Err(ParseError::MalformedField)
            },
        }
    }
}

proof fn lemma_list_step(b: Seq<u8>, rest: Seq<u8>, c: CommentModel)
    requires
        !has_prefix(b, bytes("--------\n")),
        read_comment(b) == Ok::<_, ParseError>((rest, c)),
        rest.len() < b.len(),
    ensures
        read_comment_list(b) == prepend(seq![c], read_comment_list(rest)),
{
}

proof fn lemma_prepend_push(
    seen: Seq<CommentModel>,
    c: CommentModel,
    r: Result<(Seq<u8>, Seq<CommentModel>), ParseError>,
)
    ensures
        prepend(seen, prepend(seq![c], r)) == prepend(seen.push(c), r),
{
    match r {
        Ok((rest, cs)) => {
            assert(seen + (seq![c] + cs) =~= seen.push(c) + cs);
        },
        Err(_) => {},
    }
}

/// Reads a comment block: the line `-----`, then comment records until `--------`.
pub open spec fn read_comments(b: Seq<u8>) -> Result<(Seq<u8>, Seq<CommentModel>), ParseError> {
    let open = bytes("-----\n");
    if has_prefix(b, open) {
        read_comment_list(after(b, open.len() as int))
    } else {
        Err(ParseError::MalformedField)
    }
}

proof fn lemma_read_comment_list_append(a: Seq<u8>, x: Seq<u8>)
    ensures
        read_comment_list(a) matches Ok((r, cs)) ==> read_comment_list(a + x) == Ok::<_, ParseError>((r + x, cs)),
    decreases a.len(),
{
    reveal_strlit("--------\n");
    reveal_strlit("COMMENT:\n");
    lemma_first_byte("--------\n");
    lemma_first_byte("COMMENT:\n");
    let end = bytes("--------\n");
    if read_comment_list(a) is Err {
        return;
    }
    if has_prefix(a, end) {
        lemma_holds_at_append(a, x, 0, end);
        lemma_after_append(a, x, end.len() as int);
    } else {
        let (rest, c) = read_comment(a).unwrap();
        lemma_read_comment_append(a, x);
        lemma_prefix_first(a, bytes("COMMENT:\n"));
        if has_prefix(a + x, end) {
            lemma_prefix_first(a + x, end);
            assert((a + x)[0] == a[0]);
        }
        lemma_read_comment_list_append(rest, x);
    }
}

/// A comment block read from `a` reads the same once more input follows it.
pub proof fn lemma_read_comments_append(a: Seq<u8>, x: Seq<u8>)
    ensures
        read_comments(a) matches Ok((r, cs)) ==> read_comments(a + x) == Ok::<_, ParseError>((r + x, cs)),
{
    let open = bytes("-----\n");
    if read_comments(a) is Ok {
        lemma_holds_at_append(a, x, 0, open);
        lemma_after_append(a, x, open.len() as int);
        lemma_read_comment_list_append(after(a, open.len() as int), x);
    }
}

pub open spec fn comments_view(cs: Seq<Comment>) -> Seq<CommentModel> {
    cs.map_values(|c: Comment| c@)
}

/// Reads the comment block at the front of `input`; returns the rest of the input and
/// the comments in document order.
pub fn comments<'a>(input: &'a str) -> (r: Result<(&'a str, Vec<Comment<'a>>), ParseError>)
    ensures
        match r {
            Ok((rest, cs)) => read_comments(bytes(input)) == Ok::<_, ParseError>((bytes(rest), comments_view(cs@))),
            Err(e) => read_comments(bytes(input)) == Err::<(Seq<u8>, Seq<CommentModel>), _>(e),
        },
{
    proof {
        reveal_strlit("-----\n");
        reveal_strlit("--------\n");
    }
    let mut rest = match skip_marker(input, "-----\n") {
        Some(rest) => rest,
        None => return Err(ParseError::MalformedField),
    };
    let ghost start = bytes(rest);
    let mut found: Vec<Comment<'a>> = Vec::new();
    loop
        invariant
            read_comments(bytes(input)) == read_comment_list(start),
            read_comment_list(start) == prepend(comments_view(found@), read_comment_list(bytes(rest))),
        decreases bytes(rest).len(),
    {
        proof {
            reveal_strlit("--------\n");
        }
        if let Some(after_end) = skip_marker(rest, "--------\n") {
            assert(comments_view(found@) + Seq::<CommentModel>::empty() =~= comments_view(found@));
            return Ok((after_end, found));
        }
        let (next, c) = comment(rest)?;
        let ghost before = found@;
        found.push(c);
        proof {
            lemma_list_step(bytes(rest), bytes(next), c@);
            lemma_prepend_push(comments_view(before), c@, read_comment_list(bytes(next)));
            assert(comments_view(found@) =~= comments_view(before).push(c@));
        }
        rest = next;
    }
}

} // verus!
