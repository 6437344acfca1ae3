//! Byte-level helpers shared by the export decoders.
//!
//! Every delimiter of the export format is ASCII, so the decoders scan the UTF-8
//! bytes of the input and cut it only in front of an ASCII byte or at either end,
//! which is always a character boundary.
use vstd::prelude::*;
use vstd::string::StringSliceAdditionalSpecFns;
use vstd::utf8::*;

verus! {

/// The UTF-8 bytes of a string slice.
pub open spec fn bytes(s: &str) -> Seq<u8> {
    s.spec_bytes()
}

/// `i` is a place where the byte sequence `b` may be cut without splitting a character:
/// an end, or next to an ASCII byte.
pub open spec fn ascii_cut(b: Seq<u8>, i: int) -> bool {
    ||| i == 0
    ||| i == b.len()
    ||| (0 <= i < b.len() && b[i] < 0x80)
    ||| (0 < i <= b.len() && b[i - 1] < 0x80)
}

/// `b` holds `p` at position `at`.
pub open spec fn holds_at(b: Seq<u8>, at: int, p: Seq<u8>) -> bool {
    0 <= at && at + p.len() <= b.len() && b.subrange(at, at + p.len()) == p
}

/// `b` begins with `p`.
pub open spec fn has_prefix(b: Seq<u8>, p: Seq<u8>) -> bool {
    holds_at(b, 0, p)
}

/// What follows position `n` of `b`.
pub open spec fn after(b: Seq<u8>, n: int) -> Seq<u8> {
    b.subrange(n, b.len() as int)
}

/// The first position at or after `from` where `p` occurs in `b`.
pub open spec fn find_from(b: Seq<u8>, p: Seq<u8>, from: int) -> Option<int>
    decreases b.len() + 1 - from,
{
    if from < 0 || from + p.len() > b.len() {
        None
    } else if holds_at(b, from, p) {
        Some(from)
    } else {
        find_from(b, p, from + 1)
    }
}

/// A found position lies at or after the start and holds the pattern.
pub proof fn lemma_find_from(b: Seq<u8>, p: Seq<u8>, from: int)
    ensures
        find_from(b, p, from) matches Some(k) ==> from <= k && holds_at(b, k, p),
    decreases b.len() + 1 - from,
{
    if !(from < 0 || from + p.len() > b.len()) && !holds_at(b, from, p) {
        lemma_find_from(b, p, from + 1);
    }
}

pub open spec fn is_digit(c: u8) -> bool {
    0x30 <= c <= 0x39
}

/// The position just past the run of ASCII digits that starts at `i`.
pub open spec fn digits_end(b: Seq<u8>, i: int) -> int
    decreases b.len() - i,
{
    if 0 <= i < b.len() && is_digit(b[i]) {
        digits_end(b, i + 1)
    } else {
        i
    }
}

/// The number that a run of ASCII digits writes in decimal.
pub open spec fn decimal(s: Seq<u8>) -> int
    decreases s.len(),
{
    if s.len() == 0 {
        0
    } else {
        decimal(s.drop_last()) * 10 + (s.last() - 0x30)
    }
}

pub open spec fn all_digits(s: Seq<u8>) -> bool {
    forall|j: int| 0 <= j < s.len() ==> is_digit(#[trigger] s[j])
}

/// The run of digits at `i` ends at or after `i`, and holds digits only.
pub proof fn lemma_digits_end(b: Seq<u8>, i: int)
    requires
        0 <= i <= b.len(),
    ensures
        i <= digits_end(b, i) <= b.len(),
        all_digits(b.subrange(i, digits_end(b, i))),
        digits_end(b, i) < b.len() ==> !is_digit(b[digits_end(b, i)]),
    decreases b.len() - i,
{
    if i < b.len() && is_digit(b[i]) {
        lemma_digits_end(b, i + 1);
        let e = digits_end(b, i);
        assert forall|j: int| 0 <= j < e - i implies is_digit(#[trigger] b.subrange(i, e)[j]) by {
            if j > 0 {
                assert(b.subrange(i, e)[j] == b.subrange(i + 1, e)[j - 1]);
            }
        }
    }
}

/// A number written in digits is at least the number its first digits write.
pub proof fn lemma_decimal_prefix(s: Seq<u8>, k: int)
    requires
        0 <= k <= s.len(),
        all_digits(s),
    ensures
        0 <= decimal(s.subrange(0, k)) <= decimal(s),
    decreases s.len(),
{
    if s.len() > 0 {
        if k == s.len() {
            assert(s.subrange(0, k) =~= s);
            lemma_decimal_prefix(s.drop_last(), s.len() - 1);
            assert(s.drop_last().subrange(0, s.len() - 1) =~= s.drop_last());
        } else {
            assert(all_digits(s.drop_last()));
            lemma_decimal_prefix(s.drop_last(), k);
            assert(s.drop_last().subrange(0, k) =~= s.subrange(0, k));
            lemma_decimal_prefix(s.drop_last(), s.len() - 1);
            assert(s.drop_last().subrange(0, s.len() - 1) =~= s.drop_last());
        }
    }
}

/// What follows position `n` of `a`, with `x` appended after it.
pub proof fn lemma_after_append(a: Seq<u8>, x: Seq<u8>, n: int)
    requires
        0 <= n <= a.len(),
    ensures
        after(a + x, n) == after(a, n) + x,
{
    assert(after(a + x, n) =~= after(a, n) + x);
}

/// A pattern found inside `a` is still there once `x` is appended.
pub proof fn lemma_holds_at_append(a: Seq<u8>, x: Seq<u8>, at: int, p: Seq<u8>)
    requires
        0 <= at,
        at + p.len() <= a.len(),
    ensures
        holds_at(a + x, at, p) == holds_at(a, at, p),
{
    assert((a + x).subrange(at, at + p.len()) =~= a.subrange(at, at + p.len()));
}

/// The first occurrence of a pattern inside `a` stays the first once `x` is appended.
pub proof fn lemma_find_from_append(a: Seq<u8>, x: Seq<u8>, p: Seq<u8>, from: int)
    requires
        find_from(a, p, from) is Some,
    ensures
        find_from(a + x, p, from) == find_from(a, p, from),
    decreases a.len() + 1 - from,
{
    lemma_find_from(a, p, from);
    lemma_holds_at_append(a, x, from, p);
    if !holds_at(a, from, p) {
        lemma_find_from_append(a, x, p, from + 1);
    }
}

/// A run of digits that ends inside `a` ends at the same place once `x` is appended.
pub proof fn lemma_digits_end_append(a: Seq<u8>, x: Seq<u8>, i: int)
    requires
        0 <= i,
        digits_end(a, i) < a.len(),
    ensures
        digits_end(a + x, i) == digits_end(a, i),
    decreases a.len() - i,
{
    if i < a.len() && is_digit(a[i]) {
        lemma_digits_end_append(a, x, i + 1);
    }
}

/// The first byte of a non-empty ASCII string is its first character.
pub proof fn lemma_first_byte(s: &str)
    requires
        vstd::string::is_ascii(s),
        s@.len() > 0,
    ensures
        bytes(s).len() == s@.len(),
        bytes(s)[0] == s@[0] as u8,
{
    vstd::string::is_ascii_spec_bytes(s);
}

/// A sequence that begins with a non-empty pattern begins with its first byte.
pub proof fn lemma_prefix_first(b: Seq<u8>, p: Seq<u8>)
    requires
        has_prefix(b, p),
        p.len() > 0,
    ensures
        b.len() > 0,
        b[0] == p[0],
{
    assert(b.subrange(0, p.len() as int)[0] == b[0]);
}

proof fn lemma_valid(s: &str)
    ensures
        valid_utf8(s.spec_bytes()),
{
    encode_utf8_valid_utf8(s@);
}

proof fn lemma_follows_ascii(b: Seq<u8>, i: int)
    requires
        valid_utf8(b),
        0 < i < b.len(),
        b[i - 1] < 0x80,
    ensures
        !is_continuation_byte(b[i]),
{
    is_char_boundary_iff_not_is_continuation_byte(b, i - 1);
    valid_utf8_split(b, i - 1);
    let t = b.subrange(i - 1, b.len() as int);
    let u = b.subrange(i, b.len() as int);
    assert(t[0] == b[i - 1]);
    assert(valid_utf8(t));
    assert(pop_first_scalar(t) =~= u);
    assert(valid_utf8(u));
    assert(u[0] == b[i]);
    assert(valid_first_scalar(u));
}

proof fn lemma_ascii_cut_is_boundary(s: &str, mid: int)
    requires
        0 <= mid <= s.spec_bytes().len(),
        ascii_cut(s.spec_bytes(), mid),
    ensures
        is_char_boundary(s.spec_bytes(), mid),
{
    let b = s.spec_bytes();
    lemma_valid(s);
    is_char_boundary_start_end_of_seq(b);
    if 0 < mid < b.len() {
        if b[mid - 1] < 0x80 {
            lemma_follows_ascii(b, mid);
        }
        is_char_boundary_iff_not_is_continuation_byte(b, mid);
    }
}

/// Every byte of an ASCII string is below 0x80, one byte per character.
pub proof fn lemma_ascii_bytes(s: &str)
    requires
        vstd::string::is_ascii(s),
    ensures
        bytes(s).len() == s@.len(),
        forall|i: int| 0 <= i < bytes(s).len() ==> #[trigger] bytes(s)[i] < 0x80,
{
    vstd::string::is_ascii_spec_bytes(s);
}

/// Splits `s` at byte position `mid`, which lies in front of an ASCII byte or at an end.
pub fn split_ascii<'a>(s: &'a str, mid: usize) -> (r: (&'a str, &'a str))
    requires
        mid <= bytes(s).len(),
        ascii_cut(bytes(s), mid as int),
    ensures
        bytes(r.0) == bytes(s).subrange(0, mid as int),
        bytes(r.1) == after(bytes(s), mid as int),
{
    proof {
        lemma_ascii_cut_is_boundary(s, mid as int);
    }
    s.split_at(mid)
}

/// The part of `s` between byte positions `from` and `to`, both ASCII cuts.
pub fn slice_ascii<'a>(s: &'a str, from: usize, to: usize) -> (r: &'a str)
    requires
        from <= to <= bytes(s).len(),
        ascii_cut(bytes(s), from as int),
        ascii_cut(bytes(s), to as int),
    ensures
        bytes(r) == bytes(s).subrange(from as int, to as int),
{
    let (head, _) = split_ascii(s, to);
    let ghost hb = bytes(head);
    assert(ascii_cut(hb, from as int));
    let (_, mid) = split_ascii(head, from);
    assert(bytes(mid) =~= bytes(s).subrange(from as int, to as int));
    mid
}

/// The part of `s` from byte position `from` on, which is an ASCII cut.
pub fn rest_ascii<'a>(s: &'a str, from: usize) -> (r: &'a str)
    requires
        from <= bytes(s).len(),
        ascii_cut(bytes(s), from as int),
    ensures
        bytes(r) == after(bytes(s), from as int),
{
    let (_, rest) = split_ascii(s, from);
    rest
}

/// Whether `b` holds `p` at position `at`.
pub fn bytes_at(b: &[u8], at: usize, p: &[u8]) -> (r: bool)
    ensures
        r == holds_at(b@, at as int, p@),
{
    if p.len() > b.len() || at > b.len() - p.len() {
        return false;
    }
    let mut i: usize = 0;
    while i < p.len()
        invariant
            at + p@.len() <= b@.len(),
            p@.len() == p.len(),
            b@.len() == b.len(),
            0 <= i <= p@.len(),
            forall|j: int| 0 <= j < i ==> b@[at + j] == p@[j],
        decreases p@.len() - i,
    {
        if b[at + i] != p[i] {
            assert(b@.subrange(at as int, at + p@.len())[i as int] != p@[i as int]);
            return false;
        }
        i = i + 1;
    }
    assert(b@.subrange(at as int, at + p@.len()) =~= p@);
    true
}

/// The first position at or after `from` where `p` occurs in `b`.
pub fn find_bytes(b: &[u8], p: &[u8], from: usize) -> (r: Option<usize>)
    ensures
        match r {
            Some(i) => find_from(b@, p@, from as int) == Some(i as int) && from <= i
                && holds_at(b@, i as int, p@),
            None => find_from(b@, p@, from as int) is None,
        },
{
    if p.len() > b.len() || from > b.len() - p.len() {
        return None;
    }
    if p.len() == 0 {
        assert(holds_at(b@, from as int, p@)) by {
            assert(b@.subrange(from as int, from as int) =~= p@);
        }
        return Some(from);
    }
    proof {
        lemma_find_from(b@, p@, from as int);
    }
    let mut i = from;
    while i <= b.len() - p.len()
        invariant
            0 < p@.len() <= b@.len(),
            from <= i,
            find_from(b@, p@, from as int) == find_from(b@, p@, i as int),
        decreases b@.len() - i,
    {
        if bytes_at(b, i, p) {
            return Some(i);
        }
        i = i + 1;
    }
    None
}

/// Reads the run of ASCII digits at `i` as a number that fits in a byte: the end of
/// the run and the number. Fails where the run is empty or writes a larger number.
pub fn read_small_number(b: &[u8], i: usize) -> (r: Option<(usize, u8)>)
    requires
        i <= b@.len(),
    ensures
        match r {
            Some((e, v)) => e == digits_end(b@, i as int) && i < e && decimal(b@.subrange(i as int, e as int)) == v,
            None => digits_end(b@, i as int) == i || decimal(b@.subrange(i as int, digits_end(b@, i as int))) > 255,
        },
{
    let mut e: usize = i;
    let mut v: u32 = 0;
    proof {
        lemma_digits_end(b@, i as int);
        assert(b@.subrange(i as int, i as int) =~= Seq::<u8>::empty());
    }
    while e < b.len() && 0x30 <= b[e] && b[e] <= 0x39
        invariant
            i <= e <= b@.len(),
            b@.len() == b.len(),
            v <= 255,
            v == decimal(b@.subrange(i as int, e as int)),
            digits_end(b@, i as int) == digits_end(b@, e as int),
            i <= digits_end(b@, i as int) <= b@.len(),
            all_digits(b@.subrange(i as int, digits_end(b@, i as int))),
        decreases b@.len() - e,
    {
        assert(b@.subrange(i as int, e + 1).drop_last() =~= b@.subrange(i as int, e as int));
        v = v * 10 + (b[e] - 0x30) as u32;
        if v > 255 {
            proof {
                let d = digits_end(b@, i as int);
                let run = b@.subrange(i as int, d);
                lemma_digits_end(b@, e + 1);
                assert(run.subrange(0, e + 1 - i) =~= b@.subrange(i as int, e + 1));
                lemma_decimal_prefix(run, e + 1 - i);
            }
            return None;
        }
        e = e + 1;
    }
    if e == i {
        return None;
    }
    Some((e, v as u8))
}

/// Whether two string slices hold the same characters.
pub fn same_text(a: &str, b: &str) -> (r: bool)
    ensures
        r == (a@ == b@),
{
    let x = a.as_bytes();
    let y = b.as_bytes();
    if x.len() != y.len() {
        return false;
    }
    let equal = bytes_at(x, 0, y);
    proof {
        encode_utf8_decode_utf8(a@);
        encode_utf8_decode_utf8(b@);
        assert(x@.subrange(0, y@.len() as int) =~= x@);
    }
    equal
}

} // verus!
