//! Whether the tags of an embedded HTML document nest properly: every element that
//! is opened is closed, in reverse order of opening, and nothing is closed that is
//! not open. Void elements (`br`, `img`, ...) and self-closing tags open nothing;
//! comments and declarations are skipped.
use vstd::prelude::*;
use super::text::{bytes, bytes_at, find_bytes, find_from, holds_at, lemma_ascii_bytes};

verus! {

pub open spec fn is_letter(c: u8) -> bool {
    (0x41 <= c <= 0x5a) || (0x61 <= c <= 0x7a)
}

pub open spec fn is_name_byte(c: u8) -> bool {
    is_letter(c) || (0x30 <= c <= 0x39) || c == 0x2d
}

/// The position just past the tag name that starts at `i`.
pub open spec fn name_end(b: Seq<u8>, i: int) -> int
    decreases b.len() - i,
{
    if 0 <= i < b.len() && is_name_byte(b[i]) {
        name_end(b, i + 1)
    } else {
        i
    }
}

/// Elements that never have content, so that their tags open nothing.
pub open spec fn is_void(name: Seq<u8>) -> bool {
    ||| name == bytes("br")
    ||| name == bytes("img")
    ||| name == bytes("hr")
    ||| name == bytes("input")
    ||| name == bytes("meta")
    ||| name == bytes("link")
    ||| name == bytes("wbr")
}

/// One step of the scan at position `i`, with the names of the open elements: the
/// next position and the open elements after it, or nothing where the nesting breaks.
pub open spec fn markup_step(b: Seq<u8>, i: int, open: Seq<Seq<u8>>) -> Option<(int, Seq<Seq<u8>>)> {
    if b[i] != 0x3c || i + 1 >= b.len() {
        Some((i + 1, open))
    } else if b[i + 1] == 0x2f {
        let e = name_end(b, i + 2);
        match find_from(b, bytes(">"), e) {
            Some(k) => if open.len() > 0 && open.last() == b.subrange(i + 2, e) {
                Some((k + 1, open.drop_last()))
            } else {
                None
            },
            None => None,
        }
    } else if b[i + 1] == 0x21 {
        if holds_at(b, i, bytes("<!--")) {
            match find_from(b, bytes("-->"), i + 4) {
                Some(k) => Some((k + 3, open)),
                None => None,
            }
        } else {
            match find_from(b, bytes(">"), i + 2) {
                Some(k) => Some((k + 1, open)),
                None => None,
            }
        }
    } else if is_letter(b[i + 1]) {
        let e = name_end(b, i + 1);
        match find_from(b, bytes(">"), e) {
            Some(k) => if b[k - 1] == 0x2f || is_void(b.subrange(i + 1, e)) {
                Some((k + 1, open))
            } else {
                Some((k + 1, open.push(b.subrange(i + 1, e))))
            },
            None => None,
        }
    } else {
        Some((i + 1, open))
    }
}

/// The scan from position `i` with the given open elements ends with none open.
pub open spec fn nesting_ok(b: Seq<u8>, i: int, open: Seq<Seq<u8>>) -> bool
    decreases b.len() - i,
{
    if i < 0 || i >= b.len() {
        open.len() == 0
    } else {
        match markup_step(b, i, open) {
            Some((j, next)) => if i < j <= b.len() {
                nesting_ok(b, j, next)
            } else {
                false
            },
            None => false,
        }
    }
}

/// The names of the open elements, kept as ranges of `b`.
pub open spec fn open_names(b: Seq<u8>, ranges: Seq<(usize, usize)>) -> Seq<Seq<u8>> {
    ranges.map_values(|r: (usize, usize)| b.subrange(r.0 as int, r.1 as int))
}

fn name_end_at(b: &[u8], i: usize) -> (r: usize)
    requires
        i <= b@.len(),
    ensures
        r == name_end(b@, i as int),
        i <= r <= b@.len(),
{
    let mut e = i;
    while e < b.len() && (b[e] >= 0x41 && b[e] <= 0x5a || b[e] >= 0x61 && b[e] <= 0x7a
        || b[e] >= 0x30 && b[e] <= 0x39 || b[e] == 0x2d)
        invariant
            i <= e <= b@.len(),
            name_end(b@, i as int) == name_end(b@, e as int),
        decreases b@.len() - e,
    {
        e = e + 1;
    }
    e
}

/// Whether positions `s..e` of `b` hold exactly the literal `lit`.
fn range_is(b: &[u8], s: usize, e: usize, lit: &str) -> (r: bool)
    requires
        s <= e <= b@.len(),
    ensures
        r == (b@.subrange(s as int, e as int) == bytes(lit)),
{
    let l = lit.as_bytes();
    if e - s != l.len() {
        return false;
    }
    let r = bytes_at(b, s, l);
    proof {
        if b@.subrange(s as int, e as int) == bytes(lit) {
            assert(holds_at(b@, s as int, l@));
        }
    }
    r
}

fn void_name(b: &[u8], s: usize, e: usize) -> (r: bool)
    requires
        s <= e <= b@.len(),
    ensures
        r == is_void(b@.subrange(s as int, e as int)),
{
    range_is(b, s, e, "br") || range_is(b, s, e, "img") || range_is(b, s, e, "hr")
        || range_is(b, s, e, "input") || range_is(b, s, e, "meta") || range_is(b, s, e, "link")
        || range_is(b, s, e, "wbr")
}

/// Whether two ranges of `b` hold the same bytes.
fn same_range(b: &[u8], s1: usize, e1: usize, s2: usize, e2: usize) -> (r: bool)
    requires
        s1 <= e1 <= b@.len(),
        s2 <= e2 <= b@.len(),
    ensures
        r == (b@.subrange(s1 as int, e1 as int) == b@.subrange(s2 as int, e2 as int)),
{
    if e1 - s1 != e2 - s2 {
        assert(b@.subrange(s1 as int, e1 as int).len() != b@.subrange(s2 as int, e2 as int).len());
        return false;
    }
    let mut j: usize = 0;
    while j < e1 - s1
        invariant
            s1 <= e1 <= b@.len(),
            s2 <= e2 <= b@.len(),
            e1 - s1 == e2 - s2,
            j <= e1 - s1,
            forall|t: int| 0 <= t < j ==> #[trigger] b@.subrange(s1 as int, e1 as int)[t] == b@.subrange(s2 as int, e2 as int)[t],
        decreases e1 - s1 - j,
    {
        if b[s1 + j] != b[s2 + j] {
            assert(b@.subrange(s1 as int, e1 as int)[j as int] != b@.subrange(s2 as int, e2 as int)[j as int]);
            return false;
        }
        j = j + 1;
    }
    assert(b@.subrange(s1 as int, e1 as int) =~= b@.subrange(s2 as int, e2 as int));
    true
}

/// Whether the tags of `html` nest properly.
pub fn well_nested(html: &str) -> (r: bool)
    ensures
        r == nesting_ok(bytes(html), 0, Seq::empty()),
{
    let b = html.as_bytes();
    let mut open: Vec<(usize, usize)> = Vec::new();
    let mut i: usize = 0;
    assert(open_names(b@, open@) =~= Seq::<Seq<u8>>::empty());
    while i < b.len()
        invariant
            b@ == bytes(html),
            i <= b@.len(),
            forall|t: int| 0 <= t < open@.len() ==> (#[trigger] open@[t]).0 <= open@[t].1 <= b@.len(),
            nesting_ok(b@, 0, Seq::empty()) == nesting_ok(b@, i as int, open_names(b@, open@)),
        decreases b@.len() - i,
    {
        let gt = ">";
        let comment_open = "<!--";
        let comment_close = "-->";
        proof {
            reveal_strlit(">");
            reveal_strlit("<!--");
            reveal_strlit("-->");
            assert(vstd::string::is_ascii(gt));
            assert(vstd::string::is_ascii(comment_open));
            assert(vstd::string::is_ascii(comment_close));
            lemma_ascii_bytes(gt);
            lemma_ascii_bytes(comment_open);
            lemma_ascii_bytes(comment_close);
        }
        let ghost names = open_names(b@, open@);
        if b[i] != 0x3c || i + 1 >= b.len() {
            i = i + 1;
        } else if b[i + 1] == 0x2f {
            let e = name_end_at(b, i + 2);
            let k = match find_bytes(b, gt.as_bytes(), e) {
                Some(k) => k,
                None => return false,
            };
            if open.len() == 0 {
                return false;
            }
            let (s1, e1) = open[open.len() - 1];
            assert(names.last() == b@.subrange(s1 as int, e1 as int));
            if !same_range(b, s1, e1, i + 2, e) {
                return false;
            }
            open.pop();
            assert(open_names(b@, open@) =~= names.drop_last());
            i = k + 1;
        } else if b[i + 1] == 0x21 {
            if bytes_at(b, i, comment_open.as_bytes()) {
                match find_bytes(b, comment_close.as_bytes(), i + 4) {
                    Some(k) => {
                        i = k + 3;
                    },
                    None => return false,
                }
            } else {
                match find_bytes(b, gt.as_bytes(), i + 2) {
                    Some(k) => {
                        i = k + 1;
                    },
                    None => return false,
                }
            }
        } else if b[i + 1] >= 0x41 && b[i + 1] <= 0x5a || b[i + 1] >= 0x61 && b[i + 1] <= 0x7a {
            let e = name_end_at(b, i + 1);
            let k = match find_bytes(b, gt.as_bytes(), e) {
                Some(k) => k,
                None => return false,
            };
            if !(b[k - 1] == 0x2f || void_name(b, i + 1, e)) {
                let ghost before = open@;
                open.push((i + 1, e));
                assert(open_names(b@, open@) =~= names.push(b@.subrange(i + 1, e as int)));
            }
            i = k + 1;
        } else {
            i = i + 1;
        }
    }
    assert(open_names(b@, open@).len() == open@.len());
    open.len() == 0
}

} // verus!
