//! The body block of a post: its delimiters, its embedded HTML, and its rendering.
use vstd::prelude::*;
use super::error::ParseError;
use super::nesting::{nesting_ok, well_nested};
use super::markup::{
    dump_children, markup_outcome, nodes_view, parse_markup, parsed_markup, render_nodes, rendered, MarkupNode,
    NodeView, RenderError,
};
use super::text::{
    after, bytes, bytes_at, find_bytes, find_from, has_prefix, holds_at, lemma_after_append,
    lemma_ascii_bytes, lemma_find_from, lemma_find_from_append, lemma_holds_at_append, rest_ascii,
    slice_ascii,
};

verus! {

/// A post's body: the root nodes of its embedded HTML fragment.
#[derive(Debug, PartialEq)]
pub struct Body(pub Vec<MarkupNode>);

impl View for Body {
    type V = Seq<NodeView>;

    open spec fn view(&self) -> Seq<NodeView> {
        nodes_view(self.0@)
    }
}

impl Body {
    pub fn new(nodes: Vec<MarkupNode>) -> (r: Body)
        ensures
            r.0 == nodes,
    {
        Body(nodes)
    }

    /// Parses an HTML fragment into a body; refuses one whose tags do not nest.
    pub fn from_html(html: &str) -> (r: Option<Body>)
        ensures
            match r {
                Some(body) => nesting_ok(bytes(html), 0, Seq::empty()) && parsed_markup(bytes(html)) == Some(body@),
                None => !nesting_ok(bytes(html), 0, Seq::empty()) || parsed_markup(bytes(html)) is None,
            },
    {
        if !well_nested(html) {
            return None;
        }
        match parse_markup(html) {
            Some(nodes) => Some(Body(nodes)),
            None => None,
        }
    }

    /// The Markdown text of the body: the rendering of its root nodes, concatenated.
    pub fn dump(&self) -> (r: Result<String, RenderError>)
        ensures
            rendered(r) == render_nodes(self@),
            markup_outcome(r),
    {
        dump_children(&self.0)
    }
}

/// Decodes a body block from the front of `b`: the line `-----`, the line `BODY:`,
/// then the embedded document up to the first line feed that is followed by the line
/// `-----`. That line feed is consumed; the delimiter line is left for the comment
/// block. Every failure, including markup whose tags do not nest or that does not
/// parse, is `MalformedBody`.
pub open spec fn read_body(b: Seq<u8>) -> Result<(Seq<u8>, Seq<NodeView>), ParseError> {
    let open = bytes("-----\nBODY:\n");
    if has_prefix(b, open) {
        match find_from(b, bytes("\n-----\n"), open.len() as int) {
            Some(k) => if !nesting_ok(b.subrange(open.len() as int, k), 0, Seq::empty()) {
                Err(ParseError::MalformedBody)
            } else {
                match parsed_markup(b.subrange(open.len() as int, k)) {
                    Some(nodes) => Ok((after(b, k + 1), nodes)),
                    None => Err(ParseError::MalformedBody),
                }
            },
            None => Err(ParseError::MalformedBody),
        }
    } else {
        Err(ParseError::MalformedBody)
    }
}

/// A body block read from `a` reads the same once more input follows it, and what
/// it leaves begins with the delimiter line.
pub proof fn lemma_read_body_append(a: Seq<u8>, x: Seq<u8>)
    ensures
        read_body(a) matches Ok((r, nodes)) ==> read_body(a + x) == Ok::<_, ParseError>((r + x, nodes))
            && has_prefix(r, bytes("-----\n")),
{
    if read_body(a) is Err {
        return;
    }
    let open = "-----\nBODY:\n";
    let close = "\n-----\n";
    reveal_strlit("-----\nBODY:\n");
    reveal_strlit("\n-----\n");
    reveal_strlit("-----\n");
    vstd::string::is_ascii_spec_bytes(open);
    vstd::string::is_ascii_spec_bytes(close);
    vstd::string::is_ascii_spec_bytes("-----\n");
    let n = bytes(open).len() as int;
    lemma_holds_at_append(a, x, 0, bytes(open));
    lemma_find_from(a, bytes(close), n);
    lemma_find_from_append(a, x, bytes(close), n);
    let k = find_from(a, bytes(close), n)->Some_0;
    assert((a + x).subrange(n, k) =~= a.subrange(n, k));
    lemma_after_append(a, x, k + 1);
    let r = after(a, k + 1);
    assert(r.subrange(0, 6) =~= a.subrange(k, k + 7).subrange(1, 7));
    assert(r.subrange(0, 6) =~= bytes("-----\n"));
}

/// A body block with nothing between the `BODY:` line and the closing delimiter
/// hands the empty text to the markup parser, and leaves the delimiter line.
pub proof fn lemma_empty_body_block(rest: Seq<u8>)
    ensures
        read_body(bytes("-----\nBODY:\n") + bytes("\n-----\n") + rest) == match parsed_markup(Seq::empty()) {
            Some(nodes) => Ok((bytes("-----\n") + rest, nodes)),
            None => Err::<(Seq<u8>, Seq<NodeView>), ParseError>(ParseError::MalformedBody),
        },
{
    let open = "-----\nBODY:\n";
    let close = "\n-----\n";
    let delimiter = "-----\n";
    reveal_strlit("-----\nBODY:\n");
    reveal_strlit("\n-----\n");
    reveal_strlit("-----\n");
    vstd::string::is_ascii_spec_bytes(open);
    vstd::string::is_ascii_spec_bytes(close);
    vstd::string::is_ascii_spec_bytes(delimiter);
    let b = bytes(open) + bytes(close) + rest;
    assert(b.subrange(0, 12) =~= bytes(open));
    assert(b.subrange(12, 19) =~= bytes(close));
    assert(holds_at(b, 12, bytes(close)));
    assert(b.subrange(12, 12) =~= Seq::<u8>::empty());
    assert(after(b, 13) =~= bytes(delimiter) + rest);
}

/// Decodes the body block at the front of `input`; returns the rest of the input and the body.
pub fn body<'a>(input: &'a str) -> (r: Result<(&'a str, Body), ParseError>)
    ensures
        match r {
            Ok((rest, body)) => read_body(bytes(input)) == Ok::<_, ParseError>((bytes(rest), body@)),
            Err(e) => read_body(bytes(input)) == Err::<(Seq<u8>, Seq<NodeView>), _>(e),
        },
{
    let open = "-----\nBODY:\n";
    let close = "\n-----\n";
    proof {
        reveal_strlit("-----\nBODY:\n");
        reveal_strlit("\n-----\n");
        assert(vstd::string::is_ascii(open));
        assert(vstd::string::is_ascii(close));
        lemma_ascii_bytes(open);
        lemma_ascii_bytes(close);
    }
    let b = input.as_bytes();
    let start = open.as_bytes().len();
    if !bytes_at(b, 0, open.as_bytes()) {
        return Err(ParseError::MalformedBody);
    }
    assert(b@[start - 1] == bytes(open)[start - 1]);
    let end = match find_bytes(b, close.as_bytes(), start) {
        Some(k) => k,
        None => return Err(ParseError::MalformedBody),
    };
    assert(b@[end as int] == b@.subrange(end as int, end + bytes(close).len())[0]);
    assert(bytes(close).len() == 7);
    assert(end + 1 <= b.len());
    let html = slice_ascii(input, start, end);
    match Body::from_html(html) {
        Some(found) => Ok((rest_ascii(input, end + 1), found)),
        None => Err(ParseError::MalformedBody),
    }
}

} // verus!
