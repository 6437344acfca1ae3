//! Decoding a Movable Type export into posts.
pub mod body;
pub mod comments;
pub mod common;
pub mod error;
pub mod markup;
pub mod metadata;
pub mod nesting;
pub mod text;

use vstd::prelude::*;
use self::body::{body, lemma_read_body_append, read_body, Body};
use self::comments::{
    comments, comments_view, lemma_read_comments_append, read_comments, Comment, CommentModel,
};
use self::error::ParseError;
use self::markup::NodeView;
use self::metadata::{lemma_read_metadata_append, metadata, read_metadata, Metadata, MetadataModel};
use self::text::{bytes, bytes_at, has_prefix, lemma_first_byte, lemma_prefix_first};

verus! {

/// One post of an export: header, body and reader comments.
#[derive(Debug, PartialEq)]
pub struct Post<'a> {
    pub metadata: Metadata<'a>,
    pub body: Body,
    pub comments: Vec<Comment<'a>>,
}

pub struct PostModel {
    pub metadata: MetadataModel,
    pub body: Seq<NodeView>,
    pub comments: Seq<CommentModel>,
}

impl<'a> View for Post<'a> {
    type V = PostModel;

    open spec fn view(&self) -> PostModel {
        PostModel { metadata: self.metadata@, body: self.body@, comments: comments_view(self.comments@) }
    }
}

/// Reads one export block: header, body block, comment block.
#[verifier::opaque]
pub open spec fn read_post(b: Seq<u8>) -> Result<(Seq<u8>, PostModel), ParseError> {
    match read_metadata(b) {
        Err(e) => Err(e),
        Ok((r1, m)) => match read_body(r1) {
            Err(e) => Err(e),
            Ok((r2, nodes)) => match read_comments(r2) {
                Err(e) => Err(e),
                Ok((r3, cs)) => Ok((r3, PostModel { metadata: m, body: nodes, comments: cs })),
            },
        },
    }
}

pub open spec fn prepend_post(
    p: PostModel,
    r: Result<(Seq<u8>, Seq<PostModel>), ParseError>,
) -> Result<(Seq<u8>, Seq<PostModel>), ParseError> {
    match r {
        Ok((rest, ps)) => Ok((rest, seq![p] + ps)),
        Err(e) => Err(e),
    }
}

/// Reads further posts while the input begins like a post, with `AUTHOR:`; what does
/// not is left as trailing text. A post that begins so but fails to decode fails the
/// whole.
pub open spec fn read_following(b: Seq<u8>) -> Result<(Seq<u8>, Seq<PostModel>), ParseError>
    decreases b.len(),
{
    if !has_prefix(b, bytes("AUTHOR:")) {
        Ok((b, Seq::empty()))
    } else {
        match read_post(b) {
            Err(e) => Err(e),
            Ok((rest, p)) => if rest.len() < b.len() {
                prepend_post(p, read_following(rest))
            } else {
                Err(ParseError::MalformedField)
            },
        }
    }
}

/// Reads all posts of an export: none from empty input; otherwise the first post,
/// whose failure fails the whole, then the posts that follow.
pub open spec fn read_posts(b: Seq<u8>) -> Result<(Seq<u8>, Seq<PostModel>), ParseError> {
    if b.len() == 0 {
        Ok((b, Seq::empty()))
    } else {
        match read_post(b) {
            Err(e) => Err(e),
            Ok((rest, p)) => if rest.len() < b.len() {
                prepend_post(p, read_following(rest))
            } else {
                Err(ParseError::MalformedField)
            },
        }
    }
}

pub open spec fn posts_view(ps: Seq<Post>) -> Seq<PostModel> {
    ps.map_values(|p: Post| p@)
}

/// A post read from `a` reads the same once more input follows it.
pub proof fn lemma_read_post_append(a: Seq<u8>, x: Seq<u8>)
    ensures
        read_post(a) matches Ok((r, p)) ==> read_post(a + x) == Ok::<_, ParseError>((r + x, p)),
{
    reveal(read_post);
    if read_post(a) is Err {
        return;
    }
    reveal_strlit("-----\nBODY:\n");
    lemma_first_byte("-----\nBODY:\n");
    let (r1, _) = read_metadata(a).unwrap();
    let (r2, _) = read_body(r1).unwrap();
    assert(has_prefix(r1, bytes("-----\nBODY:\n"))) by {
        lemma_read_body_append(r1, x);
        if !has_prefix(r1, bytes("-----\nBODY:\n")) {
            assert(read_body(r1) is Err);
        }
    }
    lemma_prefix_first(r1, bytes("-----\nBODY:\n"));
    lemma_read_metadata_append(a, x);
    lemma_read_body_append(r1, x);
    lemma_read_comments_append(r2, x);
}

proof fn lemma_single_post(a: Seq<u8>, p: PostModel)
    requires
        read_posts(a) == Ok::<_, ParseError>((Seq::<u8>::empty(), seq![p])),
    ensures
        a.len() > 0,
        read_post(a) == Ok::<_, ParseError>((Seq::<u8>::empty(), p)),
{
    reveal_strlit("AUTHOR:");
    lemma_first_byte("AUTHOR:");
    let (rest, q) = read_post(a).unwrap();
    if has_prefix(rest, bytes("AUTHOR:")) {
        lemma_prefix_first(rest, bytes("AUTHOR:"));
        match read_following(rest) {
            Ok((_, ps)) => {
                assert(ps.len() > 0);
                assert((seq![q] + ps).len() > 1);
            },
            Err(_) => {},
        }
    }
    assert(!has_prefix(rest, bytes("AUTHOR:")));
    assert(read_following(rest) == Ok::<_, ParseError>((rest, Seq::<PostModel>::empty())));
    assert(seq![q] + Seq::<PostModel>::empty() =~= seq![q]);
    assert(seq![q][0] == seq![p][0]);
}

/// Decoding two exports that each hold exactly one post and nothing else, one after
/// the other, gives those two posts in order and leaves nothing.
pub proof fn lemma_concatenated_posts(a: Seq<u8>, c: Seq<u8>, pa: PostModel, pc: PostModel)
    requires
        read_posts(a) == Ok::<_, ParseError>((Seq::<u8>::empty(), seq![pa])),
        read_posts(c) == Ok::<_, ParseError>((Seq::<u8>::empty(), seq![pc])),
    ensures
        read_posts(a + c) == Ok::<_, ParseError>((Seq::<u8>::empty(), seq![pa, pc])),
{
    reveal_strlit("AUTHOR:");
    lemma_first_byte("AUTHOR:");
    lemma_single_post(a, pa);
    lemma_single_post(c, pc);
    lemma_read_post_append(a, c);
    assert(Seq::<u8>::empty() + c =~= c);
    assert(has_prefix(c, bytes("AUTHOR:"))) by {
        reveal(read_post);
        reveal(read_metadata);
        reveal(self::common::read_field);
        reveal_strlit("AUTHOR");
        vstd::string::is_ascii_spec_bytes("AUTHOR");
        vstd::string::is_ascii_spec_bytes("AUTHOR:");
        assert(c.subrange(0, 6) =~= bytes("AUTHOR"));
        assert(c.subrange(0, 7) =~= bytes("AUTHOR:"));
    }
    lemma_read_post_append(c, Seq::<u8>::empty());
    assert(!has_prefix(Seq::<u8>::empty(), bytes("AUTHOR:")));
    assert(read_following(Seq::<u8>::empty()) == Ok::<_, ParseError>((Seq::<u8>::empty(), Seq::<PostModel>::empty())));
    assert(read_following(c) == Ok::<_, ParseError>((Seq::<u8>::empty(), seq![pc]))) by {
        assert(seq![pc] + Seq::<PostModel>::empty() =~= seq![pc]);
    }
    assert(seq![pa] + seq![pc] =~= seq![pa, pc]);
}

/// Reads one export block from the front of `input`.
pub fn post<'a>(input: &'a str) -> (r: Result<(&'a str, Post<'a>), ParseError>)
    ensures
        match r {
            Ok((rest, p)) => read_post(bytes(input)) == Ok::<_, ParseError>((bytes(rest), p@)),
            Err(e) => read_post(bytes(input)) == Err::<(Seq<u8>, PostModel), _>(e),
        },
{
    proof {
        reveal(read_post);
    }
    let (input, metadata) = metadata(input)?;
    let (input, body) = body(input)?;
    let (input, comments) = comments(input)?;
    Ok((input, Post { metadata, body, comments }))
}

/// Reads all posts of an export; returns the trailing text that is not a post and
/// the posts in document order.
pub fn posts<'a>(input: &'a str) -> (r: Result<(&'a str, Vec<Post<'a>>), ParseError>)
    ensures
        match r {
            Ok((rest, ps)) => read_posts(bytes(input)) == Ok::<_, ParseError>((bytes(rest), posts_view(ps@))),
            Err(e) => read_posts(bytes(input)) == Err::<(Seq<u8>, Seq<PostModel>), _>(e),
        },
{
    let mut found: Vec<Post<'a>> = Vec::new();
    if input.as_bytes().len() == 0 {
        assert(posts_view(found@) =~= Seq::<PostModel>::empty());
        return Ok((input, found));
    }
    let (mut rest, first) = post(input)?;
    if rest.as_bytes().len() >= input.as_bytes().len() {
        return Err(ParseError::MalformedField);
    }
    assert(bytes(rest).len() < bytes(input).len());
    found.push(first);
    assert(posts_view(found@) =~= seq![first@]);
    assert(read_posts(bytes(input)) == prepend_post(first@, read_following(bytes(rest))));
    loop
        invariant
            read_posts(bytes(input)) == ({
                match read_following(bytes(rest)) {
                    Ok((last, ps)) => Ok((last, posts_view(found@) + ps)),
                    Err(e) => Err(e),
                }
            }),
        decreases bytes(rest).len(),
    {
        let key = "AUTHOR:";
        proof {
            reveal_strlit("AUTHOR:");
        }
        if !bytes_at(rest.as_bytes(), 0, key.as_bytes()) {
            assert(posts_view(found@) + Seq::<PostModel>::empty() =~= posts_view(found@));
            return Ok((rest, found));
        }
        let (next, p) = post(rest)?;
        if next.as_bytes().len() >= rest.as_bytes().len() {
            return Err(ParseError::MalformedField);
        }
        let ghost before = found@;
        found.push(p);
        proof {
            assert(posts_view(found@) =~= posts_view(before).push(p@));
            match read_following(bytes(next)) {
                Ok((last, ps)) => {
                    assert(posts_view(before) + (seq![p@] + ps) =~= posts_view(found@) + ps);
                },
                Err(_) => {},
            }
        }
        rest = next;
    }
}

/// Decodes an export into its posts, with the trailing text that no post could be
/// read from (empty where the input was used up).
pub fn parse<'a>(input: &'a str) -> (r: Result<(Vec<Post<'a>>, &'a str), ParseError>)
    ensures
        match r {
            Ok((ps, rest)) => read_posts(bytes(input)) == Ok::<_, ParseError>((bytes(rest), posts_view(ps@))),
            Err(e) => read_posts(bytes(input)) == Err::<(Seq<u8>, Seq<PostModel>), _>(e),
        },
{
    match posts(input) {
        Ok((rest, ps)) => Ok((ps, rest)),
        Err(e) => Err(e),
    }
}

} // verus!
