//! Rendering a post as a Markdown document with front matter.
use vstd::prelude::*;
use crate::movable_type::body::Body;
use crate::movable_type::common::DateTime;
use crate::movable_type::markup::{render_nodes, RenderError};
use crate::movable_type::Post;

verus! {

/// What a post's Markdown document is made from.
#[derive(Debug, PartialEq)]
pub struct Markdown<'a> {
    pub title: &'a str,
    pub published: DateTime,
    pub tags: Vec<&'a str>,
    pub body: Body,
}

impl<'a> From<Post<'a>> for Markdown<'a> {
    fn from(post: Post<'a>) -> Markdown<'a> {
        Markdown {
            title: post.metadata.title,
            published: post.metadata.date,
            tags: post.metadata.category,
            body: post.body,
        }
    }
}

impl<'a> vstd::std_specs::convert::FromSpecImpl<Post<'a>> for Markdown<'a> {
    open spec fn obeys_from_spec() -> bool {
        true
    }

    open spec fn from_spec(post: Post<'a>) -> Markdown<'a> {
        Markdown {
            title: post.metadata.title,
            published: post.metadata.date,
            tags: post.metadata.category,
            body: post.body,
        }
    }
}

/// The layout of the publication date in the front matter: year/month/day.
pub const PUBLISHED_FORMAT: &'static str = "%Y/%m/%d";

/// The text that chrono writes for the calendar date `year`/`month`/`day` with the
/// strftime-style `format`, or nothing where no such date exists.
pub uninterp spec fn formatted_date(year: i32, month: u32, day: u32, format: Seq<char>) -> Option<Seq<char>>;

/// Relies on chrono's `NaiveDate::from_ymd_opt`, which fails where the date does not
/// exist, and on `NaiveDate::format`, whose text depends on the date and the format
/// alone; the publication layout holds only valid specifiers, so writing never fails.
#[verifier::external_body]
fn chrono_format_date(year: i32, month: u32, day: u32, format: &str) -> (r: Option<String>)
    requires
        format@ == PUBLISHED_FORMAT@,
    ensures
        match r {
            Some(t) => formatted_date(year, month, day, format@) == Some(t@),
            None => formatted_date(year, month, day, format@) is None,
        },
{
    chrono::NaiveDate::from_ymd_opt(year, month, day).map(|d| d.format(format).to_string())
}

/// A timestamp's date as the front matter shows it, where the date exists.
pub open spec fn published_text(d: DateTime) -> Option<Seq<char>> {
    formatted_date(d.year, d.month, d.day, PUBLISHED_FORMAT@)
}

/// One `  - tag` line for each tag, in order.
pub open spec fn tag_lines(tags: Seq<Seq<char>>) -> Seq<char>
    decreases tags.len(),
{
    if tags.len() == 0 {
        Seq::empty()
    } else {
        tag_lines(tags.drop_last()) + "  - "@ + tags.last() + "\n"@
    }
}

/// The `tags:` block: absent where there are no tags.
pub open spec fn tags_block(tags: Seq<Seq<char>>) -> Seq<char> {
    if tags.len() == 0 {
        Seq::empty()
    } else {
        "tags:\n"@ + tag_lines(tags)
    }
}

/// The front matter of a document.
pub open spec fn front_matter(title: Seq<char>, published: Seq<char>, tags: Seq<Seq<char>>) -> Seq<char> {
    "---\n"@ + "title: \""@ + title + "\"\n"@ + "published: "@ + published + "\n"@
        + tags_block(tags) + "---\n\n"@
}

/// A whole document: front matter, the rendered body, and a closing line feed.
pub open spec fn document(title: Seq<char>, published: Seq<char>, tags: Seq<Seq<char>>, body: Seq<char>) -> Seq<char> {
    front_matter(title, published, tags) + body + "\n"@
}

pub open spec fn tags_view(tags: Seq<&str>) -> Seq<Seq<char>> {
    tags.map_values(|t: &str| t@)
}

/// One `  - tag` line for each tag.
pub open spec fn tag_line(t: Seq<char>) -> Seq<char> {
    "  - "@ + t + "\n"@
}

proof fn lemma_tag_lines(tags: Seq<Seq<char>>)
    ensures
        tag_lines(tags) == tags.map_values(|t: Seq<char>| tag_line(t)).flatten_alt(),
    decreases tags.len(),
{
    if tags.len() > 0 {
        lemma_tag_lines(tags.drop_last());
        let lines = tags.map_values(|t: Seq<char>| tag_line(t));
        assert(lines.drop_last() =~= tags.drop_last().map_values(|t: Seq<char>| tag_line(t)));
    }
}

/// Without tags the front matter holds no `tags:` block at all; with tags it holds
/// the line `tags:` and then one `  - tag` line for each tag, in their order.
pub proof fn lemma_tags_in_front_matter(title: Seq<char>, published: Seq<char>, tags: Seq<Seq<char>>)
    ensures
        tags.len() == 0 ==> front_matter(title, published, tags) == "---\n"@ + "title: \""@ + title
            + "\"\n"@ + "published: "@ + published + "\n"@ + "---\n\n"@,
        tags.len() > 0 ==> front_matter(title, published, tags) == "---\n"@ + "title: \""@ + title
            + "\"\n"@ + "published: "@ + published + "\n"@ + "tags:\n"@
            + tags.map_values(|t: Seq<char>| tag_line(t)).flatten() + "---\n\n"@,
{
    let head = "---\n"@ + "title: \""@ + title + "\"\n"@ + "published: "@ + published + "\n"@;
    if tags.len() == 0 {
        assert(head + Seq::<char>::empty() =~= head);
    } else {
        lemma_tag_lines(tags);
        tags.map_values(|t: Seq<char>| tag_line(t)).lemma_flatten_and_flatten_alt_are_equivalent();
        assert(head + ("tags:\n"@ + tag_lines(tags)) =~= head + "tags:\n"@ + tag_lines(tags));
    }
}

/// A body with no nodes renders to nothing, so the document is its front matter and
/// a line feed.
pub proof fn lemma_empty_body_document(title: Seq<char>, published: Seq<char>, tags: Seq<Seq<char>>)
    ensures
        render_nodes(Seq::empty()) == Ok::<Seq<char>, Seq<char>>(Seq::empty()),
        document(title, published, tags, Seq::empty()) == front_matter(title, published, tags) + "\n"@,
{
    let f = front_matter(title, published, tags);
    assert(f + Seq::<char>::empty() =~= f);
}

/// Writes a timestamp's date as `YYYY/MM/DD`, where the date exists.
pub fn format_date(d: DateTime) -> (r: Option<String>)
    ensures
        match r {
            Some(t) => published_text(d) == Some(t@),
            None => published_text(d) is None,
        },
{
    chrono_format_date(d.year, d.month, d.day, PUBLISHED_FORMAT)
}

impl<'a> Markdown<'a> {
    /// The Markdown document: front matter with title, publication date and tags,
    /// then the rendered body and a closing line feed.
    pub fn dump(&self) -> (r: Result<String, RenderError>)
        ensures
            match r {
                Ok(s) => render_nodes(self.body@) matches Ok(text) && published_text(self.published)
                    matches Some(date) && s@ == document(self.title@, date, tags_view(self.tags@), text),
                Err(RenderError::UnrecognizedMarkup(tag)) => render_nodes(self.body@) == Err::<Seq<char>, _>(tag@),
                Err(RenderError::InvalidDate) => render_nodes(self.body@) is Ok && published_text(self.published) is None,
            },
    {
        let text = self.body.dump()?;
        let date = match format_date(self.published) {
            Some(date) => date,
            None => return Err(RenderError::InvalidDate),
        };
        let mut s = "---\n".to_owned();
        s.append("title: \"");
        s.append(self.title);
        s.append("\"\n");
        s.append("published: ");
        s.append(date.as_str());
        s.append("\n");
        let ghost top = s@;
        if self.tags.len() > 0 {
            s.append("tags:\n");
            let mut i: usize = 0;
            let ghost head = s@;
            while i < self.tags.len()
                invariant
                    i <= self.tags@.len(),
                    s@ == head + tag_lines(tags_view(self.tags@).subrange(0, i as int)),
                decreases self.tags@.len() - i,
            {
                let ghost tv = tags_view(self.tags@);
                assert(tv.subrange(0, i + 1).drop_last() =~= tv.subrange(0, i as int));
                s.append("  - ");
                s.append(self.tags[i]);
                s.append("\n");
                i = i + 1;
            }
            assert(tags_view(self.tags@).subrange(0, i as int) =~= tags_view(self.tags@));
        }
        assert(s@ =~= top + tags_block(tags_view(self.tags@)));
        s.append("---\n\n");
        s.append(text.as_str());
        s.append("\n");
        assert(s@ =~= document(self.title@, date@, tags_view(self.tags@), text@));
        Ok(s)
    }

    /// Where the document is written: `<directory>/<title>.md`.
    pub fn path(&self, directory: &str) -> (r: String)
        ensures
            r@ == directory@ + "/"@ + self.title@ + ".md"@,
    {
        let mut s = directory.to_owned();
        s.append("/");
        s.append(self.title);
        s.append(".md");
        s
    }
}

} // verus!
