use movable_type_to_markdown::markdown::{format_date, Markdown};
use movable_type_to_markdown::movable_type::body::Body;
use movable_type_to_markdown::movable_type::common::DateTime;
use movable_type_to_markdown::movable_type::markup::{Element, MarkupNode, RenderError};
use movable_type_to_markdown::movable_type::post;

fn dump_html(html: &str) -> Result<String, RenderError> {
    Body::from_html(html).unwrap().dump()
}

#[test]
fn dump_text() {
    assert_eq!(dump_html("Hello"), Ok("Hello".to_string()));
}

#[test]
fn dump_comment() {
    assert_eq!(dump_html("<!-- comment -->"), Ok("".to_string()));
}

#[test]
fn dump_p() {
    assert_eq!(dump_html("<p>paragraph</p>"), Ok("paragraph\n\n".to_string()));
}

#[test]
fn dump_br() {
    assert_eq!(dump_html("Hello<br/>"), Ok("Hello  ".to_string()));
}

#[test]
fn dump_a() {
    assert_eq!(
        dump_html("<a href=\"http://example.com\">Link</a>"),
        Ok("[Link](http://example.com)".to_string())
    );
}

#[test]
fn dump_a_without_keyword() {
    assert_eq!(
        dump_html("<a class=\"keyword\" href=\"http://example.com\">Link</a>"),
        Ok("Link".to_string())
    );
}

#[test]
fn dump_span() {
    assert_eq!(dump_html("<span>Text</span>"), Ok("Text".to_string()));
}

#[test]
fn dump_img() {
    assert_eq!(
        dump_html("<img src=\"http://example.log/image.png\" height=\"400\" width=\"300\" loading=\"lazy\" />"),
        Ok("<img src=\"http://example.log/image.png\" height=\"400\" width=\"300\" loading=\"lazy\"/>".to_string())
    );
}

#[test]
fn img_with_source_only() {
    assert_eq!(
        dump_html("<img src=\"a.png\">"),
        Ok("<img src=\"a.png\"/>".to_string())
    );
    assert_eq!(
        dump_html("<img loading=\"lazy\" alt=\"x\" src=\"a.png\">"),
        Ok("<img src=\"a.png\" loading=\"lazy\"/>".to_string())
    );
}

#[test]
fn keyword_link_inside_paragraph() {
    assert_eq!(
        dump_html("<p><a class=\"keyword\" href=\"http://example.com\">Example</a>Lorem</p>"),
        Ok("ExampleLorem\n\n".to_string())
    );
}

#[test]
fn link_without_href() {
    assert_eq!(dump_html("<a>Link</a>"), Ok("[Link]()".to_string()));
}

#[test]
fn unknown_markup_is_refused() {
    assert_eq!(
        dump_html("<p>a<div>b</div></p>"),
        Err(RenderError::UnrecognizedMarkup("div".to_string()))
    );
}

#[test]
fn later_attribute_wins() {
    let body = Body::new(vec![MarkupNode::Element(Element {
        name: "a".to_string(),
        attributes: vec![
            ("href".to_string(), Some("first".to_string())),
            ("href".to_string(), Some("second".to_string())),
        ],
        classes: vec![],
        children: vec![MarkupNode::Text("x".to_string())],
    })]);
    assert_eq!(body.dump(), Ok("[x](second)".to_string()));
}

#[test]
fn date_formats() {
    assert_eq!(format_date(DateTime::new(2018, 8, 7, 20, 31, 14)), Some("2018/08/07".to_string()));
    assert_eq!(format_date(DateTime::new(987, 12, 31, 0, 0, 0)), Some("0987/12/31".to_string()));
    assert_eq!(format_date(DateTime::new(-1, 1, 1, 0, 0, 0)), Some("-0001/01/01".to_string()));
    assert_eq!(format_date(DateTime::new(12345, 1, 1, 0, 0, 0)), Some("+12345/01/01".to_string()));
    assert_eq!(format_date(DateTime::new(2021, 2, 29, 0, 0, 0)), None);
}

#[test]
fn nonexistent_date_is_refused() {
    let markdown = Markdown {
        title: "T",
        published: DateTime::new(2021, 13, 1, 0, 0, 0),
        tags: vec![],
        body: Body::new(vec![]),
    };
    assert_eq!(markdown.dump(), Err(RenderError::InvalidDate));
}

const POST: &str = "AUTHOR: wat-aro
TITLE: タイトル
BASENAME: 2018/08/07/203114
STATUS: Publish
ALLOW COMMENTS: 1
CONVERT BREAKS: 0
DATE: 08/07/2018 20:31:14
-----
BODY:
<p>test</p>

-----
COMMENT:
AUTHOR: anonymous
IP: 192.168.1.1
DATE: 02/28/2019 04:17:42
コメント!コメコメ!
-----
--------
";

#[test]
fn whole_post_document() {
    let (_, p) = post(POST).unwrap();
    assert_eq!(p.metadata.date, DateTime::new(2018, 8, 7, 20, 31, 14));
    assert_eq!(p.comments[0].ip, movable_type_to_markdown::movable_type::comments::IP(192, 168, 1, 1));
    let markdown = Markdown::from(p);
    assert_eq!(markdown.path("out"), "out/タイトル.md");
    let text = markdown.dump().unwrap();
    assert_eq!(text, "---\ntitle: \"タイトル\"\npublished: 2018/08/07\n---\n\ntest\n\n\n");
    assert!(text.contains("published: 2018/08/07"));
    assert!(!text.contains("tags:"));
}

#[test]
fn tags_listed_in_order() {
    let markdown = Markdown {
        title: "T",
        published: DateTime::new(2020, 1, 2, 3, 4, 5),
        tags: vec!["b", "a"],
        body: Body::new(vec![]),
    };
    assert_eq!(
        markdown.dump(),
        Ok("---\ntitle: \"T\"\npublished: 2020/01/02\ntags:\n  - b\n  - a\n---\n\n\n".to_string())
    );
}

#[test]
fn empty_body_keeps_front_matter() {
    let markdown = Markdown {
        title: "T",
        published: DateTime::new(2020, 1, 2, 3, 4, 5),
        tags: vec![],
        body: Body::from_html("").unwrap(),
    };
    assert_eq!(
        markdown.dump(),
        Ok("---\ntitle: \"T\"\npublished: 2020/01/02\n---\n\n\n".to_string())
    );
}
