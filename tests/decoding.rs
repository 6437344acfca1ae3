use movable_type_to_markdown::movable_type::body::{body, Body};
use movable_type_to_markdown::movable_type::comments::{comment, comments, ip, Comment, IP};
use movable_type_to_markdown::movable_type::common::{author, date, key_value, DateTime};
use movable_type_to_markdown::movable_type::error::ParseError;
use movable_type_to_markdown::movable_type::metadata::{
    allow_comments, basename, category, convert_breaks, flag_value, image, metadata, status, title,
    Metadata,
};
use movable_type_to_markdown::movable_type::{parse, post, Post};

const POST: &str = "AUTHOR: wat-aro
TITLE: タイトル
BASENAME: 2018/08/07/203114
STATUS: Publish
ALLOW COMMENTS: 1
CONVERT BREAKS: 0
DATE: 08/07/2018 20:31:14
-----
BODY:
<p>test</p>

-----
COMMENT:
AUTHOR: anonymous
IP: 192.168.1.1
DATE: 02/28/2019 04:17:42
コメント!コメコメ!
-----
--------
";

const SECOND_POST: &str = "AUTHOR: someone
TITLE: Second
BASENAME: second
STATUS: Draft
ALLOW COMMENTS: 0
CONVERT BREAKS: 1
DATE: 01/02/2020 03:04:05
CATEGORY: rust
CATEGORY: verus
-----
BODY:
<p>two</p>
-----
--------
";

#[test]
fn parse_post() {
    let parsed = post(POST).unwrap();
    assert_eq!(
        parsed,
        (
            "",
            Post {
                metadata: Metadata {
                    author: "wat-aro",
                    title: "タイトル",
                    basename: "2018/08/07/203114",
                    status: "Publish",
                    allow_comments: true,
                    convert_breaks: false,
                    image: None,
                    category: vec![],
                    date: DateTime::new(2018, 8, 7, 20, 31, 14),
                },
                body: Body::from_html("<p>test</p>\n").unwrap(),
                comments: vec![Comment {
                    author: "anonymous",
                    ip: IP::new(192, 168, 1, 1),
                    date: DateTime::new(2019, 2, 28, 4, 17, 42),
                    body: "コメント!コメコメ!\n",
                }],
            }
        )
    );
}

#[test]
fn author_parse_author() {
    assert_eq!(author("AUTHOR: wat-aro\n"), Ok(("", "wat-aro")));
}

#[test]
fn common_parse_author() {
    assert_eq!(author("AUTHOR: wat-aro\n"), Ok(("", "wat-aro")));
}

#[test]
fn parse_date_time() {
    assert_eq!(
        date("DATE: 09/16/2021 22:09:33\n"),
        Ok(("", DateTime::new(2021, 9, 16, 22, 9, 33)))
    );
}

#[test]
fn parse_body() {
    assert!(matches!(
        body(
            r#"-----
BODY:
<p><a class="keyword" href="http://example.com">Example</a>Lorem</a>Lorem ipsum dolor sit amet, consectetur adipiscing elit</p>

<p>Lorem ipsum dolor sit amet, consectetur adipiscing elit, sed do eiusmod tempor incididunt ut labore et dolore magna aliqua.<br />
--------------------
-----
        "#
        ),
        Err(ParseError::MalformedBody)
    ));
}

#[test]
fn parse_comments_after_body() {
    let text = r#"-----
BODY:
<p><a class="keyword" href="http://example.com">Example</a>Lorem</a>Lorem ipsum dolor sit amet, consectetur adipiscing elit</p>

<p>Lorem ipsum dolor sit amet, consectetur adipiscing elit, sed do eiusmod tempor incididunt ut labore et dolore magna aliqua.<br />
--------------------
-----
--------
"#;
    assert!(matches!(body(text), Err(ParseError::MalformedBody)));
    let nested = text.replace("Example</a>Lorem</a>", "Example</a>Lorem").replace("aliqua.<br />", "aliqua.<br /></p>");
    let (input, _) = body(&nested).unwrap();
    let (rest, found) = comments(input).unwrap();
    assert_eq!(rest, "");
    assert!(found.is_empty());
}

#[test]
fn badly_nested_bodies_are_refused() {
    assert!(matches!(body("-----\nBODY:\n<p>open\n-----\n"), Err(ParseError::MalformedBody)));
    assert!(matches!(body("-----\nBODY:\n<p><span>x</p></span>\n-----\n"), Err(ParseError::MalformedBody)));
    assert!(matches!(body("-----\nBODY:\nx</a>\n-----\n"), Err(ParseError::MalformedBody)));
    assert!(body("-----\nBODY:\n<p>a<br>b<img src=\"x\"/><!-- <p> --></p>\n-----\n").is_ok());
    assert!(Body::from_html("<span>").is_none());
}

#[test]
fn parse_empty_comments() {
    assert_eq!(comments("-----\n--------\n"), Ok(("", vec![])));
}

#[test]
fn parse_comments() {
    let found = comments(
        "-----
COMMENT:
AUTHOR: wat-aro
IP: 127.0.0.1
DATE: 09/16/2021 22:09:33
これは
コメント
です
-----
COMMENT:
AUTHOR: wat-wat
IP: 196.168.1.1
DATE: 09/20/2021 22:10:00
これは
コメント2
です
-----
--------
",
    );
    assert_eq!(
        found,
        Ok((
            "",
            vec![
                Comment {
                    author: "wat-aro",
                    ip: IP(127, 0, 0, 1),
                    date: DateTime::new(2021, 9, 16, 22, 9, 33),
                    body: "これは\nコメント\nです\n",
                },
                Comment {
                    author: "wat-wat",
                    ip: IP(196, 168, 1, 1),
                    date: DateTime::new(2021, 9, 20, 22, 10, 0),
                    body: "これは\nコメント2\nです\n",
                },
            ]
        ))
    );
}

#[test]
fn parse_comment() {
    let found = comment(
        "COMMENT:
AUTHOR: wat-aro
IP: 127.0.0.1
DATE: 09/16/2021 22:09:33
これは
コメント
です
-----
",
    );
    assert_eq!(
        found,
        Ok((
            "",
            Comment {
                author: "wat-aro",
                ip: IP(127, 0, 0, 1),
                date: DateTime::new(2021, 9, 16, 22, 9, 33),
                body: "これは\nコメント\nです\n",
            }
        ))
    );
}

#[test]
fn parse_ip() {
    assert_eq!(ip("IP: 127.0.0.1\n"), Ok(("", IP(127, 0, 0, 1))));
}

#[test]
fn parse_title() {
    assert_eq!(title("TITLE: Title\n"), Ok(("", "Title")));
}

#[test]
fn parse_basename() {
    assert_eq!(basename("BASENAME: Basename\n"), Ok(("", "Basename")));
}

#[test]
fn parse_status() {
    assert_eq!(status("STATUS: Publish\n"), Ok(("", "Publish")));
}

#[test]
fn parse_allow_comments_true() {
    assert_eq!(allow_comments("ALLOW COMMENTS: 1\n"), Ok(("", true)));
}

#[test]
fn parse_allow_comments_false() {
    assert_eq!(allow_comments("ALLOW COMMENTS: 0\n"), Ok(("", false)));
}

#[test]
fn parse_convert_breaks_true() {
    assert_eq!(convert_breaks("CONVERT BREAKS: 1\n"), Ok(("", true)));
}

#[test]
fn parse_convert_breaks_false() {
    assert_eq!(convert_breaks("CONVERT BREAKS: 0\n"), Ok(("", false)));
}

#[test]
fn parse_image() {
    assert_eq!(
        image("IMAGE: http://example.com/image.jpg\n"),
        ("", Some("http://example.com/image.jpg"))
    );
}

#[test]
fn parse_metadata() {
    let parsed = metadata(
        "AUTHOR: wat-aro
TITLE: Title
BASENAME: Basename
STATUS: Publish
ALLOW COMMENTS: 1
CONVERT BREAKS: 0
DATE: 09/16/2021 22:09:33
IMAGE: http://example.com/image.jpg
",
    );
    assert_eq!(
        parsed,
        Ok((
            "",
            Metadata {
                author: "wat-aro",
                title: "Title",
                basename: "Basename",
                status: "Publish",
                allow_comments: true,
                convert_breaks: false,
                date: DateTime::new(2021, 9, 16, 22, 9, 33),
                category: vec![],
                image: Some("http://example.com/image.jpg"),
            }
        ))
    );
}

#[test]
fn field_value_excludes_terminator() {
    assert_eq!(key_value("KEY: value\nnext", "KEY"), Ok(("next", "value")));
    assert_eq!(key_value("KEY:\t  value\r\nnext", "KEY"), Ok(("next", "value")));
    assert_eq!(key_value("KEY: value", "KEY"), Err(ParseError::MalformedField));
    assert_eq!(key_value("KEY: value\rnext", "KEY"), Err(ParseError::MalformedField));
    assert_eq!(key_value("key: value\n", "KEY"), Err(ParseError::MalformedField));
    assert_eq!(key_value("KEY value\n", "KEY"), Err(ParseError::MalformedField));
    assert_eq!(key_value("KEY: \n", "KEY"), Ok(("", "")));
}

#[test]
fn flag_values() {
    assert_eq!(allow_comments("ALLOW COMMENTS: yes\n"), Err(ParseError::MalformedField));
    assert_eq!(allow_comments("ALLOW COMMENTS: 2\n"), Ok(("", true)));
    assert_eq!(allow_comments("ALLOW COMMENTS: 256\n"), Ok(("", true)));
    assert_eq!(convert_breaks("CONVERT BREAKS: 256\n"), Ok(("", true)));
    assert_eq!(flag_value("18446744073709551616000"), Some(true));
    assert_eq!(flag_value("+1"), None);
    assert_eq!(flag_value("1 "), None);
    assert_eq!(flag_value("-0"), None);
    assert_eq!(flag_value(""), None);
    assert_eq!(flag_value("007"), Some(true));
    assert_eq!(flag_value("000"), Some(false));
}

#[test]
fn ip_scenarios() {
    assert_eq!(ip("IP: 192.168.1.1\n"), Ok(("", IP(192, 168, 1, 1))));
    assert_eq!(ip("IP: 256.0.0.1\n"), Err(ParseError::MalformedIp));
    assert_eq!(ip("IP: 1.2.3\n"), Err(ParseError::MalformedIp));
    assert_eq!(ip("IP: a.b.c.d\n"), Err(ParseError::MalformedIp));
    assert_eq!(ip("IP: 1.2.3.4"), Err(ParseError::MalformedIp));
    assert_eq!(ip("ADDR: 1.2.3.4\n"), Err(ParseError::MalformedField));
    assert_eq!(ip("IP: 255.0.010.9\nrest"), Ok(("rest", IP(255, 0, 10, 9))));
}

#[test]
fn date_errors() {
    assert_eq!(date("DATE: 13/45/2021 22:09:33\n"), Err(ParseError::MalformedDate));
    assert_eq!(date("DATE: yesterday\n"), Err(ParseError::MalformedDate));
    assert_eq!(date("WHEN: 09/16/2021 22:09:33\n"), Err(ParseError::MalformedField));
}

#[test]
fn categories_in_order() {
    assert_eq!(
        category("CATEGORY: b\nCATEGORY: a\nCATEGORY: b\n-----\n"),
        ("-----\n", vec!["b", "a", "b"])
    );
    assert_eq!(category("-----\n"), ("-----\n", vec![]));
    assert_eq!(image("-----\n"), ("-----\n", None));
}

#[test]
fn body_errors() {
    assert!(matches!(body("BODY:\n<p>x</p>\n-----\n"), Err(ParseError::MalformedBody)));
    assert!(matches!(body("-----\nBODY:\n<p>x</p>\n"), Err(ParseError::MalformedBody)));
}

#[test]
fn empty_body_block() {
    let (rest, found) = body("-----\nBODY:\n\n-----\n--------\n").unwrap();
    assert_eq!(rest, "-----\n--------\n");
    assert_eq!(found, Body::new(vec![]));
    assert_eq!(found.dump(), Ok(String::new()));
}

#[test]
fn concatenated_posts_decode_as_each_alone() {
    let (first, first_rest) = parse(POST).unwrap();
    let (second, second_rest) = parse(SECOND_POST).unwrap();
    assert_eq!(first_rest, "");
    assert_eq!(second_rest, "");
    let joined = format!("{}{}", POST, SECOND_POST);
    let (both, rest) = parse(&joined).unwrap();
    assert_eq!(rest, "");
    assert_eq!(both.len(), 2);
    assert_eq!(both[0], first[0]);
    assert_eq!(both[1], second[0]);
    assert_eq!(both[1].metadata.category, vec!["rust", "verus"]);
}

#[test]
fn trailing_text_is_reported() {
    let joined = format!("{}\nnot a post\n", POST);
    let (found, rest) = parse(&joined).unwrap();
    assert_eq!(found.len(), 1);
    assert_eq!(rest, "\nnot a post\n");
}

#[test]
fn text_like_a_key_is_trailing_text() {
    let joined = format!("{}AUTHORITY\n", POST);
    let (found, rest) = parse(&joined).unwrap();
    assert_eq!(found.len(), 1);
    assert_eq!(rest, "AUTHORITY\n");
}

#[test]
fn comment_text_runs_to_the_delimiter_line() {
    let found = comment(
        "COMMENT:\nAUTHOR: a\nIP: 1.2.3.4\nDATE: 09/16/2021 22:09:33\nx ----- y\n------ z\n-----\nnext",
    );
    assert_eq!(
        found,
        Ok((
            "next",
            Comment {
                author: "a",
                ip: IP(1, 2, 3, 4),
                date: DateTime::new(2021, 9, 16, 22, 9, 33),
                body: "x ----- y\n------ z\n",
            }
        ))
    );
    let empty = comment("COMMENT:\nAUTHOR: a\nIP: 1.2.3.4\nDATE: 09/16/2021 22:09:33\n-----\n");
    assert_eq!(empty.unwrap().1.body, "");
    assert_eq!(
        comment("COMMENT:\nAUTHOR: a\nIP: 1.2.3.4\nDATE: 09/16/2021 22:09:33\ntext -----\n"),
        Err(ParseError::MalformedField)
    );
}

#[test]
fn failing_posts_fail_the_whole() {
    assert_eq!(parse("garbage\n"), Err(ParseError::MalformedField));
    let broken = POST.replace("IP: 192.168.1.1", "IP: 192.168.1.300");
    assert_eq!(parse(&broken), Err(ParseError::MalformedIp));
    let joined = format!("{}{}", POST, SECOND_POST.replace("ALLOW COMMENTS: 0", "ALLOW COMMENTS: no"));
    assert_eq!(parse(&joined), Err(ParseError::MalformedField));
    assert_eq!(parse(""), Ok((vec![], "")));
}
