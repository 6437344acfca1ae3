//! The markup tree of a post's body, its model, and its rendering as Markdown.
use vstd::prelude::*;
use super::text::{bytes, same_text};

verus! {

/// One node of an embedded HTML fragment.
#[derive(Debug, PartialEq)]
pub enum MarkupNode {
    Text(String),
    Element(Element),
    Comment(String),
}

/// An element: its tag name, its attributes (other than `id` and `class`), its
/// classes and its child nodes in document order.
#[derive(Debug, PartialEq)]
pub struct Element {
    pub name: String,
    pub attributes: Vec<(String, Option<String>)>,
    pub classes: Vec<String>,
    pub children: Vec<MarkupNode>,
}

/// The mathematical model of a node: attributes form a map from name to optional value.
pub enum NodeView {
    Text(Seq<char>),
    Element {
        name: Seq<char>,
        attributes: Map<Seq<char>, Option<Seq<char>>>,
        classes: Seq<Seq<char>>,
        children: Seq<NodeView>,
    },
    Comment(Seq<char>),
}

pub open spec fn opt_view(v: Option<String>) -> Option<Seq<char>> {
    match v {
        Some(s) => Some(s@),
        None => None,
    }
}

/// Attributes listed later override earlier ones with the same name.
pub open spec fn attribute_map(a: Seq<(String, Option<String>)>) -> Map<Seq<char>, Option<Seq<char>>>
    decreases a.len(),
{
    if a.len() == 0 {
        Map::empty()
    } else {
        attribute_map(a.drop_last()).insert(a.last().0@, opt_view(a.last().1))
    }
}

pub open spec fn strings_view(s: Seq<String>) -> Seq<Seq<char>> {
    s.map_values(|x: String| x@)
}

/// The model of a node.
pub open spec fn node_view(n: MarkupNode) -> NodeView
    decreases n,
{
    match n {
        MarkupNode::Text(t) => NodeView::Text(t@),
        MarkupNode::Element(e) => element_view(e),
        MarkupNode::Comment(c) => NodeView::Comment(c@),
    }
}

/// The model of an element.
pub open spec fn element_view(e: Element) -> NodeView
    decreases e,
{
    NodeView::Element {
        name: e.name@,
        attributes: attribute_map(e.attributes@),
        classes: strings_view(e.classes@),
        children: nodes_view(e.children@),
    }
}

/// The models of sibling nodes, in order.
pub open spec fn nodes_view(s: Seq<MarkupNode>) -> Seq<NodeView>
    decreases s,
{
    if s.len() == 0 {
        Seq::empty()
    } else {
        nodes_view(s.subrange(0, s.len() - 1)).push(node_view(s[s.len() - 1]))
    }
}

/// html_parser's node type, which the conversion into the library's own nodes takes.
#[verifier::external_type_specification]
#[verifier::external_body]
pub struct ExHtmlNode(html_parser::Node);

/// The root nodes that html_parser reads from `text`, or nothing where it refuses it.
pub uninterp spec fn parsed_markup(text: Seq<u8>) -> Option<Seq<NodeView>>;

/// Relies on html_parser's node layout: moves each variant's fields into the
/// library's own node, one for one, keeping the order of classes and children.
#[verifier::external_body]
fn from_html(node: html_parser::Node) -> MarkupNode {
    match node {
        html_parser::Node::Text(text) => MarkupNode::Text(text),
        html_parser::Node::Element(e) => MarkupNode::Element(Element {
            name: e.name,
            attributes: e.attributes.into_iter().collect(),
            classes: e.classes,
            children: e.children.into_iter().map(from_html).collect(),
        }),
        html_parser::Node::Comment(text) => MarkupNode::Comment(text),
    }
}

/// Relies on html_parser's `Dom::parse`, which reads an HTML document or fragment
/// into its root nodes or fails; the result depends on the text alone.
#[verifier::external_body]
pub(crate) fn parse_markup(text: &str) -> (r: Option<Vec<MarkupNode>>)
    ensures
        match r {
            Some(nodes) => parsed_markup(bytes(text)) == Some(nodes_view(nodes@)),
            None => parsed_markup(bytes(text)) is None,
        },
{
    html_parser::Dom::parse(text).ok().map(|dom| dom.children.into_iter().map(from_html).collect())
}

/// Why a markup tree could not be rendered.
#[derive(Debug, PartialEq)]
pub enum RenderError {
    /// An element whose tag lies outside the known vocabulary; holds the tag name.
    UnrecognizedMarkup(String),
    /// A publication date that does not exist in the calendar.
    InvalidDate,
}

/// The value of attribute `name`, where it is present with a value.
pub open spec fn attribute_value(m: Map<Seq<char>, Option<Seq<char>>>, name: Seq<char>) -> Option<Seq<char>> {
    if m.contains_key(name) {
        m[name]
    } else {
        None
    }
}

/// `name="value"` for an attribute that is present with a value, else nothing.
pub open spec fn image_attribute(m: Map<Seq<char>, Option<Seq<char>>>, name: Seq<char>) -> Seq<Seq<char>> {
    match attribute_value(m, name) {
        Some(v) => seq![name + "=\""@ + v + "\""@],
        None => Seq::empty(),
    }
}

/// The parts joined with `sep` between neighbours.
pub open spec fn join(parts: Seq<Seq<char>>, sep: Seq<char>) -> Seq<char>
    decreases parts.len(),
{
    if parts.len() == 0 {
        Seq::empty()
    } else if parts.len() == 1 {
        parts[0]
    } else {
        join(parts.drop_last(), sep) + sep + parts.last()
    }
}

/// The Markdown text of one node, or the tag name of the first element, in document
/// order, that lies outside the known vocabulary.
pub open spec fn render_node(n: NodeView) -> Result<Seq<char>, Seq<char>>
    decreases n,
{
    match n {
        NodeView::Text(t) => Ok(t),
        NodeView::Comment(_) => Ok(Seq::empty()),
        NodeView::Element { name, attributes, classes, children } => {
            if name == "p"@ {
                match render_nodes(children) {
                    Ok(c) => Ok(c + "\n\n"@),
                    Err(e) => Err(e),
                }
            } else if name == "br"@ {
                Ok("  "@)
            } else if name == "a"@ {
                match render_nodes(children) {
                    Ok(c) => if classes.contains("keyword"@) {
                        Ok(c)
                    } else {
                        let link = match attribute_value(attributes, "href"@) {
                            Some(v) => v,
                            None => Seq::empty(),
                        };
                        Ok("["@ + c + "]("@ + link + ")"@)
                    },
                    Err(e) => Err(e),
                }
            } else if name == "span"@ {
                render_nodes(children)
            } else if name == "img"@ {
                let parts = image_attribute(attributes, "src"@) + image_attribute(attributes, "height"@)
                    + image_attribute(attributes, "width"@) + image_attribute(attributes, "loading"@);
                Ok("<img "@ + join(parts, " "@) + "/>"@)
            } else {
                Err(name)
            }
        },
    }
}

/// The Markdown text of a sequence of sibling nodes: their texts concatenated.
pub open spec fn render_nodes(s: Seq<NodeView>) -> Result<Seq<char>, Seq<char>>
    decreases s,
{
    if s.len() == 0 {
        Ok(Seq::empty())
    } else {
        match render_nodes(s.subrange(0, s.len() - 1)) {
            Ok(front) => match render_node(s[s.len() - 1]) {
                Ok(last) => Ok(front + last),
                Err(e) => Err(e),
            },
            Err(e) => Err(e),
        }
    }
}

/// What a markup renderer's result says in terms of character sequences; it never
/// reports a date.
pub open spec fn rendered(r: Result<String, RenderError>) -> Result<Seq<char>, Seq<char>> {
    match r {
        Ok(s) => Ok(s@),
        Err(RenderError::UnrecognizedMarkup(t)) => Err(t@),
        Err(RenderError::InvalidDate) => Err(Seq::empty()),
    }
}

/// The result is not about a date.
pub open spec fn markup_outcome(r: Result<String, RenderError>) -> bool {
    !(r matches Err(RenderError::InvalidDate))
}

proof fn lemma_nodes_view(s: Seq<MarkupNode>)
    ensures
        nodes_view(s).len() == s.len(),
        forall|i: int| 0 <= i < s.len() ==> #[trigger] nodes_view(s)[i] == node_view(s[i]),
    decreases s.len(),
{
    if s.len() > 0 {
        lemma_nodes_view(s.subrange(0, s.len() - 1));
        assert forall|i: int| 0 <= i < s.len() implies #[trigger] nodes_view(s)[i] == node_view(s[i]) by {
            if i < s.len() - 1 {
                assert(s.subrange(0, s.len() - 1)[i] == s[i]);
            }
        }
    }
}

proof fn lemma_render_error_persists(s: Seq<NodeView>, k: int)
    requires
        0 <= k <= s.len(),
        render_nodes(s.subrange(0, k)) is Err,
    ensures
        render_nodes(s) == render_nodes(s.subrange(0, k)),
    decreases s.len() - k,
{
    if k < s.len() {
        assert(s.subrange(0, k + 1).subrange(0, k) =~= s.subrange(0, k));
        lemma_render_error_persists(s, k + 1);
    } else {
        assert(s.subrange(0, k) =~= s);
    }
}

/// Renders one node.
pub fn dump_node(node: &MarkupNode) -> (r: Result<String, RenderError>)
    ensures
        rendered(r) == render_node(node_view(*node)),
        markup_outcome(r),
    decreases node,
{
    match node {
        MarkupNode::Text(text) => Ok(text.clone()),
        MarkupNode::Element(element) => dump_element(element),
        MarkupNode::Comment(_) => Ok(String::new()),
    }
}

/// Renders sibling nodes one after another.
pub fn dump_children(children: &Vec<MarkupNode>) -> (r: Result<String, RenderError>)
    ensures
        rendered(r) == render_nodes(nodes_view(children@)),
        markup_outcome(r),
    decreases children,
{
    let mut out = String::new();
    let mut i: usize = 0;
    proof {
        lemma_nodes_view(children@);
    }
    while i < children.len()
        invariant
            i <= children@.len(),
            nodes_view(children@).len() == children@.len(),
            render_nodes(nodes_view(children@).subrange(0, i as int)) == Ok::<Seq<char>, Seq<char>>(out@),
        decreases children@.len() - i,
    {
        proof {
            lemma_nodes_view(children@);
            let v = nodes_view(children@);
            assert(v.subrange(0, i + 1).subrange(0, i as int) =~= v.subrange(0, i as int));
            assert(v.subrange(0, i + 1)[i as int] == v[i as int]);
            assert(decreases_to!(children => children@[i as int]));
        }
        let part = match dump_node(&children[i]) {
            Ok(part) => part,
            Err(e) => {
                proof {
                    let v = nodes_view(children@);
                    lemma_render_error_persists(v, i + 1);
                }
                return Err(e);
            },
        };
        out.append(part.as_str());
        i = i + 1;
    }
    proof {
        lemma_nodes_view(children@);
        assert(nodes_view(children@).subrange(0, i as int) =~= nodes_view(children@));
    }
    Ok(out)
}

/// Looks up attribute `name`; where it occurs more than once the last one counts.
pub fn find_attribute<'a>(attributes: &'a Vec<(String, Option<String>)>, name: &str) -> (r: Option<&'a String>)
    ensures
        match r {
            Some(v) => attribute_value(attribute_map(attributes@), name@) == Some(v@),
            None => attribute_value(attribute_map(attributes@), name@) is None,
        },
{
    let mut i: usize = attributes.len();
    assert(attributes@.subrange(0, i as int) =~= attributes@);
    while i > 0
        invariant
            i <= attributes@.len(),
            attribute_value(attribute_map(attributes@), name@)
                == attribute_value(attribute_map(attributes@.subrange(0, i as int)), name@),
        decreases i,
    {
        let j = i - 1;
        let ghost front = attributes@.subrange(0, i as int);
        assert(front.drop_last() =~= attributes@.subrange(0, j as int));
        assert(front.last() == attributes@[j as int]);
        if same_text(attributes[j].0.as_str(), name) {
            return attributes[j].1.as_ref();
        }
        i = j;
    }
    None
}

/// Whether `class` is among the classes.
pub fn has_class(classes: &Vec<String>, class: &str) -> (r: bool)
    ensures
        r == strings_view(classes@).contains(class@),
{
    let mut i: usize = 0;
    while i < classes.len()
        invariant
            i <= classes@.len(),
            forall|j: int| 0 <= j < i ==> classes@[j]@ != class@,
        decreases classes@.len() - i,
    {
        if same_text(classes[i].as_str(), class) {
            assert(strings_view(classes@)[i as int] == class@);
            return true;
        }
        i = i + 1;
    }
    proof {
        if strings_view(classes@).contains(class@) {
            let k = choose|k: int| 0 <= k < strings_view(classes@).len() && strings_view(classes@)[k] == class@;
            assert(classes@[k]@ == class@);
        }
    }
    false
}

/// Adds `name="value"` to `parts` where attribute `name` is present with a value.
fn push_image_attribute(parts: &mut Vec<String>, attributes: &Vec<(String, Option<String>)>, name: &str)
    ensures
        strings_view(final(parts)@) == strings_view(old(parts)@) + image_attribute(attribute_map(attributes@), name@),
{
    match find_attribute(attributes, name) {
        Some(value) => {
            let mut part = name.to_owned();
            part.append("=\"");
            part.append(value.as_str());
            part.append("\"");
            let ghost before = parts@;
            parts.push(part);
            assert(strings_view(parts@) =~= strings_view(before) + image_attribute(attribute_map(attributes@), name@));
        },
        None => {
            assert(strings_view(parts@) =~= strings_view(parts@) + image_attribute(attribute_map(attributes@), name@));
        },
    }
}

/// The parts with one space between neighbours.
fn join_with_space(parts: &Vec<String>) -> (r: String)
    ensures
        r@ == join(strings_view(parts@), " "@),
{
    let ghost v = strings_view(parts@);
    if parts.len() == 0 {
        return String::new();
    }
    let mut out = parts[0].clone();
    assert(v.subrange(0, 1).len() == 1);
    let mut i: usize = 1;
    while i < parts.len()
        invariant
            1 <= i <= parts@.len(),
            v == strings_view(parts@),
            out@ == join(v.subrange(0, i as int), " "@),
        decreases parts@.len() - i,
    {
        assert(v.subrange(0, i + 1).drop_last() =~= v.subrange(0, i as int));
        out.append(" ");
        out.append(parts[i].as_str());
        i = i + 1;
    }
    assert(v.subrange(0, i as int) =~= v);
    out
}

/// Renders one element after its tag: paragraphs, line breaks, links, spans and
/// images; any other tag is refused.
pub fn dump_element(element: &Element) -> (r: Result<String, RenderError>)
    ensures
        rendered(r) == render_node(element_view(*element)),
        markup_outcome(r),
    decreases element,
{
    let name = element.name.as_str();
    if same_text(name, "p") {
        let mut out = dump_children(&element.children)?;
        out.append("\n\n");
        Ok(out)
    } else if same_text(name, "br") {
        Ok("  ".to_owned())
    } else if same_text(name, "a") {
        let text = dump_children(&element.children)?;
        if has_class(&element.classes, "keyword") {
            return Ok(text);
        }
        let mut out = "[".to_owned();
        out.append(text.as_str());
        out.append("](");
        match find_attribute(&element.attributes, "href") {
            Some(link) => out.append(link.as_str()),
            None => {},
        }
        out.append(")");
        Ok(out)
    } else if same_text(name, "span") {
        dump_children(&element.children)
    } else if same_text(name, "img") {
        let mut parts: Vec<String> = Vec::new();
        proof {
            assert(strings_view(parts@) =~= Seq::<Seq<char>>::empty());
        }
        push_image_attribute(&mut parts, &element.attributes, "src");
        push_image_attribute(&mut parts, &element.attributes, "height");
        push_image_attribute(&mut parts, &element.attributes, "width");
        push_image_attribute(&mut parts, &element.attributes, "loading");
        let mut out = "<img ".to_owned();
        out.append(join_with_space(&parts).as_str());
        out.append("/>");
        Ok(out)
    } else {
        Err(RenderError::UnrecognizedMarkup(element.name.clone()))
    }
}

} // verus!
