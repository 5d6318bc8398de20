//! The markup parser: text to a document tree.
use vstd::prelude::*;

use crate::dom::{AttrMap, Document, Node, NodeType, elem, text};
use crate::scan::{CharClass, Scanner, advanced, lemma_run_end, run_end, starts_at};
use crate::strmap::{StrMap, str_eq};

verus! {

/// Why a text is not well-formed markup.
#[derive(Debug, PartialEq, Eq, Structural)]
pub enum HtmlError {
    /// The text ended inside a tag, comment or attribute.
    UnexpectedEnd,
    /// A character that the grammar does not allow where it stands.
    UnexpectedChar(char),
    /// A closing tag whose name is not that of the element it closes.
    MismatchedClosingTag,
}

/// Where the quoted attribute value that starts at `p` ends (after its
/// closing quote), if it is well formed.
pub open spec fn attr_value_end(s: Seq<char>, p: int) -> Option<int> {
    if 0 <= p < s.len() && (s[p] == '"' || s[p] == '\'') {
        let e = run_end(s, p + 1, CharClass::Not(s[p]));
        if e < s.len() {
            Some(e + 1)
        } else {
            None
        }
    } else {
        None
    }
}

/// What a node holds, as plain values: text, or an element's name,
/// attributes and children.
pub enum NodeView {
    Text(Seq<char>),
    Element(Seq<char>, Map<Seq<char>, Seq<char>>, Seq<NodeView>),
}

pub open spec fn attr_views(m: Map<Seq<char>, String>) -> Map<Seq<char>, Seq<char>> {
    m.map_values(|v: String| v@)
}

pub open spec fn view_of(n: Node) -> NodeView
    decreases n,
{
    match n.typ {
        NodeType::Text(t) => NodeView::Text(t@),
        NodeType::Element(e) => NodeView::Element(e.tag_name@, attr_views(e.attrs@), views_of(n.children@)),
    }
}

pub open spec fn views_of(s: Seq<Node>) -> Seq<NodeView>
    decreases s,
{
    if s.len() == 0 {
        Seq::empty()
    } else {
        views_of(s.drop_last()).push(view_of(s.last()))
    }
}

pub proof fn lemma_views_of(s: Seq<Node>)
    ensures
        views_of(s).len() == s.len(),
        forall|i: int| 0 <= i < s.len() ==> views_of(s)[i] == view_of(#[trigger] s[i]),
    decreases s.len(),
{
    if s.len() > 0 {
        lemma_views_of(s.drop_last());
        assert forall|i: int| 0 <= i < s.len() implies views_of(s)[i] == view_of(#[trigger] s[i]) by {
            if i < s.len() - 1 {
                assert(s.drop_last()[i] == s[i]);
            }
        }
    }
}

/// Where the comment that the cursor at `p` is inside ends: just after the
/// first `-->` at or after `p`.
pub open spec fn comment_end(s: Seq<char>, p: int) -> Option<int>
    decreases s.len() - p,
{
    if p < 0 {
        None
    } else if starts_at(s, p, "-->"@) {
        Some(p + 3)
    } else if p >= s.len() {
        None
    } else {
        comment_end(s, p + 1)
    }
}

/// Where a declaration such as `<!DOCTYPE html>` at `p` ends: after its `>`.
pub open spec fn doctype_end(s: Seq<char>, p: int) -> Option<int> {
    let e = run_end(s, p, CharClass::Not('>'));
    if 0 <= p && e < s.len() {
        Some(e + 1)
    } else {
        None
    }
}

/// The attribute `name="value"` at `p`, and where it ends.
pub open spec fn attr_at(s: Seq<char>, p: int) -> Option<(Seq<char>, Seq<char>, int)> {
    let e = run_end(s, p, CharClass::Alphanumeric);
    if 0 <= p && e < s.len() && s[e] == '=' && attr_value_end(s, e + 1) is Some {
        let end = attr_value_end(s, e + 1)->0;
        Some((s.subrange(p, e), s.subrange(e + 2, end - 1), end))
    } else {
        None
    }
}

pub proof fn lemma_attr_at(s: Seq<char>, p: int)
    ensures
        attr_at(s, p) matches Some((_, _, e)) ==> p < e <= s.len(),
{
    if 0 <= p <= s.len() {
        lemma_run_end(s, p, CharClass::Alphanumeric);
        let e0 = run_end(s, p, CharClass::Alphanumeric);
        if e0 + 2 <= s.len() && (s[e0 + 1] == '"' || s[e0 + 1] == '\'') {
            lemma_run_end(s, e0 + 2, CharClass::Not(s[e0 + 1]));
        }
    }
}

/// The attributes from `p` up to `>` or `/>`, added to `m` in order, and
/// where they end.
pub open spec fn attrs_at(s: Seq<char>, p: int, m: Map<Seq<char>, Seq<char>>) -> Option<(Map<Seq<char>, Seq<char>>, int)>
    decreases s.len() - p,
{
    if p < 0 || p > s.len() {
        None
    } else {
        let q = run_end(s, p, CharClass::Whitespace);
        proof {
            lemma_run_end(s, p, CharClass::Whitespace);
        }
        if q >= s.len() {
            None
        } else if starts_at(s, q, "/>"@) || s[q] == '>' {
            Some((m, q))
        } else {
            match attr_at(s, q) {
                Some((n, v, e)) => {
                    proof {
                        lemma_attr_at(s, q);
                    }
                    attrs_at(s, e, m.insert(n, v))
                },
                None => None,
            }
        }
    }
}

pub proof fn lemma_attrs_at(s: Seq<char>, p: int, m: Map<Seq<char>, Seq<char>>)
    ensures
        attrs_at(s, p, m) matches Some((_, q)) ==> p <= q < s.len(),
    decreases s.len() - p,
{
    if 0 <= p <= s.len() {
        let q = run_end(s, p, CharClass::Whitespace);
        lemma_run_end(s, p, CharClass::Whitespace);
        if q < s.len() && !(starts_at(s, q, "/>"@) || s[q] == '>') {
            if let Some((n, v, e)) = attr_at(s, q) {
                lemma_attr_at(s, q);
                lemma_attrs_at(s, e, m.insert(n, v));
            }
        }
    }
}

pub proof fn lemma_comment_end(s: Seq<char>, p: int)
    ensures
        comment_end(s, p) matches Some(e) ==> p < e <= s.len(),
    decreases s.len() - p,
{
    reveal_strlit("-->");
    if p >= 0 && !starts_at(s, p, "-->"@) && p < s.len() {
        lemma_comment_end(s, p + 1);
    }
}

/// The element at `p` (which starts with `<`) and where it ends.
pub open spec fn element_at(s: Seq<char>, p: int) -> Option<(NodeView, int)>
    decreases s.len() - p, 0nat,
{
    if p < 0 || p >= s.len() || s[p] != '<' {
        None
    } else {
        let e1 = run_end(s, p + 1, CharClass::Alphanumeric);
        let name = s.subrange(p + 1, e1);
        proof {
            lemma_run_end(s, p + 1, CharClass::Alphanumeric);
            lemma_attrs_at(s, e1, Map::empty());
        }
        match attrs_at(s, e1, Map::empty()) {
            None => None,
            Some((m, q)) => if starts_at(s, q, "/>"@) {
                Some((NodeView::Element(name, m, Seq::empty()), q + 2))
            } else if s[q] == '>' {
                match nodes_at(s, q + 1, Seq::empty()) {
                    None => None,
                    Some((kids, r)) => {
                        let e2 = run_end(s, r + 2, CharClass::Alphanumeric);
                        if 0 <= r && r + 1 < s.len() && s[r] == '<' && s[r + 1] == '/' && s.subrange(r + 2, e2) == name
                            && e2 < s.len() && s[e2] == '>' {
                            Some((NodeView::Element(name, m, kids), e2 + 1))
                        } else {
                            None
                        }
                    },
                }
            } else {
                None
            },
        }
    }
}

/// The nodes from `p` up to the end of `s` or a closing tag, after `acc`,
/// skipping white space, comments and declarations between them; and where
/// they end.
pub open spec fn nodes_at(s: Seq<char>, p: int, acc: Seq<NodeView>) -> Option<(Seq<NodeView>, int)>
    decreases s.len() - p, 1nat,
{
    if p < 0 || p > s.len() {
        None
    } else {
        let q = run_end(s, p, CharClass::Whitespace);
        proof {
            lemma_run_end(s, p, CharClass::Whitespace);
        }
        if starts_at(s, q, "<!--"@) {
            proof {
                lemma_comment_end(s, q);
            }
            match comment_end(s, q) {
                Some(e) => nodes_at(s, e, acc),
                None => None,
            }
        } else if starts_at(s, q, "<!"@) {
            proof {
                lemma_run_end(s, q, CharClass::Not('>'));
            }
            match doctype_end(s, q) {
                Some(e) => nodes_at(s, e, acc),
                None => None,
            }
        } else if q >= s.len() || starts_at(s, q, "</"@) {
            Some((acc, q))
        } else if s[q] == '<' {
            match element_at(s, q) {
                Some((v, e)) => if e > q && e <= s.len() {
                    nodes_at(s, e, acc.push(v))
                } else {
                    None
                },
                None => None,
            }
        } else {
            let e = run_end(s, q, CharClass::Not('<'));
            proof {
                lemma_run_end(s, q + 1, CharClass::Not('<'));
            }
            nodes_at(s, e, acc.push(NodeView::Text(s.subrange(q, e))))
        }
    }
}

/// The document that markup `s` describes: its one top-level node, or an
/// `html` element around several.
pub open spec fn document_of(s: Seq<char>) -> Option<NodeView> {
    match nodes_at(s, 0, Seq::empty()) {
        Some((kids, _)) => if kids.len() == 1 {
            Some(kids[0])
        } else {
            Some(NodeView::Element("html"@, Map::empty(), kids))
        },
        None => None,
    }
}

/// Parses markup into a document. A single top-level node is the root;
/// several are wrapped in an `html` element.
pub fn parse(source: String) -> (r: Result<Document, HtmlError>)
    ensures
        r is Ok <==> document_of(source@) is Some,
        r matches Ok(d) ==> document_of(source@) == Some(view_of(d.root_node)),
{
    let mut p = Scanner::new(source.as_str());
    let mut nodes = parse_nodes(&mut p)?;
    proof {
        lemma_views_of(nodes@);
    }
    if nodes.len() == 1 {
        let root = nodes.pop().unwrap();
        Ok(Document::new(root))
    } else {
        let attrs: AttrMap = StrMap::new();
        assert(attr_views(attrs@) =~= Map::<Seq<char>, Seq<char>>::empty());
        Ok(Document::new(elem(String::from_str("html"), attrs, nodes)))
    }
}

/// Nodes up to the end of the text or to a closing tag, skipping white space,
/// comments and doctype declarations between them.
fn parse_nodes(p: &mut Scanner) -> (r: Result<Vec<Node>, HtmlError>)
    requires
        old(p).wf(),
    ensures
        advanced(*old(p), *final(p)),
        r is Ok <==> nodes_at(old(p).input@, old(p).pos as int, Seq::empty()) is Some,
        r matches Ok(v) ==> nodes_at(old(p).input@, old(p).pos as int, Seq::empty())
            == Some((views_of(v@), final(p).pos as int)),
    decreases old(p).input@.len() - old(p).pos, 2nat,
{
    let mut nodes: Vec<Node> = Vec::new();
    let ghost s = p.input@;
    assert(views_of(nodes@) =~= Seq::<NodeView>::empty());
    loop
        invariant_except_break
            nodes_at(s, old(p).pos as int, Seq::empty()) == nodes_at(s, p.pos as int, views_of(nodes@)),
        invariant
            p.wf(),
            advanced(*old(p), *p),
            s == p.input@,
        ensures
            p.wf(),
            advanced(*old(p), *p),
            nodes_at(s, old(p).pos as int, Seq::empty()) == Some((views_of(nodes@), p.pos as int)),
        decreases p.input@.len() - p.pos,
    {
        let ghost p0 = p.pos as int;
        proof {
            lemma_run_end(s, p0, CharClass::Whitespace);
            reveal_strlit("<!--");
            reveal_strlit("<!");
            reveal_strlit("</");
        }
        p.consume_whitespace();
        if p.starts_with("<!--") {
            proof {
                lemma_comment_end(s, p.pos as int);
            }
            consume_comment(p)?;
            continue;
        }
        if p.starts_with("<!") {
            proof {
                lemma_run_end(s, p.pos as int, CharClass::Not('>'));
            }
            consume_doctype(p)?;
            continue;
        }
        if p.eof() || p.starts_with("</") {
            break;
        }
        let start = p.pos;
        let node = parse_node(p)?;
        if p.pos == start {
            return Err(HtmlError::UnexpectedChar(p.next_char()));
        }
        let ghost before = nodes@;
        nodes.push(node);
        assert(nodes@.drop_last() =~= before);
    }
    Ok(nodes)
}

/// The node at `q` of `s`: an element at `<`, else the text up to the next `<`.
pub open spec fn node_at(s: Seq<char>, q: int) -> Option<(NodeView, int)> {
    if s[q] == '<' {
        element_at(s, q)
    } else {
        let e = run_end(s, q, CharClass::Not('<'));
        Some((NodeView::Text(s.subrange(q, e)), e))
    }
}

/// An element if the cursor is at `<`, else a text node.
fn parse_node(p: &mut Scanner) -> (r: Result<Node, HtmlError>)
    requires
        old(p).wf(),
        old(p).pos < old(p).input@.len(),
    ensures
        advanced(*old(p), *final(p)),
        r is Ok <==> node_at(old(p).input@, old(p).pos as int) is Some,
        r matches Ok(n) ==> node_at(old(p).input@, old(p).pos as int) == Some((view_of(n), final(p).pos as int)),
        r is Ok && old(p).input@[old(p).pos as int] != '<' ==> final(p).pos > old(p).pos,
    decreases old(p).input@.len() - old(p).pos, 1nat,
{
    if p.next_char() == '<' {
        parse_element(p)
    } else {
        proof {
            lemma_run_end(p.input@, p.pos + 1, CharClass::Not('<'));
        }
        let n = parse_text(p);
        Ok(n)
    }
}

/// `<name attrs/>`, or `<name attrs>children</name>`.
fn parse_element(p: &mut Scanner) -> (r: Result<Node, HtmlError>)
    requires
        old(p).wf(),
        old(p).pos < old(p).input@.len(),
        old(p).input@[old(p).pos as int] == '<',
    ensures
        advanced(*old(p), *final(p)),
        r is Ok <==> element_at(old(p).input@, old(p).pos as int) is Some,
        r matches Ok(n) ==> element_at(old(p).input@, old(p).pos as int) == Some((view_of(n), final(p).pos as int)),
    decreases old(p).input@.len() - old(p).pos, 0nat,
{
    let ghost s = p.input@;
    proof {
        reveal_strlit("/>");
        lemma_run_end(s, p.pos + 1, CharClass::Alphanumeric);
        lemma_attrs_at(s, run_end(s, p.pos + 1, CharClass::Alphanumeric), Map::empty());
    }
    p.consume_char();
    let tag_name = parse_tag_name(p);
    let attrs = parse_attributes(p)?;
    if p.starts_with("/>") {
        p.consume_char();
        p.consume_char();
        let n = elem(tag_name, attrs, Vec::new());
        assert(views_of(n.children@) =~= Seq::<NodeView>::empty());
        return Ok(n);
    }
    expect(p, '>')?;
    let children = parse_nodes(p)?;
    expect(p, '<')?;
    expect(p, '/')?;
    let closing = parse_tag_name(p);
    if !str_eq(closing.as_str(), tag_name.as_str()) {
        return Err(HtmlError::MismatchedClosingTag);
    }
    expect(p, '>')?;
    Ok(elem(tag_name, attrs, children))
}

/// Consumes `c`, or fails.
fn expect(p: &mut Scanner, c: char) -> (r: Result<(), HtmlError>)
    requires
        old(p).wf(),
    ensures
        advanced(*old(p), *final(p)),
        r is Ok <==> (old(p).pos < old(p).input@.len() && old(p).input@[old(p).pos as int] == c),
        r is Ok ==> final(p).pos == old(p).pos + 1,
{
    if p.eof() {
        return Err(HtmlError::UnexpectedEnd);
    }
    let got = p.consume_char();
    if got != c {
        return Err(HtmlError::UnexpectedChar(got));
    }
    Ok(())
}

/// A run of ASCII letters and digits.
fn parse_tag_name(p: &mut Scanner) -> (r: String)
    requires
        old(p).wf(),
    ensures
        advanced(*old(p), *final(p)),
        final(p).pos == run_end(old(p).input@, old(p).pos as int, CharClass::Alphanumeric),
        r@ == old(p).input@.subrange(old(p).pos as int, final(p).pos as int),
{
    p.consume_while(CharClass::Alphanumeric)
}

/// `name="value"` pairs up to `>` or `/>`; a later pair for a name replaces
/// an earlier one.
fn parse_attributes(p: &mut Scanner) -> (r: Result<AttrMap, HtmlError>)
    requires
        old(p).wf(),
    ensures
        advanced(*old(p), *final(p)),
        r is Ok <==> attrs_at(old(p).input@, old(p).pos as int, Map::empty()) is Some,
        r matches Ok(m) ==> attrs_at(old(p).input@, old(p).pos as int, Map::empty())
            == Some((attr_views(m@), final(p).pos as int)),
{
    let ghost s = p.input@;
    let mut attributes: AttrMap = StrMap::new();
    assert(attr_views(attributes@) =~= Map::<Seq<char>, Seq<char>>::empty());
    loop
        invariant_except_break
            attrs_at(s, old(p).pos as int, Map::empty()) == attrs_at(s, p.pos as int, attr_views(attributes@)),
        invariant
            p.wf(),
            advanced(*old(p), *p),
            s == p.input@,
        ensures
            p.wf(),
            advanced(*old(p), *p),
            attrs_at(s, old(p).pos as int, Map::empty()) == Some((attr_views(attributes@), p.pos as int)),
        decreases p.input@.len() - p.pos,
    {
        let ghost p0 = p.pos as int;
        proof {
            reveal_strlit("/>");
            lemma_run_end(s, p0, CharClass::Whitespace);
        }
        p.consume_whitespace();
        if p.eof() {
            return Err(HtmlError::UnexpectedEnd);
        }
        if p.starts_with("/>") || p.next_char() == '>' {
            break;
        }
        proof {
            lemma_attr_at(s, p.pos as int);
        }
        let (name, value) = parse_attr(p)?;
        let ghost before = attributes@;
        attributes.insert(name, value);
        assert(attr_views(attributes@) =~= attr_views(before).insert(name@, value@));
    }
    Ok(attributes)
}

/// `name="value"`.
fn parse_attr(p: &mut Scanner) -> (r: Result<(String, String), HtmlError>)
    requires
        old(p).wf(),
    ensures
        advanced(*old(p), *final(p)),
        r is Ok <==> attr_at(old(p).input@, old(p).pos as int) is Some,
        r matches Ok(nv) ==> attr_at(old(p).input@, old(p).pos as int) == Some((nv.0@, nv.1@, final(p).pos as int)),
{
    let name = parse_tag_name(p);
    expect(p, '=')?;
    let value = parse_attr_value(p)?;
    Ok((name, value))
}

/// A value in single or double quotes.
fn parse_attr_value(p: &mut Scanner) -> (r: Result<String, HtmlError>)
    requires
        old(p).wf(),
    ensures
        advanced(*old(p), *final(p)),
        r is Ok <==> attr_value_end(old(p).input@, old(p).pos as int) is Some,
        r matches Ok(v) ==> v@ == old(p).input@.subrange(old(p).pos + 1,
            attr_value_end(old(p).input@, old(p).pos as int)->0 - 1)
            && final(p).pos == attr_value_end(old(p).input@, old(p).pos as int)->0,
{
    if p.eof() {
        return Err(HtmlError::UnexpectedEnd);
    }
    let open_quote = p.consume_char();
    if open_quote != '"' && open_quote != '\'' {
        return Err(HtmlError::UnexpectedChar(open_quote));
    }
    let value = p.consume_while(CharClass::Not(open_quote));
    if p.eof() {
        return Err(HtmlError::UnexpectedEnd);
    }
    p.consume_char();
    Ok(value)
}

/// Text up to the next `<`.
fn parse_text(p: &mut Scanner) -> (r: Node)
    requires
        old(p).wf(),
    ensures
        advanced(*old(p), *final(p)),
        final(p).pos == run_end(old(p).input@, old(p).pos as int, CharClass::Not('<')),
        r.children@.len() == 0,
        r.typ matches NodeType::Text(t) && t@ == old(p).input@.subrange(old(p).pos as int, final(p).pos as int),
{
    text(p.consume_while(CharClass::Not('<')))
}

/// Skips a comment, `<!--` through `-->`.
fn consume_comment(p: &mut Scanner) -> (r: Result<(), HtmlError>)
    requires
        old(p).wf(),
    ensures
        advanced(*old(p), *final(p)),
        r is Ok <==> comment_end(old(p).input@, old(p).pos as int) is Some,
        r is Ok ==> final(p).pos == comment_end(old(p).input@, old(p).pos as int)->0,
{
    loop
        invariant
            p.wf(),
            advanced(*old(p), *p),
            comment_end(old(p).input@, old(p).pos as int) == comment_end(p.input@, p.pos as int),
        decreases p.input@.len() - p.pos,
    {
        proof {
            reveal_strlit("-->");
        }
        if p.starts_with("-->") {
            p.consume_char();
            p.consume_char();
            p.consume_char();
            return Ok(());
        }
        if p.eof() {
            return Err(HtmlError::UnexpectedEnd);
        }
        p.consume_char();
    }
}

/// Skips a declaration such as `<!DOCTYPE html>`, through its `>`.
fn consume_doctype(p: &mut Scanner) -> (r: Result<(), HtmlError>)
    requires
        old(p).wf(),
    ensures
        advanced(*old(p), *final(p)),
        r is Ok <==> doctype_end(old(p).input@, old(p).pos as int) is Some,
        r is Ok ==> final(p).pos == doctype_end(old(p).input@, old(p).pos as int)->0,
{
    proof {
        lemma_run_end(p.input@, p.pos as int, CharClass::Not('>'));
    }
    p.consume_while(CharClass::Not('>'));
    expect(p, '>')
}

} // verus!
