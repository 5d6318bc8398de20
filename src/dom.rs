//! The document tree: elements with attributes, and text.
use vstd::prelude::*;

use crate::strmap::{StrMap, str_eq};

verus! {

/// Attribute names to attribute values.
pub type AttrMap = StrMap<String>;

#[derive(Debug)]
pub struct Document {
    pub root_node: Node,
}

#[derive(Debug, PartialEq)]
pub struct Node {
    pub children: Vec<Node>,
    pub typ: NodeType,
}

#[derive(Debug, PartialEq)]
pub enum NodeType {
    Text(String),
    Element(ElementData),
}

#[derive(Debug, PartialEq)]
pub struct ElementData {
    pub tag_name: String,
    pub attrs: AttrMap,
}

pub fn text(data: String) -> (n: Node)
    ensures
        n.children@.len() == 0,
        n.typ == NodeType::Text(data),
{
    Node { children: Vec::new(), typ: NodeType::Text(data) }
}

pub fn elem(name: String, attrs: AttrMap, children: Vec<Node>) -> (n: Node)
    ensures
        n.children == children,
        n.typ == NodeType::Element(ElementData { tag_name: name, attrs }),
{
    Node { children, typ: NodeType::Element(ElementData { tag_name: name, attrs }) }
}

/// The pieces of `s` between separators `sep`, as `str::split` gives them.
pub open spec fn split_on(s: Seq<char>, sep: char) -> Seq<Seq<char>>
    decreases s.len(),
{
    if s.len() == 0 {
        seq![Seq::<char>::empty()]
    } else {
        let init = split_on(s.drop_last(), sep);
        if s.last() == sep {
            init.push(Seq::<char>::empty())
        } else {
            init.update(init.len() - 1, init.last().push(s.last()))
        }
    }
}

proof fn lemma_split_on_nonempty(s: Seq<char>, sep: char)
    ensures
        split_on(s, sep).len() >= 1,
    decreases s.len(),
{
    if s.len() > 0 {
        lemma_split_on_nonempty(s.drop_last(), sep);
    }
}

/// The views of a sequence of strings.
pub open spec fn views(s: Seq<String>) -> Seq<Seq<char>> {
    s.map_values(|x: String| x@)
}

/// The class names of an element with attribute map `attrs`.
pub open spec fn class_names(attrs: Map<Seq<char>, String>) -> Seq<Seq<char>> {
    if attrs.contains_key("class"@) {
        split_on(attrs["class"@]@, ' ')
    } else {
        Seq::empty()
    }
}

/// The text of a node: its own if it is text, else that of its children in order.
pub open spec fn text_of(n: Node) -> Seq<char>
    decreases n,
{
    match n.typ {
        NodeType::Text(t) => t@,
        NodeType::Element(_) => texts_of(n.children@),
    }
}

/// The texts of a sequence of nodes, concatenated.
pub open spec fn texts_of(s: Seq<Node>) -> Seq<char>
    decreases s,
{
    if s.len() == 0 {
        Seq::empty()
    } else {
        texts_of(s.drop_last()) + text_of(s.last())
    }
}

/// Whether `n` is an element named `tag`.
pub open spec fn has_tag(n: Node, tag: Seq<char>) -> bool {
    match n.typ {
        NodeType::Element(e) => e.tag_name@ == tag,
        NodeType::Text(_) => false,
    }
}

/// The elements named `tag` in the tree of `n`, in document order.
pub open spec fn tagged(n: Node, tag: Seq<char>) -> Seq<Node>
    decreases n,
{
    (if has_tag(n, tag) { seq![n] } else { Seq::empty() }) + tagged_in(n.children@, tag)
}

/// The elements named `tag` in the trees of a sequence of nodes, in order.
pub open spec fn tagged_in(s: Seq<Node>, tag: Seq<char>) -> Seq<Node>
    decreases s,
{
    if s.len() == 0 {
        Seq::empty()
    } else {
        tagged_in(s.drop_last(), tag) + tagged(s.last(), tag)
    }
}

/// The value of attribute `name` of node `n`, if `n` is an element that has it.
pub open spec fn attr_of(n: Node, name: Seq<char>) -> Option<Seq<char>> {
    match n.typ {
        NodeType::Element(e) => if e.attrs@.contains_key(name) {
            Some(e.attrs@[name]@)
        } else {
            None
        },
        NodeType::Text(_) => None,
    }
}

/// The stylesheet paths of the `link` elements among `links`: the `href` of
/// each one whose `rel` is `stylesheet` and that has an `href`.
pub open spec fn stylesheet_hrefs(links: Seq<Node>) -> Seq<Seq<char>>
    decreases links.len(),
{
    if links.len() == 0 {
        Seq::empty()
    } else {
        let n = links.last();
        stylesheet_hrefs(links.drop_last()) + if attr_of(n, "rel"@) == Some("stylesheet"@)
            && attr_of(n, "href"@) is Some {
            seq![attr_of(n, "href"@)->0]
        } else {
            Seq::empty()
        }
    }
}

impl Document {
    pub fn new(root_node: Node) -> (d: Document)
        ensures
            d.root_node == root_node,
    {
        Document { root_node }
    }

    fn collect_tags<'a>(&self, node: &'a Node, tag_name: &str, nodes: &mut Vec<&'a Node>)
        ensures
            final(nodes)@.map_values(|r: &Node| *r) == old(nodes)@.map_values(|r: &Node| *r)
                + tagged(*node, tag_name@),
        decreases node,
    {
        let ghost start = nodes@.map_values(|r: &Node| *r);
        if let NodeType::Element(dat) = &node.typ {
            if str_eq(dat.tag_name.as_str(), tag_name) {
                nodes.push(node);
            }
        }
        let ghost mid = nodes@.map_values(|r: &Node| *r);
        assert(mid == start + (if has_tag(*node, tag_name@) { seq![*node] } else { Seq::empty() })) by {
            assert(mid =~= start + (if has_tag(*node, tag_name@) { seq![*node] } else { Seq::empty() }));
        }
        let mut i: usize = 0;
        while i < node.children.len()
            invariant
                i <= node.children@.len(),
                nodes@.map_values(|r: &Node| *r) == mid + tagged_in(node.children@.subrange(0, i as int), tag_name@),
            decreases node.children@.len() - i,
        {
            let ghost before = nodes@.map_values(|r: &Node| *r);
            self.collect_tags(&node.children[i], tag_name, nodes);
            assert(node.children@.subrange(0, i + 1).drop_last() =~= node.children@.subrange(0, i as int));
            assert(nodes@.map_values(|r: &Node| *r) =~= mid + tagged_in(node.children@.subrange(0, i + 1), tag_name@));
            i = i + 1;
        }
        assert(node.children@.subrange(0, i as int) =~= node.children@);
        assert(nodes@.map_values(|r: &Node| *r) =~= start + tagged(*node, tag_name@));
    }

    /// The `href` of each `<link rel="stylesheet">` element, in document order.
    pub fn collect_css_pathes(&self) -> (r: Vec<String>)
        ensures
            views(r@) == stylesheet_hrefs(tagged(self.root_node, "link"@)),
    {
        let mut links: Vec<&Node> = Vec::new();
        self.collect_tags(&self.root_node, "link", &mut links);
        proof {
            assert(links@.map_values(|r: &Node| *r) =~= Seq::<Node>::empty() + tagged(self.root_node, "link"@));
        }
        let ghost all = links@.map_values(|r: &Node| *r);
        let mut out: Vec<String> = Vec::new();
        let mut i: usize = 0;
        while i < links.len()
            invariant
                i <= links@.len(),
                all == links@.map_values(|r: &Node| *r),
                views(out@) == stylesheet_hrefs(all.subrange(0, i as int)),
            decreases links@.len() - i,
        {
            let node = links[i];
            assert(all.subrange(0, i + 1).drop_last() =~= all.subrange(0, i as int));
            assert(all.subrange(0, i + 1).last() == *node);
            if let NodeType::Element(dat) = &node.typ {
                let is_sheet = match dat.attrs.get("rel") {
                    Some(rel) => str_eq(rel.as_str(), "stylesheet"),
                    None => false,
                };
                if is_sheet {
                    if let Some(href) = dat.attrs.get("href") {
                        out.push(href.clone());
                    }
                }
            }
            assert(views(out@) =~= stylesheet_hrefs(all.subrange(0, i + 1)));
            i = i + 1;
        }
        assert(all.subrange(0, i as int) =~= all);
        out
    }

    /// The text of each `<style>` element, in document order.
    pub fn collect_inline_styles(&self) -> (r: Vec<String>)
        ensures
            views(r@) == tagged(self.root_node, "style"@).map_values(|n: Node| text_of(n)),
    {
        let mut styles: Vec<&Node> = Vec::new();
        self.collect_tags(&self.root_node, "style", &mut styles);
        proof {
            assert(styles@.map_values(|r: &Node| *r) =~= Seq::<Node>::empty() + tagged(self.root_node, "style"@));
        }
        let ghost all = styles@.map_values(|r: &Node| *r);
        let mut out: Vec<String> = Vec::new();
        let mut i: usize = 0;
        while i < styles.len()
            invariant
                i <= styles@.len(),
                all == styles@.map_values(|r: &Node| *r),
                views(out@) == all.subrange(0, i as int).map_values(|n: Node| text_of(n)),
            decreases styles@.len() - i,
        {
            let t = styles[i].inner_text();
            let ghost old_views = views(out@);
            out.push(t);
            assert(views(out@) =~= old_views.push(t@));
            assert(all[i as int] == *styles@[i as int]);
            assert(all.subrange(0, i + 1) =~= all.subrange(0, i as int).push(all[i as int]));
            assert(views(out@) =~= all.subrange(0, i + 1).map_values(|n: Node| text_of(n)));
            i = i + 1;
        }
        assert(all.subrange(0, i as int) =~= all);
        out
    }
}

impl Node {
    /// The text of this node and its descendants, in document order.
    pub fn inner_text(&self) -> (r: String)
        ensures
            r@ == text_of(*self),
        decreases self,
    {
        if let NodeType::Text(t) = &self.typ {
            return t.clone();
        }
        let mut out = String::new();
        let mut i: usize = 0;
        while i < self.children.len()
            invariant
                i <= self.children@.len(),
                out@ == texts_of(self.children@.subrange(0, i as int)),
            decreases self.children@.len() - i,
        {
            let part = self.children[i].inner_text();
            out = out.concat(part.as_str());
            assert(self.children@.subrange(0, i + 1).drop_last() =~= self.children@.subrange(0, i as int));
            i = i + 1;
        }
        assert(self.children@.subrange(0, i as int) =~= self.children@);
        out
    }
}

impl ElementData {
    pub fn id(&self) -> (r: Option<&String>)
        ensures
            match r {
                Some(v) => self.attrs@.contains_key("id"@) && self.attrs@["id"@] == *v,
                None => !self.attrs@.contains_key("id"@),
            },
    {
        self.attrs.get("id")
    }

    /// The class names: the `class` attribute split at each space.
    pub fn classes(&self) -> (r: Vec<String>)
        ensures
            views(r@) == class_names(self.attrs@),
    {
        match self.attrs.get("class") {
            Some(list) => split_spaces(list.as_str()),
            None => Vec::new(),
        }
    }
}

/// `s` split at each space.
fn split_spaces(s: &str) -> (r: Vec<String>)
    ensures
        views(r@) == split_on(s@, ' '),
{
    let n = s.unicode_len();
    let mut out: Vec<String> = Vec::new();
    let mut start: usize = 0;
    let mut i: usize = 0;
    assert(s@.subrange(0, 0) =~= Seq::<char>::empty());
    assert(views(out@) =~= Seq::<Seq<char>>::empty());
    while i < n
        invariant
            n == s@.len(),
            start <= i <= n,
            views(out@).push(s@.subrange(start as int, i as int)) == split_on(s@.subrange(0, i as int), ' '),
        decreases n - i,
    {
        let c = s.get_char(i);
        let ghost pre = s@.subrange(0, i as int);
        assert(s@.subrange(0, i + 1).drop_last() =~= pre);
        if c == ' ' {
            let piece = String::from_str(s.substring_char(start, i));
            let ghost old_views = views(out@);
            out.push(piece);
            assert(views(out@) =~= old_views.push(s@.subrange(start as int, i as int)));
            start = i + 1;
            assert(s@.subrange(start as int, i + 1) =~= Seq::<char>::empty());
            assert(views(out@).push(s@.subrange(start as int, i + 1)) =~= split_on(pre, ' ').push(Seq::<char>::empty()));
        } else {
            proof {
                lemma_split_on_nonempty(pre, ' ');
            }
            assert(s@.subrange(start as int, i + 1) =~= s@.subrange(start as int, i as int).push(c));
            assert(views(out@).push(s@.subrange(start as int, i + 1)) =~= split_on(pre, ' ').update(
                split_on(pre, ' ').len() - 1, split_on(pre, ' ').last().push(c)));
        }
        i = i + 1;
    }
    let ghost old_views = views(out@);
    out.push(String::from_str(s.substring_char(start, n)));
    assert(views(out@) =~= old_views.push(s@.subrange(start as int, n as int)));
    assert(s@.subrange(0, n as int) =~= s@);
    out
}

} // verus!
