//! The style tree: each document node with the property map resolved for it.
use vstd::prelude::*;

use crate::cascade::{PropertyMap, cascade, specified_values};
use crate::css::{Rule, Stylesheet, Value};
use crate::dom::{Node, NodeType};
use crate::strmap::{StrMap, str_eq};

verus! {

/// A document node with its resolved property map and its styled children,
/// one for each child of the node, in order.
#[derive(Debug)]
pub struct StyledNode<'a> {
    pub node: &'a Node,
    pub specified_values: PropertyMap,
    pub children: Vec<StyledNode<'a>>,
}

#[derive(Debug, PartialEq, Eq, Structural)]
pub enum Display {
    Inline,
    Block,
    Hidden,
}

#[derive(Debug, PartialEq, Eq, Structural)]
pub enum Position {
    Static,
    Relative,
}

/// The value of property `name` in `m`, if it is there.
pub open spec fn prop(m: Map<Seq<char>, Value>, name: Seq<char>) -> Option<Value> {
    if m.contains_key(name) {
        Some(m[name])
    } else {
        None
    }
}

/// `name` if it is set, else `fallback_name` if that is set, else `default`.
pub open spec fn lookup_in(m: Map<Seq<char>, Value>, name: Seq<char>, fallback_name: Seq<char>, default: Value) -> Value {
    if m.contains_key(name) {
        m[name]
    } else if m.contains_key(fallback_name) {
        m[fallback_name]
    } else {
        default
    }
}

/// How a property map displays: the keyword `block` or `none`, else inline.
pub open spec fn display_of(m: Map<Seq<char>, Value>) -> Display {
    match prop(m, "display"@) {
        Some(Value::Keyword(s)) => if s@ == "block"@ {
            Display::Block
        } else if s@ == "none"@ {
            Display::Hidden
        } else {
            Display::Inline
        },
        _ => Display::Inline,
    }
}

pub open spec fn position_of(m: Map<Seq<char>, Value>) -> Position {
    match prop(m, "position"@) {
        Some(Value::Keyword(s)) => if s@ == "relative"@ {
            Position::Relative
        } else {
            Position::Static
        },
        _ => Position::Static,
    }
}

/// What a child takes over from its parent's resolved map: `font-size` alone.
pub open spec fn inherit(parent: Map<Seq<char>, Value>) -> Map<Seq<char>, Value> {
    if parent.contains_key("font-size"@) {
        Map::empty().insert("font-size"@, parent["font-size"@])
    } else {
        Map::empty()
    }
}

/// What the rules declare for a node; nothing for text.
pub open spec fn own_values(n: Node, rules: Seq<Rule>) -> Map<Seq<char>, Value> {
    match n.typ {
        NodeType::Element(e) => cascade(e, rules),
        NodeType::Text(_) => Map::empty(),
    }
}

/// `sn` is the style tree of `n` under `rules`, where `n` resolves to `values`:
/// each child's map is what it inherits from its parent's, overlaid with what
/// the rules declare for it.
pub open spec fn styled_as(sn: StyledNode, n: Node, rules: Seq<Rule>, values: Map<Seq<char>, Value>) -> bool
    decreases n,
{
    &&& *sn.node == n
    &&& sn.specified_values@ == values
    &&& sn.children@.len() == n.children@.len()
    &&& forall|i: int| 0 <= i < n.children@.len() ==> styled_as(
        #[trigger] sn.children@[i],
        n.children@[i],
        rules,
        inherit(values).union_prefer_right(own_values(n.children@[i], rules)),
    )
}

/// `sn` mirrors `n` node for node.
pub open spec fn same_shape(sn: StyledNode, n: Node) -> bool
    decreases n,
{
    &&& *sn.node == n
    &&& sn.children@.len() == n.children@.len()
    &&& forall|i: int| 0 <= i < n.children@.len() ==> same_shape(#[trigger] sn.children@[i], n.children@[i])
}

/// The number of nodes in the tree of `n`.
pub open spec fn node_count(n: Node) -> nat
    decreases n,
{
    1 + nodes_count(n.children@)
}

pub open spec fn nodes_count(s: Seq<Node>) -> nat
    decreases s,
{
    if s.len() == 0 {
        0
    } else {
        nodes_count(s.drop_last()) + node_count(s.last())
    }
}

/// The number of nodes in the style tree `sn`.
pub open spec fn styled_count(sn: StyledNode) -> nat
    decreases sn,
{
    1 + styleds_count(sn.children@)
}

pub open spec fn styleds_count(s: Seq<StyledNode>) -> nat
    decreases s,
{
    if s.len() == 0 {
        0
    } else {
        styleds_count(s.drop_last()) + styled_count(s.last())
    }
}

proof fn lemma_count_shape(sn: StyledNode, n: Node)
    requires
        same_shape(sn, n),
    ensures
        styled_count(sn) == node_count(n),
    decreases n,
{
    lemma_counts_shape(sn.children@, n.children@);
}

proof fn lemma_counts_shape(ss: Seq<StyledNode>, ns: Seq<Node>)
    requires
        ss.len() == ns.len(),
        forall|i: int| 0 <= i < ns.len() ==> same_shape(#[trigger] ss[i], ns[i]),
    ensures
        styleds_count(ss) == nodes_count(ns),
    decreases ns,
{
    if ns.len() > 0 {
        let k = ns.len() - 1;
        assert(same_shape(ss[k], ns[k]));
        lemma_count_shape(ss.last(), ns.last());
        assert forall|i: int| 0 <= i < k implies same_shape(#[trigger] ss.drop_last()[i], ns.drop_last()[i]) by {
            assert(same_shape(ss[i], ns[i]));
        }
        lemma_counts_shape(ss.drop_last(), ns.drop_last());
    }
}

/// A style tree has exactly the shape of its document tree, node for node,
/// and so the same number of nodes.
pub proof fn lemma_style_tree_shape(sn: StyledNode, n: Node, rules: Seq<Rule>, values: Map<Seq<char>, Value>)
    requires
        styled_as(sn, n, rules, values),
    ensures
        same_shape(sn, n),
        styled_count(sn) == node_count(n),
    decreases n,
{
    assert forall|i: int| 0 <= i < n.children@.len() implies same_shape(#[trigger] sn.children@[i], n.children@[i]) by {
        lemma_style_tree_shape(sn.children@[i], n.children@[i], rules,
            inherit(values).union_prefer_right(own_values(n.children@[i], rules)));
    }
    lemma_count_shape(sn, n);
}

impl<'a> StyledNode<'a> {
    pub fn value(&self, name: &str) -> (r: Option<Value>)
        ensures
            r == prop(self.specified_values@, name@),
    {
        match self.specified_values.get(name) {
            Some(v) => Some(v.duplicate()),
            None => None,
        }
    }

    pub fn value_or(&self, name: &str, default: &Value) -> (r: Value)
        ensures
            r == match prop(self.specified_values@, name@) {
                Some(v) => v,
                None => *default,
            },
    {
        match self.specified_values.get(name) {
            Some(v) => v.duplicate(),
            None => default.duplicate(),
        }
    }

    /// `name` if set, else the shorthand `fallback_name` if set, else `default`.
    pub fn lookup(&self, name: &str, fallback_name: &str, default: &Value) -> (r: Value)
        ensures
            r == lookup_in(self.specified_values@, name@, fallback_name@, *default),
    {
        match self.specified_values.get(name) {
            Some(v) => v.duplicate(),
            None => match self.specified_values.get(fallback_name) {
                Some(v) => v.duplicate(),
                None => default.duplicate(),
            },
        }
    }

    pub fn display(&self) -> (r: Display)
        ensures
            r == display_of(self.specified_values@),
    {
        match self.specified_values.get("display") {
            Some(Value::Keyword(s)) => if str_eq(s.as_str(), "block") {
                Display::Block
            } else if str_eq(s.as_str(), "none") {
                Display::Hidden
            } else {
                Display::Inline
            },
            _ => Display::Inline,
        }
    }

    pub fn position(&self) -> (r: Position)
        ensures
            r == position_of(self.specified_values@),
    {
        match self.specified_values.get("position") {
            Some(Value::Keyword(s)) => if str_eq(s.as_str(), "relative") {
                Position::Relative
            } else {
                Position::Static
            },
            _ => Position::Static,
        }
    }
}

fn own_specified_values(node: &Node, stylesheet: &Stylesheet) -> (r: PropertyMap)
    ensures
        r@ == own_values(*node, stylesheet.rules@),
{
    match &node.typ {
        NodeType::Element(e) => specified_values(e, stylesheet),
        NodeType::Text(_) => StrMap::new(),
    }
}

/// The style tree of `root` under `stylesheet`. The root inherits nothing.
pub fn style_tree<'a>(root: &'a Node, stylesheet: &Stylesheet) -> (r: StyledNode<'a>)
    ensures
        styled_as(r, *root, stylesheet.rules@, own_values(*root, stylesheet.rules@)),
{
    let values = own_specified_values(root, stylesheet);
    styled_children(root, stylesheet, values)
}

/// The styled node for `node` whose map is `values`, with its subtree.
fn styled_children<'a>(node: &'a Node, stylesheet: &Stylesheet, values: PropertyMap) -> (r: StyledNode<'a>)
    ensures
        styled_as(r, *node, stylesheet.rules@, values@),
    decreases node, 0nat,
{
    let mut children: Vec<StyledNode<'a>> = Vec::new();
    let mut i: usize = 0;
    while i < node.children.len()
        invariant
            i <= node.children@.len(),
            children@.len() == i,
            forall|j: int| 0 <= j < i ==> styled_as(
                #[trigger] children@[j],
                node.children@[j],
                stylesheet.rules@,
                inherit(values@).union_prefer_right(own_values(node.children@[j], stylesheet.rules@)),
            ),
        decreases node.children@.len() - i,
    {
        let child = child_style_tree(&node.children[i], stylesheet, &values);
        children.push(child);
        i = i + 1;
    }
    StyledNode { node, specified_values: values, children }
}

/// The style tree of a non-root node whose parent resolved to `parent_values`.
fn child_style_tree<'a>(node: &'a Node, stylesheet: &Stylesheet, parent_values: &PropertyMap) -> (r: StyledNode<'a>)
    ensures
        styled_as(r, *node, stylesheet.rules@,
            inherit(parent_values@).union_prefer_right(own_values(*node, stylesheet.rules@))),
    decreases node, 1nat,
{
    let mut values = inherited_values(parent_values);
    let own = own_specified_values(node, stylesheet);
    let ghost start = values@;
    let mut j: usize = 0;
    assert(start =~= start.union_prefer_right(crate::strmap::entries_map(own.entries@.subrange(0, 0))));
    while j < own.entries.len()
        invariant
            j <= own.entries@.len(),
            values@ == start.union_prefer_right(crate::strmap::entries_map(own.entries@.subrange(0, j as int))),
        decreases own.entries@.len() - j,
    {
        let (k, v) = (own.entries[j].0.clone(), own.entries[j].1.duplicate());
        values.insert(k, v);
        assert(own.entries@.subrange(0, j + 1).drop_last() =~= own.entries@.subrange(0, j as int));
        assert(values@ =~= start.union_prefer_right(crate::strmap::entries_map(own.entries@.subrange(0, j + 1))));
        j = j + 1;
    }
    assert(own.entries@.subrange(0, j as int) =~= own.entries@);
    styled_children(node, stylesheet, values)
}

/// The inherited part of a child's map: the parent's `font-size`, if set.
fn inherited_values(parent_values: &PropertyMap) -> (r: PropertyMap)
    ensures
        r@ == inherit(parent_values@),
{
    let mut values: PropertyMap = StrMap::new();
    if let Some(v) = parent_values.get("font-size") {
        values.insert(String::from_str("font-size"), v.duplicate());
    }
    values
}

} // verus!
