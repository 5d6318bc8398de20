//! The box tree: block, inline and anonymous boxes built from a style tree.
use vstd::prelude::*;

use crate::geometry::zero_dims;
use crate::style::{Display, StyledNode, display_of};

pub use crate::boxmodel::layout_tree;
pub use crate::geometry::{Dimensions, EdgeSizes, Position, Rect, Region};

verus! {

#[derive(Debug)]
pub enum BoxType<'a> {
    BlockNode(&'a StyledNode<'a>),
    InlineNode(&'a StyledNode<'a>),
    AnonymousBlock,
}

#[derive(Debug)]
pub struct LayoutBox<'a> {
    pub dimensions: Dimensions,
    pub box_type: BoxType<'a>,
    pub children: Vec<LayoutBox<'a>>,
}

/// How a styled node displays.
pub open spec fn display_kind(sn: StyledNode) -> Display {
    display_of(sn.specified_values@)
}

/// The boxes that a block box makes for its children `cs`, as groups of child
/// indices: `(false, [i])` for a block child `i`, `(true, run)` for an
/// anonymous box around a run of inline children. Children with display
/// `none` make nothing and do not end a run.
pub open spec fn block_groups(cs: Seq<StyledNode>) -> Seq<(bool, Seq<int>)>
    decreases cs.len(),
{
    if cs.len() == 0 {
        Seq::empty()
    } else {
        let g = block_groups(cs.drop_last());
        let i = cs.len() - 1;
        match display_kind(cs.last()) {
            Display::Block => g.push((false, seq![i])),
            Display::Inline => if g.len() > 0 && g.last().0 {
                g.update(g.len() - 1, (true, g.last().1.push(i)))
            } else {
                g.push((true, seq![i]))
            },
            Display::Hidden => g,
        }
    }
}

/// The indices of the children in `cs` that do not have display `none`.
pub open spec fn shown(cs: Seq<StyledNode>) -> Seq<int>
    decreases cs.len(),
{
    if cs.len() == 0 {
        Seq::empty()
    } else {
        let g = shown(cs.drop_last());
        match display_kind(cs.last()) {
            Display::Hidden => g,
            _ => g.push(cs.len() - 1),
        }
    }
}

/// `b` is the box that `cs[i]` builds.
pub open spec fn built_at(b: LayoutBox, cs: Seq<StyledNode>, i: int) -> bool
    decreases cs, 0nat,
{
    0 <= i < cs.len() && built_from(b, cs[i])
}

/// `b` is the box that group `grp` of children `cs` makes under a block box.
pub open spec fn built_group(b: LayoutBox, cs: Seq<StyledNode>, grp: (bool, Seq<int>)) -> bool
    decreases cs, 1nat,
{
    if grp.0 {
        &&& b.box_type is AnonymousBlock
        &&& b.dimensions == zero_dims()
        &&& b.children@.len() == grp.1.len()
        &&& forall|j: int| 0 <= j < grp.1.len() ==> built_at(#[trigger] b.children@[j], cs, grp.1[j])
    } else {
        grp.1.len() == 1 && built_at(b, cs, grp.1[0])
    }
}

/// `b` is the box tree built from `sn`, with every geometry still zero.
pub open spec fn built_from(b: LayoutBox, sn: StyledNode) -> bool
    decreases sn, 2nat,
{
    &&& b.dimensions == zero_dims()
    &&& match display_kind(sn) {
        Display::Block => {
            let g = block_groups(sn.children@);
            &&& b.box_type matches BoxType::BlockNode(r) && *r == sn
            &&& b.children@.len() == g.len()
            &&& forall|j: int| 0 <= j < g.len() ==> built_group(#[trigger] b.children@[j], sn.children@, g[j])
        },
        Display::Inline => {
            let k = shown(sn.children@);
            &&& b.box_type matches BoxType::InlineNode(r) && *r == sn
            &&& b.children@.len() == k.len()
            &&& forall|j: int| 0 <= j < k.len() ==> built_at(#[trigger] b.children@[j], sn.children@, k[j])
        },
        Display::Hidden => false,
    }
}

/// No two anonymous boxes stand side by side, and none is the child of an
/// inline or anonymous box, anywhere in the tree of `b`.
pub open spec fn anonymous_well_placed(b: LayoutBox) -> bool
    decreases b,
{
    &&& forall|j: int| 0 <= j < b.children@.len() - 1
        ==> !((#[trigger] b.children@[j]).box_type is AnonymousBlock && b.children@[j + 1].box_type is AnonymousBlock)
    &&& !(b.box_type is BlockNode) ==> forall|j: int| 0 <= j < b.children@.len()
        ==> !((#[trigger] b.children@[j]).box_type is AnonymousBlock)
    &&& forall|j: int| 0 <= j < b.children@.len() ==> anonymous_well_placed(#[trigger] b.children@[j])
}

proof fn lemma_block_groups_alternate(cs: Seq<StyledNode>)
    ensures
        forall|j: int| 0 <= j < block_groups(cs).len() - 1
            ==> !((#[trigger] block_groups(cs)[j]).0 && block_groups(cs)[j + 1].0),
    decreases cs.len(),
{
    if cs.len() > 0 {
        let g0 = block_groups(cs.drop_last());
        lemma_block_groups_alternate(cs.drop_last());
        let g = block_groups(cs);
        assert forall|j: int| 0 <= j < g.len() - 1 implies !((#[trigger] g[j]).0 && g[j + 1].0) by {
            if j < g0.len() - 1 {
                assert(g0[j].0 == g[j].0);
                assert(g0[j + 1].0 == g[j + 1].0);
            } else {
                assert(j == g0.len() - 1);
                assert(g0[j].0 == g[j].0 || g[j + 1].0 == false || !g0.last().0);
            }
        }
    }
}

/// Box-tree construction never puts two anonymous boxes side by side, nor an
/// anonymous box inside an inline or anonymous box.
pub proof fn lemma_anonymous_boxes_well_placed(b: LayoutBox, sn: StyledNode)
    requires
        built_from(b, sn),
    ensures
        anonymous_well_placed(b),
    decreases sn,
{
    let cs = sn.children@;
    match display_kind(sn) {
        Display::Block => {
            let g = block_groups(cs);
            lemma_block_groups_alternate(cs);
            assert forall|j: int| 0 <= j < b.children@.len() implies anonymous_well_placed(#[trigger] b.children@[j]) by {
                let c = b.children@[j];
                assert(built_group(c, cs, g[j]));
                if g[j].0 {
                    assert forall|t: int| 0 <= t < c.children@.len() implies anonymous_well_placed(#[trigger] c.children@[t])
                        && !(c.children@[t].box_type is AnonymousBlock) by {
                        assert(built_at(c.children@[t], cs, g[j].1[t]));
                        lemma_anonymous_boxes_well_placed(c.children@[t], cs[g[j].1[t]]);
                    }
                    assert(anonymous_well_placed(c));
                } else {
                    assert(built_at(c, cs, g[j].1[0]));
                    lemma_anonymous_boxes_well_placed(c, cs[g[j].1[0]]);
                }
            }
            assert forall|j: int| 0 <= j < b.children@.len() - 1
                implies !((#[trigger] b.children@[j]).box_type is AnonymousBlock && b.children@[j + 1].box_type is AnonymousBlock) by {
                assert(built_group(b.children@[j], cs, g[j]));
                assert(built_group(b.children@[j + 1], cs, g[j + 1]));
            }
        },
        Display::Inline => {
            let k = shown(cs);
            assert forall|j: int| 0 <= j < b.children@.len() implies anonymous_well_placed(#[trigger] b.children@[j])
                && !(b.children@[j].box_type is AnonymousBlock) by {
                assert(built_at(b.children@[j], cs, k[j]));
                lemma_anonymous_boxes_well_placed(b.children@[j], cs[k[j]]);
            }
        },
        Display::Hidden => {},
    }
}

/// `t` is `sn`, or is reached from a child of `sn` that does not have display
/// `none`, and so on down: no node on the way hides its subtree.
pub open spec fn shown_below(sn: StyledNode, t: StyledNode) -> bool
    decreases sn,
{
    t == sn || exists|i: int| 0 <= i < sn.children@.len() && display_kind(#[trigger] sn.children@[i]) != Display::Hidden
        && shown_below(sn.children@[i], t)
}

/// Every box in the tree of `b` that comes from a styled node comes from one
/// that `shown_below(sn, _)` admits.
pub open spec fn boxes_shown_below(b: LayoutBox, sn: StyledNode) -> bool
    decreases b,
{
    &&& (match b.box_type {
        BoxType::BlockNode(t) | BoxType::InlineNode(t) => shown_below(sn, *t),
        BoxType::AnonymousBlock => true,
    })
    &&& forall|j: int| 0 <= j < b.children@.len() ==> boxes_shown_below(#[trigger] b.children@[j], sn)
}

proof fn lemma_boxes_shown_lift(b: LayoutBox, c: StyledNode, sn: StyledNode, i: int)
    requires
        boxes_shown_below(b, c),
        0 <= i < sn.children@.len(),
        sn.children@[i] == c,
        display_kind(c) != Display::Hidden,
    ensures
        boxes_shown_below(b, sn),
    decreases b,
{
    match b.box_type {
        BoxType::BlockNode(t) | BoxType::InlineNode(t) => {
            assert(shown_below(sn, *t)) by {
                assert(display_kind(sn.children@[i]) != Display::Hidden && shown_below(sn.children@[i], *t));
            }
        },
        BoxType::AnonymousBlock => {},
    }
    assert forall|j: int| 0 <= j < b.children@.len() implies boxes_shown_below(#[trigger] b.children@[j], sn) by {
        lemma_boxes_shown_lift(b.children@[j], c, sn, i);
    }
}

proof fn lemma_block_groups_shown(cs: Seq<StyledNode>)
    ensures
        forall|g: int, j: int| 0 <= g < block_groups(cs).len() && 0 <= j < block_groups(cs)[g].1.len()
            ==> 0 <= #[trigger] block_groups(cs)[g].1[j] < cs.len()
            && display_kind(cs[block_groups(cs)[g].1[j]]) != Display::Hidden,
    decreases cs.len(),
{
    if cs.len() > 0 {
        let pre = cs.drop_last();
        lemma_block_groups_shown(pre);
        let g0 = block_groups(pre);
        let gs = block_groups(cs);
        assert forall|g: int, j: int| 0 <= g < gs.len() && 0 <= j < gs[g].1.len()
            implies 0 <= #[trigger] gs[g].1[j] < cs.len() && display_kind(cs[gs[g].1[j]]) != Display::Hidden by {
            if g < g0.len() && j < g0[g].1.len() {
                assert(gs[g].1[j] == g0[g].1[j]);
                assert(cs[g0[g].1[j]] == pre[g0[g].1[j]]);
            } else {
                assert(gs[g].1[j] == cs.len() - 1);
            }
        }
    }
}

proof fn lemma_shown_indices(cs: Seq<StyledNode>)
    ensures
        forall|j: int| 0 <= j < shown(cs).len() ==> 0 <= #[trigger] shown(cs)[j] < cs.len()
            && display_kind(cs[shown(cs)[j]]) != Display::Hidden,
    decreases cs.len(),
{
    if cs.len() > 0 {
        let pre = cs.drop_last();
        lemma_shown_indices(pre);
        assert forall|j: int| 0 <= j < shown(cs).len() implies 0 <= #[trigger] shown(cs)[j] < cs.len()
            && display_kind(cs[shown(cs)[j]]) != Display::Hidden by {
            if j < shown(pre).len() {
                assert(shown(cs)[j] == shown(pre)[j]);
                assert(cs[shown(pre)[j]] == pre[shown(pre)[j]]);
            }
        }
    }
}

/// Every box of a box tree comes from a styled node reached from the root
/// through nodes none of which has display `none`: a `none` node and all
/// that it contains make no box.
pub proof fn lemma_hidden_subtrees_make_no_boxes(b: LayoutBox, sn: StyledNode)
    requires
        built_from(b, sn),
    ensures
        boxes_shown_below(b, sn),
    decreases sn,
{
    let cs = sn.children@;
    match display_kind(sn) {
        Display::Block => {
            let g = block_groups(cs);
            lemma_block_groups_shown(cs);
            assert forall|j: int| 0 <= j < b.children@.len() implies boxes_shown_below(#[trigger] b.children@[j], sn) by {
                let c = b.children@[j];
                assert(built_group(c, cs, g[j]));
                if g[j].0 {
                    assert forall|t: int| 0 <= t < c.children@.len() implies boxes_shown_below(#[trigger] c.children@[t], sn) by {
                        let k = g[j].1[t];
                        assert(built_at(c.children@[t], cs, k));
                        lemma_hidden_subtrees_make_no_boxes(c.children@[t], cs[k]);
                        lemma_boxes_shown_lift(c.children@[t], cs[k], sn, k);
                    }
                } else {
                    let k = g[j].1[0];
                    assert(built_at(c, cs, k));
                    lemma_hidden_subtrees_make_no_boxes(c, cs[k]);
                    lemma_boxes_shown_lift(c, cs[k], sn, k);
                }
            }
        },
        Display::Inline => {
            let k = shown(cs);
            lemma_shown_indices(cs);
            assert forall|j: int| 0 <= j < b.children@.len() implies boxes_shown_below(#[trigger] b.children@[j], sn) by {
                assert(built_at(b.children@[j], cs, k[j]));
                lemma_hidden_subtrees_make_no_boxes(b.children@[j], cs[k[j]]);
                lemma_boxes_shown_lift(b.children@[j], cs[k[j]], sn, k[j]);
            }
        },
        Display::Hidden => {},
    }
}

impl<'a> LayoutBox<'a> {
    pub fn new(box_type: BoxType<'a>) -> (b: LayoutBox<'a>)
        ensures
            b.dimensions == zero_dims(),
            b.box_type == box_type,
            b.children@.len() == 0,
    {
        LayoutBox { box_type, dimensions: Dimensions::new(Rect::new(0, 0, 0, 0)), children: Vec::new() }
    }

    /// Whether this is an anonymous box.
    pub fn is_anonymous(&self) -> (r: bool)
        ensures
            r == (self.box_type is AnonymousBlock),
    {
        match self.box_type {
            BoxType::AnonymousBlock => true,
            _ => false,
        }
    }
}

/// The box tree of `style_node`, which must not have display `none`.
pub fn build_layout_tree<'a>(style_node: &'a StyledNode<'a>) -> (r: LayoutBox<'a>)
    requires
        display_kind(*style_node) != Display::Hidden,
    ensures
        built_from(r, *style_node),
    decreases style_node,
{
    let display = style_node.display();
    let mut root = LayoutBox::new(
        match display {
            Display::Block => BoxType::BlockNode(style_node),
            _ => BoxType::InlineNode(style_node),
        },
    );
    let ghost cs = style_node.children@;
    let mut i: usize = 0;
    assert(cs.subrange(0, 0) =~= Seq::<StyledNode>::empty());
    while i < style_node.children.len()
        invariant
            i <= cs.len(),
            cs == style_node.children@,
            root.dimensions == zero_dims(),
            display == display_kind(*style_node),
            display != Display::Hidden,
            display == Display::Block ==> (root.box_type matches BoxType::BlockNode(r) && *r == *style_node),
            display == Display::Inline ==> (root.box_type matches BoxType::InlineNode(r) && *r == *style_node),
            display == Display::Block ==> {
                let g = block_groups(cs.subrange(0, i as int));
                &&& root.children@.len() == g.len()
                &&& forall|j: int| 0 <= j < g.len() ==> built_group(#[trigger] root.children@[j], cs, g[j])
            },
            display == Display::Inline ==> {
                let k = shown(cs.subrange(0, i as int));
                &&& root.children@.len() == k.len()
                &&& forall|j: int| 0 <= j < k.len() ==> built_at(#[trigger] root.children@[j], cs, k[j])
            },
        decreases cs.len() - i,
    {
        let child = &style_node.children[i];
        let ghost pre = cs.subrange(0, i as int);
        assert(cs.subrange(0, i + 1).drop_last() =~= pre);
        assert(cs.subrange(0, i + 1).last() == cs[i as int]);
        let child_display = child.display();
        match child_display {
            Display::Hidden => {},
            Display::Block => {
                let b = build_layout_tree(child);
                assert(built_at(b, cs, i as int));
                if display == Display::Block {
                    let ghost g = block_groups(pre);
                    root.children.push(b);
                    assert forall|j: int| 0 <= j < g.len() + 1 implies built_group(
                        #[trigger] root.children@[j], cs, g.push((false, seq![i as int]))[j]) by {}
                } else {
                    let ghost k = shown(pre);
                    root.children.push(b);
                    assert forall|j: int| 0 <= j < k.len() + 1 implies built_at(
                        #[trigger] root.children@[j], cs, k.push(i as int)[j]) by {}
                }
            },
            Display::Inline => {
                let b = build_layout_tree(child);
                assert(built_at(b, cs, i as int));
                if display == Display::Block {
                    let ghost g = block_groups(pre);
                    let n = root.children.len();
                    if n > 0 && root.children[n - 1].is_anonymous() {
                        let mut anon = root.children.pop().unwrap();
                        let ghost prev = anon;
                        assert(built_group(prev, cs, g[n - 1]));
                        assert(g[n - 1].0);
                        anon.children.push(b);
                        assert forall|j: int| 0 <= j < g[n - 1].1.len() + 1 implies built_at(
                            #[trigger] anon.children@[j], cs, g[n - 1].1.push(i as int)[j]) by {
                            if j < g[n - 1].1.len() {
                                assert(anon.children@[j] == prev.children@[j]);
                            }
                        }
                        assert(built_group(anon, cs, (true, g[n - 1].1.push(i as int))));
                        root.children.push(anon);
                    } else {
                        if n > 0 {
                            assert(built_group(root.children@[n - 1], cs, g[n - 1]));
                            assert(!g.last().0);
                        }
                        let mut anon = LayoutBox::new(BoxType::AnonymousBlock);
                        anon.children.push(b);
                        assert(anon.children@[0] == b);
                        assert(built_group(anon, cs, (true, seq![i as int])));
                        root.children.push(anon);
                    }
                } else {
                    let ghost k = shown(pre);
                    root.children.push(b);
                    assert forall|j: int| 0 <= j < k.len() + 1 implies built_at(
                        #[trigger] root.children@[j], cs, k.push(i as int)[j]) by {}
                }
            },
        }
        i = i + 1;
    }
    assert(cs.subrange(0, i as int) =~= cs);
    root
}

} // verus!
