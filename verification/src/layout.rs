//! The layout engine: builds a box tree from a styled tree and computes the
//! CSS block box model — widths, margins, borders, padding, positions and
//! heights — in whole pixels, widths before children and heights after.

use crate::css::{Unit, Value, ValueV};
use crate::px::{half, sat_add, sat_sub, px_add, px_half, px_sub, Px};
use crate::strmap::str_eq;
use crate::style::{sp_display, sp_lookup, Display, StyledNode, StyledNodeV};
use vstd::prelude::*;

pub use self::BoxType::{AnonymousBlock, BlockNode, InlineNode};

verus! {

broadcast use vstd::std_specs::vec::group_vec_axioms;

/// A rectangle: its origin and its size, in pixels.
#[derive(Debug, Clone, Copy, PartialEq, Eq, Structural)]
pub struct Rect {
    pub x: Px,
    pub y: Px,
    pub width: Px,
    pub height: Px,
}

/// The sizes of a box's four edges.
#[derive(Debug, Clone, Copy, PartialEq, Eq, Structural)]
pub struct EdgeSizes {
    pub left: Px,
    pub right: Px,
    pub top: Px,
    pub bottom: Px,
}

/// A box's geometry: its content area and the three edge rings around it.
#[derive(Debug, Clone, Copy, PartialEq, Eq, Structural)]
pub struct Dimensions {
    pub content: Rect,
    pub padding: EdgeSizes,
    pub border: EdgeSizes,
    pub margin: EdgeSizes,
}

impl Default for Rect {
    /// The all-zero rectangle.
    fn default() -> (r: Self)
        ensures
            r == (Rect { x: 0, y: 0, width: 0, height: 0 }),
    {
        Rect { x: 0, y: 0, width: 0, height: 0 }
    }
}

impl Default for EdgeSizes {
    /// The all-zero edge sizes.
    fn default() -> (r: Self)
        ensures
            r == (EdgeSizes { left: 0, right: 0, top: 0, bottom: 0 }),
    {
        EdgeSizes { left: 0, right: 0, top: 0, bottom: 0 }
    }
}

/// The all-zero geometry every box starts from.
pub open spec fn zero_dimensions() -> Dimensions {
    Dimensions {
        content: Rect { x: 0, y: 0, width: 0, height: 0 },
        padding: EdgeSizes { left: 0, right: 0, top: 0, bottom: 0 },
        border: EdgeSizes { left: 0, right: 0, top: 0, bottom: 0 },
        margin: EdgeSizes { left: 0, right: 0, top: 0, bottom: 0 },
    }
}

impl Default for Dimensions {
    /// The all-zero geometry.
    fn default() -> (r: Self)
        ensures
            r == zero_dimensions(),
    {
        Dimensions {
            content: Rect { x: 0, y: 0, width: 0, height: 0 },
            padding: EdgeSizes { left: 0, right: 0, top: 0, bottom: 0 },
            border: EdgeSizes { left: 0, right: 0, top: 0, bottom: 0 },
            margin: EdgeSizes { left: 0, right: 0, top: 0, bottom: 0 },
        }
    }
}

/// A rectangle grown by a set of edges: the origin moves up and left, the
/// size grows by both edges, saturating at the pixel range.
pub open spec fn sp_expended(r: Rect, edge: EdgeSizes) -> Rect {
    Rect {
        x: sat_sub(r.x as int, edge.left as int) as i64,
        y: sat_sub(r.y as int, edge.top as int) as i64,
        width: sat_add(sat_add(r.width as int, edge.left as int), edge.right as int) as i64,
        height: sat_add(sat_add(r.height as int, edge.top as int), edge.bottom as int) as i64,
    }
}

/// The content area and its padding.
pub open spec fn sp_padding_box(d: Dimensions) -> Rect {
    sp_expended(d.content, d.padding)
}

/// The content area, its padding and its border.
pub open spec fn sp_border_box(d: Dimensions) -> Rect {
    sp_expended(sp_padding_box(d), d.border)
}

/// The content area, its padding, its border and its margin.
pub open spec fn sp_margin_box(d: Dimensions) -> Rect {
    sp_expended(sp_border_box(d), d.margin)
}

impl Rect {
    /// Grows the rectangle by a set of edges.
    pub fn expended_by(self, edge: EdgeSizes) -> (r: Rect)
        ensures
            r == sp_expended(self, edge),
    {
        Rect {
            x: px_sub(self.x, edge.left),
            y: px_sub(self.y, edge.top),
            width: px_add(px_add(self.width, edge.left), edge.right),
            height: px_add(px_add(self.height, edge.top), edge.bottom),
        }
    }
}

impl Dimensions {
    /// The area covered by the content area and its padding.
    pub fn padding_box(self) -> (r: Rect)
        ensures
            r == sp_padding_box(self),
    {
        self.content.expended_by(self.padding)
    }

    /// The area covered up to and including the border.
    pub fn border_box(self) -> (r: Rect)
        ensures
            r == sp_border_box(self),
    {
        self.padding_box().expended_by(self.border)
    }

    /// The area covered up to and including the margin.
    pub fn margin_box(self) -> (r: Rect)
        ensures
            r == sp_margin_box(self),
    {
        self.border_box().expended_by(self.margin)
    }
}

/// Mathematical model of what a layout box stands for.
pub enum BoxTypeV {
    BlockNode(StyledNodeV),
    InlineNode(StyledNodeV),
    AnonymousBlock,
}

/// Mathematical model of a layout box.
pub struct LayoutBoxV {
    pub dimensions: Dimensions,
    pub box_type: BoxTypeV,
    pub children: Seq<LayoutBoxV>,
}

/// What a layout box stands for: a block-level or inline-level styled node
/// (holding the node's content and property map; the node's own children
/// have become boxes), or a synthetic anonymous block wrapping inline runs.
#[derive(Debug, PartialEq)]
pub enum BoxType {
    BlockNode(StyledNode),
    InlineNode(StyledNode),
    AnonymousBlock,
}

/// A layout box: its geometry, what it stands for, and its child boxes.
#[derive(Debug, PartialEq)]
pub struct LayoutBox {
    pub dimensions: Dimensions,
    pub box_type: BoxType,
    pub children: Vec<LayoutBox>,
}

impl View for BoxType {
    type V = BoxTypeV;

    open spec fn view(&self) -> BoxTypeV {
        match self {
            BoxType::BlockNode(sn) => BoxTypeV::BlockNode(sn@),
            BoxType::InlineNode(sn) => BoxTypeV::InlineNode(sn@),
            BoxType::AnonymousBlock => BoxTypeV::AnonymousBlock,
        }
    }
}

/// The views of a sequence of layout boxes, in order.
pub open spec fn boxes_view(cs: Seq<LayoutBox>) -> Seq<LayoutBoxV>
    decreases cs,
{
    if cs.len() == 0 {
        Seq::empty()
    } else {
        boxes_view(cs.drop_last()).push(cs.last().view())
    }
}

impl View for LayoutBox {
    type V = LayoutBoxV;

    open spec fn view(&self) -> LayoutBoxV
        decreases self,
    {
        LayoutBoxV {
            dimensions: self.dimensions,
            box_type: self.box_type@,
            children: boxes_view(self.children@),
        }
    }
}

/// `boxes_view` keeps the sequence's length.
pub proof fn lemma_boxes_view_len(cs: Seq<LayoutBox>)
    ensures
        boxes_view(cs).len() == cs.len(),
    decreases cs.len(),
{
    if cs.len() > 0 {
        lemma_boxes_view_len(cs.drop_last());
        assert(boxes_view(cs) == boxes_view(cs.drop_last()).push(cs.last().view()));
    }
}

/// The view of the sequence of boxes holds each box's view.
pub proof fn lemma_boxes_view_index(cs: Seq<LayoutBox>, i: int)
    requires
        0 <= i < cs.len(),
    ensures
        boxes_view(cs)[i] == cs[i]@,
    decreases cs.len(),
{
    lemma_boxes_view_len(cs);
    assert(boxes_view(cs) == boxes_view(cs.drop_last()).push(cs.last().view()));
    lemma_boxes_view_len(cs.drop_last());
    if i < cs.len() - 1 {
        lemma_boxes_view_index(cs.drop_last(), i);
        assert(boxes_view(cs)[i] == boxes_view(cs.drop_last())[i]);
        assert(cs.drop_last()[i] == cs[i]);
    } else {
        assert(boxes_view(cs)[i] == cs.last().view());
        assert(cs.last() == cs[i]);
    }
}

/// Appending a box to a sequence appends its view.
pub proof fn lemma_boxes_view_push(cs: Seq<LayoutBox>, x: LayoutBox)
    ensures
        boxes_view(cs.push(x)) == boxes_view(cs).push(x@),
{
    assert(cs.push(x).drop_last() =~= cs);
    assert(cs.push(x).last() == x);
}

/// Why a layout pass is refused.
#[derive(Debug, Clone, Copy, PartialEq, Eq, Structural)]
pub enum LayoutError {
    /// The root styled node resolves to `display: none`: it produces no box,
    /// so there is nothing to lay out.
    HiddenRoot,
}


/// The box a styled node (whose display is not `none`) produces, before any
/// geometry is computed: a block or inline box per its display, its children
/// grouped so that runs of inline children under a block box sit inside one
/// anonymous block.
pub open spec fn sp_build_box(sn: StyledNodeV) -> LayoutBoxV
    decreases sn, 0int,
{
    let bare = StyledNodeV { children: Seq::empty(), ..sn };
    LayoutBoxV {
        dimensions: zero_dimensions(),
        box_type: if sp_display(sn) == Display::Block {
            BoxTypeV::BlockNode(bare)
        } else {
            BoxTypeV::InlineNode(bare)
        },
        children: sp_build_children(sn.children, sp_display(sn) == Display::Block),
    }
}

/// Adds one styled child to a box's children: a hidden child vanishes with
/// its subtree, a block child is appended, and an inline child under a block
/// parent joins the trailing anonymous block, starting one if need be.
pub open spec fn sp_add_child(
    acc: Seq<LayoutBoxV>,
    child: StyledNodeV,
    parent_block: bool,
) -> Seq<LayoutBoxV>
    decreases child, 1int,
{
    match sp_display(child) {
        Display::Hidden => acc,
        Display::Block => acc.push(sp_build_box(child)),
        Display::Inline => {
            if !parent_block {
                acc.push(sp_build_box(child))
            } else if acc.len() > 0 && acc.last().box_type is AnonymousBlock {
                acc.update(
                    acc.len() - 1,
                    LayoutBoxV {
                        children: acc.last().children.push(sp_build_box(child)),
                        ..acc.last()
                    },
                )
            } else {
                acc.push(
                    LayoutBoxV {
                        dimensions: zero_dimensions(),
                        box_type: BoxTypeV::AnonymousBlock,
                        children: seq![sp_build_box(child)],
                    },
                )
            }
        },
    }
}

/// The boxes a sequence of styled children produces, in order.
pub open spec fn sp_build_children(cs: Seq<StyledNodeV>, parent_block: bool) -> Seq<LayoutBoxV>
    decreases cs, 2int,
{
    if cs.len() == 0 {
        Seq::empty()
    } else {
        sp_add_child(sp_build_children(cs.drop_last(), parent_block), cs.last(), parent_block)
    }
}

/// Whether a box is a synthetic anonymous block.
fn is_anonymous(b: &LayoutBox) -> (r: bool)
    ensures
        r == (b@.box_type is AnonymousBlock),
{
    match &b.box_type {
        BoxType::AnonymousBlock => true,
        _ => false,
    }
}

/// Builds the box a styled node produces; the node's display must not be
/// `none`.
#[verifier::loop_isolation(false)]
fn build_box(style_node: StyledNode) -> (r: LayoutBox)
    requires
        sp_display(style_node@) != Display::Hidden,
    ensures
        r@ == sp_build_box(style_node@),
    decreases style_node,
{
    let ghost sn0 = style_node;
    let d = style_node.display();
    let parent_block = match d {
        Display::Block => true,
        _ => false,
    };
    let StyledNode { node_type, specified_values, children } = style_node;
    let ghost n = children@.len();
    let mut pending = children;
    let mut stack: Vec<StyledNode> = Vec::new();
    while pending.len() > 0
        invariant
            n == sn0.children@.len(),
            stack@.len() + pending@.len() == n,
            pending@ =~= sn0.children@.subrange(0, pending@.len() as int),
            forall|k: int| 0 <= k < stack@.len() ==> stack@[k] == sn0.children@[n - 1 - k],
        decreases pending@.len(),
    {
        let ghost pend0 = pending@;
        match pending.pop() {
            None => {},
            Some(c) => {
                proof {
                    assert(pend0 == sn0.children@.subrange(0, pend0.len() as int));
                    assert(sn0.children@.subrange(0, pend0.len() as int)[pend0.len() - 1]
                        == sn0.children@[pend0.len() - 1]);
                    assert forall|k: int| 0 <= k < pending@.len() implies pending@[k]
                        == sn0.children@.subrange(0, pending@.len() as int)[k] by {
                        assert(pending@[k] == pend0[k]);
                        assert(sn0.children@.subrange(0, pend0.len() as int)[k]
                            == sn0.children@[k]);
                        assert(sn0.children@.subrange(0, pending@.len() as int)[k]
                            == sn0.children@[k]);
                    }
                    assert(pending@ =~= sn0.children@.subrange(0, pending@.len() as int));
                }
                stack.push(c);
            },
        }
    }
    let mut out: Vec<LayoutBox> = Vec::new();
    proof {
        crate::style::lemma_styled_children_view_len(sn0.children@);
        assert(boxes_view(out@) =~= Seq::<LayoutBoxV>::empty());
        assert(sn0@.children.subrange(0, 0) =~= Seq::<StyledNodeV>::empty());
    }
    let ghost mut done: int = 0;
    while stack.len() > 0
        invariant
            n == sn0.children@.len(),
            stack@.len() <= n,
            forall|k: int| 0 <= k < stack@.len() ==> stack@[k] == sn0.children@[n - 1 - k],
            done == n - stack@.len(),
            sn0@.children.len() == n,
            parent_block == (sp_display(sn0@) == Display::Block),
            boxes_view(out@) == sp_build_children(sn0@.children.subrange(0, done), parent_block),
        decreases stack@.len(),
    {
        match stack.pop() {
            None => {},
            Some(c) => {
                let ghost m = done;
                proof {
                    assert(c == sn0.children@[m]);
                    assert(c == sn0.children[m]);
                    assert(decreases_to!(sn0 => sn0.children));
                    assert(decreases_to!(sn0.children => sn0.children[m]));
                    assert(decreases_to!(sn0 => c));
                    crate::style::lemma_styled_children_view_index(sn0.children@, m);
                    assert(sn0@.children[m] == c@);
                    let pre = sn0@.children.subrange(0, m);
                    let pre1 = sn0@.children.subrange(0, m + 1);
                    assert(pre1.drop_last() =~= pre);
                    assert(pre1.last() == sn0@.children[m]);
                }
                let ghost acc0 = boxes_view(out@);
                match c.display() {
                    Display::Hidden => {},
                    Display::Block => {
                        let bx = build_box(c);
                        proof {
                            lemma_boxes_view_push(out@, bx);
                        }
                        out.push(bx);
                    },
                    Display::Inline => {
                        if !parent_block {
                            let bx = build_box(c);
                            proof {
                                lemma_boxes_view_push(out@, bx);
                            }
                            out.push(bx);
                        } else {
                            let use_last = if out.len() > 0 {
                                is_anonymous(&out[out.len() - 1])
                            } else {
                                false
                            };
                            proof {
                                lemma_boxes_view_len(out@);
                                if out@.len() > 0 {
                                    lemma_boxes_view_index(out@, out@.len() - 1);
                                    assert(boxes_view(out@).last() == out@[out@.len() - 1]@);
                                }
                            }
                            if use_last {
                                let mut anon = match out.pop() {
                                    Some(a) => a,
                                    None => vstd::pervasive::unreached(),
                                };
                                let ghost anon0 = anon;
                                let bx = build_box(c);
                                proof {
                                    lemma_boxes_view_push(anon.children@, bx);
                                }
                                anon.children.push(bx);
                                proof {
                                    assert(anon@ == (LayoutBoxV {
                                        children: anon0@.children.push(bx@),
                                        ..anon0@
                                    }));
                                    assert(anon0@ == acc0.last());
                                }
                                let ghost outv0 = out@;
                                out.push(anon);
                                proof {
                                    lemma_boxes_view_push(outv0, anon);
                                    assert(boxes_view(outv0) =~= acc0.drop_last());
                                    assert(boxes_view(out@) =~= acc0.update(
                                        acc0.len() - 1,
                                        LayoutBoxV {
                                            children: acc0.last().children.push(bx@),
                                            ..acc0.last()
                                        },
                                    ));
                                }
                            } else {
                                let bx = build_box(c);
                                let mut anon = LayoutBox {
                                    dimensions: Dimensions::default(),
                                    box_type: BoxType::AnonymousBlock,
                                    children: Vec::new(),
                                };
                                proof {
                                    lemma_boxes_view_push(anon.children@, bx);
                                }
                                anon.children.push(bx);
                                proof {
                                    assert(anon@.children =~= seq![bx@]);
                                }
                                proof {
                                    lemma_boxes_view_push(out@, anon);
                                }
                                out.push(anon);
                            }
                        }
                    },
                }
                proof {
                    let pre = sn0@.children.subrange(0, m);
                    let pre1 = sn0@.children.subrange(0, m + 1);
                    assert(sp_build_children(pre1, parent_block) == sp_add_child(
                        sp_build_children(pre, parent_block),
                        c@,
                        parent_block,
                    ));
                    done = done + 1;
                }
            },
        }
    }
    proof {
        assert(sn0@.children.subrange(0, n as int) =~= sn0@.children);
    }
    let bare = StyledNode { node_type: node_type, specified_values: specified_values, children: Vec::new() };
    proof {
        assert(bare@.children =~= Seq::<StyledNodeV>::empty());
        assert(bare@ == (StyledNodeV { children: Seq::empty(), ..sn0@ }));
    }
    let bt = if parent_block {
        BoxType::BlockNode(bare)
    } else {
        BoxType::InlineNode(bare)
    };
    LayoutBox { dimensions: Dimensions::default(), box_type: bt, children: out }
}

/// Builds the layout tree of a styled tree: one box per node, hidden
/// subtrees omitted, inline runs under block boxes wrapped in anonymous
/// blocks. A root that resolves to `display: none` is refused.
pub fn build_layout_tree(style_node: StyledNode) -> (r: Result<LayoutBox, LayoutError>)
    ensures
        match r {
            Ok(b) => sp_display(style_node@) != Display::Hidden && b@ == sp_build_box(
                style_node@,
            ),
            Err(e) => e == LayoutError::HiddenRoot && sp_display(style_node@) == Display::Hidden,
        },
{
    match style_node.display() {
        Display::Hidden => Err(LayoutError::HiddenRoot),
        _ => Ok(build_box(style_node)),
    }
}


/// The keyword `auto`.
pub open spec fn auto_kw() -> ValueV {
    ValueV::Keyword("auto"@)
}

/// A zero-pixel length.
pub open spec fn zero_len() -> ValueV {
    ValueV::Length(0, Unit::Px)
}

/// What the width solver resolves for a block box: its content width and
/// its six horizontal edge sizes, in pixels.
pub struct WidthSolution {
    pub width: int,
    pub padding_left: int,
    pub padding_right: int,
    pub border_left: int,
    pub border_right: int,
    pub margin_left: int,
    pub margin_right: int,
}

/// The CSS block width constraints, resolved against the containing block's
/// content width `cw`. `width` defaults to `auto`; each margin, border and
/// padding side falls back to its shorthand and then to zero. The leftover
/// width (`cw` less the total of all seven) is distributed by which of
/// width, margin-left and margin-right are `auto`: with none `auto` the
/// leftover moves margin-right (the over-constrained case); with exactly
/// one `auto` that one absorbs it; with `width: auto` any `auto` margin
/// becomes zero and the width takes the leftover, or zero if the leftover
/// is negative, which then moves margin-right; with width fixed and both
/// margins `auto` the leftover is split evenly between them.
///
/// `sp_width_total` is the total the seven contributions claim before the
/// leftover is distributed: the six edges plus the width, an `auto` counting
/// as zero.
pub open spec fn sp_width_total(m: Map<Seq<char>, ValueV>) -> int {
    let width0 = if m.contains_key("width"@) {
        m["width"@]
    } else {
        auto_kw()
    };
    let ml0 = sp_lookup(m, "margin-left"@, "margin"@, zero_len());
    let mr0 = sp_lookup(m, "margin-right"@, "margin"@, zero_len());
    let bl = crate::css::spec_to_px(sp_lookup(m, "border-left-width"@, "border-width"@, zero_len()));
    let br = crate::css::spec_to_px(
        sp_lookup(m, "border-right-width"@, "border-width"@, zero_len()),
    );
    let pl = crate::css::spec_to_px(sp_lookup(m, "padding-left"@, "padding"@, zero_len()));
    let pr = crate::css::spec_to_px(sp_lookup(m, "padding-right"@, "padding"@, zero_len()));
    sat_add(
        sat_add(
            sat_add(
                sat_add(
                    sat_add(
                        sat_add(
                            sat_add(0, crate::css::spec_to_px(ml0)),
                            crate::css::spec_to_px(mr0),
                        ),
                        bl,
                    ),
                    br,
                ),
                pl,
            ),
            pr,
        ),
        crate::css::spec_to_px(width0),
    )
}

pub open spec fn sp_block_width(m: Map<Seq<char>, ValueV>, cw: int) -> WidthSolution {
    let width0 = if m.contains_key("width"@) {
        m["width"@]
    } else {
        auto_kw()
    };
    let ml0 = sp_lookup(m, "margin-left"@, "margin"@, zero_len());
    let mr0 = sp_lookup(m, "margin-right"@, "margin"@, zero_len());
    let bl = crate::css::spec_to_px(sp_lookup(m, "border-left-width"@, "border-width"@, zero_len()));
    let br = crate::css::spec_to_px(
        sp_lookup(m, "border-right-width"@, "border-width"@, zero_len()),
    );
    let pl = crate::css::spec_to_px(sp_lookup(m, "padding-left"@, "padding"@, zero_len()));
    let pr = crate::css::spec_to_px(sp_lookup(m, "padding-right"@, "padding"@, zero_len()));
    let total = sp_width_total(m);
    let w_auto = width0 == auto_kw();
    let ml1 = if !w_auto && total > cw && ml0 == auto_kw() {
        zero_len()
    } else {
        ml0
    };
    let mr1 = if !w_auto && total > cw && mr0 == auto_kw() {
        zero_len()
    } else {
        mr0
    };
    let underflow = sat_sub(cw, total);
    let ml_auto = ml1 == auto_kw();
    let mr_auto = mr1 == auto_kw();
    if !w_auto && !ml_auto && !mr_auto {
        WidthSolution {
            width: crate::css::spec_to_px(width0),
            margin_left: crate::css::spec_to_px(ml1),
            margin_right: sat_add(crate::css::spec_to_px(mr1), underflow),
            border_left: bl,
            border_right: br,
            padding_left: pl,
            padding_right: pr,
        }
    } else if !w_auto && ml_auto && !mr_auto {
        WidthSolution {
            width: crate::css::spec_to_px(width0),
            margin_left: underflow,
            margin_right: crate::css::spec_to_px(mr1),
            border_left: bl,
            border_right: br,
            padding_left: pl,
            padding_right: pr,
        }
    } else if !w_auto && !ml_auto && mr_auto {
        WidthSolution {
            width: crate::css::spec_to_px(width0),
            margin_left: crate::css::spec_to_px(ml1),
            margin_right: underflow,
            border_left: bl,
            border_right: br,
            padding_left: pl,
            padding_right: pr,
        }
    } else if w_auto {
        let ml2 = if ml_auto {
            0int
        } else {
            crate::css::spec_to_px(ml1)
        };
        let mr2 = if mr_auto {
            0int
        } else {
            crate::css::spec_to_px(mr1)
        };
        if underflow >= 0 {
            WidthSolution {
                width: underflow,
                margin_left: ml2,
                margin_right: mr2,
                border_left: bl,
                border_right: br,
                padding_left: pl,
                padding_right: pr,
            }
        } else {
            WidthSolution {
                width: 0,
                margin_left: ml2,
                margin_right: sat_add(mr2, underflow),
                border_left: bl,
                border_right: br,
                padding_left: pl,
                padding_right: pr,
            }
        }
    } else {
        WidthSolution {
            width: crate::css::spec_to_px(width0),
            margin_left: half(underflow),
            margin_right: half(underflow),
            border_left: bl,
            border_right: br,
            padding_left: pl,
            padding_right: pr,
        }
    }
}

/// The geometry after width resolution: the resolved content width and the
/// six horizontal edges; everything else keeps its value.
pub open spec fn sp_calc_width(m: Map<Seq<char>, ValueV>, d: Dimensions, cb: Dimensions) -> Dimensions {
    let sol = sp_block_width(m, cb.content.width as int);
    Dimensions {
        content: Rect { width: sol.width as i64, ..d.content },
        padding: EdgeSizes { left: sol.padding_left as i64, right: sol.padding_right as i64, ..d.padding },
        border: EdgeSizes { left: sol.border_left as i64, right: sol.border_right as i64, ..d.border },
        margin: EdgeSizes { left: sol.margin_left as i64, right: sol.margin_right as i64, ..d.margin },
    }
}

/// The geometry after position resolution: the vertical edges are read from
/// the style (an `auto` margin counting as zero through the pixel coercion),
/// the content origin is placed inside the containing block's content area,
/// below everything already laid out there (its current content height acts
/// as a running cursor).
pub open spec fn sp_calc_position(m: Map<Seq<char>, ValueV>, d: Dimensions, cb: Dimensions) -> Dimensions {
    let mt = crate::css::spec_to_px(sp_lookup(m, "margin-top"@, "margin"@, zero_len()));
    let mb = crate::css::spec_to_px(sp_lookup(m, "margin-bottom"@, "margin"@, zero_len()));
    let bt = crate::css::spec_to_px(sp_lookup(m, "border-top-width"@, "border-width"@, zero_len()));
    let bb = crate::css::spec_to_px(
        sp_lookup(m, "border-bottom-width"@, "border-width"@, zero_len()),
    );
    let pt = crate::css::spec_to_px(sp_lookup(m, "padding-top"@, "padding"@, zero_len()));
    let pb = crate::css::spec_to_px(sp_lookup(m, "padding-bottom"@, "padding"@, zero_len()));
    let x = sat_add(
        sat_add(sat_add(cb.content.x as int, d.margin.left as int), d.border.left as int),
        d.padding.left as int,
    );
    let y = sat_add(
        sat_add(sat_add(sat_add(cb.content.height as int, cb.content.y as int), mt), bt),
        pt,
    );
    Dimensions {
        content: Rect { x: x as i64, y: y as i64, ..d.content },
        padding: EdgeSizes { top: pt as i64, bottom: pb as i64, ..d.padding },
        border: EdgeSizes { top: bt as i64, bottom: bb as i64, ..d.border },
        margin: EdgeSizes { top: mt as i64, bottom: mb as i64, ..d.margin },
    }
}

/// The geometry after height resolution: an explicit pixel `height`
/// overrides the height accumulated from the children; anything else leaves
/// it standing.
pub open spec fn sp_calc_height(m: Map<Seq<char>, ValueV>, d: Dimensions) -> Dimensions {
    if m.contains_key("height"@) {
        match m["height"@] {
            ValueV::Length(h, Unit::Px) => Dimensions {
                content: Rect { height: h as i64, ..d.content },
                ..d
            },
            _ => d,
        }
    } else {
        d
    }
}

/// The laid-out form of a box against its containing block: a block box gets
/// its width, then its position, then its children laid out one below the
/// other, then its height; inline and anonymous boxes are left untouched
/// (their layout is not implemented).
pub open spec fn sp_layout(b: LayoutBoxV, cb: Dimensions) -> LayoutBoxV
    decreases b, 0int,
{
    match b.box_type {
        BoxTypeV::BlockNode(sn) => {
            let m = sn.specified_values;
            let d1 = sp_calc_width(m, b.dimensions, cb);
            let d2 = sp_calc_position(m, d1, cb);
            let r = sp_layout_children(b.children, d2);
            let d4 = sp_calc_height(m, r.1);
            LayoutBoxV { dimensions: d4, box_type: b.box_type, children: r.0 }
        },
        _ => b,
    }
}

/// Lays out child boxes in order against their parent's geometry: each child
/// sees the parent's content height so far as the vertical cursor, and the
/// parent's content height then grows by the child's margin-box height.
pub open spec fn sp_layout_children(cs: Seq<LayoutBoxV>, d: Dimensions) -> (Seq<LayoutBoxV>, Dimensions)
    decreases cs, 1int,
{
    if cs.len() == 0 {
        (Seq::empty(), d)
    } else {
        let r = sp_layout_children(cs.drop_last(), d);
        let child = sp_layout(cs.last(), r.1);
        let grown = Dimensions {
            content: Rect {
                height: sat_add(
                    r.1.content.height as int,
                    sp_margin_box(child.dimensions).height as int,
                ) as i64,
                ..r.1.content
            },
            ..r.1
        };
        (r.0.push(child), grown)
    }
}


/// Whether a value is the keyword `auto`.
fn is_auto(v: &Value) -> (r: bool)
    ensures
        r == (v@ == auto_kw()),
{
    proof {
        reveal_strlit("auto");
    }
    match v {
        Value::Keyword(s) => str_eq(s.as_str(), "auto"),
        _ => false,
    }
}

/// The styled node a block or inline box stands for.
fn style_of(bt: &BoxType) -> (r: &StyledNode)
    requires
        !(bt@ is AnonymousBlock),
    ensures
        match bt@ {
            BoxTypeV::BlockNode(sn) => r@ == sn,
            BoxTypeV::InlineNode(sn) => r@ == sn,
            BoxTypeV::AnonymousBlock => false,
        },
{
    match bt {
        BoxType::BlockNode(node) => node,
        BoxType::InlineNode(node) => node,
        BoxType::AnonymousBlock => vstd::pervasive::unreached(),
    }
}

/// Whether a box is a block-level node box.
fn is_block_node(bt: &BoxType) -> (r: bool)
    ensures
        r == (bt@ is BlockNode),
{
    match bt {
        BoxType::BlockNode(_) => true,
        _ => false,
    }
}

impl LayoutBox {
    /// The styled node this box stands for; anonymous boxes carry no style,
    /// so the box must not be one.
    pub fn get_style_node(&self) -> (r: &StyledNode)
        requires
            !(self@.box_type is AnonymousBlock),
        ensures
            match self@.box_type {
                BoxTypeV::BlockNode(sn) => r@ == sn,
                BoxTypeV::InlineNode(sn) => r@ == sn,
                BoxTypeV::AnonymousBlock => false,
            },
    {
        style_of(&self.box_type)
    }
}

/// Resolves the block's width and horizontal edges against the containing
/// block, as [`sp_block_width`] describes.
fn calculate_block_width(style: &StyledNode, d: Dimensions, containing_block: Dimensions) -> (r:
    Dimensions)
    ensures
        r == sp_calc_width(style@.specified_values, d, containing_block),
{
    proof {
        reveal_strlit("width");
        reveal_strlit("margin-left");
        reveal_strlit("margin-right");
        reveal_strlit("margin");
        reveal_strlit("border-left-width");
        reveal_strlit("border-right-width");
        reveal_strlit("border-width");
        reveal_strlit("padding-left");
        reveal_strlit("padding-right");
        reveal_strlit("padding");
        reveal_strlit("auto");
    }
    let width = match style.value("width") {
        Some(v) => v,
        None => Value::Keyword(String::from_str("auto")),
    };
    let zero = Value::Length(0, Unit::Px);
    let mut margin_left = style.lookup("margin-left", "margin", &zero);
    let mut margin_right = style.lookup("margin-right", "margin", &zero);
    let border_left = style.lookup("border-left-width", "border-width", &zero);
    let border_right = style.lookup("border-right-width", "border-width", &zero);
    let padding_left = style.lookup("padding-left", "padding", &zero);
    let padding_right = style.lookup("padding-right", "padding", &zero);
    let total = px_add(
        px_add(
            px_add(
                px_add(
                    px_add(px_add(px_add(0, margin_left.to_px()), margin_right.to_px()), border_left.to_px()),
                    border_right.to_px(),
                ),
                padding_left.to_px(),
            ),
            padding_right.to_px(),
        ),
        width.to_px(),
    );
    let width_auto = is_auto(&width);
    if !width_auto && total > containing_block.content.width {
        if is_auto(&margin_left) {
            margin_left = Value::Length(0, Unit::Px);
        }
        if is_auto(&margin_right) {
            margin_right = Value::Length(0, Unit::Px);
        }
    }
    let underflow = px_sub(containing_block.content.width, total);
    let ml_auto = is_auto(&margin_left);
    let mr_auto = is_auto(&margin_right);
    let resolved: (Px, Px, Px) = if !width_auto && !ml_auto && !mr_auto {
        (width.to_px(), margin_left.to_px(), px_add(margin_right.to_px(), underflow))
    } else if !width_auto && ml_auto && !mr_auto {
        (width.to_px(), underflow, margin_right.to_px())
    } else if !width_auto && !ml_auto && mr_auto {
        (width.to_px(), margin_left.to_px(), underflow)
    } else if width_auto {
        let ml2: Px = if ml_auto {
            0
        } else {
            margin_left.to_px()
        };
        let mr2: Px = if mr_auto {
            0
        } else {
            margin_right.to_px()
        };
        if underflow >= 0 {
            (underflow, ml2, mr2)
        } else {
            (0, ml2, px_add(mr2, underflow))
        }
    } else {
        (width.to_px(), px_half(underflow), px_half(underflow))
    };
    Dimensions {
        content: Rect { width: resolved.0, ..d.content },
        padding: EdgeSizes { left: padding_left.to_px(), right: padding_right.to_px(), ..d.padding },
        border: EdgeSizes { left: border_left.to_px(), right: border_right.to_px(), ..d.border },
        margin: EdgeSizes { left: resolved.1, right: resolved.2, ..d.margin },
    }
}

/// Resolves the block's vertical edges and its position inside the
/// containing block, as [`sp_calc_position`] describes.
fn calculate_block_position(style: &StyledNode, d: Dimensions, containing_block: Dimensions) -> (r:
    Dimensions)
    ensures
        r == sp_calc_position(style@.specified_values, d, containing_block),
{
    proof {
        reveal_strlit("margin-top");
        reveal_strlit("margin-bottom");
        reveal_strlit("margin");
        reveal_strlit("border-top-width");
        reveal_strlit("border-bottom-width");
        reveal_strlit("border-width");
        reveal_strlit("padding-top");
        reveal_strlit("padding-bottom");
        reveal_strlit("padding");
    }
    let zero = Value::Length(0, Unit::Px);
    let margin_top = style.lookup("margin-top", "margin", &zero).to_px();
    let margin_bottom = style.lookup("margin-bottom", "margin", &zero).to_px();
    let border_top = style.lookup("border-top-width", "border-width", &zero).to_px();
    let border_bottom = style.lookup("border-bottom-width", "border-width", &zero).to_px();
    let padding_top = style.lookup("padding-top", "padding", &zero).to_px();
    let padding_bottom = style.lookup("padding-bottom", "padding", &zero).to_px();
    let x = px_add(
        px_add(px_add(containing_block.content.x, d.margin.left), d.border.left),
        d.padding.left,
    );
    let y = px_add(
        px_add(
            px_add(px_add(containing_block.content.height, containing_block.content.y), margin_top),
            border_top,
        ),
        padding_top,
    );
    Dimensions {
        content: Rect { x: x, y: y, ..d.content },
        padding: EdgeSizes { top: padding_top, bottom: padding_bottom, ..d.padding },
        border: EdgeSizes { top: border_top, bottom: border_bottom, ..d.border },
        margin: EdgeSizes { top: margin_top, bottom: margin_bottom, ..d.margin },
    }
}

/// Resolves the block's height: an explicit pixel `height` overrides the
/// height its children accumulated.
fn calculate_block_height(style: &StyledNode, d: Dimensions) -> (r: Dimensions)
    ensures
        r == sp_calc_height(style@.specified_values, d),
{
    proof {
        reveal_strlit("height");
    }
    match style.value("height") {
        Some(v) => match v {
            Value::Length(h, Unit::Px) => Dimensions {
                content: Rect { height: h, ..d.content },
                ..d
            },
            _ => d,
        },
        None => d,
    }
}

/// Lays out a box and its subtree against a containing block, as
/// [`sp_layout`] describes; only block boxes are laid out.
#[verifier::loop_isolation(false)]
fn layout_box(b: LayoutBox, containing_block: Dimensions) -> (r: LayoutBox)
    ensures
        r@ == sp_layout(b@, containing_block),
    decreases b,
{
    let ghost b0 = b;
    if !is_block_node(&b.box_type) {
        return b;
    }
    let LayoutBox { dimensions, box_type, children } = b;
    let style = style_of(&box_type);
    let d1 = calculate_block_width(style, dimensions, containing_block);
    let d2 = calculate_block_position(style, d1, containing_block);
    let ghost n = children@.len();
    let mut pending = children;
    let mut stack: Vec<LayoutBox> = Vec::new();
    while pending.len() > 0
        invariant
            n == b0.children@.len(),
            stack@.len() + pending@.len() == n,
            pending@ =~= b0.children@.subrange(0, pending@.len() as int),
            forall|k: int| 0 <= k < stack@.len() ==> stack@[k] == b0.children@[n - 1 - k],
        decreases pending@.len(),
    {
        let ghost pend0 = pending@;
        match pending.pop() {
            None => {},
            Some(c) => {
                proof {
                    assert(pend0 == b0.children@.subrange(0, pend0.len() as int));
                    assert(b0.children@.subrange(0, pend0.len() as int)[pend0.len() - 1]
                        == b0.children@[pend0.len() - 1]);
                    assert forall|k: int| 0 <= k < pending@.len() implies pending@[k]
                        == b0.children@.subrange(0, pending@.len() as int)[k] by {
                        assert(pending@[k] == pend0[k]);
                        assert(b0.children@.subrange(0, pend0.len() as int)[k] == b0.children@[k]);
                        assert(b0.children@.subrange(0, pending@.len() as int)[k]
                            == b0.children@[k]);
                    }
                    assert(pending@ =~= b0.children@.subrange(0, pending@.len() as int));
                }
                stack.push(c);
            },
        }
    }
    let mut out: Vec<LayoutBox> = Vec::new();
    let mut d = d2;
    proof {
        lemma_boxes_view_len(b0.children@);
        assert(boxes_view(out@) =~= Seq::<LayoutBoxV>::empty());
        assert(b0@.children.subrange(0, 0) =~= Seq::<LayoutBoxV>::empty());
    }
    let ghost mut done: int = 0;
    while stack.len() > 0
        invariant
            n == b0.children@.len(),
            stack@.len() <= n,
            forall|k: int| 0 <= k < stack@.len() ==> stack@[k] == b0.children@[n - 1 - k],
            done == n - stack@.len(),
            b0@.children.len() == n,
            boxes_view(out@) == sp_layout_children(b0@.children.subrange(0, done), d2).0,
            d == sp_layout_children(b0@.children.subrange(0, done), d2).1,
        decreases stack@.len(),
    {
        match stack.pop() {
            None => {},
            Some(c) => {
                let ghost m = done;
                proof {
                    assert(c == b0.children@[m]);
                    assert(c == b0.children[m]);
                    assert(decreases_to!(b0 => b0.children));
                    assert(decreases_to!(b0.children => b0.children[m]));
                    assert(decreases_to!(b0 => c));
                    lemma_boxes_view_index(b0.children@, m);
                    assert(b0@.children[m] == c@);
                    let pre = b0@.children.subrange(0, m);
                    let pre1 = b0@.children.subrange(0, m + 1);
                    assert(pre1.drop_last() =~= pre);
                    assert(pre1.last() == b0@.children[m]);
                }
                let laid = layout_box(c, d);
                let mb = laid.dimensions.margin_box();
                let ghost out_pre = out@;
                out.push(laid);
                proof {
                    lemma_boxes_view_push(out_pre, laid);
                }
                d = Dimensions {
                    content: Rect { height: px_add(d.content.height, mb.height), ..d.content },
                    ..d
                };
                proof {
                    done = done + 1;
                }
            },
        }
    }
    proof {
        assert(b0@.children.subrange(0, n as int) =~= b0@.children);
    }
    let d4 = calculate_block_height(style, d);
    LayoutBox { dimensions: d4, box_type: box_type, children: out }
}

impl LayoutBox {
    /// Lays this box and its subtree out against a containing block,
    /// computing every dimension in place.
    pub fn layout(&mut self, containing_block: Dimensions)
        ensures
            final(self)@ == sp_layout(old(self)@, containing_block),
    {
        let mut tmp = LayoutBox {
            dimensions: Dimensions::default(),
            box_type: BoxType::AnonymousBlock,
            children: Vec::new(),
        };
        core::mem::swap(self, &mut tmp);
        let done = layout_box(tmp, containing_block);
        *self = done;
    }
}


/// With a fixed width and both margins `auto`, the leftover width is split
/// evenly between the two margins, provided the claimed total fits in the
/// containing block (otherwise the `auto` margins are first forced to zero).
pub proof fn lemma_width_both_margins_auto(m: Map<Seq<char>, ValueV>, cw: int)
    requires
        m.contains_key("width"@),
        m["width"@] != auto_kw(),
        sp_lookup(m, "margin-left"@, "margin"@, zero_len()) == auto_kw(),
        sp_lookup(m, "margin-right"@, "margin"@, zero_len()) == auto_kw(),
        sp_width_total(m) <= cw,
    ensures
        sp_block_width(m, cw).margin_left == half(sat_sub(cw, sp_width_total(m))),
        sp_block_width(m, cw).margin_right == half(sat_sub(cw, sp_width_total(m))),
        sp_block_width(m, cw).width == crate::css::spec_to_px(m["width"@]),
{
}

/// With `width: auto`, any `auto` margin becomes zero and the width absorbs
/// the whole leftover, when that leftover is not negative.
pub proof fn lemma_width_auto(m: Map<Seq<char>, ValueV>, cw: int)
    requires
        !m.contains_key("width"@) || m["width"@] == auto_kw(),
        sat_sub(cw, sp_width_total(m)) >= 0,
    ensures
        sp_block_width(m, cw).width == sat_sub(cw, sp_width_total(m)),
        sp_lookup(m, "margin-left"@, "margin"@, zero_len()) == auto_kw() ==> sp_block_width(
            m,
            cw,
        ).margin_left == 0,
        sp_lookup(m, "margin-right"@, "margin"@, zero_len()) == auto_kw() ==> sp_block_width(
            m,
            cw,
        ).margin_right == 0,
{
}

/// With width and both margins fixed, the system is over-constrained: the
/// leftover (negative when the total overflows the containing block) is
/// absorbed entirely into the right margin.
pub proof fn lemma_width_over_constrained(m: Map<Seq<char>, ValueV>, cw: int)
    requires
        m.contains_key("width"@),
        m["width"@] != auto_kw(),
        sp_lookup(m, "margin-left"@, "margin"@, zero_len()) != auto_kw(),
        sp_lookup(m, "margin-right"@, "margin"@, zero_len()) != auto_kw(),
    ensures
        sp_block_width(m, cw).width == crate::css::spec_to_px(m["width"@]),
        sp_block_width(m, cw).margin_left == crate::css::spec_to_px(
            sp_lookup(m, "margin-left"@, "margin"@, zero_len()),
        ),
        sp_block_width(m, cw).margin_right == sat_add(
            crate::css::spec_to_px(sp_lookup(m, "margin-right"@, "margin"@, zero_len())),
            sat_sub(cw, sp_width_total(m)),
        ),
{
}

/// A styled node whose display is `none` produces no layout box at all:
/// adding it to a box's children leaves them untouched, so its whole
/// subtree is omitted from the layout tree.
pub proof fn lemma_hidden_subtree_no_box(
    acc: Seq<LayoutBoxV>,
    child: StyledNodeV,
    parent_block: bool,
)
    requires
        sp_display(child) == Display::Hidden,
    ensures
        sp_add_child(acc, child, parent_block) == acc,
{
}


/// Laying out a run of children moves only the parent's content height (the
/// vertical cursor); every other part of the parent's geometry stands.
pub proof fn lemma_layout_children_cursor(cs: Seq<LayoutBoxV>, d: Dimensions)
    ensures
        ({
            let r = sp_layout_children(cs, d);
            r.1 == (Dimensions { content: Rect { height: r.1.content.height, ..d.content }, ..d })
        }),
    decreases cs.len(),
{
    if cs.len() > 0 {
        lemma_layout_children_cursor(cs.drop_last(), d);
    }
}

/// Vertical stacking: a block-level child is laid out below all of its
/// earlier siblings. Its content top sits at the containing block's content
/// top, plus the cursor its earlier siblings grew (the sum of their
/// margin-box heights over the parent's starting height), plus the child's
/// own top margin, border and padding.
pub proof fn lemma_block_child_stacks_below(cs: Seq<LayoutBoxV>, d: Dimensions)
    requires
        cs.len() >= 1,
        cs.last().box_type is BlockNode,
    ensures
        ({
            let cursor = sp_layout_children(cs.drop_last(), d).1.content.height;
            let m = (cs.last().box_type->BlockNode_0).specified_values;
            let laid = sp_layout_children(cs, d).0.last();
            laid.dimensions.content.y as int == sat_add(
                sat_add(
                    sat_add(
                        sat_add(cursor as int, d.content.y as int),
                        crate::css::spec_to_px(sp_lookup(m, "margin-top"@, "margin"@, zero_len())),
                    ),
                    crate::css::spec_to_px(
                        sp_lookup(m, "border-top-width"@, "border-width"@, zero_len()),
                    ),
                ),
                crate::css::spec_to_px(sp_lookup(m, "padding-top"@, "padding"@, zero_len())),
            )
        }),
{
    let prev = sp_layout_children(cs.drop_last(), d);
    lemma_layout_children_cursor(cs.drop_last(), d);
    assert(prev.1.content.y == d.content.y);
    let child = sp_layout(cs.last(), prev.1);
    assert(sp_layout_children(cs, d).0.last() == child);
    let sn = cs.last().box_type->BlockNode_0;
    let m = sn.specified_values;
    let d1 = sp_calc_width(m, cs.last().dimensions, prev.1);
    let d2 = sp_calc_position(m, d1, prev.1);
    let rc = sp_layout_children(cs.last().children, d2);
    lemma_layout_children_cursor(cs.last().children, d2);
    assert(rc.1.content.y == d2.content.y);
    assert(child.dimensions == sp_calc_height(m, rc.1));
    assert(child.dimensions.content.y == d2.content.y);
}

} // verus!
