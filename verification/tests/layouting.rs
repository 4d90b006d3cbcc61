use boxflow::css::{Unit, Value};
use boxflow::dom::NodeType;
use boxflow::layout::{build_layout_tree, BoxType, Dimensions, EdgeSizes, LayoutBox, LayoutError, Rect};
use boxflow::style::{PropertyMap, StyledNode};

fn styled(decls: Vec<(&str, Value)>, children: Vec<StyledNode>) -> StyledNode {
    let mut pm = PropertyMap::new();
    for (name, value) in decls {
        pm.insert(String::from(name), value);
    }
    StyledNode {
        node_type: NodeType::Text(String::from("")),
        specified_values: pm,
        children: children,
    }
}

fn block(decls: Vec<(&str, Value)>, children: Vec<StyledNode>) -> StyledNode {
    let mut all = decls;
    all.push(("display", Value::Keyword(String::from("block"))));
    styled(all, children)
}

fn containing(width: i64) -> Dimensions {
    let mut d = Dimensions::default();
    d.content.width = width;
    d
}

fn px(n: i64) -> Value {
    Value::Length(n, Unit::Px)
}

fn auto() -> Value {
    Value::Keyword(String::from("auto"))
}

#[test]
fn test_width_fixed_both_margins_auto() {
    let sn = block(
        vec![("width", px(400)), ("margin-left", auto()), ("margin-right", auto())],
        vec![],
    );
    let mut root = build_layout_tree(sn).unwrap();
    root.layout(containing(600));
    assert_eq!(400, root.dimensions.content.width);
    assert_eq!(100, root.dimensions.margin.left);
    assert_eq!(100, root.dimensions.margin.right);
}

#[test]
fn test_width_auto_no_margins() {
    let sn = block(vec![("width", auto())], vec![]);
    let mut root = build_layout_tree(sn).unwrap();
    root.layout(containing(600));
    assert_eq!(600, root.dimensions.content.width);
    assert_eq!(0, root.dimensions.margin.left);
    assert_eq!(0, root.dimensions.margin.right);
}

#[test]
fn test_width_over_constrained_margin_right_absorbs() {
    let sn = block(
        vec![("width", px(500)), ("margin-left", px(50)), ("margin-right", px(50))],
        vec![],
    );
    let mut root = build_layout_tree(sn).unwrap();
    root.layout(containing(500));
    assert_eq!(500, root.dimensions.content.width);
    assert_eq!(50, root.dimensions.margin.left);
    // the 100px excess is absorbed into margin-right: 50 + (500 - 600)
    assert_eq!(-50, root.dimensions.margin.right);
}

#[test]
fn test_width_auto_negative_underflow() {
    let sn = block(
        vec![("margin-left", px(30)), ("margin-right", px(40))],
        vec![],
    );
    let mut root = build_layout_tree(sn).unwrap();
    root.layout(containing(50));
    // width auto with underflow 50 - 70 = -20: width clamps to zero and the
    // right margin absorbs the excess
    assert_eq!(0, root.dimensions.content.width);
    assert_eq!(30, root.dimensions.margin.left);
    assert_eq!(20, root.dimensions.margin.right);
}

#[test]
fn test_vertical_stacking() {
    let child_a = block(vec![("height", px(50))], vec![]);
    let child_b = block(vec![("height", px(50))], vec![]);
    let parent = block(vec![], vec![child_a, child_b]);
    let mut root = build_layout_tree(parent).unwrap();
    root.layout(containing(600));
    assert_eq!(2, root.children.len());
    assert_eq!(0, root.children[0].dimensions.content.y);
    assert_eq!(50, root.children[1].dimensions.content.y);
    assert_eq!(100, root.dimensions.content.height);
}

#[test]
fn test_explicit_height_overrides_children() {
    let child = block(vec![("height", px(50))], vec![]);
    let parent = block(vec![("height", px(10))], vec![child]);
    let mut root = build_layout_tree(parent).unwrap();
    root.layout(containing(600));
    assert_eq!(10, root.dimensions.content.height);
}

#[test]
fn test_position_includes_edges() {
    let child = block(
        vec![
            ("margin", px(5)),
            ("padding", px(3)),
            ("border-width", px(2)),
            ("height", px(10)),
        ],
        vec![],
    );
    let parent = block(vec![], vec![child]);
    let mut root = build_layout_tree(parent).unwrap();
    let mut cb = containing(100);
    cb.content.x = 7;
    cb.content.y = 11;
    root.layout(cb);
    let d = root.children[0].dimensions;
    // x: parent content x (7) + margin 5 + border 2 + padding 3
    assert_eq!(17, d.content.x);
    // y: parent content y (11, cursor 0) + 5 + 2 + 3
    assert_eq!(21, d.content.y);
    // child margin-box height: 10 + 2*(5 + 2 + 3)
    assert_eq!(30, root.dimensions.content.height);
}

#[test]
fn test_display_none_produces_no_boxes() {
    let grandchild = block(vec![], vec![]);
    let hidden = styled(
        vec![("display", Value::Keyword(String::from("none")))],
        vec![grandchild],
    );
    let visible = block(vec![], vec![]);
    let parent = block(vec![], vec![hidden, visible]);
    let root = build_layout_tree(parent).unwrap();
    assert_eq!(1, root.children.len());
    assert_eq!(0, root.children[0].children.len());
}

#[test]
fn test_display_none_root_is_refused() {
    let sn = styled(vec![("display", Value::Keyword(String::from("none")))], vec![]);
    assert_eq!(Err(LayoutError::HiddenRoot), build_layout_tree(sn));
}

#[test]
fn test_inline_runs_grouped_under_anonymous_blocks() {
    let inline_a = styled(vec![], vec![]);
    let inline_b = styled(vec![], vec![]);
    let block_c = block(vec![], vec![]);
    let inline_d = styled(vec![], vec![]);
    let parent = block(vec![], vec![inline_a, inline_b, block_c, inline_d]);
    let root = build_layout_tree(parent).unwrap();
    assert_eq!(3, root.children.len());
    assert!(matches!(root.children[0].box_type, BoxType::AnonymousBlock));
    assert_eq!(2, root.children[0].children.len());
    assert!(matches!(root.children[1].box_type, BoxType::BlockNode(_)));
    assert!(matches!(root.children[2].box_type, BoxType::AnonymousBlock));
    assert_eq!(1, root.children[2].children.len());
}

#[test]
fn test_inline_parent_holds_inline_children_directly() {
    let inline_child = styled(vec![], vec![]);
    let parent = styled(vec![], vec![inline_child]);
    let root = build_layout_tree(parent).unwrap();
    assert!(matches!(root.box_type, BoxType::InlineNode(_)));
    assert_eq!(1, root.children.len());
    assert!(matches!(root.children[0].box_type, BoxType::InlineNode(_)));
}

#[test]
fn test_expended_by_and_boxes() {
    let r = Rect { x: 10, y: 20, width: 30, height: 40 };
    let e = EdgeSizes { left: 1, right: 2, top: 3, bottom: 4 };
    let grown = r.expended_by(e);
    assert_eq!(Rect { x: 9, y: 17, width: 33, height: 47 }, grown);

    let d = Dimensions {
        content: r,
        padding: e,
        border: EdgeSizes { left: 5, right: 5, top: 5, bottom: 5 },
        margin: EdgeSizes { left: 10, right: 0, top: 0, bottom: 10 },
    };
    assert_eq!(Rect { x: 9, y: 17, width: 33, height: 47 }, d.padding_box());
    assert_eq!(Rect { x: 4, y: 12, width: 43, height: 57 }, d.border_box());
    assert_eq!(Rect { x: -6, y: 12, width: 53, height: 67 }, d.margin_box());
}

#[test]
fn test_inline_boxes_are_left_unlaid() {
    let sn = styled(vec![("width", px(100))], vec![]);
    let mut root = build_layout_tree(sn).unwrap();
    root.layout(containing(600));
    assert_eq!(Dimensions::default(), root.dimensions);
}

#[test]
fn test_get_style_node() {
    let sn = block(vec![("width", px(4))], vec![]);
    let root = build_layout_tree(sn).unwrap();
    let style: &StyledNode = root.get_style_node();
    assert_eq!(Some(Value::Length(4, Unit::Px)), style.value("width"));
}
