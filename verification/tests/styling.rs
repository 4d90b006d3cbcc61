use boxflow::css::{self, Color, Value};
use boxflow::dom::{elem, text, AttrMap, ElementData, Node, NodeType};
use boxflow::style::{matchs, matchs_simple_selector, style_tree, Display, PropertyMap, StyledNode};

fn name_attrs() -> AttrMap {
    let mut attrs = AttrMap::new();
    attrs.insert(String::from("class"), String::from("name"));
    attrs
}

#[test]
fn test_style_tree_overwrite() {
    let css_source = String::from(
        r#"
        p {
            color: #cccccc;
        }

        p.name {
            color: #cc0000;
        }
        "#,
    );
    let root = elem(
        String::from("p"),
        name_attrs(),
        vec![text(String::from("Hello"))],
    );
    let css = css::parse(css_source).unwrap();

    let mut specified_values = PropertyMap::new();
    specified_values.insert(
        String::from("color"),
        Value::ColorValue(Color {
            r: 204,
            g: 0,
            b: 0,
            a: 255,
        }),
    );
    let expected = StyledNode {
        node_type: NodeType::Element(ElementData {
            tag_name: String::from("p"),
            attributes: name_attrs(),
        }),
        specified_values: specified_values,
        children: vec![StyledNode {
            node_type: NodeType::Text(String::from("Hello")),
            specified_values: PropertyMap::new(),
            children: vec![],
        }],
    };
    assert_eq!(expected, style_tree(root, &css));
}

#[test]
fn test_style_tree_tie_break_later_rule_wins() {
    let css_source = String::from("p { color: #cccccc; } p { color: #cc0000; }");
    let root = elem(String::from("p"), AttrMap::new(), vec![]);
    let css = css::parse(css_source).unwrap();
    let styled = style_tree(root, &css);
    assert_eq!(
        Some(Value::ColorValue(Color { r: 204, g: 0, b: 0, a: 255 })),
        styled.value("color")
    );
}

#[test]
fn test_style_tree_higher_specificity_wins_despite_order() {
    let css_source = String::from("p.name { color: #cc0000; } p { color: #cccccc; }");
    let root = elem(String::from("p"), name_attrs(), vec![]);
    let css = css::parse(css_source).unwrap();
    let styled = style_tree(root, &css);
    assert_eq!(
        Some(Value::ColorValue(Color { r: 204, g: 0, b: 0, a: 255 })),
        styled.value("color")
    );
}

#[test]
fn test_later_declaration_in_same_rule_wins() {
    let css_source = String::from("p { color: #cc0000; color: #cccccc; }");
    let root = elem(String::from("p"), AttrMap::new(), vec![]);
    let css = css::parse(css_source).unwrap();
    let styled = style_tree(root, &css);
    assert_eq!(
        Some(Value::ColorValue(Color { r: 204, g: 204, b: 204, a: 255 })),
        styled.value("color")
    );
}

#[test]
fn test_unmatched_element_gets_empty_map() {
    let css = css::parse(String::from("div { width: 10px; }")).unwrap();
    let root = elem(String::from("p"), AttrMap::new(), vec![]);
    let styled = style_tree(root, &css);
    assert_eq!(None, styled.value("width"));
}

#[test]
fn test_matchs_simple_selector() {
    let sheet = css::parse(String::from(
        "div.note { width: 1px; } #head { width: 2px; } span { width: 3px; }",
    ))
    .unwrap();
    let mut attrs = AttrMap::new();
    attrs.insert(String::from("class"), String::from("note big"));
    attrs.insert(String::from("id"), String::from("head"));
    let e = ElementData { tag_name: String::from("div"), attributes: attrs };

    let css::Selector::Simple(ref s0) = sheet.rules[0].selectors[0];
    assert!(matchs_simple_selector(&e, s0));
    assert!(matchs(&e, &sheet.rules[1].selectors[0]));
    assert!(!matchs(&e, &sheet.rules[2].selectors[0]));
}

#[test]
fn test_classes_split_on_single_spaces() {
    let mut attrs = AttrMap::new();
    attrs.insert(String::from("class"), String::from("a  b"));
    let e = ElementData { tag_name: String::from("p"), attributes: attrs };
    assert_eq!(
        vec![String::from("a"), String::from(""), String::from("b")],
        e.classes()
    );
    let bare = ElementData { tag_name: String::from("p"), attributes: AttrMap::new() };
    assert_eq!(Vec::<String>::new(), bare.classes());
}

#[test]
fn test_element_id() {
    let mut attrs = AttrMap::new();
    attrs.insert(String::from("id"), String::from("head"));
    let e = ElementData { tag_name: String::from("p"), attributes: attrs };
    assert_eq!(Some(&String::from("head")), e.id());
    let bare = ElementData { tag_name: String::from("p"), attributes: AttrMap::new() };
    assert_eq!(None, bare.id());
}

#[test]
fn test_display_keywords() {
    let mk = |kw: &str| -> StyledNode {
        let mut pm = PropertyMap::new();
        pm.insert(String::from("display"), Value::Keyword(String::from(kw)));
        StyledNode {
            node_type: NodeType::Text(String::from("")),
            specified_values: pm,
            children: vec![],
        }
    };
    assert_eq!(Display::Block, mk("block").display());
    assert_eq!(Display::Hidden, mk("none").display());
    assert_eq!(Display::Inline, mk("flex").display());
    let mut pm = PropertyMap::new();
    pm.insert(String::from("display"), Value::Length(1, css::Unit::Px));
    let non_keyword = StyledNode {
        node_type: NodeType::Text(String::from("")),
        specified_values: pm,
        children: vec![],
    };
    assert_eq!(Display::Inline, non_keyword.display());
    let bare = StyledNode {
        node_type: NodeType::Text(String::from("")),
        specified_values: PropertyMap::new(),
        children: vec![],
    };
    assert_eq!(Display::Inline, bare.display());
}

#[test]
fn test_lookup_fallback_chain() {
    let mut pm = PropertyMap::new();
    pm.insert(String::from("margin"), Value::Length(7, css::Unit::Px));
    let sn = StyledNode {
        node_type: NodeType::Text(String::from("")),
        specified_values: pm,
        children: vec![],
    };
    let zero = Value::Length(0, css::Unit::Px);
    assert_eq!(
        Value::Length(7, css::Unit::Px),
        sn.lookup("margin-left", "margin", &zero)
    );
    assert_eq!(zero, sn.lookup("padding-left", "padding", &zero));
}

#[test]
fn test_style_tree_mirrors_document_shape() {
    let css = css::parse(String::from("p { display: none; }")).unwrap();
    let root: Node = elem(
        String::from("div"),
        AttrMap::new(),
        vec![
            elem(String::from("p"), AttrMap::new(), vec![text(String::from("x"))]),
            text(String::from("y")),
        ],
    );
    let styled = style_tree(root, &css);
    assert_eq!(2, styled.children.len());
    assert_eq!(1, styled.children[0].children.len());
}
