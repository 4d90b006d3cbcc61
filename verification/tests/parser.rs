use boxflow::css::{parse, Color, Declaration, ParseError, Rule, Selector, SimpleSelector, Stylesheet, Unit, Value};

#[test]
fn test_parse_id() {
    let source = String::from(
        r#"
        #foo {
            display: inline;
        }
        "#,
    );

    let expected = Stylesheet {
        rules: vec![Rule {
            selectors: vec![Selector::Simple(SimpleSelector {
                class: vec![],
                id: Some(String::from("foo")),
                tag_name: None,
            })],
            declarations: vec![Declaration {
                name: String::from("display"),
                value: Value::Keyword(String::from("inline")),
            }],
        }],
    };
    assert_eq!(Ok(expected), parse(source));
}

#[test]
fn test_parse_class() {
    let source = String::from(
        r#"
        .foo {
            display: inline;
        }
        "#,
    );

    let expected = Stylesheet {
        rules: vec![Rule {
            selectors: vec![Selector::Simple(SimpleSelector {
                class: vec![String::from("foo")],
                id: None,
                tag_name: None,
            })],
            declarations: vec![Declaration {
                name: String::from("display"),
                value: Value::Keyword(String::from("inline")),
            }],
        }],
    };
    assert_eq!(Ok(expected), parse(source));
}

#[test]
fn test_parse_multiple_selectors() {
    let source = String::from(
        r#"
        foo, bar {
            display: inline;
        }
        "#,
    );

    let expected = Stylesheet {
        rules: vec![Rule {
            selectors: vec![
                Selector::Simple(SimpleSelector {
                    class: vec![],
                    id: None,
                    tag_name: Some(String::from("foo")),
                }),
                Selector::Simple(SimpleSelector {
                    class: vec![],
                    id: None,
                    tag_name: Some(String::from("bar")),
                }),
            ],
            declarations: vec![Declaration {
                name: String::from("display"),
                value: Value::Keyword(String::from("inline")),
            }],
        }],
    };
    assert_eq!(Ok(expected), parse(source));
}

#[test]
fn test_parse_multiple_declarations() {
    let source = String::from(
        r#"
        html {
            width: 600px;
            padding: 10px;
            border-width: 1px;
            margin: auto;
            background: #aabbcc;
        }
        "#,
    );

    let expected = Stylesheet {
        rules: vec![Rule {
            selectors: vec![Selector::Simple(SimpleSelector {
                class: vec![],
                id: None,
                tag_name: Some(String::from("html")),
            })],
            declarations: vec![
                Declaration {
                    name: String::from("width"),
                    value: Value::Length(600, Unit::Px),
                },
                Declaration {
                    name: String::from("padding"),
                    value: Value::Length(10, Unit::Px),
                },
                Declaration {
                    name: String::from("border-width"),
                    value: Value::Length(1, Unit::Px),
                },
                Declaration {
                    name: String::from("margin"),
                    value: Value::Keyword(String::from("auto")),
                },
                Declaration {
                    name: String::from("background"),
                    value: Value::ColorValue(Color {
                        r: 170,
                        g: 187,
                        b: 204,
                        a: 255,
                    }),
                },
            ],
        }],
    };
    assert_eq!(Ok(expected), parse(source));
}

#[test]
fn test_parse_multiple_rules() {
    let source = String::from(
        r#"
        h1, h2, h3 {
            margin: auto;
            background: #cc0000;
        }
        div.note {
            margin-bottom: 20px;
            padding: 10px;
        }
        "#,
    );

    let expected = Stylesheet {
        rules: vec![
            Rule {
                selectors: vec![
                    Selector::Simple(SimpleSelector {
                        class: vec![],
                        id: None,
                        tag_name: Some(String::from("h1")),
                    }),
                    Selector::Simple(SimpleSelector {
                        class: vec![],
                        id: None,
                        tag_name: Some(String::from("h2")),
                    }),
                    Selector::Simple(SimpleSelector {
                        class: vec![],
                        id: None,
                        tag_name: Some(String::from("h3")),
                    }),
                ],
                declarations: vec![
                    Declaration {
                        name: String::from("margin"),
                        value: Value::Keyword(String::from("auto")),
                    },
                    Declaration {
                        name: String::from("background"),
                        value: Value::ColorValue(Color {
                            r: 204,
                            g: 0,
                            b: 0,
                            a: 255,
                        }),
                    },
                ],
            },
            Rule {
                selectors: vec![Selector::Simple(SimpleSelector {
                    class: vec![String::from("note")],
                    id: None,
                    tag_name: Some(String::from("div")),
                })],
                declarations: vec![
                    Declaration {
                        name: String::from("margin-bottom"),
                        value: Value::Length(20, Unit::Px),
                    },
                    Declaration {
                        name: String::from("padding"),
                        value: Value::Length(10, Unit::Px),
                    },
                ],
            },
        ],
    };
    assert_eq!(Ok(expected), parse(source));
}

#[test]
fn test_parse_selectors_sorted_by_specificity() {
    let source = String::from("p.x, #i, q { display: block; }");
    let sheet = parse(source).unwrap();
    assert_eq!(1, sheet.rules.len());
    let sels = &sheet.rules[0].selectors;
    assert_eq!(3, sels.len());
    assert_eq!((1, 0, 0), sels[0].specificity());
    assert_eq!((0, 1, 1), sels[1].specificity());
    assert_eq!((0, 0, 1), sels[2].specificity());
}

#[test]
fn test_parse_compound_selector_last_token_wins() {
    let source = String::from("div#a#b.c*.d { display: block; }");
    let expected = Stylesheet {
        rules: vec![Rule {
            selectors: vec![Selector::Simple(SimpleSelector {
                class: vec![String::from("c"), String::from("d")],
                id: Some(String::from("b")),
                tag_name: Some(String::from("div")),
            })],
            declarations: vec![Declaration {
                name: String::from("display"),
                value: Value::Keyword(String::from("block")),
            }],
        }],
    };
    assert_eq!(Ok(expected), parse(source));
}

#[test]
fn test_parse_unexpected_character_in_selector_list() {
    let source = String::from("p ; { display: block; }");
    assert_eq!(Err(ParseError::UnexpectedCharacter), parse(source));
}

#[test]
fn test_parse_missing_delimiter() {
    assert_eq!(
        Err(ParseError::MissingDelimiter),
        parse(String::from("p { display inline; }"))
    );
    assert_eq!(
        Err(ParseError::MissingDelimiter),
        parse(String::from("p { display: inline }"))
    );
    assert_eq!(Err(ParseError::MissingDelimiter), parse(String::from("p")));
    assert_eq!(
        Err(ParseError::MissingDelimiter),
        parse(String::from("p { display: inline;"))
    );
}

#[test]
fn test_parse_unknown_unit() {
    assert_eq!(
        Err(ParseError::UnknownUnit),
        parse(String::from("p { width: 10em; }"))
    );
}

#[test]
fn test_parse_malformed_color() {
    assert_eq!(
        Err(ParseError::MalformedColor),
        parse(String::from("p { color: #12345; }"))
    );
    assert_eq!(
        Err(ParseError::MalformedColor),
        parse(String::from("p { color: #zzzzzz; }"))
    );
    assert_eq!(
        Err(ParseError::MalformedColor),
        parse(String::from("p { color: #1"))
    );
}

#[test]
fn test_parse_bad_number() {
    assert_eq!(
        Err(ParseError::BadNumber),
        parse(String::from("p { width: 1.5px; }"))
    );
    assert_eq!(
        Err(ParseError::BadNumber),
        parse(String::from("p { width: 99999999999999999999px; }"))
    );
}

#[test]
fn test_parse_unit_case_insensitive() {
    let sheet = parse(String::from("p { width: 3PX; }")).unwrap();
    assert_eq!(
        Value::Length(3, Unit::Px),
        sheet.rules[0].declarations[0].value
    );
}

#[test]
fn test_parse_empty_stylesheet() {
    assert_eq!(Ok(Stylesheet { rules: vec![] }), parse(String::from("   \n  ")));
}

#[test]
fn test_to_px() {
    assert_eq!(42, Value::Length(42, Unit::Px).to_px());
    assert_eq!(0, Value::Keyword(String::from("auto")).to_px());
    assert_eq!(
        0,
        Value::ColorValue(Color { r: 1, g: 2, b: 3, a: 255 }).to_px()
    );
}

#[test]
fn test_specificity_id_beats_classes_beats_tag() {
    let sheet = parse(String::from("#x, .a.b.c, div.a { display: block; }")).unwrap();
    let sels = &sheet.rules[0].selectors;
    // sorted by descending specificity: the id selector first, then the
    // three-class selector, then tag-plus-class
    assert_eq!((1, 0, 0), sels[0].specificity());
    assert_eq!((0, 3, 0), sels[1].specificity());
    assert_eq!((0, 1, 1), sels[2].specificity());
    assert!(sels[0].specificity() > sels[1].specificity());
    assert!(sels[1].specificity() > sels[2].specificity());
}

#[test]
fn test_specificity() {
    let sel = Selector::Simple(SimpleSelector {
        tag_name: Some(String::from("div")),
        id: Some(String::from("x")),
        class: vec![String::from("a"), String::from("b")],
    });
    assert_eq!((1, 2, 1), sel.specificity());
    let bare = Selector::Simple(SimpleSelector { tag_name: None, id: None, class: vec![] });
    assert_eq!((0, 0, 0), bare.specificity());
}
