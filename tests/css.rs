use htmlcss::{
    Color, ColorError, Declaration, Decimal, ParseError, Parser, Rule, Selector, SimpleSelector,
    Stylesheet, Token, Unit, Value,
};

fn parse(input: &str) -> Result<Stylesheet, ParseError> {
    Parser::new(input.to_string()).parse_css()
}

fn tag(name: &str) -> Selector {
    Selector::Simple(SimpleSelector { tag_name: Some(name.to_string()), id: None, class: vec![] })
}

fn decimal(whole: &[u8], fraction: &[u8]) -> Decimal {
    Decimal { whole: whole.to_vec(), fraction: fraction.to_vec() }
}

fn decl(name: &str, value: Value) -> Declaration {
    Declaration { name: name.to_string(), value }
}

fn manually_build_test_3() -> Stylesheet {
    Stylesheet {
        rules: vec![
            Rule {
                selectors: vec![tag("h1"), tag("h2"), tag("h3")],
                declarations: vec![
                    decl("margin", Value::Keyword("auto".to_string())),
                    decl(
                        "color",
                        Value::ColorValue(Color::try_from("#cc0000".to_string()).unwrap()),
                    ),
                ],
            },
            Rule {
                selectors: vec![Selector::Simple(SimpleSelector {
                    tag_name: Some("div".to_string()),
                    id: None,
                    class: vec!["note".to_string()],
                })],
                declarations: vec![
                    decl("margin-bottom", Value::Length(decimal(&[2, 0], &[]), Unit::Px)),
                    decl("padding", Value::Length(decimal(&[1, 0], &[]), Unit::Px)),
                ],
            },
            Rule {
                selectors: vec![Selector::Simple(SimpleSelector {
                    tag_name: None,
                    id: Some("answer".to_string()),
                    class: Vec::new(),
                })],
                declarations: vec![decl("display", Value::Keyword("none".to_string()))],
            },
        ],
    }
}

const INPUT_3: &str = "h1, h2, h3 { margin: auto; color: #cc0000; }
div.note { margin-bottom: 20px; padding: 10px; }
#answer { display: none; }
";

#[test]
fn test_parse_css_1() {
    assert_eq!(parse(INPUT_3).unwrap(), manually_build_test_3());
}

#[test]
fn one_rule_round_trip() {
    let sheet = parse("h1, h2, h3 { margin: auto; color: #cc0000; }").unwrap();
    assert_eq!(sheet.rules.len(), 1);
    let rule = &sheet.rules[0];
    assert_eq!(rule.selectors, vec![tag("h1"), tag("h2"), tag("h3")]);
    for s in &rule.selectors {
        assert_eq!(s.specificity(), (0, 0, 1));
    }
    assert_eq!(
        rule.declarations,
        vec![
            decl("margin", Value::Keyword("auto".to_string())),
            decl("color", Value::ColorValue(Color { r: 204, g: 0, b: 0, a: 255 })),
        ]
    );
}

#[test]
fn selectors_sorted_by_specificity() {
    let orders = ["h1, .a.b, #x {}", "#x, h1, .a.b {}", ".a.b, #x, h1 {}", "h1, #x, .a.b {}"];
    for input in orders {
        let sheet = parse(input).unwrap();
        let specs: Vec<_> = sheet.rules[0].selectors.iter().map(|s| s.specificity()).collect();
        assert_eq!(specs, vec![(1, 0, 0), (0, 2, 0), (0, 0, 1)], "{}", input);
    }
}

#[test]
fn equally_specific_selectors_keep_order() {
    let sheet = parse("b, a.x, c, .y {}").unwrap();
    let sels = &sheet.rules[0].selectors;
    assert_eq!(sels[2], tag("b"));
    assert_eq!(sels[3], tag("c"));
}

#[test]
fn specificity_counts_parts() {
    let s = Selector::Simple(SimpleSelector {
        tag_name: Some("div".to_string()),
        id: Some("x".to_string()),
        class: vec!["a".to_string(), "b".to_string(), "a".to_string()],
    });
    assert_eq!(s.specificity(), (1, 3, 1));
}

#[test]
fn selector_parts_in_any_order() {
    let sheet = parse("*.a#x.b#y div {}");
    // the space ends the selector and `d` is neither `,` nor `{`
    assert_eq!(sheet, Err(ParseError::UnexpectedChar { found: 'd', offset: 10 }));
    let sheet = parse("*.a#x.b#y{}").unwrap();
    assert_eq!(
        sheet.rules[0].selectors,
        vec![Selector::Simple(SimpleSelector {
            tag_name: None,
            id: Some("y".to_string()),
            class: vec!["a".to_string(), "b".to_string()],
        })]
    );
}

#[test]
fn color_decoding() {
    assert_eq!(
        Color::try_from("cc0000".to_string()),
        Ok(Color { r: 204, g: 0, b: 0, a: 255 })
    );
    assert_eq!(
        Color::try_from("cc0000ff".to_string()),
        Ok(Color { r: 204, g: 0, b: 0, a: 255 })
    );
    assert_eq!(
        Color::try_from("#0A1b2C80".to_string()),
        Ok(Color { r: 10, g: 27, b: 44, a: 128 })
    );
    assert_eq!(Color::try_from("zz0000".to_string()), Err(ColorError::BadDigit));
    assert_eq!(Color::try_from("abc".to_string()), Err(ColorError::BadLength));
    assert_eq!(Color::try_from("".to_string()), Err(ColorError::BadLength));
    assert_eq!(Color::try_from("+f0000".to_string()), Err(ColorError::BadDigit));
}

#[test]
fn bad_color_in_stylesheet_fails() {
    assert_eq!(parse("a { color: #zz0000; }"), Err(ParseError::InvalidColor { offset: 11 }));
}

#[test]
fn length_decoding() {
    let sheet = parse("a { width: 20px; }").unwrap();
    assert_eq!(
        sheet.rules[0].declarations,
        vec![decl("width", Value::Length(decimal(&[2, 0], &[]), Unit::Px))]
    );
    assert_eq!(
        parse("a { width: 20em; }"),
        Err(ParseError::Expected { token: Token::Px, offset: 13 })
    );
}

#[test]
fn decimal_lengths_are_exact() {
    let sheet = parse("a { w: 007.50px; x: 0px; y: 1.px; }").unwrap();
    assert_eq!(
        sheet.rules[0].declarations,
        vec![
            decl("w", Value::Length(decimal(&[7], &[5]), Unit::Px)),
            decl("x", Value::Length(decimal(&[], &[]), Unit::Px)),
            decl("y", Value::Length(decimal(&[1], &[]), Unit::Px)),
        ]
    );
    assert_eq!(parse("a { w: 1.2.3px; }"), Err(ParseError::InvalidNumber { offset: 7 }));
}

#[test]
fn keyword_keeps_trailing_space() {
    let sheet = parse("p { display:  none ; }").unwrap();
    assert_eq!(
        sheet.rules[0].declarations,
        vec![decl("display", Value::Keyword("none ".to_string()))]
    );
}

#[test]
fn missing_semicolon_fails() {
    assert_eq!(
        parse("p { a: b }"),
        Err(ParseError::Expected { token: Token::Semicolon, offset: 10 })
    );
}

#[test]
fn missing_colon_fails() {
    assert_eq!(
        parse("p { a }"),
        Err(ParseError::Expected { token: Token::Colon, offset: 7 })
    );
}

#[test]
fn unclosed_block_fails() {
    assert_eq!(parse("p { a: b;"), Err(ParseError::UnexpectedEnd { offset: 9 }));
}

#[test]
fn bad_selector_character_fails() {
    assert_eq!(
        parse("a; {}"),
        Err(ParseError::UnexpectedChar { found: ';', offset: 1 })
    );
}

#[test]
fn empty_stylesheet() {
    assert_eq!(parse("").unwrap(), Stylesheet { rules: vec![] });
}

#[test]
fn css_error_offsets_count_bytes() {
    assert_eq!(
        parse("a { b: é; } ü {}"),
        Err(ParseError::UnexpectedChar { found: 'ü', offset: 13 })
    );
}

#[test]
fn only_one_leading_hash_is_stripped() {
    assert_eq!(Color::try_from("##cc0000".to_string()), Err(ColorError::BadLength));
    assert_eq!(Color::try_from("##cc000".to_string()), Err(ColorError::BadDigit));
    assert_eq!(parse("a { color: ##cc0000; }"), Err(ParseError::InvalidColor { offset: 11 }));
}

#[test]
fn selector_order_in_source_does_not_matter() {
    let parts = ["#x", ".a.b", "p"];
    let orders = [[0, 1, 2], [0, 2, 1], [1, 0, 2], [1, 2, 0], [2, 0, 1], [2, 1, 0]];
    let expected = vec![
        Selector::Simple(SimpleSelector { tag_name: None, id: Some("x".to_string()), class: vec![] }),
        Selector::Simple(SimpleSelector {
            tag_name: None,
            id: None,
            class: vec!["a".to_string(), "b".to_string()],
        }),
        tag("p"),
    ];
    for o in orders {
        let input = format!("{}, {}, {} {{}}", parts[o[0]], parts[o[1]], parts[o[2]]);
        let sheet = parse(&input).unwrap();
        assert_eq!(sheet.rules[0].selectors, expected, "{}", input);
    }
}
