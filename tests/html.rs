use htmlcss::{elem, text, AttrMap, Decimal, Node, ParseError, Parser, Token};

fn attrs(pairs: &[(&str, &str)]) -> AttrMap {
    let mut a = AttrMap::new();
    for (k, v) in pairs {
        a.insert(k.to_string(), v.to_string());
    }
    a
}

fn el(name: &str, pairs: &[(&str, &str)], children: Vec<Node>) -> Node {
    elem(name.to_string(), attrs(pairs), children)
}

fn tx(s: &str) -> Node {
    text(s.to_string())
}

fn parse(input: &str) -> Result<Node, ParseError> {
    Parser::new(input.to_string()).parse_html()
}

fn manually_build_test_1() -> Node {
    el(
        "html",
        &[("lang", "en")],
        vec![el(
            "body",
            &[],
            vec![
                el("h1", &[], vec![tx("Title")]),
                el(
                    "div",
                    &[("id", "main"), ("class", "test")],
                    vec![el(
                        "p",
                        &[],
                        vec![tx("Hello "), el("em", &[], vec![tx("world")]), tx("!")],
                    )],
                ),
            ],
        )],
    )
}

const INPUT_1: &str = "<html lang=\"en\">
    <body>
        <h1>Title</h1>
        <div id=\"main\" class=\"test\">
            <p>Hello <em>world</em>!</p>
        </div>
    </body>
</html>
";

#[test]
fn test_parse_html_1() {
    assert_eq!(parse(INPUT_1).unwrap(), manually_build_test_1());
}

const STYLE_TEXT: &str = r#"body {
            font-family: Arial, sans-serif;
            text-align: center;
            margin: 50px;
        }
        h1 {
            color: blue;
        }
        p {
            font-size: 18px;
        }
    "#;

const SCRIPT_TEXT: &str = r#"function showMessage() {
        alert("Hello, world!");
    }
"#;

fn manually_build_test_2() -> Node {
    el(
        "html",
        &[("lang", "en")],
        vec![
            el(
                "head",
                &[],
                vec![
                    el("title", &[], vec![tx("Simple HTML Page")]),
                    el("style", &[], vec![tx(STYLE_TEXT)]),
                ],
            ),
            el(
                "body",
                &[],
                vec![
                    el("h1", &[], vec![tx("Welcome to My Simple Page")]),
                    el("p", &[], vec![tx("This is a basic HTML page with some text.")]),
                    el("button", &[("onclick", "showMessage()")], vec![tx("Click Me")]),
                    el("script", &[], vec![tx(SCRIPT_TEXT)]),
                ],
            ),
        ],
    )
}

#[test]
fn test_parse_html_2() {
    let input = format!(
        "<html lang=\"en\">\n<head>\n    <title>Simple HTML Page</title>\n    <style>\n        {}</style>\n</head>\n<body>\n    <h1>Welcome to My Simple Page</h1>\n    <p>This is a basic HTML page with some text.</p>\n    <button onclick=\"showMessage()\">Click Me</button>\n    <script>\n    {}</script>\n</body>\n</html>\n",
        STYLE_TEXT, SCRIPT_TEXT
    );
    assert_eq!(parse(&input).unwrap(), manually_build_test_2());
}

#[test]
fn single_element_is_the_root() {
    let root = parse("  <div><p>hi</p></div>\n").unwrap();
    assert_eq!(root, el("div", &[], vec![el("p", &[], vec![tx("hi")])]));
}

#[test]
fn siblings_get_an_html_root() {
    let root = parse("<p>a</p>\n<p>b</p>").unwrap();
    assert_eq!(
        root,
        el("html", &[], vec![el("p", &[], vec![tx("a")]), el("p", &[], vec![tx("b")])])
    );
}

#[test]
fn empty_document_is_an_empty_html_element() {
    assert_eq!(parse("   ").unwrap(), el("html", &[], vec![]));
}

#[test]
fn space_between_tags_is_dropped_and_text_kept() {
    let root = parse("<div>\n  <p>a  b  </p>\n  <p>c</p>\n</div>").unwrap();
    assert_eq!(
        root,
        el("div", &[], vec![el("p", &[], vec![tx("a  b  ")]), el("p", &[], vec![tx("c")])])
    );
}

#[test]
fn mismatched_closing_tag_fails() {
    assert_eq!(parse("<div>x</span>"), Err(ParseError::MismatchedClosingTag { offset: 8 }));
}

#[test]
fn missing_closing_tag_fails() {
    assert_eq!(
        parse("<div>x"),
        Err(ParseError::Expected { token: Token::EndTagOpen, offset: 6 })
    );
}

#[test]
fn unterminated_opening_tag_fails() {
    assert_eq!(parse("<div"), Err(ParseError::UnexpectedEnd { offset: 4 }));
}

#[test]
fn attribute_without_equals_fails() {
    assert_eq!(
        parse("<a b></a>"),
        Err(ParseError::Expected { token: Token::Equals, offset: 4 })
    );
}

#[test]
fn unquoted_attribute_fails() {
    assert_eq!(parse("<a b=c></a>"), Err(ParseError::BadQuote { offset: 5 }));
}

#[test]
fn single_quotes_and_repeated_attributes() {
    let root = parse("<a x='1' y=\"2\" x='3'></a>").unwrap();
    assert_eq!(root, el("a", &[("x", "3"), ("y", "2")], vec![]));
}

#[test]
fn comments_are_skipped() {
    let root = parse("<!-- note --> <p>x</p>").unwrap();
    assert_eq!(root, el("p", &[], vec![tx("x")]));
}

#[test]
fn unterminated_comment_fails() {
    assert_eq!(
        parse("<!-- a"),
        Err(ParseError::Expected { token: Token::CommentEnd, offset: 6 })
    );
}

#[test]
fn multibyte_text_is_kept() {
    let root = parse("<p>héllo wörld</p>").unwrap();
    assert_eq!(root, el("p", &[], vec![tx("héllo wörld")]));
}

#[test]
fn error_offsets_count_bytes() {
    assert_eq!(parse("<p>é</span>"), Err(ParseError::MismatchedClosingTag { offset: 7 }));
    assert_eq!(parse("<p>é</span>").unwrap_err().offset(), 7);
}

#[test]
fn attribute_order_does_not_matter() {
    assert_eq!(parse("<a x='1' y='2'></a>").unwrap(), parse("<a y='2' x='1'></a>").unwrap());
    assert_ne!(parse("<a x='1' y='2'></a>").unwrap(), parse("<a x='1' y='3'></a>").unwrap());
    assert_ne!(parse("<a x='1'></a>").unwrap(), parse("<a x='1' y='2'></a>").unwrap());
}

#[test]
fn decimal_digits_are_normalized() {
    let d = Decimal::parse(&"0020.500".chars().collect()).unwrap();
    assert_eq!(d, Decimal { whole: vec![2, 0], fraction: vec![5] });
}
