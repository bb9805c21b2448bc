use html2md_rs::parser::{
    parse_tag_attributes, safe_parse_html, MalformedTagError, ParseHTMLError,
};
use html2md_rs::structs::{
    AttributeValues, Attributes, Node,
    NodeType::{Div, Meta, Ol, Text, Ul, Unknown, H1, H2, Li, P},
};

#[test]
fn parse_simple_div_with_text() {
    let input = "<div>hello</div>".to_string();
    let expected = Node {
        tag_name: Some(Div),
        value: None,
        attributes: None,
        within_special_tag: None,
        children: vec![Node {
            tag_name: Some(Text),
            value: Some("hello".to_string()),
            attributes: None,
            within_special_tag: None,
            children: vec![],
        }],
    };
    assert_eq!(safe_parse_html(input).unwrap(), expected);
}

#[test]
fn parse_multiple_headers() {
    let input = "<h1>hello</h1><h2>world</h2>".to_string();
    let expected = Node {
        tag_name: None,
        value: None,
        attributes: None,
        within_special_tag: None,
        children: vec![
            Node {
                tag_name: Some(H1),
                value: None,
                attributes: None,
                within_special_tag: None,
                children: vec![Node {
                    tag_name: Some(Text),
                    value: Some("hello".to_string()),
                    attributes: None,
                    within_special_tag: None,
                    children: vec![],
                }],
            },
            Node {
                tag_name: Some(H2),
                value: None,
                attributes: None,
                within_special_tag: None,
                children: vec![Node {
                    tag_name: Some(Text),
                    value: Some("world".to_string()),
                    attributes: None,
                    within_special_tag: None,
                    children: vec![],
                }],
            },
        ],
    };
    assert_eq!(safe_parse_html(input).unwrap(), expected);
}

#[test]
fn parse_unordered_list() {
    let input = "<ul><li>hello</li><li>world</li></ul>".to_string();
    let expected = Node {
        tag_name: Some(Ul),
        children: vec![
            Node {
                tag_name: Some(Li),
                within_special_tag: Some(vec![Ul]),
                children: vec![Node {
                    tag_name: Some(Text),
                    within_special_tag: Some(vec![Ul]),
                    value: Some("hello".to_string()),
                    ..Default::default()
                }],
                ..Default::default()
            },
            Node {
                tag_name: Some(Li),
                within_special_tag: Some(vec![Ul]),
                children: vec![Node {
                    tag_name: Some(Text),
                    within_special_tag: Some(vec![Ul]),
                    value: Some("world".to_string()),
                    ..Default::default()
                }],
                ..Default::default()
            },
        ],
        ..Default::default()
    };
    assert_eq!(safe_parse_html(input).unwrap(), expected);
}

#[test]
fn parse_ordered_list() {
    let input = "<ol><li>hello</li><li>world</li></ol>".to_string();
    let expected = Node {
        tag_name: Some(Ol),
        children: vec![
            Node {
                tag_name: Some(Li),
                within_special_tag: Some(vec![Ol]),
                children: vec![Node {
                    tag_name: Some(Text),
                    value: Some("hello".to_string()),
                    within_special_tag: Some(vec![Ol]),
                    ..Default::default()
                }],
                ..Default::default()
            },
            Node {
                tag_name: Some(Li),
                within_special_tag: Some(vec![Ol]),
                children: vec![Node {
                    tag_name: Some(Text),
                    value: Some("world".to_string()),
                    within_special_tag: Some(vec![Ol]),
                    ..Default::default()
                }],
                ..Default::default()
            },
        ],
        ..Default::default()
    };
    assert_eq!(safe_parse_html(input).unwrap(), expected);
}

#[test]
fn self_closing_div() {
    let input = "<div />".to_string();
    let expected = Node {
        tag_name: Some(Div),
        value: None,
        attributes: None,
        within_special_tag: None,
        children: vec![],
    };
    assert_eq!(safe_parse_html(input).unwrap(), expected);
}

#[test]
fn with_self_closing_div() {
    let input = "<div>hello</div>
<div />"
        .to_string();
    let expected = Node {
        tag_name: None,
        value: None,
        attributes: None,
        within_special_tag: None,
        children: vec![
            Node {
                tag_name: Some(Div),
                value: None,
                attributes: None,
                within_special_tag: None,
                children: vec![Node {
                    tag_name: Some(Text),
                    value: Some("hello".to_string()),
                    attributes: None,
                    within_special_tag: None,
                    children: vec![],
                }],
            },
            Node {
                tag_name: Some(Div),
                value: None,
                attributes: None,
                within_special_tag: None,
                children: vec![],
            },
        ],
    };
    assert_eq!(safe_parse_html(input).unwrap(), expected);
}

#[test]
fn missing_closing_bracket() {
    let input = "<div>hello</div><div".to_string();
    assert_eq!(
        safe_parse_html(input),
        Err(ParseHTMLError::MalformedTag(
            "<div".to_string(),
            MalformedTagError::MissingClosingBracket(16)
        ))
    );
}

#[test]
fn missing_tag_name() {
    let input = "<>".to_string();
    assert_eq!(
        safe_parse_html(input),
        Err(ParseHTMLError::MalformedTag(
            "".to_string(),
            MalformedTagError::MissingTagName(0)
        ))
    );
}

#[test]
fn parser_tests_list_in_list() {
    let input = "
<ul>
  <li>
    <p>abc</p>
\t<ul>
\t  <li>
\t    <p>abc</p>
\t    <ol>
\t      <li>
\t        <p>123</p>
\t      </li>
\t    </ol>
\t  </li>
\t</ul>
  </li>
</ul>"
        .to_string();
    let expected = Node::new(
        Some(Ul),
        None,
        None,
        None,
        vec![Node::new(
            Some(Li),
            None,
            None,
            Some(vec![Ul]),
            vec![
                Node::new(
                    Some(P),
                    None,
                    None,
                    Some(vec![Ul]),
                    vec![Node::new(
                        Some(Text),
                        Some("abc".to_string()),
                        None,
                        Some(vec![Ul]),
                        vec![],
                    )],
                ),
                Node::new(
                    Some(Ul),
                    None,
                    None,
                    Some(vec![Ul]),
                    vec![Node::new(
                        Some(Li),
                        None,
                        None,
                        Some(vec![Ul, Ul]),
                        vec![
                            Node::new(
                                Some(P),
                                None,
                                None,
                                Some(vec![Ul, Ul]),
                                vec![Node::new(
                                    Some(Text),
                                    Some("abc".to_string()),
                                    None,
                                    Some(vec![Ul, Ul]),
                                    vec![],
                                )],
                            ),
                            Node::new(
                                Some(Ol),
                                None,
                                None,
                                Some(vec![Ul, Ul]),
                                vec![Node::new(
                                    Some(Li),
                                    None,
                                    None,
                                    Some(vec![Ul, Ul, Ol]),
                                    vec![Node::new(
                                        Some(P),
                                        None,
                                        None,
                                        Some(vec![Ul, Ul, Ol]),
                                        vec![Node::new(
                                            Some(Text),
                                            Some("123".to_string()),
                                            None,
                                            Some(vec![Ul, Ul, Ol]),
                                            vec![],
                                        )],
                                    )],
                                )],
                            ),
                        ],
                    )],
                ),
            ],
        )],
    );
    assert_eq!(safe_parse_html(input).unwrap(), expected);
}

#[test]
fn equal_in_attribute_value() {
    let input = "<div class=\"hello=world\"></div>".to_string();
    let mut attributes = Attributes::new();
    attributes.insert(
        "class".to_string(),
        AttributeValues::String("hello=world".to_string()),
    );
    let expected = Node {
        tag_name: Some(Div),
        attributes: Some(attributes),
        ..Default::default()
    };
    assert_eq!(safe_parse_html(input).unwrap(), expected);
}

#[test]
fn issue_21() {
    let input =
        "<meta http-equiv=\"content-type\" content=\"text/html; charset=utf-8\">".to_string();
    let mut attributes = Attributes::new();
    attributes.insert(
        "http-equiv".to_string(),
        AttributeValues::String("content-type".to_string()),
    );
    attributes.insert(
        "content".to_string(),
        AttributeValues::String("text/html; charset=utf-8".to_string()),
    );
    let expected = Node {
        tag_name: Some(Meta),
        attributes: Some(attributes),
        ..Default::default()
    };
    assert_eq!(safe_parse_html(input).unwrap(), expected);
}

#[test]
fn issue_23() {
    let input = "<form id=\"search\" role=\"search\" action=/search></form>".to_string();
    let mut attributes = Attributes::new();
    attributes.insert(
        "id".to_string(),
        AttributeValues::String("search".to_string()),
    );
    attributes.insert(
        "role".to_string(),
        AttributeValues::String("search".to_string()),
    );
    attributes.insert(
        "action".to_string(),
        AttributeValues::String("/search".to_string()),
    );
    let expected = Node {
        tag_name: Some(Unknown("form".to_string())),
        attributes: Some(attributes),
        ..Default::default()
    };
    assert_eq!(safe_parse_html(input).unwrap(), expected);
}

#[test]
fn issue_25() {
    let input: Vec<char> = "property=\"og:type\" content= \"website\"".chars().collect();
    let len = input.len();
    let expected = Attributes::from(vec![
        (
            "property".to_string(),
            AttributeValues::String("og:type".to_string()),
        ),
        (
            "content".to_string(),
            AttributeValues::String("website".to_string()),
        ),
    ]);
    let parsed = parse_tag_attributes(&input, 0, len, 0).unwrap().unwrap();
    assert_eq!(parsed, expected);
}

#[test]
fn issue_31() {
    let input = r#"<img src="https://exmaple.com/img.png" alt="Rust<br/>Logo"/>"#.to_string();
    let expected = Node {
        tag_name: Some(Unknown("img".to_string())),
        value: None,
        attributes: Some(Attributes::from(vec![
            (
                "src".to_string(),
                AttributeValues::String("https://exmaple.com/img.png".to_string()),
            ),
            (
                "alt".to_string(),
                AttributeValues::String("Rust<br/>Logo".to_string()),
            ),
        ])),
        children: Vec::new(),
        within_special_tag: None,
    };
    let parsed = safe_parse_html(input).unwrap();
    assert_eq!(parsed, expected)
}

#[test]
fn issue_36() {
    let input = "<img src=\"https://hoerspiele.dra.de/fileadmin/www.hoerspiele.dra.de/images/vollinfo/4970918_B01.jpg\" />".to_string();
    let expected = Node {
        tag_name: Some(Unknown("img".to_string())),
        value: None,
        attributes: Some(Attributes::from(vec![(
            "src".to_string(),
            AttributeValues::String("https://hoerspiele.dra.de/fileadmin/www.hoerspiele.dra.de/images/vollinfo/4970918_B01.jpg".to_string()),
        )])),
        children: Vec::new(),
        within_special_tag: None,
    };
    let parsed = safe_parse_html(input).unwrap();
    assert_eq!(parsed, expected);

    let input = r#"<!DOCTYPE html><meta http-equiv="content-type" content="text/html; charset=utf-8"><div class="column"><div class="gallery-wrap single">
    <div class="gallery-container">
        <figure class="image">
            <figure class="image">
            <img title="Illustration »Der dunkle Kongress« © ARD / Jürgen Frey"
                 alt="Illustration »Der dunkle Kongress« © ARD / Jürgen Frey" 
                 src="https://hoerspiele.dra.de/fileadmin/www.hoerspiele.dra.de/images/vollinfo/4970918_B01.jpg">
                <figcaption class="image-caption">Illustration »Der dunkle Kongress«
© ARD / Jürgen Frey</figcaption>
</figure></div></div></div>"#.to_string();
    safe_parse_html(input).unwrap();
}
