use html2md_rs::parser::{
    parse_tag_attributes, safe_parse_html, MalformedAttributeError, MalformedTagError,
    ParseHTMLError,
};
use html2md_rs::structs::{AttributeValues, Attributes, Node, NodeType, ToMdConfig};
use html2md_rs::to_md::{
    safe_from_html_to_md, safe_from_html_to_md_with_config, to_md, to_md_with_config,
};

#[test]
fn empty_input_parses_to_kindless_root() {
    let parsed = safe_parse_html(String::new()).unwrap();
    let expected = Node {
        tag_name: None,
        value: None,
        attributes: None,
        within_special_tag: None,
        children: vec![],
    };
    assert_eq!(parsed, expected);
    assert_eq!(to_md(parsed), "");
}

#[test]
fn doctype_is_skipped() {
    let input = "<!DOCTYPE html><p>hello</p>".to_string();
    assert_eq!(safe_from_html_to_md(input).unwrap(), "hello\n");
}

#[test]
fn quote_aware_bracket_scanning() {
    let input = "<img alt=\"a<br/>b\" src=\"x\"/>".to_string();
    let expected = Node {
        tag_name: Some(NodeType::Unknown("img".to_string())),
        value: None,
        attributes: Some(Attributes::from(vec![
            (
                "alt".to_string(),
                AttributeValues::String("a<br/>b".to_string()),
            ),
            ("src".to_string(), AttributeValues::String("x".to_string())),
        ])),
        within_special_tag: None,
        children: vec![],
    };
    assert_eq!(safe_parse_html(input).unwrap(), expected);
}

#[test]
fn tag_names_are_lowercased() {
    let parsed = safe_parse_html("<DIV>hello</DIV>".to_string()).unwrap();
    assert_eq!(parsed.tag_name, Some(NodeType::Div));
    let parsed = safe_parse_html("<SPAN>x</SPAN>".to_string()).unwrap();
    assert_eq!(parsed.tag_name, Some(NodeType::Unknown("span".to_string())));
    assert_eq!(NodeType::from_tag_str("lin\u{212A}"), NodeType::Link);
    assert_eq!(
        NodeType::from_tag_str("Widget"),
        NodeType::Unknown("widget".to_string())
    );
}

#[test]
fn duplicate_attribute_key_last_wins() {
    let parsed = safe_parse_html("<div data-a=\"1\" data-a=\"2\"></div>".to_string()).unwrap();
    let attrs = parsed.attributes.unwrap();
    assert_eq!(
        attrs.get("data-a"),
        Some(AttributeValues::String("2".to_string()))
    );
}

#[test]
fn presence_only_attribute_is_boolean() {
    let parsed = safe_parse_html("<div disabled x=\"1\"></div>".to_string()).unwrap();
    let attrs = parsed.attributes.unwrap();
    assert_eq!(attrs.get("disabled"), Some(AttributeValues::Bool(true)));
    assert!(attrs.contains("x"));
    assert!(!attrs.contains("missing"));
}

#[test]
fn trailing_presence_only_attribute_is_kept() {
    let parsed = safe_parse_html("<div hidden></div>".to_string()).unwrap();
    let attrs = parsed.attributes.unwrap();
    assert_eq!(attrs.get("hidden"), Some(AttributeValues::Bool(true)));
}

#[test]
fn newlines_are_removed_before_scanning() {
    let parsed = safe_parse_html("<p>line one\nline two</p>".to_string()).unwrap();
    assert_eq!(
        parsed.children[0].value,
        Some("line oneline two".to_string())
    );
}

#[test]
fn comment_attaches_to_the_open_element() {
    let parsed = safe_parse_html("<div><!--note--></div>".to_string()).unwrap();
    assert_eq!(parsed.tag_name, Some(NodeType::Div));
    assert_eq!(parsed.children.len(), 1);
    assert_eq!(parsed.children[0].tag_name, Some(NodeType::Comment));
    assert_eq!(parsed.children[0].value, Some("note".to_string()));
}

#[test]
fn error_offsets_count_bytes() {
    let input = "<p>\u{e9}</p><div".to_string();
    assert_eq!(
        safe_parse_html(input),
        Err(ParseHTMLError::MalformedTag(
            "<div".to_string(),
            MalformedTagError::MissingClosingBracket(9)
        ))
    );
}

#[test]
fn id_and_class_are_dedicated_fields() {
    let parsed =
        safe_parse_html("<div id=\"one\" class=\"two\" rel=\"three\"></div>".to_string()).unwrap();
    let attrs = parsed.attributes.unwrap();
    assert_eq!(attrs.get_id(), Some(&"one".to_string()));
    assert_eq!(attrs.get_class(), Some(&"two".to_string()));
    assert_eq!(
        attrs.get("rel"),
        Some(AttributeValues::String("three".to_string()))
    );
    assert!(!attrs.is_empty());
    assert!(Attributes::new().is_empty());
}

#[test]
fn missing_quotation_mark_in_attributes() {
    let input: Vec<char> = "key=\"value".chars().collect();
    let len = input.len();
    assert_eq!(
        parse_tag_attributes(&input, 0, len, 7),
        Err(ParseHTMLError::MalformedAttribute(
            "value".to_string(),
            MalformedAttributeError::MissingQuotationMark(7)
        ))
    );
}

#[test]
fn missing_attribute_name_in_attributes() {
    let input: Vec<char> = "=\"value\"".chars().collect();
    let len = input.len();
    assert_eq!(
        parse_tag_attributes(&input, 0, len, 3),
        Err(ParseHTMLError::MalformedAttribute(
            "=\"value\"".to_string(),
            MalformedAttributeError::MissingAttributeName(3)
        ))
    );
}

#[test]
fn unmatched_closing_tag_is_an_error() {
    let input = "</div>".to_string();
    assert_eq!(
        safe_parse_html(input),
        Err(ParseHTMLError::MalformedTag(
            "</div>".to_string(),
            MalformedTagError::MissingClosingBracket(0)
        ))
    );
}

#[test]
fn unterminated_comment_is_an_error() {
    let input = "<!-- never closed".to_string();
    assert_eq!(
        safe_parse_html(input),
        Err(ParseHTMLError::MalformedTag(
            "<!-- never closed".to_string(),
            MalformedTagError::MissingClosingBracket(0)
        ))
    );
}

#[test]
fn error_messages_follow_the_reference_format() {
    let e = ParseHTMLError::MalformedTag(
        "<div".to_string(),
        MalformedTagError::MissingClosingBracket(16),
    );
    assert_eq!(
        e.message(),
        "Malformed tag: <div - Missing closing bracket at around index 16"
    );
    let e = ParseHTMLError::MalformedTag("".to_string(), MalformedTagError::MissingTagName(0));
    assert_eq!(
        e.message(),
        "Malformed tag:  - Missing tag name at around index 0"
    );
    let e = ParseHTMLError::MalformedAttribute(
        "x".to_string(),
        MalformedAttributeError::MissingQuotationMark(205),
    );
    assert_eq!(
        e.message(),
        "Malformed attribute: x - Missing quotation mark at around index 205"
    );
    let e = ParseHTMLError::MalformedAttribute(
        "y".to_string(),
        MalformedAttributeError::MissingAttributeName(1),
    );
    assert_eq!(
        e.message(),
        "Malformed attribute: y - Missing attribute name at around index 1"
    );
    let e = ParseHTMLError::MalformedAttribute(
        "z".to_string(),
        MalformedAttributeError::MissingAttributeValue(42),
    );
    assert_eq!(
        e.message(),
        "Malformed attribute: z - Missing attribute value at around index 42"
    );
}

#[test]
fn percent_escapes_are_decoded_in_link_destinations() {
    let input = "<p><a href=\"/my%20uri\">link</a></p>".to_string();
    assert_eq!(safe_from_html_to_md(input).unwrap(), "[link](</my uri>)\n");

    let input = "<p><a href=\"a%2Fb\">link</a></p>".to_string();
    assert_eq!(safe_from_html_to_md(input).unwrap(), "[link](a/b)\n");
}

#[test]
fn link_without_href_renders_bare_brackets() {
    let input = "<p><a>link</a></p>".to_string();
    assert_eq!(safe_from_html_to_md(input).unwrap(), "[link]\n");
}

#[test]
fn title_contents_are_dropped() {
    let input = "<title>Secret</title><p>body</p>".to_string();
    assert_eq!(safe_from_html_to_md(input).unwrap(), "body\n");
}

#[test]
fn horizontal_rule_and_emphasis() {
    let input = "<p><em>soft</em></p><hr />".to_string();
    assert_eq!(safe_from_html_to_md(input).unwrap(), "*soft*\n***\n");
}

#[test]
fn headings_of_every_level() {
    let input = "<h3>a</h3><h4>b</h4><h5>c</h5><h6>d</h6>".to_string();
    assert_eq!(
        safe_from_html_to_md(input).unwrap(),
        "### a\n#### b\n##### c\n###### d\n"
    );
}

#[test]
fn code_fence_without_language() {
    let input = "<pre><code>let x = 1;</code></pre>".to_string();
    assert_eq!(
        safe_from_html_to_md(input).unwrap(),
        "```\nlet x = 1;```\n"
    );
}

#[test]
fn ol_start_attribute_with_plus_sign() {
    let input = "<ol start=\"+7\"><li><p>x</p></li></ol>".to_string();
    assert_eq!(safe_from_html_to_md(input).unwrap(), "7. x\n");
}

#[test]
fn ol_unparsable_start_defaults_to_one() {
    let input = "<ol start=\"soon\"><li><p>x</p></li></ol>".to_string();
    assert_eq!(safe_from_html_to_md(input).unwrap(), "1. x\n");
}

#[test]
fn leading_spaces_grow_with_list_depth() {
    let node = Node {
        tag_name: Some(NodeType::Li),
        value: None,
        attributes: None,
        within_special_tag: Some(vec![NodeType::Ul, NodeType::Ul, NodeType::Ol]),
        children: vec![],
    };
    assert_eq!(node.leading_spaces(), "    ");
    let flat = Node {
        tag_name: Some(NodeType::Li),
        value: None,
        attributes: None,
        within_special_tag: None,
        children: vec![],
    };
    assert_eq!(flat.leading_spaces(), "");
}

#[test]
fn is_in_special_tag_consults_recorded_ancestors() {
    let node = Node {
        tag_name: Some(NodeType::Text),
        value: Some("x".to_string()),
        attributes: None,
        within_special_tag: Some(vec![NodeType::Blockquote]),
        children: vec![],
    };
    assert!(node.is_in_special_tag(&[NodeType::Blockquote]));
    assert!(!node.is_in_special_tag(&[NodeType::Ul, NodeType::Ol]));
}

#[test]
fn attribute_value_text_forms() {
    assert_eq!(
        AttributeValues::String("v".to_string()).to_text(),
        "v".to_string()
    );
    assert_eq!(AttributeValues::Bool(true).to_text(), "true".to_string());
    assert_eq!(AttributeValues::Bool(false).to_text(), "false".to_string());
    assert_eq!(AttributeValues::Number(-12).to_text(), "-12".to_string());
    assert_eq!(AttributeValues::Number(305).to_text(), "305".to_string());
}

#[test]
fn node_type_classification() {
    assert_eq!(NodeType::from_tag_str("BlockQuote"), NodeType::Blockquote);
    assert_eq!(NodeType::from_tag_str("h2"), NodeType::H2);
    assert_eq!(
        NodeType::from_tag_str("Widget"),
        NodeType::Unknown("widget".to_string())
    );
    assert!(NodeType::Ul.is_special_tag());
    assert!(NodeType::Ol.is_special_tag());
    assert!(NodeType::Blockquote.is_special_tag());
    assert!(!NodeType::Div.is_special_tag());
}

#[test]
fn ignored_kind_suppresses_whole_subtree() {
    let tree = safe_parse_html(
        "<div><ul><li>inside</li></ul><p>kept</p></div>".to_string(),
    )
    .unwrap();
    let config = ToMdConfig {
        ignore_rendering: vec![NodeType::Ul],
    };
    assert_eq!(to_md_with_config(tree, &config), "kept\n");
}

#[test]
fn single_root_is_not_wrapped() {
    let parsed = safe_parse_html("<div>hi</div>".to_string()).unwrap();
    assert_eq!(parsed.tag_name, Some(NodeType::Div));
    let wrapped = safe_parse_html("<h1>a</h1><h2>b</h2>".to_string()).unwrap();
    assert_eq!(wrapped.tag_name, None);
    assert_eq!(wrapped.children.len(), 2);
    assert_eq!(wrapped.children[0].tag_name, Some(NodeType::H1));
    assert_eq!(wrapped.children[1].tag_name, Some(NodeType::H2));
}

#[test]
fn config_propagates_through_the_safe_entry_point() {
    let input = "<h1>keep</h1><blockquote><p>drop</p></blockquote>".to_string();
    let config = ToMdConfig {
        ignore_rendering: vec![NodeType::Blockquote],
    };
    assert_eq!(
        safe_from_html_to_md_with_config(input, &config).unwrap(),
        "# keep\n"
    );
}

#[test]
fn rendered_unknown_tags_reparse_to_the_same_tree() {
    let source = "<unknown>hello</unknown>".to_string();
    let first = safe_parse_html(source.clone()).unwrap();
    let rendered = to_md(first.clone());
    assert_eq!(rendered, source);
    let second = safe_parse_html(rendered).unwrap();
    assert_eq!(second, first);
}
