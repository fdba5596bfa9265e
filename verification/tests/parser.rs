use ferrum_core::ast::FerrumNode;
use ferrum_core::error::SyntaxKind;
use ferrum_core::parser::FerrumParser;

fn parse(input: &str) -> Vec<FerrumNode> {
    let mut parser = FerrumParser::new();
    parser.parse(input).unwrap()
}

fn element_parts(node: &FerrumNode) -> (String, Option<String>, Option<String>, usize) {
    match node {
        FerrumNode::Element { tag, props, children } => (
            tag.clone(),
            props.get("id").cloned(),
            props.get("class").cloned(),
            children.len(),
        ),
        _ => panic!("Expected element node"),
    }
}

#[test]
fn parser_test_simple_component() {
    let input = r#"
Button(onclick: set_count(-1))
    "-"
"#;

    let mut parser = FerrumParser::new();
    let nodes = parser.parse(input).unwrap();
    assert_eq!(nodes.len(), 1);

    match &nodes[0] {
        FerrumNode::Component { name, props, .. } => {
            assert_eq!(name, "Button");
            assert_eq!(props.get("onclick"), Some(&"set_count(-1)".to_string()));
        }
        _ => panic!("Expected component node"),
    }
}

#[test]
fn test_html_syntax() {
    let input = r#"
div#app.container
    h1 "Hello World"
    p.text-gray-600 "Welcome to Ferrum"
"#;

    let mut parser = FerrumParser::new();
    let nodes = parser.parse(input).unwrap();
    assert_eq!(nodes.len(), 1);
}

#[test]
fn parser_clean_test_simple_component() {
    let input = r#"
Button(onclick: set_count(-1))
    "-"
"#;

    let mut parser = FerrumParser::new();
    let nodes = parser.parse(input).unwrap();
    assert_eq!(nodes.len(), 1);

    match &nodes[0] {
        FerrumNode::Component { name, props, .. } => {
            assert_eq!(name, "Button");
            assert_eq!(props.get("onclick"), Some(&"set_count(-1)".to_string()));
        }
        _ => panic!("Expected component node"),
    }
}

#[test]
fn test_state_binding_with_operation() {
    let input = r#"
count.value
"#;

    let mut parser = FerrumParser::new();
    let nodes = parser.parse(input).unwrap();
    assert_eq!(nodes.len(), 1);

    match &nodes[0] {
        FerrumNode::StateBinding { signal, operation } => {
            assert_eq!(signal, "count");
            assert_eq!(operation, "value");
        }
        _ => panic!("Expected StateBinding node"),
    }
}

#[test]
fn test_state_binding_signal_access() {
    let input = r#"
count
"#;

    let mut parser = FerrumParser::new();
    let nodes = parser.parse(input).unwrap();
    assert_eq!(nodes.len(), 1);

    match &nodes[0] {
        FerrumNode::StateBinding { signal, operation } => {
            assert_eq!(signal, "count");
            assert_eq!(operation, "");
        }
        _ => panic!("Expected StateBinding node"),
    }
}

#[test]
fn test_import_parsing() {
    let input = r#"
import { create_signal } from "ferrum:state"
"#;

    let mut parser = FerrumParser::new();
    let nodes = parser.parse(input).unwrap();
    assert_eq!(nodes.len(), 1);

    match &nodes[0] {
        FerrumNode::Import { names, from } => {
            assert_eq!(names, &["create_signal"]);
            assert_eq!(from, "ferrum:state");
        }
        _ => panic!("Expected Import node"),
    }
}

#[test]
fn component_keeps_its_text_child() {
    let nodes = parse("Button(onclick: set_count(-1))\n    \"-\"\n");
    assert_eq!(nodes.len(), 1);
    match &nodes[0] {
        FerrumNode::Component { name, props, children } => {
            assert_eq!(name, "Button");
            assert_eq!(props.len(), 1);
            assert_eq!(props.key_at(0), "onclick");
            assert_eq!(props.value_at(0), "set_count(-1)");
            assert_eq!(children, &vec![FerrumNode::Text("-".to_string())]);
        }
        _ => panic!("Expected component node"),
    }
}

#[test]
fn nested_elements_with_trailing_text() {
    let nodes = parse(
        "div#app.container\n    h1.title \"Hello World\"\n    p.text-gray-600 \"Welcome\"\n",
    );
    assert_eq!(nodes.len(), 1);
    match &nodes[0] {
        FerrumNode::Element { tag, props, children } => {
            assert_eq!(tag, "div");
            assert_eq!(props.len(), 2);
            assert_eq!(props.get("id"), Some(&"app".to_string()));
            assert_eq!(props.get("class"), Some(&"container".to_string()));
            assert_eq!(props.key_at(0), "id");
            assert_eq!(props.key_at(1), "class");
            assert_eq!(children.len(), 2);
            match &children[0] {
                FerrumNode::Element { tag, props, children } => {
                    assert_eq!(tag, "h1");
                    assert_eq!(props.get("class"), Some(&"title".to_string()));
                    assert_eq!(props.len(), 1);
                    assert_eq!(children, &vec![FerrumNode::Text("Hello World".to_string())]);
                }
                _ => panic!("Expected element node"),
            }
            match &children[1] {
                FerrumNode::Element { tag, props, children } => {
                    assert_eq!(tag, "p");
                    assert_eq!(props.get("class"), Some(&"text-gray-600".to_string()));
                    assert_eq!(children, &vec![FerrumNode::Text("Welcome".to_string())]);
                }
                _ => panic!("Expected element node"),
            }
        }
        _ => panic!("Expected element node"),
    }
}

#[test]
fn shorthand_and_explicit_attributes_agree() {
    let short = parse("div#app.container\n");
    let explicit = parse("div id=\"app\" class=\"container\"\n");
    assert_eq!(
        element_parts(&short[0]),
        ("div".to_string(), Some("app".to_string()), Some("container".to_string()), 0)
    );
    assert_eq!(element_parts(&short[0]), element_parts(&explicit[0]));
    assert_eq!(short, explicit);
}

#[test]
fn several_classes_become_one_value() {
    let nodes = parse("div.flex.flex-col .items-center role=\"main\"\n");
    match &nodes[0] {
        FerrumNode::Element { tag, props, .. } => {
            assert_eq!(tag, "div");
            assert_eq!(props.get("class"), Some(&"flex flex-col items-center".to_string()));
            assert_eq!(props.get("role"), Some(&"main".to_string()));
            assert_eq!(props.key_at(0), "role");
            assert_eq!(props.key_at(1), "class");
        }
        _ => panic!("Expected element node"),
    }
}

#[test]
fn later_attribute_wins() {
    let nodes = parse("a href=\"/one\" href=\"/two\" id=\"x\" id=\"y\"\n");
    match &nodes[0] {
        FerrumNode::Element { props, .. } => {
            assert_eq!(props.len(), 2);
            assert_eq!(props.get("href"), Some(&"/two".to_string()));
            assert_eq!(props.get("id"), Some(&"y".to_string()));
            assert_eq!(props.key_at(0), "id");
        }
        _ => panic!("Expected element node"),
    }
}

#[test]
fn dotted_classes_override_the_class_attribute() {
    let nodes = parse("p.lead class=\"small\" x=\"1\"\n");
    match &nodes[0] {
        FerrumNode::Element { props, .. } => {
            assert_eq!(props.get("class"), Some(&"lead".to_string()));
        }
        _ => panic!("Expected element node"),
    }
}

#[test]
fn malformed_pairs_are_dropped() {
    let nodes = parse("input type=\"text\" disabled value=unquoted name=\"n\n");
    match &nodes[0] {
        FerrumNode::Element { tag, props, .. } => {
            assert_eq!(tag, "input");
            assert_eq!(props.len(), 1);
            assert_eq!(props.get("type"), Some(&"text".to_string()));
        }
        _ => panic!("Expected element node"),
    }
}

#[test]
fn void_elements_never_get_children() {
    for tag in ["input", "img", "br", "hr", "meta", "link"] {
        let source = format!("form.f x=\"1\"\n  {} a=\"b\"\n    span.inner x=\"1\"\n    \"text\"\n", tag);
        let nodes = parse(&source);
        assert_eq!(nodes.len(), 1);
        match &nodes[0] {
            FerrumNode::Element { children, .. } => {
                assert_eq!(children.len(), 3);
                match &children[0] {
                    FerrumNode::Element { tag: t, children, .. } => {
                        assert_eq!(t, tag);
                        assert!(children.is_empty());
                    }
                    _ => panic!("Expected element node"),
                }
            }
            _ => panic!("Expected element node"),
        }
    }
}

#[test]
fn void_element_drops_trailing_text() {
    let nodes = parse("input \"ignored\"\n");
    assert_eq!(element_parts(&nodes[0]), ("input".to_string(), None, None, 0));
}

#[test]
fn children_follow_actual_indentation() {
    let nodes = parse("ul.a x=\"1\"\n   li.b x=\"1\"\n      em.c x=\"1\"\n   li.d x=\"1\"\nol.e x=\"1\"\n");
    assert_eq!(nodes.len(), 2);
    match &nodes[0] {
        FerrumNode::Element { children, .. } => {
            assert_eq!(children.len(), 2);
            assert_eq!(element_parts(&children[0]).3, 1);
            assert_eq!(element_parts(&children[1]).3, 0);
        }
        _ => panic!("Expected element node"),
    }
}

#[test]
fn lines_under_a_leaf_belong_to_the_node_around_it() {
    let nodes = parse("Card()\n  count\n      \"deep\"\n  \"flat\"\n");
    match &nodes[0] {
        FerrumNode::Component { children, .. } => {
            assert_eq!(children.len(), 3);
            assert_eq!(children[1], FerrumNode::Text("deep".to_string()));
            assert_eq!(children[2], FerrumNode::Text("flat".to_string()));
        }
        _ => panic!("Expected component node"),
    }
}

#[test]
fn blank_lines_and_comments_do_not_count() {
    let nodes = parse("\n// a comment\n   \n\t// indented comment\ncount\n\n");
    assert_eq!(
        nodes,
        vec![FerrumNode::StateBinding { signal: "count".to_string(), operation: String::new() }]
    );
    assert_eq!(parse(""), vec![]);
    assert_eq!(parse("\n\n"), vec![]);
}

#[test]
fn carriage_returns_are_white_space() {
    let nodes = parse("Box()\r\n  \"a b\"\r\n");
    match &nodes[0] {
        FerrumNode::Component { children, .. } => {
            assert_eq!(children, &vec![FerrumNode::Text("a b".to_string())]);
        }
        _ => panic!("Expected component node"),
    }
}

#[test]
fn bare_text_that_is_no_identifier() {
    assert_eq!(parse("-\n"), vec![FerrumNode::Text("-".to_string())]);
    assert_eq!(parse("42\n"), vec![FerrumNode::Text("42".to_string())]);
    assert_eq!(parse("{children}\n"), vec![FerrumNode::Text("{children}".to_string())]);
}

#[test]
fn quoted_line_is_text_whatever_it_holds() {
    assert_eq!(parse("\"a < b (c)\"\n"), vec![FerrumNode::Text("a < b (c)".to_string())]);
    assert_eq!(parse("\"\"\n"), vec![FerrumNode::Text(String::new())]);
}

#[test]
fn component_arguments() {
    let nodes = parse("Button( onclick : null , variant: \"primary\", flag, a:b:c )\n");
    match &nodes[0] {
        FerrumNode::Component { name, props, children } => {
            assert_eq!(name, "Button");
            assert_eq!(props.len(), 3);
            assert_eq!(props.get("onclick"), Some(&"null".to_string()));
            assert_eq!(props.get("variant"), Some(&"\"primary\"".to_string()));
            assert_eq!(props.get("a"), Some(&"b:c".to_string()));
            assert!(children.is_empty());
        }
        _ => panic!("Expected component node"),
    }
    let nodes = parse("App()\n");
    match &nodes[0] {
        FerrumNode::Component { name, props, .. } => {
            assert_eq!(name, "App");
            assert!(props.is_empty());
        }
        _ => panic!("Expected component node"),
    }
}

#[test]
fn bracketed_element() {
    let nodes = parse("<a href=\"/home\" class=\"nav\" broken=x>\n  \"Home\"\n");
    match &nodes[0] {
        FerrumNode::Element { tag, props, children } => {
            assert_eq!(tag, "a");
            assert_eq!(props.len(), 2);
            assert_eq!(props.get("href"), Some(&"/home".to_string()));
            assert_eq!(props.get("class"), Some(&"nav".to_string()));
            assert_eq!(children, &vec![FerrumNode::Text("Home".to_string())]);
        }
        _ => panic!("Expected element node"),
    }
}

#[test]
fn unterminated_call_is_a_syntax_error() {
    let mut parser = FerrumParser::new();
    let err = parser.parse("div.a x=\"1\"\n  Button(onclick: go\ncount\n").unwrap_err();
    assert_eq!(err.kind, SyntaxKind::UnterminatedCall);
    assert_eq!(err.line, "Button(onclick: go");
    assert_eq!(err.message(), "Unterminated component call: Button(onclick: go");
}

#[test]
fn missing_bracket_is_a_syntax_error() {
    let mut parser = FerrumParser::new();
    let err = parser.parse("count\n   <div class=\"x\"\n").unwrap_err();
    assert_eq!(err.kind, SyntaxKind::MalformedElement);
    assert_eq!(err.line, "<div class=\"x\"");
    assert_eq!(err.message(), "Invalid HTML element syntax: <div class=\"x\"");
    let err = parser.parse("a > b < c\n").unwrap_err();
    assert_eq!(err.kind, SyntaxKind::MalformedElement);
}

#[test]
fn first_malformed_line_is_reported() {
    let mut parser = FerrumParser::new();
    let err = parser.parse("<p\nButton(x\n").unwrap_err();
    assert_eq!(err.kind, SyntaxKind::MalformedElement);
    assert_eq!(err.line, "<p");
}

#[test]
fn parse_line_by_itself() {
    let parser = FerrumParser::new();
    assert_eq!(
        parser.parse_line("count.value").unwrap(),
        FerrumNode::StateBinding { signal: "count".to_string(), operation: "value".to_string() }
    );
    assert_eq!(parser.parse_line("\"x\"").unwrap(), FerrumNode::Text("x".to_string()));
    assert!(parser.parse_line("Call(").is_err());
    let props = parser.parse_props("a: 1, b: 2");
    assert_eq!(props.get("b"), Some(&"2".to_string()));
    assert!(parser.parse_html_element("no bracket").is_err());
    assert_eq!(
        element_parts(&parser.parse_tag_shorthand("li#one.two")),
        ("li".to_string(), Some("one".to_string()), Some("two".to_string()), 0)
    );
    assert!(parser.has_children(&parser.parse_tag_shorthand("div")));
    assert!(!parser.has_children(&parser.parse_tag_shorthand("br")));
    assert!(!parser.has_children(&FerrumNode::Text("t".to_string())));
}

#[test]
fn import_with_several_names() {
    let nodes = parse("import { a, b ,c } from \"ferrum:css\"\n");
    assert_eq!(
        nodes,
        vec![FerrumNode::Import {
            names: vec!["a".to_string(), "b".to_string(), "c".to_string()],
            from: "ferrum:css".to_string(),
        }]
    );
}

#[test]
fn clone_is_equal() {
    let nodes = parse("div#a.b k=\"v\" \"t\"\n  Comp(x: 1)\n    import { n } from \"m\"\n    s.m\n");
    let copy: Vec<FerrumNode> = nodes.iter().map(|n| n.clone()).collect();
    assert_eq!(nodes, copy);
}
