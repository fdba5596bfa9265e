use ferrum_core::ast::{BinaryOperator, Expression, FerrumNode};
use ferrum_core::error::{FormatError, SyntaxKind};
use ferrum_core::formatter::FerrumFormatter;
use ferrum_core::parser::FerrumParser;
use ferrum_core::props::Props;

#[test]
fn test_format_simple_element() {
    let input = r#"
div#app.container
    h1.title "Hello World"
    p.text-gray-600 "Welcome to Ferrum"
"#;

    let formatter = FerrumFormatter::default();
    let formatted = formatter.format(input).unwrap();

    assert!(formatted.contains("div#app.container"));
    assert!(formatted.contains("h1.title"));
    assert!(formatted.contains("p.text-gray-600"));
}

#[test]
fn test_format_preserves_structure() {
    let input = r#"
div
    h1 "Title"
        p "Text"
"#;

    let formatter = FerrumFormatter::default();
    let formatted = formatter.format(input).unwrap();

    let lines: Vec<&str> = formatted.lines().collect();
    assert!(lines[0].trim().starts_with("div"));
    assert!(lines[1].trim().starts_with("h1"));
    assert!(lines[2].trim().starts_with("Title"));
    assert!(lines[3].trim().starts_with("p"));
    assert_eq!(formatted, "div\nh1\n    Title\n    p\n        Text\n");
}

#[test]
fn canonical_text_exactly() {
    let formatter = FerrumFormatter::default();
    let formatted = formatter
        .format("div#app.container\n  h1.title \"Hello World\"\n  p.text-gray-600   \"Welcome\"\n")
        .unwrap();
    assert_eq!(
        formatted,
        "div#app.container\n    h1.title\n        \"Hello World\"\n    p.text-gray-600\n        Welcome\n"
    );
}

#[test]
fn every_kind_is_written() {
    let source = "import { a,b } from \"m\"\nCard( title : x ,n:1)\n  \"two words\"\n  \"-\"\n  count\n  user.name\n  a#i.c1.c2 href=\"/\" \"go\"\n    br#x\n";
    let formatter = FerrumFormatter::new(2, ' ');
    assert_eq!(
        formatter.format(source).unwrap(),
        "import { a, b } from \"m\"\nCard(title: x, n: 1)\n  \"two words\"\n  -\n  count\n  user.name\n  a#i.c1.c2 href=\"/\"\n    go\n    br#x\n"
    );
}

#[test]
fn indentation_is_depth_times_width() {
    let source = "A()\n B()\n  C()\n";
    assert_eq!(FerrumFormatter::new(3, '\t').format(source).unwrap(), "A()\n\t\t\tB()\n\t\t\t\t\t\tC()\n");
    assert_eq!(FerrumFormatter::new(0, ' ').format(source).unwrap(), "A()\nB()\nC()\n");
    assert_eq!(FerrumFormatter::new(1, '.').indent_string(3), "...");
    assert_eq!(FerrumFormatter::default().indent_string(2), "        ");
    assert_eq!(FerrumFormatter::default().indent_string(0), "");
}

#[test]
fn formatting_twice_changes_nothing() {
    let sources = [
        "div#app.container\n    h1#title \"Hello World\"\n    p.text-gray-600 \"Welcome\"\n",
        "Button(onclick: set_count(-1))\n    \"-\"\n",
        "import { create_signal } from \"ferrum:state\"\ncount\ncount.value\n",
        "App()\n  div.flex.flex-col\n    h1.big.bold \"Welcome to X\"\n    Button(onclick: go( 1 ) , label: \"Hi\")\n      \"Click count: {count}\"\n",
        "ul.list.wide\n\tli.item-one \"one\"\n\tli.item-two \"two\"\n\t\tem#x \"deep\"\n",
        "<section id=\"main\" class=\"wide\">\n  <img src=\"a.png\">\n  \"caption text\"\n",
        "<div>\n<->\ncount\n",
    ];
    for formatter in [
        FerrumFormatter::default(),
        FerrumFormatter::new(2, ' '),
        FerrumFormatter::new(1, '\t'),
        FerrumFormatter::new(0, 'x'),
    ] {
        for source in sources {
            let once = formatter.format(source).unwrap();
            let twice = formatter.format(&once).unwrap();
            assert_eq!(once, twice);
        }
    }
}

#[test]
fn formatting_keeps_the_forest() {
    let sources = [
        "div#app.container\n    h1#title \"Hello World\"\n    p.text-gray-600 \"Welcome to Ferrum\"\n",
        "Button(onclick: set_count(-1))\n    \"-\"\n",
        "import { create_signal } from \"ferrum:state\"\ncount\ncount.value\n",
        "nav#top.bar role=\"navigation\"\n  a.link href=\"/\" \"Go home\"\n  input.field type=\"text\"\n",
    ];
    let formatter = FerrumFormatter::default();
    for source in sources {
        let mut parser = FerrumParser::new();
        let before = parser.parse(source).unwrap();
        let after = parser.parse(&formatter.format(source).unwrap()).unwrap();
        assert_eq!(before, after);
    }
}

#[test]
fn format_reports_the_syntax_error() {
    let formatter = FerrumFormatter::default();
    let err = formatter.format("ok\nCall(x: 1\n").unwrap_err();
    match &err {
        FormatError::Syntax(e) => {
            assert_eq!(e.kind, SyntaxKind::UnterminatedCall);
            assert_eq!(e.line, "Call(x: 1");
        }
    }
    assert_eq!(err.message(), "Unterminated component call: Call(x: 1");
    let err = formatter.format("<a\n").unwrap_err();
    assert_eq!(err.message(), "Invalid HTML element syntax: <a");
}

#[test]
fn format_node_appends_at_depth() {
    let mut parser = FerrumParser::new();
    let nodes = parser.parse("Card()\n  \"a b\"\n").unwrap();
    let formatter = FerrumFormatter::new(2, ' ');
    let mut out = String::from("x\n");
    formatter.format_node(&nodes[0], 1, &mut out);
    assert_eq!(out, "x\n  Card()\n    \"a b\"\n");
    assert_eq!(formatter.format_forest(&nodes), "Card()\n  \"a b\"\n");
}

#[test]
fn text_is_quoted_only_with_a_space() {
    let formatter = FerrumFormatter::default();
    let mut out = String::new();
    formatter.format_node(&FerrumNode::Text("one".to_string()), 0, &mut out);
    formatter.format_node(&FerrumNode::Text("one two".to_string()), 0, &mut out);
    assert_eq!(out, "one\n\"one two\"\n");
}

#[test]
fn expressions_are_written_conventionally() {
    let formatter = FerrumFormatter::default();
    let sum = Expression::BinaryOperation {
        left: Box::new(Expression::SignalAccess("count".to_string())),
        operator: BinaryOperator::Add,
        right: Box::new(Expression::Number("1".to_string())),
    };
    assert_eq!(formatter.expression_to_string(&sum), "count + 1");
    let call = Expression::FunctionCall {
        function: "set_count".to_string(),
        args: vec![
            sum,
            Expression::StringLiteral("hi".to_string()),
            Expression::PropertyAccess { signal: "user".to_string(), property: "name".to_string() },
        ],
    };
    assert_eq!(formatter.expression_to_string(&call), "set_count(count + 1, \"hi\", user.name)");
    let mut out = String::from(">");
    formatter.format_expression(&call, "  ", &mut out);
    assert_eq!(out, ">  set_count(count + 1, \"hi\", user.name)\n");
    let empty = Expression::FunctionCall { function: "now".to_string(), args: vec![] };
    assert_eq!(formatter.expression_to_string(&empty), "now()");
}

#[test]
fn every_operator_has_its_sign() {
    let formatter = FerrumFormatter::default();
    let cases = [
        (BinaryOperator::Add, "a + b"),
        (BinaryOperator::Subtract, "a - b"),
        (BinaryOperator::Multiply, "a * b"),
        (BinaryOperator::Divide, "a / b"),
        (BinaryOperator::Equals, "a == b"),
        (BinaryOperator::NotEquals, "a != b"),
        (BinaryOperator::GreaterThan, "a > b"),
        (BinaryOperator::LessThan, "a < b"),
        (BinaryOperator::And, "a && b"),
        (BinaryOperator::Or, "a || b"),
    ];
    for (operator, expected) in cases {
        let e = Expression::BinaryOperation {
            left: Box::new(Expression::SignalAccess("a".to_string())),
            operator,
            right: Box::new(Expression::SignalAccess("b".to_string())),
        };
        assert_eq!(formatter.expression_to_string(&e), expected);
    }
}

#[test]
fn element_with_nothing_but_a_tag_reads_back_as_a_binding() {
    let formatter = FerrumFormatter::default();
    let once = formatter.format("<div>\n  <p>\n").unwrap();
    assert_eq!(once, "div\n    p\n");
    let twice = formatter.format(&once).unwrap();
    assert_eq!(twice, "div\np\n");
    assert_eq!(formatter.format(&twice).unwrap(), twice);
}

#[test]
fn quoted_word_is_written_bare() {
    let formatter = FerrumFormatter::default();
    let once = formatter.format("Card()\n  \"Title\"\n  \"two words\"\n").unwrap();
    assert_eq!(once, "Card()\n    Title\n    \"two words\"\n");
    assert_eq!(formatter.format(&once).unwrap(), once);
    let mut parser = FerrumParser::new();
    let again = parser.parse(&once).unwrap();
    match &again[0] {
        FerrumNode::Component { children, .. } => {
            assert_eq!(
                children[0],
                FerrumNode::StateBinding { signal: "Title".to_string(), operation: String::new() }
            );
            assert_eq!(children[1], FerrumNode::Text("two words".to_string()));
        }
        _ => panic!("Expected component node"),
    }
}

#[test]
fn children_of_an_element_follow_one_level_deeper() {
    let mut parser = FerrumParser::new();
    let nodes = parser.parse("<div id=\"app\" class=\"a b\">\n  \"Hello World\"\n").unwrap();
    let nodes = match &nodes[0] {
        FerrumNode::Element { tag, children, .. } => {
            assert_eq!(tag, "div");
            assert_eq!(children, &vec![FerrumNode::Text("Hello World".to_string())]);
            nodes
        }
        _ => panic!("Expected element node"),
    };
    let mut out = String::new();
    FerrumFormatter::new(4, ' ').format_node(&nodes[0], 1, &mut out);
    assert_eq!(out, "    div#app\n        \"Hello World\"\n");
    let nodes = parser.parse("div#app.a.b \"Hello World\"\n").unwrap();
    let mut out = String::new();
    FerrumFormatter::new(4, ' ').format_node(&nodes[0], 1, &mut out);
    assert_eq!(out, "    div#app.a.b\n        \"Hello World\"\n");
}

#[test]
fn element_that_reads_as_a_member_loses_its_children() {
    let formatter = FerrumFormatter::default();
    let once = formatter.format("h1.title \"Hello World\"\n").unwrap();
    assert_eq!(once, "h1.title\n    \"Hello World\"\n");
    let twice = formatter.format(&once).unwrap();
    assert_eq!(twice, "h1.title\n\"Hello World\"\n");
    assert_eq!(FerrumFormatter::new(0, ' ').format(&once).unwrap(), twice);
}

#[test]
fn flat_source_comes_back_whatever_the_style() {
    let mut parser = FerrumParser::new();
    for formatter in [FerrumFormatter::new(0, ' '), FerrumFormatter::new(3, 'x')] {
        for source in ["div#a\n", "div#a(b\n\"two words\"\nCard(x: 1)\n"] {
            let before = parser.parse(source).unwrap();
            let formatted = formatter.format(source).unwrap();
            assert_eq!(parser.parse(&formatted).unwrap(), before);
            assert_eq!(formatter.format(&formatted).unwrap(), formatted);
        }
    }
}

#[test]
fn fill_that_is_no_white_space_is_read_as_content() {
    let formatter = FerrumFormatter::new(2, '-');
    let once = formatter.format("App()\n  Card()\n    Title\n").unwrap();
    assert_eq!(once, "App()\n--Card()\n----Title\n");
    assert_eq!(formatter.format(&once).unwrap(), once);
    let mut parser = FerrumParser::new();
    assert_eq!(
        parser.parse(&once).unwrap(),
        vec![
            FerrumNode::Component { name: "App".to_string(), props: Props::new(), children: vec![] },
            FerrumNode::Element { tag: "--Card()".to_string(), props: Props::new(), children: vec![] },
            FerrumNode::Text("----Title".to_string()),
        ]
    );
    let slashes = FerrumFormatter::new(2, '/');
    let once = slashes.format("App()\n  Card()\n").unwrap();
    assert_eq!(once, "App()\n//Card()\n");
    assert_eq!(slashes.format(&once).unwrap(), "App()\n");
}
