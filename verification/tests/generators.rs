use ferrum_core::ast::FerrumNode;
use ferrum_core::html::{
    generate_body_html_from_nodes, generate_error_page, generate_html_from_nodes, node_to_html,
};
use ferrum_core::parser::FerrumParser;

fn parse(input: &str) -> Vec<FerrumNode> {
    let mut parser = FerrumParser::new();
    parser.parse(input).unwrap()
}

#[test]
fn html_of_nested_elements() {
    let nodes = parse(
        "div#app.container\n    h1.title \"Hello World\"\n    p.text-gray-600 \"Welcome\"\n",
    );
    let html = generate_html_from_nodes(&nodes, "body{}");
    assert!(html.contains("<div id='app' class='container'>"));
    assert!(html.contains("<h1 class='title'>Hello World</h1>"));
    assert!(html.contains("<p class='text-gray-600'>Welcome</p>"));
    assert_eq!(
        generate_body_html_from_nodes(&nodes),
        "<div id='app' class='container'><h1 class='title'>Hello World</h1><p class='text-gray-600'>Welcome</p></div>"
    );
}

#[test]
fn document_shell() {
    let html = generate_html_from_nodes(&parse("count\n"), "p{margin:0}");
    assert_eq!(
        html,
        "<!DOCTYPE html><html lang='en'><head><meta charset='UTF-8'><meta name='viewport' content='width=device-width, initial-scale=1.0'><title>Ferrum App - Pure Rust</title><style>p{margin:0}</style></head><body><div id='ferrum-app'></div></body></html>"
    );
    assert!(generate_html_from_nodes(&vec![], "").starts_with("<!DOCTYPE html>"));
}

#[test]
fn component_becomes_a_div_with_data_attributes() {
    let nodes = parse("Button(onclick: go, label: Hi)\n  \"Click\"\n  count\n  import { a } from \"b\"\n");
    assert_eq!(
        node_to_html(&nodes[0]),
        "<div data-component='Button' data-onclick='go' data-label='Hi'>Click</div>"
    );
}

#[test]
fn text_is_not_escaped() {
    assert_eq!(node_to_html(&FerrumNode::Text("<b>&</b>".to_string())), "<b>&</b>");
    assert_eq!(node_to_html(&parse("br.x.y\n")[0]), "<br class='x y'></br>");
}

#[test]
fn error_page_holds_the_message() {
    let page = generate_error_page("Failed to compile main.frr: boom");
    assert!(page.starts_with("\n<!DOCTYPE html>\n<html lang='en'>\n<head>"));
    assert!(page.contains("<h1 class='error-title'>\u{26a0}\u{fe0f} Ferrum Compilation Error</h1>"));
    assert!(page.contains("<p class='error-message'>Failed to compile main.frr: boom</p>"));
    assert!(page.ends_with("</body>\n</html>\n    "));
}

#[test]
fn view_code_of_a_forest() {
    let parser = FerrumParser::new();
    let nodes = parse("div#app.c\n  \"Hello\"\n  br#x\ncount\nuser.name\nimport { a } from \"b\"\nCard(title: t)\n");
    assert_eq!(
        parser.generate_rust(&nodes),
        "use leptos::*;\n\nview! {\n    <div id=\"app\" class=\"c\" >\n        \"Hello\"\n        view! {\n    <br id=\"x\" />\n}\n    </div>\n}\nread(count)\nread(user.name)\n\nview! {\n    <Card title=t />\n}\n"
    );
    assert_eq!(parser.node_to_rust(&FerrumNode::Text("t".to_string())), "\"t\"");
    assert_eq!(parser.child_to_rust(&nodes[1]), "read(count)");
}
