use ferrum_core::ast::FerrumNode;
use ferrum_core::formatter::FerrumFormatter;
use ferrum_core::parser::FerrumParser;
use ferrum_core::props::Props;

const TOKENS: [&str; 24] = [
    "a", "b", " ", "\n", "\"", ".", "(", ")", "<", ">", "//", "#", "=", ":", ",", "\t", "-",
    "import", "{", "}", "from", "br", "  ", "1",
];

const LINES: [&str; 64] = [
    "div",
    "div#a",
    "div.b",
    "h1.title",
    "p.a.b",
    "br",
    "br#x",
    "img.c",
    "<div>",
    "<->",
    "<p id=\"x\">",
    "<br>",
    "Card()",
    "Card(a: 1)",
    "Card(a)",
    "Card(a: b, c: d)",
    "\"two words\"",
    "\"word\"",
    "\"\"",
    "\"//x\"",
    "\"<p>\"",
    "count",
    "count.value",
    "a.b.c",
    "div \"t x\"",
    "p.a \"w\"",
    "div#a(b",
    "import { a } from \"x\"",
    "import { a, b } from y",
    "-",
    "a-b",
    "x k=\"v\"",
    "x k=v",
    "div  .a",
    ".a",
    "#a",
    "\"a",
    "a\"",
    "\"a\" \"b\"",
    "a \"b\" c \"d\"",
    "\"\ta\"",
    "x\t\"y\"",
    "input type=\"text\" \"hi\"",
    "<a b c>",
    "< a>",
    "<>",
    "A(\"x y\")",
    "1",
    "_x",
    "div.",
    "div#",
    "div..a",
    "import",
    "importx",
    "//c",
    "",
    "\"a\tb\"",
    "\" a\"",
    "ul#l.m n=\"o\"",
    "<ul class=\"m\" id=\"l\">",
    "A(b: \"c, d\")",
    "\"import\"",
    "\"a(b)\"",
    "div.a#b",
];

const MARGINS: [&str; 8] = ["", "", " ", "  ", "    ", "\t", "      ", "   "];

const STYLES: [(usize, char); 10] = [
    (4, ' '),
    (0, ' '),
    (2, '-'),
    (1, '\t'),
    (1, '\n'),
    (1, '/'),
    (1, '"'),
    (2, 'a'),
    (1, '\r'),
    (2, '\u{3000}'),
];

fn children_of(n: &FerrumNode) -> &[FerrumNode] {
    match n.children() {
        Some(c) => c,
        None => &[],
    }
}

fn head_text(n: &FerrumNode) -> String {
    let mut out = String::new();
    FerrumFormatter::new(0, ' ').format_node(n, 0, &mut out);
    out.split('\n').next().unwrap().to_string()
}

fn is_content(t: &str) -> bool {
    match (t.chars().next(), t.chars().last()) {
        (Some(a), Some(b)) => {
            !a.is_whitespace() && !b.is_whitespace() && !t.contains('\n') && !t.starts_with("//")
        }
        _ => false,
    }
}

fn parse_line(t: &str) -> Option<FerrumNode> {
    match FerrumParser::new().parse(t) {
        Ok(mut nodes) if nodes.len() == 1 => nodes.pop(),
        _ => None,
    }
}

fn line_reads(t: &str) -> bool {
    is_content(t)
        && match parse_line(t) {
            Some(p) => head_text(&p) == t && children_of(&p).is_empty(),
            None => false,
        }
}

fn reads_back(n: &FerrumNode) -> bool {
    let h = head_text(n);
    line_reads(&h) && (children_of(n).is_empty() || parse_line(&h).unwrap().can_have_children())
}

fn all_lines_read(f: &[FerrumNode]) -> bool {
    f.iter().all(|n| line_reads(&head_text(n)) && all_lines_read(children_of(n)))
}

fn all_read_back(f: &[FerrumNode]) -> bool {
    f.iter().all(|n| reads_back(n) && all_read_back(children_of(n)))
}

fn is_flat(f: &[FerrumNode]) -> bool {
    f.iter().all(|n| children_of(n).is_empty())
}

fn are_read_alone(f: &[FerrumNode], depth: usize, width: usize, fill: char) -> bool {
    f.iter().all(|n| {
        let mut written: String = std::iter::repeat(fill).take(depth * width).collect();
        written.push_str(&head_text(n));
        line_reads(&written) && are_read_alone(children_of(n), depth + 1, width, fill)
    })
}

fn reads_as_written(f: &[FerrumNode], width: usize, fill: char) -> bool {
    (all_lines_read(f) && (is_flat(f) || width == 0))
        || (fill.is_whitespace() && fill != '\n' && all_read_back(f))
        || are_read_alone(f, 0, width, fill)
}

fn own_line(n: &FerrumNode) -> FerrumNode {
    match n {
        FerrumNode::Element { tag, props, .. } => {
            FerrumNode::Element { tag: tag.clone(), props: props.clone(), children: vec![] }
        }
        FerrumNode::Component { name, props, .. } => {
            FerrumNode::Component { name: name.clone(), props: props.clone(), children: vec![] }
        }
        _ => n.clone(),
    }
}

fn reads_back_as_itself(n: &FerrumNode) -> bool {
    let h = head_text(n);
    is_content(&h)
        && FerrumParser::new().parse(&h) == Ok(vec![own_line(n)])
        && (children_of(n).is_empty() || n.can_have_children())
}

fn all_read_back_as_themselves(f: &[FerrumNode]) -> bool {
    f.iter().all(|n| reads_back_as_itself(n) && all_read_back_as_themselves(children_of(n)))
}

fn comes_back(f: &[FerrumNode], width: usize, fill: char) -> bool {
    all_read_back_as_themselves(f)
        && (is_flat(f) || (fill.is_whitespace() && fill != '\n' && width > 0))
}

fn same_entries(a: &Props, b: &Props) -> bool {
    a.len() == b.len() && (0..a.len()).all(|i| b.get(a.key_at(i)) == Some(a.value_at(i)))
}

fn alike(a: &FerrumNode, b: &FerrumNode) -> bool {
    match (a, b) {
        (
            FerrumNode::Element { tag: s, props: p, children: c },
            FerrumNode::Element { tag: t, props: q, children: d },
        ) => s == t && same_entries(p, q) && all_alike(c, d),
        (
            FerrumNode::Component { name: s, props: p, children: c },
            FerrumNode::Component { name: t, props: q, children: d },
        ) => s == t && same_entries(p, q) && all_alike(c, d),
        _ => a == b,
    }
}

fn all_alike(f: &[FerrumNode], g: &[FerrumNode]) -> bool {
    f.len() == g.len() && f.iter().zip(g.iter()).all(|(a, b)| alike(a, b))
}

fn next(state: &mut u64) -> usize {
    *state = state.wrapping_mul(6364136223846793005).wrapping_add(1442695040888963407);
    (*state >> 33) as usize
}

fn generated(state: &mut u64, longest: usize, by_lines: bool) -> String {
    let mut source = String::new();
    let len = 1 + next(state) % longest;
    for _ in 0..len {
        if by_lines {
            source.push_str(MARGINS[next(state) % MARGINS.len()]);
            source.push_str(LINES[next(state) % LINES.len()]);
            source.push('\n');
        } else {
            source.push_str(TOKENS[next(state) % TOKENS.len()]);
        }
    }
    source
}

/// Formats generated sources in every style and holds what formatting does against
/// the conditions under which the laws are stated. Returns how many forests stayed
/// as they were written and how many came back, of those with children.
fn hold_laws_against_formatting(
    seed: u64,
    rounds: usize,
    longest: usize,
    by_lines: bool,
) -> (usize, usize) {
    let mut state = seed;
    let mut stayed = 0;
    let mut came_back = 0;
    for _ in 0..rounds {
        let source = generated(&mut state, longest, by_lines);
        let forest = match FerrumParser::new().parse(&source) {
            Ok(f) => f,
            Err(_) => continue,
        };
        for (width, fill) in STYLES {
            let formatter = FerrumFormatter::new(width, fill);
            let once = formatter.format_forest(&forest);
            let again = FerrumParser::new().parse(&once);
            let twice = formatter.format(&once);
            let stable = twice == Ok(once.clone());
            let kept = again == Ok(forest.clone());
            let stays = reads_as_written(&forest, width, fill)
                || match &again {
                    Ok(g) => formatter.format_forest(g) == once && reads_as_written(g, width, fill),
                    Err(_) => false,
                };
            let comes = comes_back(&forest, width, fill);
            assert_eq!(stable, stays, "{:?} with {} of {:?}", source, width, fill);
            assert_eq!(kept, comes, "{:?} with {} of {:?}", source, width, fill);
            let shaped = match &again {
                Ok(g) => all_alike(g, &forest),
                Err(_) => false,
            };
            assert_eq!(shaped, kept, "shape of {:?} with {} of {:?}", source, width, fill);
            if !is_flat(&forest) {
                stayed += stable as usize;
                came_back += kept as usize;
            }
        }
    }
    (stayed, came_back)
}

#[test]
fn laws_are_exact_on_short_generated_texts() {
    hold_laws_against_formatting(1, 20000, 6, false);
}

#[test]
fn laws_are_exact_on_long_generated_texts() {
    hold_laws_against_formatting(2, 20000, 10, false);
}

#[test]
fn laws_are_exact_on_few_generated_lines() {
    let (stayed, came_back) = hold_laws_against_formatting(3, 20000, 4, true);
    assert!(stayed > 1000);
    assert!(came_back > 1000);
}

#[test]
fn laws_are_exact_on_many_generated_lines() {
    let (stayed, came_back) = hold_laws_against_formatting(4, 20000, 7, true);
    assert!(stayed > 1000);
    assert!(came_back > 1000);
}

#[test]
fn text_that_begins_with_a_tab_can_be_read_as_indented() {
    let formatter = FerrumFormatter::new(1, '\t');
    let source = "div#a\n\"\ta\"\n";
    let forest = FerrumParser::new().parse(source).unwrap();
    assert!(is_flat(&forest));
    assert!(!reads_as_written(&forest, 1, '\t'));
    let once = formatter.format(source).unwrap();
    assert_eq!(once, "div#a\n\ta\n");
    let again = FerrumParser::new().parse(&once).unwrap();
    assert!(!is_flat(&again));
    assert!(reads_as_written(&again, 1, '\t'));
    assert_eq!(formatter.format(&once).unwrap(), once);
}
