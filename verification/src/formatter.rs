//! The formatter: from a forest back to source text in canonical layout.
//!
//! The canonical text lists the nodes of the forest in document order, one
//! line each, every line indented by its depth times the width of one level.
//!
//! - An element is written as its tag, `#` and its id, `.` and each class,
//!   and then its other attributes as `key="value"`, in their order. Its
//!   children follow on lines of their own, one level deeper.
//! - Text is written between double quotes where it holds a space, and bare
//!   otherwise.
//! - A component is written as `Name(key: value, key: value)`.
//! - A state binding is written as `signal` or `signal.member`.
//! - An import is written as `import { a, b } from "source"`.

use crate::ast::{
    BinaryOperator, Expression, FerrumNode, forest_view, Node, strings_view,
};
use crate::error::{Failure, FormatError};
use crate::grammar::join;
use crate::parser::{parse_source, FerrumParser};
use crate::roundtrip::{
    comes_back, lemma_format_is_idempotent, lemma_format_keeps_forest, stays_as_written,
};
use crate::props::{lookup, Entries, Props};
use crate::text::{
    chars_of, copy_of, find_in, has_char, Pat, push_chars, put_char, put_str, rows, str_eq,
    string_of, words, words_vec,
};
use vstd::prelude::*;
use vstd::string::StringExecFns;

verus! {

/// How lines are indented: the number of fill characters per level, and the fill character.
pub struct Indent {
    pub width: nat,
    pub fill: char,
}

/// `n` times the character `c`.
pub open spec fn repeat(c: char, n: nat) -> Seq<char> {
    Seq::new(n, |i: int| c)
}

/// The indentation of a line at `depth`.
pub open spec fn indent_text(depth: nat, style: Indent) -> Seq<char> {
    repeat(style.fill, depth * style.width)
}

/// The first `n` of `ws`, each behind a dot.
pub open spec fn dotted(ws: Seq<Seq<char>>, n: int) -> Seq<char>
    decreases n,
{
    if n <= 0 {
        Seq::empty()
    } else {
        dotted(ws, n - 1) + seq!['.'] + ws[n - 1]
    }
}

/// The first `n` of `props` as ` key="value"`, but for id and class.
pub open spec fn other_attrs(props: Entries, n: int) -> Seq<char>
    decreases n,
{
    if n <= 0 {
        Seq::empty()
    } else if props[n - 1].0 == "id"@ || props[n - 1].0 == "class"@ {
        other_attrs(props, n - 1)
    } else {
        other_attrs(props, n - 1) + seq![' '] + props[n - 1].0 + seq!['=', '"'] + props[n - 1].1
            + seq!['"']
    }
}

/// An element's tag, id, classes and other attributes as one word group.
pub open spec fn element_text(tag: Seq<char>, props: Entries) -> Seq<char> {
    let id = match lookup(props, "id"@) {
        Some(v) => seq!['#'] + v,
        None => Seq::empty(),
    };
    let classes = match lookup(props, "class"@) {
        Some(v) => dotted(words(v), words(v).len() as int),
        None => Seq::empty(),
    };
    tag + id + classes + other_attrs(props, props.len() as int)
}

/// `t` between double quotes.
pub open spec fn quoted(t: Seq<char>) -> Seq<char> {
    seq!['"'] + t + seq!['"']
}

/// Each argument of a component as `key: value`.
pub open spec fn arg_texts(props: Entries) -> Seq<Seq<char>> {
    Seq::new(props.len(), |i: int| props[i].0 + seq![':', ' '] + props[i].1)
}

/// The first `n` of `parts` with a comma and a space between them.
pub open spec fn comma_list(parts: Seq<Seq<char>>) -> Seq<char> {
    join(parts, seq![',', ' '], parts.len() as int)
}

/// The line that `n` is written as, without its indentation.
#[verifier::opaque]
pub open spec fn head_text(n: Node) -> Seq<char> {
    match n {
        Node::Element { tag, props, .. } => element_text(tag, props),
        Node::Text(t) => if has_char(t, ' ') {
            quoted(t)
        } else {
            t
        },
        Node::Component { name, props, .. } => name + seq!['('] + comma_list(arg_texts(props))
            + seq![')'],
        Node::StateBinding { signal, operation } => if operation.len() == 0 {
            signal
        } else {
            signal + seq!['.'] + operation
        },
        Node::Import { names, from } => "import { "@ + comma_list(names) + " } from "@ + quoted(
            from,
        ),
    }
}

/// A line of the canonical text: its depth and what stands behind the indentation.
pub struct Line {
    pub depth: nat,
    pub text: Seq<char>,
}

/// The lines of `n` at `depth`: its own, then those of its children, one level deeper.
pub open spec fn layout_node(n: Node, depth: nat) -> Seq<Line>
    decreases n, 0nat,
{
    let own = seq![Line { depth, text: head_text(n) }];
    match n {
        Node::Element { children, .. } => own + layout_run(
            children,
            0,
            children.len() as int,
            depth + 1,
        ),
        Node::Component { children, .. } => own + layout_run(
            children,
            0,
            children.len() as int,
            depth + 1,
        ),
        _ => own,
    }
}

/// The lines of the nodes `f[from..n]` at `depth`, in order.
pub open spec fn layout_run(f: Seq<Node>, from: int, n: int, depth: nat) -> Seq<Line>
    decreases f, n,
{
    if n <= from || n <= 0 || n > f.len() {
        Seq::empty()
    } else {
        layout_run(f, from, n - 1, depth) + layout_node(f[n - 1], depth)
    }
}

/// The lines of the forest `f`.
pub open spec fn layout(f: Seq<Node>) -> Seq<Line> {
    layout_run(f, 0, f.len() as int, 0)
}

/// A line as text: indentation, content, line feed.
pub open spec fn line_text(line: Line, style: Indent) -> Seq<char> {
    indent_text(line.depth, style) + line.text + seq!['\n']
}

/// The first `n` of `lines` as text.
pub open spec fn lines_text(lines: Seq<Line>, n: int, style: Indent) -> Seq<char>
    decreases n,
{
    if n <= 0 {
        Seq::empty()
    } else {
        lines_text(lines, n - 1, style) + line_text(lines[n - 1], style)
    }
}

/// `lines` as text.
pub open spec fn text_of(lines: Seq<Line>, style: Indent) -> Seq<char> {
    lines_text(lines, lines.len() as int, style)
}

/// The text of lines in a row is their texts in a row.
pub proof fn lemma_text_of_add(a: Seq<Line>, b: Seq<Line>, style: Indent)
    ensures
        text_of(a + b, style) == text_of(a, style) + text_of(b, style),
    decreases b.len(),
{
    if b.len() == 0 {
        assert(a + b =~= a);
        assert(text_of(a, style) + text_of(b, style) =~= text_of(a, style));
    } else {
        let b0 = b.drop_last();
        lemma_text_of_add(a, b0, style);
        lemma_lines_text_prefix(a + b, a + b0, (a + b0).len() as int, style);
        lemma_lines_text_prefix(b, b0, b0.len() as int, style);
        assert((a + b)[a.len() + b.len() - 1] == b[b.len() - 1]);
        assert(text_of(a + b, style) =~= text_of(a, style) + text_of(b, style));
    }
}

/// The text of the first `n` lines depends on those lines only.
pub proof fn lemma_lines_text_prefix(a: Seq<Line>, b: Seq<Line>, n: int, style: Indent)
    requires
        n <= a.len(),
        n <= b.len(),
        forall|i: int| 0 <= i < n ==> a[i] == b[i],
    ensures
        lines_text(a, n, style) == lines_text(b, n, style),
    decreases n,
{
    if n > 0 {
        lemma_lines_text_prefix(a, b, n - 1, style);
    }
}

/// The canonical text of the forest `f`.
pub open spec fn render(f: Seq<Node>, style: Indent) -> Seq<char> {
    text_of(layout(f), style)
}

/// The canonical text of a source, or the failure of its first malformed line.
pub open spec fn format_source(source: Seq<char>, style: Indent) -> Result<Seq<char>, Failure> {
    match parse_source(source) {
        Ok(f) => Ok(render(f, style)),
        Err(e) => Err(e),
    }
}

/// The sign of a binary operator, with a space on either side.
pub open spec fn operator_text(op: BinaryOperator) -> Seq<char> {
    match op {
        BinaryOperator::Add => " + "@,
        BinaryOperator::Subtract => " - "@,
        BinaryOperator::Multiply => " * "@,
        BinaryOperator::Divide => " / "@,
        BinaryOperator::Equals => " == "@,
        BinaryOperator::NotEquals => " != "@,
        BinaryOperator::GreaterThan => " > "@,
        BinaryOperator::LessThan => " < "@,
        BinaryOperator::And => " && "@,
        BinaryOperator::Or => " || "@,
    }
}

/// An expression as it is written: strings between double quotes, operators between
/// their operands, calls with their arguments between parentheses.
pub open spec fn expression_text(e: Expression) -> Seq<char>
    decreases e, 0nat,
{
    match e {
        Expression::StringLiteral(s) => quoted(s@),
        Expression::Number(n) => n@,
        Expression::SignalAccess(s) => s@,
        Expression::PropertyAccess { signal, property } => signal@ + seq!['.'] + property@,
        Expression::BinaryOperation { left, operator, right } => expression_text(*left)
            + operator_text(operator) + expression_text(*right),
        Expression::FunctionCall { function, args } => function@ + seq!['('] + arguments_text(
            args@,
            args@.len() as int,
        ) + seq![')'],
    }
}

/// The first `n` of `args` as they are written, with a comma and a space between them.
pub open spec fn arguments_text(args: Seq<Expression>, n: int) -> Seq<char>
    decreases args, n,
{
    if n <= 0 || n > args.len() {
        Seq::empty()
    } else if n == 1 {
        expression_text(args[0])
    } else {
        arguments_text(args, n - 1) + seq![',', ' '] + expression_text(args[n - 1])
    }
}

/// The formatter of Ferrum source text.
#[derive(Debug, Clone, Copy, PartialEq, Eq)]
pub struct FerrumFormatter {
    indent_size: usize,
    indent_char: char,
}

impl View for FerrumFormatter {
    type V = Indent;

    closed spec fn view(&self) -> Indent {
        Indent { width: self.indent_size as nat, fill: self.indent_char }
    }
}

impl Default for FerrumFormatter {
    /// Four spaces per level.
    fn default() -> (r: Self)
        ensures
            r@ == (Indent { width: 4, fill: ' ' }),
    {
        FerrumFormatter { indent_size: 4, indent_char: ' ' }
    }
}

/// Appends `t` between double quotes to `out`.
fn put_quoted(out: &mut Vec<char>, t: &str)
    ensures
        final(out)@ == old(out)@ + quoted(t@),
{
    put_char(out, '"');
    put_str(out, t);
    put_char(out, '"');
    assert(out@ =~= old(out)@ + quoted(t@));
}

/// Appends the strings of `parts` to `out`, with a comma and a space between them.
fn put_comma_list(out: &mut Vec<char>, parts: &Vec<String>)
    ensures
        final(out)@ == old(out)@ + comma_list(strings_view(parts@)),
{
    let mut i: usize = 0;
    let ghost all = strings_view(parts@);
    assert(out@ =~= old(out)@ + join(all, seq![',', ' '], 0));
    while i < parts.len()
        invariant
            i <= parts.len(),
            all == strings_view(parts@),
            out@ == old(out)@ + join(all, seq![',', ' '], i as int),
        decreases parts.len() - i,
    {
        let ghost before = out@;
        if i > 0 {
            put_char(out, ',');
            put_char(out, ' ');
        }
        put_str(out, parts[i].as_str());
        proof {
            assert(all[i as int] == parts[i as int]@);
            if i > 0 {
                assert(out@ =~= before + seq![',', ' '] + all[i as int]);
                assert(out@ =~= old(out)@ + (join(all, seq![',', ' '], i as int) + seq![',', ' ']
                    + all[i as int]));
            } else {
                assert(out@ =~= old(out)@ + all[0]);
            }
        }
        i += 1;
    }
}

/// Appends tag, id, classes and other attributes of an element to `out`.
fn put_element(out: &mut Vec<char>, tag: &str, props: &Props)
    ensures
        final(out)@ == old(out)@ + element_text(tag@, props@),
{
    put_str(out, tag);
    let ghost id_text = match lookup(props@, "id"@) {
        Some(v) => seq!['#'] + v,
        None => Seq::empty(),
    };
    match props.get("id") {
        Some(v) => {
            put_char(out, '#');
            put_str(out, v.as_str());
        },
        None => {},
    }
    assert(out@ =~= old(out)@ + tag@ + id_text);
    let ghost class_text = match lookup(props@, "class"@) {
        Some(v) => dotted(words(v), words(v).len() as int),
        None => Seq::empty(),
    };
    let ghost base = out@;
    match props.get("class") {
        Some(v) => {
            let ws = words_vec(&chars_of(v.as_str()));
            let mut i: usize = 0;
            assert(out@ =~= base + dotted(rows(ws@), 0));
            while i < ws.len()
                invariant
                    i <= ws.len(),
                    out@ == base + dotted(rows(ws@), i as int),
                decreases ws.len() - i,
            {
                let ghost before = out@;
                put_char(out, '.');
                let mut w = copy_of(&ws[i]);
                out.append(&mut w);
                proof {
                    assert(rows(ws@)[i as int] == ws[i as int]@);
                    assert(out@ =~= base + (dotted(rows(ws@), i as int) + seq!['.'] + rows(
                        ws@,
                    )[i as int]));
                }
                i += 1;
            }
        },
        None => {},
    }
    assert(out@ == base + class_text);
    let ghost mid = out@;
    let n = props.len();
    let mut k: usize = 0;
    assert(out@ =~= mid + other_attrs(props@, 0));
    while k < n
        invariant
            k <= n,
            n == props@.len(),
            out@ == mid + other_attrs(props@, k as int),
        decreases n - k,
    {
        let key = props.key_at(k);
        if !(str_eq(key.as_str(), "id") || str_eq(key.as_str(), "class")) {
            let ghost before = out@;
            put_char(out, ' ');
            put_str(out, key.as_str());
            put_char(out, '=');
            put_char(out, '"');
            put_str(out, props.value_at(k).as_str());
            put_char(out, '"');
            assert(out@ =~= mid + (other_attrs(props@, k as int) + seq![' '] + props@[k as int].0
                + seq!['=', '"'] + props@[k as int].1 + seq!['"']));
        }
        k += 1;
    }
    assert(out@ =~= old(out)@ + element_text(tag@, props@));
}

/// Appends the arguments of a component to `out`, as `key: value` with commas between them.
fn put_args(out: &mut Vec<char>, props: &Props)
    ensures
        final(out)@ == old(out)@ + comma_list(arg_texts(props@)),
{
    let n = props.len();
    let mut i: usize = 0;
    let ghost all = arg_texts(props@);
    assert(out@ =~= old(out)@ + join(all, seq![',', ' '], 0));
    while i < n
        invariant
            i <= n,
            n == props@.len(),
            all == arg_texts(props@),
            out@ == old(out)@ + join(all, seq![',', ' '], i as int),
        decreases n - i,
    {
        let ghost before = out@;
        if i > 0 {
            put_char(out, ',');
            put_char(out, ' ');
        }
        put_str(out, props.key_at(i).as_str());
        put_char(out, ':');
        put_char(out, ' ');
        put_str(out, props.value_at(i).as_str());
        proof {
            assert(all[i as int] == props@[i as int].0 + seq![':', ' '] + props@[i as int].1);
            if i > 0 {
                assert(out@ =~= old(out)@ + (join(all, seq![',', ' '], i as int) + seq![',', ' ']
                    + all[i as int]));
            } else {
                assert(out@ =~= old(out)@ + all[0]);
            }
        }
        i += 1;
    }
}

/// Appends the line of `node`, without indentation and line feed, to `out`.
fn put_head(out: &mut Vec<char>, node: &FerrumNode)
    ensures
        final(out)@ == old(out)@ + head_text(node@),
{
    reveal(head_text);
    match node {
        FerrumNode::Element { tag, props, .. } => {
            put_element(out, tag.as_str(), props);
        },
        FerrumNode::Text(t) => {
            let v = chars_of(t.as_str());
            if find_in(&v, Pat::Is(' '), 0) < v.len() {
                put_quoted(out, t.as_str());
            } else {
                put_str(out, t.as_str());
            }
        },
        FerrumNode::Component { name, props, children } => {
            put_str(out, name.as_str());
            put_char(out, '(');
            put_args(out, props);
            put_char(out, ')');
            assert(out@ =~= old(out)@ + (name@ + seq!['('] + comma_list(arg_texts(props@))
                + seq![')']));
        },
        FerrumNode::StateBinding { signal, operation } => {
            put_str(out, signal.as_str());
            if operation.as_str().unicode_len() > 0 {
                put_char(out, '.');
                put_str(out, operation.as_str());
                assert(out@ =~= old(out)@ + (signal@ + seq!['.'] + operation@));
            }
        },
        FerrumNode::Import { names, from } => {
            put_str(out, "import { ");
            put_comma_list(out, names);
            put_str(out, " } from ");
            put_quoted(out, from.as_str());
            assert(out@ =~= old(out)@ + ("import { "@ + comma_list(strings_view(names@))
                + " } from "@ + quoted(from@)));
        },
    }
}

impl FerrumFormatter {
    /// A formatter that indents each level by `indent_size` times `indent_char`.
    pub fn new(indent_size: usize, indent_char: char) -> (r: Self)
        ensures
            r@ == (Indent { width: indent_size as nat, fill: indent_char }),
    {
        FerrumFormatter { indent_size, indent_char }
    }

    /// The indentation of one level.
    fn unit(&self) -> (r: Vec<char>)
        ensures
            r@ == repeat(self@.fill, self@.width),
    {
        let mut r: Vec<char> = Vec::new();
        let mut i: usize = 0;
        while i < self.indent_size
            invariant
                i <= self.indent_size,
                r@ == repeat(self.indent_char, i as nat),
            decreases self.indent_size - i,
        {
            r.push(self.indent_char);
            assert(r@ =~= repeat(self.indent_char, (i + 1) as nat));
            i += 1;
        }
        r
    }

    /// The indentation of a line at `depth`, as characters.
    fn indent_chars(&self, depth: usize) -> (r: Vec<char>)
        ensures
            r@ == indent_text(depth as nat, self@),
    {
        let unit = self.unit();
        let mut r: Vec<char> = Vec::new();
        let mut d: usize = 0;
        assert(r@ =~= indent_text(0, self@));
        while d < depth
            invariant
                d <= depth,
                unit@ == repeat(self@.fill, self@.width),
                r@ == indent_text(d as nat, self@),
            decreases depth - d,
        {
            let mut u = copy_of(&unit);
            r.append(&mut u);
            proof {
                lemma_indent_step(d as nat, self@);
            }
            d += 1;
        }
        r
    }

    /// The indentation of a line at `depth`.
    pub fn indent_string(&self, depth: usize) -> (r: String)
        ensures
            r@ == indent_text(depth as nat, self@),
    {
        string_of(&self.indent_chars(depth))
    }

    /// Appends the lines of `node` at `depth` to `out`; `prefix` is the indentation at
    /// that depth and `unit` the indentation of one level.
    #[verifier::loop_isolation(false)]
    fn put_node(
        &self,
        out: &mut Vec<char>,
        node: &FerrumNode,
        prefix: &Vec<char>,
        unit: &Vec<char>,
        Ghost(depth): Ghost<nat>,
    )
        requires
            prefix@ == indent_text(depth, self@),
            unit@ == repeat(self@.fill, self@.width),
        ensures
            final(out)@ == old(out)@ + text_of(layout_node(node@, depth), self@),
        decreases node,
    {
        let ghost style = self@;
        let ghost own = seq![Line { depth, text: head_text(node@) }];
        let mut p = copy_of(prefix);
        out.append(&mut p);
        put_head(out, node);
        put_char(out, '\n');
        proof {
            assert(lines_text(own, 0, style) =~= Seq::empty());
            assert(text_of(own, style) =~= line_text(own[0], style));
            assert(out@ =~= old(out)@ + text_of(own, style));
        }
        match node {
            FerrumNode::Element { children, .. } | FerrumNode::Component { children, .. } => {
                let ghost kids = forest_view(children@);
                let mut deeper = copy_of(prefix);
                let mut u = copy_of(unit);
                deeper.append(&mut u);
                proof {
                    lemma_indent_step(depth, style);
                    assert(layout_run(kids, 0, 0, depth + 1) =~= Seq::empty());
                    assert(text_of(Seq::<Line>::empty(), style) =~= Seq::empty());
                }
                let mut i: usize = 0;
                while i < children.len()
                    invariant
                        i <= children.len(),
                        kids == forest_view(children@),
                        out@ == old(out)@ + text_of(own, style) + text_of(
                            layout_run(kids, 0, i as int, depth + 1),
                            style,
                        ),
                    decreases children.len() - i,
                {
                    self.put_node(out, &children[i], &deeper, unit, Ghost(depth + 1));
                    proof {
                        assert(kids[i as int] == children[i as int]@);
                        lemma_text_of_add(
                            layout_run(kids, 0, i as int, depth + 1),
                            layout_node(kids[i as int], depth + 1),
                            style,
                        );
                        assert(out@ =~= old(out)@ + text_of(own, style) + (text_of(
                            layout_run(kids, 0, i as int, depth + 1),
                            style,
                        ) + text_of(layout_node(kids[i as int], depth + 1), style)));
                    }
                    i += 1;
                }
                proof {
                    let rest = layout_run(kids, 0, kids.len() as int, depth + 1);
                    assert(layout_node(node@, depth) == own + rest);
                    lemma_text_of_add(own, rest, style);
                    assert(out@ =~= old(out)@ + (text_of(own, style) + text_of(rest, style)));
                }
            },
            _ => {},
        }
    }

    /// Appends the canonical lines of `node`, indented for `depth`, to `output`.
    pub fn format_node(&self, node: &FerrumNode, depth: usize, output: &mut String)
        ensures
            final(output)@ == old(output)@ + text_of(layout_node(node@, depth as nat), self@),
    {
        let prefix = self.indent_chars(depth);
        let unit = self.unit();
        let mut out: Vec<char> = Vec::new();
        self.put_node(&mut out, node, &prefix, &unit, Ghost(depth as nat));
        assert(out@ =~= text_of(layout_node(node@, depth as nat), self@));
        push_chars(output, &out);
    }

    /// The canonical text of the forest `nodes`.
    pub fn format_forest(&self, nodes: &Vec<FerrumNode>) -> (r: String)
        ensures
            r@ == render(forest_view(nodes@), self@),
    {
        let prefix: Vec<char> = Vec::new();
        let unit = self.unit();
        let mut out: Vec<char> = Vec::new();
        let ghost f = forest_view(nodes@);
        let ghost style = self@;
        let mut i: usize = 0;
        proof {
            assert(prefix@ =~= indent_text(0, style));
            assert(layout_run(f, 0, 0, 0) =~= Seq::empty());
            assert(out@ =~= text_of(layout_run(f, 0, 0, 0), style));
        }
        while i < nodes.len()
            invariant
                i <= nodes.len(),
                f == forest_view(nodes@),
                style == self@,
                prefix@ == indent_text(0, style),
                unit@ == repeat(style.fill, style.width),
                out@ == text_of(layout_run(f, 0, i as int, 0), style),
            decreases nodes.len() - i,
        {
            self.put_node(&mut out, &nodes[i], &prefix, &unit, Ghost(0));
            proof {
                assert(f[i as int] == nodes[i as int]@);
                lemma_text_of_add(layout_run(f, 0, i as int, 0), layout_node(f[i as int], 0), style);
            }
            i += 1;
        }
        string_of(&out)
    }

    /// Formats Ferrum source: parses it and writes its forest in canonical layout.
    /// Fails as parsing fails, on the first malformed line.
    ///
    /// Formatting is idempotent where the forest of the source stays as it is written:
    /// formatting what comes out gives it again. That leaves out a source with a line
    /// that is written otherwise when it is read again, as the element `h1.title` with a
    /// child is, whose line is read as a state binding that takes no children.
    ///
    /// Formatting preserves structure where the forest of the source comes back: what
    /// comes out parses to that same forest. Every line must then be read as the very
    /// node that wrote it, and the indentation, where any is written, as indentation.
    pub fn format(&self, input: &str) -> (r: Result<String, FormatError>)
        ensures
            match r {
                Ok(s) => format_source(input@, self@) == Ok::<Seq<char>, Failure>(s@),
                Err(e) => format_source(input@, self@) == Err::<Seq<char>, Failure>(e@),
            },
            r is Ok && stays_as_written(parse_source(input@)->Ok_0, self@) ==> format_source(
                r->Ok_0@,
                self@,
            ) == Ok::<Seq<char>, Failure>(r->Ok_0@),
            r is Ok && comes_back(parse_source(input@)->Ok_0, self@) ==> parse_source(r->Ok_0@)
                == parse_source(input@),
    {
        proof {
            if parse_source(input@) is Ok {
                if stays_as_written(parse_source(input@)->Ok_0, self@) {
                    lemma_format_is_idempotent(input@, self@);
                }
                if comes_back(parse_source(input@)->Ok_0, self@) {
                    lemma_format_keeps_forest(input@, self@);
                }
            }
        }
        let mut parser = FerrumParser::new();
        match parser.parse(input) {
            Ok(nodes) => Ok(self.format_forest(&nodes)),
            Err(e) => Err(FormatError::Syntax(e)),
        }
    }

    /// Appends the characters of `expr` as it is written to `out`.
    #[verifier::loop_isolation(false)]
    fn put_expression(&self, out: &mut Vec<char>, expr: &Expression)
        ensures
            final(out)@ == old(out)@ + expression_text(*expr),
        decreases expr,
    {
        match expr {
            Expression::StringLiteral(s) => {
                put_quoted(out, s.as_str());
            },
            Expression::Number(n) => {
                put_str(out, n.as_str());
            },
            Expression::SignalAccess(s) => {
                put_str(out, s.as_str());
            },
            Expression::PropertyAccess { signal, property } => {
                put_str(out, signal.as_str());
                put_char(out, '.');
                put_str(out, property.as_str());
                assert(out@ =~= old(out)@ + (signal@ + seq!['.'] + property@));
            },
            Expression::BinaryOperation { left, operator, right } => {
                self.put_expression(out, left);
                match operator {
                    BinaryOperator::Add => put_str(out, " + "),
                    BinaryOperator::Subtract => put_str(out, " - "),
                    BinaryOperator::Multiply => put_str(out, " * "),
                    BinaryOperator::Divide => put_str(out, " / "),
                    BinaryOperator::Equals => put_str(out, " == "),
                    BinaryOperator::NotEquals => put_str(out, " != "),
                    BinaryOperator::GreaterThan => put_str(out, " > "),
                    BinaryOperator::LessThan => put_str(out, " < "),
                    BinaryOperator::And => put_str(out, " && "),
                    BinaryOperator::Or => put_str(out, " || "),
                }
                self.put_expression(out, right);
                assert(out@ =~= old(out)@ + (expression_text(**left) + operator_text(*operator)
                    + expression_text(**right)));
            },
            Expression::FunctionCall { function, args } => {
                put_str(out, function.as_str());
                put_char(out, '(');
                let ghost base = out@;
                let mut i: usize = 0;
                assert(out@ =~= base + arguments_text(args@, 0));
                while i < args.len()
                    invariant
                        i <= args.len(),
                        out@ == base + arguments_text(args@, i as int),
                    decreases args.len() - i,
                {
                    if i > 0 {
                        put_char(out, ',');
                        put_char(out, ' ');
                    }
                    self.put_expression(out, &args[i]);
                    proof {
                        if i > 0 {
                            assert(out@ =~= base + (arguments_text(args@, i as int) + seq![
                                ',',
                                ' ',
                            ] + expression_text(args@[i as int])));
                        } else {
                            assert(out@ =~= base + expression_text(args@[0]));
                        }
                    }
                    i += 1;
                }
                put_char(out, ')');
                assert(out@ =~= old(out)@ + (function@ + seq!['('] + arguments_text(
                    args@,
                    args@.len() as int,
                ) + seq![')']));
            },
        }
    }

    /// `expr` as it is written.
    pub fn expression_to_string(&self, expr: &Expression) -> (r: String)
        ensures
            r@ == expression_text(*expr),
    {
        let mut out: Vec<char> = Vec::new();
        self.put_expression(&mut out, expr);
        assert(out@ =~= expression_text(*expr));
        string_of(&out)
    }

    /// Appends `expr` as a line of its own to `output`: `indent`, the expression as it
    /// is written, and a line feed.
    pub fn format_expression(&self, expr: &Expression, indent: &str, output: &mut String)
        ensures
            final(output)@ == old(output)@ + indent@ + expression_text(*expr) + seq!['\n'],
    {
        let mut out: Vec<char> = Vec::new();
        put_str(&mut out, indent);
        self.put_expression(&mut out, expr);
        put_char(&mut out, '\n');
        push_chars(output, &out);
        assert(output@ =~= old(output)@ + indent@ + expression_text(*expr) + seq!['\n']);
    }
}

/// One level more of indentation is one unit more of fill.
pub proof fn lemma_indent_step(depth: nat, style: Indent)
    ensures
        indent_text(depth + 1, style) == indent_text(depth, style) + repeat(
            style.fill,
            style.width,
        ),
{
    assert((depth + 1) * style.width == depth * style.width + style.width) by (nonlinear_arith);
    assert(indent_text(depth + 1, style) =~= indent_text(depth, style) + repeat(
        style.fill,
        style.width,
    ));
}

} // verus!
