//! Laws that relate the formatter to the parser.
//!
//! The canonical text of a forest reads back line by line. Where every line of
//! the text parses to a node that is written as that same line, and every node
//! with children is read as a node that takes children, formatting the text
//! gives the text again: formatting is idempotent. Where every line even
//! parses to the very node that wrote it, the text parses to the forest itself.
//!
//! Not every line reads back. The element `h1.title` is written as `h1.title`,
//! which is read as a state binding; what stood beneath the element is then
//! read as its siblings. The text `//x` is written as a comment, which is not
//! read at all.
//!
//! Indentation is read only where it is white space. Where the forest has
//! children, a level has some width and the fill is no white space, the fill is
//! read as part of the line: the text can still be formatted to itself, but it
//! parses to a forest without children.

use crate::ast::{adopt, children_of, is_container, Node};
use crate::error::Failure;
use crate::formatter::{
    format_source, head_text, Indent, indent_text, layout, layout_node,
    layout_run, lemma_text_of_add, Line, line_text, lines_text, render, text_of,
};
use crate::grammar::parse_line;
use crate::nesting::{block_end, forest, lemma_block_end, lemma_block_end_is, node_at, Item};
use crate::parser::{is_skipped, items_upto, lines_of, parse_source};
use crate::text::{
    all_space, has_char, is_space, lemma_find, lemma_split_head, lemma_trim_indented, Pat, split,
    starts_with, trim,
};
use vstd::prelude::*;

verus! {

/// Whether `t` can be the content of a line: it is not empty, has no white space at
/// its ends, holds no line feed and does not begin a comment.
pub open spec fn is_content(t: Seq<char>) -> bool {
    &&& t.len() > 0
    &&& !is_space(t[0])
    &&& !is_space(t[t.len() - 1])
    &&& !has_char(t, '\n')
    &&& !starts_with(t, "//"@)
}

/// Whether `text` reads as a line: it is content that parses to a node without
/// children that is written as that same line.
pub open spec fn line_reads(text: Seq<char>) -> bool {
    &&& is_content(text)
    &&& parse_line(text) is Ok
    &&& head_text(parse_line(text)->Ok_0) == text
    &&& children_of(parse_line(text)->Ok_0).len() == 0
}

/// Whether `n`, where it has children, is written as a line that is read as a node
/// that takes children.
pub open spec fn takes_its_children(n: Node) -> bool {
    children_of(n).len() > 0 ==> is_container(parse_line(head_text(n))->Ok_0)
}

/// Whether the line of `n` reads back: it reads as a line, as a node that takes
/// children where `n` has any.
pub open spec fn reads_back(n: Node) -> bool {
    line_reads(head_text(n)) && takes_its_children(n)
}

/// Whether the lines of the nodes `f[from..]`, and of all that stands beneath them,
/// read back.
pub open spec fn all_read_back(f: Seq<Node>, from: int) -> bool
    decreases f, 0nat,
{
    forall|i: int| from <= i < f.len() && 0 <= i ==> reads_back_deep(#[trigger] f[i])
}

/// Whether the line of `n`, and of all that stands beneath it, reads back.
pub open spec fn reads_back_deep(n: Node) -> bool
    decreases n, 1nat,
{
    &&& reads_back(n)
    &&& match n {
        Node::Element { children, .. } => all_read_back(children, 0),
        Node::Component { children, .. } => all_read_back(children, 0),
        _ => true,
    }
}

/// Whether the lines of the nodes `f[from..]`, and of all that stands beneath them,
/// read as lines.
pub open spec fn all_lines_read(f: Seq<Node>, from: int) -> bool
    decreases f, 0nat,
{
    forall|i: int| from <= i < f.len() && 0 <= i ==> reads_as_lines(#[trigger] f[i])
}

/// Whether the line of `n`, and of all that stands beneath it, reads as a line.
pub open spec fn reads_as_lines(n: Node) -> bool
    decreases n, 1nat,
{
    &&& line_reads(head_text(n))
    &&& match n {
        Node::Element { children, .. } => all_lines_read(children, 0),
        Node::Component { children, .. } => all_lines_read(children, 0),
        _ => true,
    }
}

/// What reading the lines of `n` gives: the node that its own line parses to, with what
/// reading the lines beneath it gives as its children.
pub open spec fn reread_node(n: Node) -> Node
    decreases n, 1nat,
{
    let head = parse_line(head_text(n))->Ok_0;
    match n {
        Node::Element { children, .. } => adopt(
            head,
            reread_run(children, 0, children.len() as int),
        ),
        Node::Component { children, .. } => adopt(
            head,
            reread_run(children, 0, children.len() as int),
        ),
        _ => head,
    }
}

/// What reading the lines of the nodes `f[from..n]` gives.
pub open spec fn reread_run(f: Seq<Node>, from: int, n: int) -> Seq<Node>
    decreases f, 0nat, n,
{
    if n <= from || n <= 0 || n > f.len() {
        Seq::empty()
    } else {
        reread_run(f, from, n - 1).push(reread_node(f[n - 1]))
    }
}

/// What reading the canonical text of the forest `f` gives.
pub open spec fn reread(f: Seq<Node>) -> Seq<Node> {
    reread_run(f, 0, f.len() as int)
}

/// Whether a formatter with this style writes indentation that reads back: its fill
/// is white space other than a line feed, and a level is at least one fill wide.
pub open spec fn indents_with_space(style: Indent) -> bool {
    is_space(style.fill) && style.fill != '\n' && style.width > 0
}

/// Whether what a formatter with this style writes before a line reads back as
/// indentation: its fill is white space other than a line feed, or it writes none.
pub open spec fn writes_indentation(style: Indent) -> bool {
    style.width == 0 || (is_space(style.fill) && style.fill != '\n')
}

/// Indentation that reads back is white space without a line feed.
pub proof fn lemma_indentation_is_space(depth: nat, style: Indent)
    requires
        writes_indentation(style),
    ensures
        crate::text::all_space(indent_text(depth, style)),
        !has_char(indent_text(depth, style), '\n'),
        style.width == 0 ==> indent_text(depth, style) == Seq::<char>::empty(),
{
    let x = indent_text(depth, style);
    crate::text::lemma_has_char(x, '\n');
    if style.width == 0 {
        assert(depth * style.width == 0) by (nonlinear_arith)
            requires
                style.width == 0,
        ;
        assert(x =~= Seq::<char>::empty());
    }
}

/// Whether what stands before every line of `ls` is white space without a line feed.
pub open spec fn are_indented_with_space(ls: Seq<Line>, style: Indent) -> bool {
    forall|j: int|
        0 <= j < ls.len() ==> all_space(indent_text((#[trigger] ls[j]).depth, style))
            && !has_char(indent_text(ls[j].depth, style), '\n')
}

/// Whether nothing stands before any line of `ls`.
pub open spec fn are_unindented(ls: Seq<Line>, style: Indent) -> bool {
    forall|j: int| 0 <= j < ls.len() ==> (#[trigger] ls[j]).depth * style.width == 0
}

/// A style whose indentation reads back indents every line with white space.
pub proof fn lemma_style_indents_with_space(ls: Seq<Line>, style: Indent)
    requires
        writes_indentation(style),
    ensures
        are_indented_with_space(ls, style),
{
    assert forall|j: int| 0 <= j < ls.len() implies all_space(
        indent_text((#[trigger] ls[j]).depth, style),
    ) && !has_char(indent_text(ls[j].depth, style), '\n') by {
        lemma_indentation_is_space(ls[j].depth, style);
    }
}

/// Lines before which nothing stands are indented with white space.
pub proof fn lemma_unindented_is_indented_with_space(ls: Seq<Line>, style: Indent)
    requires
        are_unindented(ls, style),
    ensures
        are_indented_with_space(ls, style),
{
    assert forall|j: int| 0 <= j < ls.len() implies all_space(
        indent_text((#[trigger] ls[j]).depth, style),
    ) && !has_char(indent_text(ls[j].depth, style), '\n') by {
        let x = indent_text(ls[j].depth, style);
        assert(x =~= Seq::<char>::empty());
        crate::text::lemma_has_char(x, '\n');
    }
}

/// A run of nodes is laid out as its first node, then the rest of the run.
pub proof fn lemma_layout_run_first(f: Seq<Node>, from: int, n: int, depth: nat)
    requires
        0 <= from < n <= f.len(),
    ensures
        layout_run(f, from, n, depth) == layout_node(f[from], depth) + layout_run(
            f,
            from + 1,
            n,
            depth,
        ),
    decreases n - from,
{
    if n == from + 1 {
        assert(layout_run(f, from, from, depth) =~= Seq::empty());
        assert(layout_run(f, from + 1, n, depth) =~= Seq::empty());
        assert(layout_run(f, from, n, depth) =~= layout_node(f[from], depth));
        assert(layout_node(f[from], depth) + Seq::<Line>::empty() =~= layout_node(f[from], depth));
    } else {
        lemma_layout_run_first(f, from, n - 1, depth);
        assert(layout_run(f, from, n, depth) =~= layout_node(f[from], depth) + (layout_run(
            f,
            from + 1,
            n - 1,
            depth,
        ) + layout_node(f[n - 1], depth)));
    }
}

/// What reading a run gives is what reading its first node gives, then what reading
/// the rest gives.
pub proof fn lemma_reread_run_first(f: Seq<Node>, from: int, n: int)
    requires
        0 <= from < n <= f.len(),
    ensures
        reread_run(f, from, n) == seq![reread_node(f[from])] + reread_run(f, from + 1, n),
    decreases n - from,
{
    if n == from + 1 {
        assert(reread_run(f, from, from) =~= Seq::empty());
        assert(reread_run(f, from, n) =~= seq![reread_node(f[from])] + reread_run(f, from + 1, n));
    } else {
        lemma_reread_run_first(f, from, n - 1);
        assert(reread_run(f, from, n) =~= seq![reread_node(f[from])] + reread_run(f, from + 1, n));
    }
}

/// The number of nodes that reading a run gives.
pub proof fn lemma_reread_run_len(f: Seq<Node>, from: int, n: int)
    requires
        0 <= from <= n <= f.len(),
    ensures
        reread_run(f, from, n).len() == n - from,
    decreases n - from,
{
    if from < n {
        lemma_reread_run_len(f, from, n - 1);
    }
}

/// Every line of a run lies at the depth of the run or deeper, and a run that is not
/// empty begins with a line at its depth that holds the line of its first node.
pub proof fn lemma_layout_depths(f: Seq<Node>, from: int, n: int, depth: nat)
    requires
        0 <= from <= n <= f.len(),
    ensures
        forall|j: int|
            0 <= j < layout_run(f, from, n, depth).len() ==> (#[trigger] layout_run(
                f,
                from,
                n,
                depth,
            )[j]).depth >= depth,
        from < n ==> layout_run(f, from, n, depth).len() > 0 && layout_run(f, from, n, depth)[0]
            == (Line { depth, text: head_text(f[from]) }),
    decreases f, n,
{
    if from < n {
        lemma_layout_depths(f, from, n - 1, depth);
        lemma_node_depths(f[n - 1], depth);
        let a = layout_run(f, from, n - 1, depth);
        let b = layout_node(f[n - 1], depth);
        assert forall|j: int| 0 <= j < (a + b).len() implies (#[trigger] (a + b)[j]).depth
            >= depth by {
            if j >= a.len() {
                assert((a + b)[j] == b[j - a.len()]);
            }
        }
        if from == n - 1 {
            assert(a =~= Seq::empty());
            assert((a + b)[0] == b[0]);
        } else {
            assert((a + b)[0] == a[0]);
        }
    }
}

/// The lines of a node begin with its own line at its depth; the others lie deeper.
pub proof fn lemma_node_depths(n: Node, depth: nat)
    ensures
        layout_node(n, depth).len() > 0,
        layout_node(n, depth)[0] == (Line { depth, text: head_text(n) }),
        forall|j: int|
            1 <= j < layout_node(n, depth).len() ==> (#[trigger] layout_node(n, depth)[j]).depth
                > depth,
    decreases n, 0nat,
{
    let own = seq![Line { depth, text: head_text(n) }];
    match n {
        Node::Element { children, .. } => {
            let rest = layout_run(children, 0, children.len() as int, depth + 1);
            if 0 <= children.len() {
                lemma_layout_depths(
                    children,
                    0,
                    children.len() as int,
                    depth + 1,
                );
            }
            assert forall|j: int| 1 <= j < (own + rest).len() implies (#[trigger] (own
                + rest)[j]).depth > depth by {
                assert((own + rest)[j] == rest[j - 1]);
            }
        },
        Node::Component { children, .. } => {
            let rest = layout_run(children, 0, children.len() as int, depth + 1);
            lemma_layout_depths(children, 0, children.len() as int, depth + 1);
            assert forall|j: int| 1 <= j < (own + rest).len() implies (#[trigger] (own
                + rest)[j]).depth > depth by {
                assert((own + rest)[j] == rest[j - 1]);
            }
        },
        _ => {},
    }
}

/// The line of `l` as it stands in the text: indentation, then content.
pub open spec fn written(l: Line, style: Indent) -> Seq<char> {
    indent_text(l.depth, style) + l.text
}

/// The lines of `ls` as they stand in the text.
pub open spec fn written_lines(ls: Seq<Line>, style: Indent) -> Seq<Seq<char>> {
    Seq::new(ls.len(), |j: int| written(ls[j], style))
}

/// Whether every line of `ls` holds content.
pub open spec fn hold_content(ls: Seq<Line>) -> bool {
    forall|j: int| 0 <= j < ls.len() ==> is_content((#[trigger] ls[j]).text)
}

/// The text of lines that hold content splits at its line feeds into those lines as
/// they stand in the text, and an empty line behind the last line feed.
pub proof fn lemma_lines_of_text(ls: Seq<Line>, style: Indent)
    requires
        are_indented_with_space(ls, style),
        hold_content(ls),
    ensures
        lines_of(text_of(ls, style)) == written_lines(ls, style).push(Seq::empty()),
    decreases ls.len(),
{
    if ls.len() == 0 {
        assert(text_of(ls, style) =~= Seq::empty());
        let e = Seq::<char>::empty();
        assert(crate::text::find(e, Pat::Is('\n'), 0) == 0);
        assert(e.subrange(0, 0) =~= e);
        assert(split(e, '\n') =~= seq![e]);
        assert(written_lines(ls, style).push(Seq::empty()) =~= seq![Seq::<char>::empty()]);
    } else {
        let first = seq![ls[0]];
        let rest = ls.drop_first();
        assert(ls =~= first + rest);
        lemma_text_of_add(first, rest, style);
        assert(lines_text(first, 0, style) =~= Seq::empty());
        assert(text_of(first, style) =~= line_text(ls[0], style));
        let w = written(ls[0], style);
        assert(text_of(ls, style) =~= w + seq!['\n'] + text_of(rest, style));
        assert(!has_char(w, '\n')) by {
            let i = crate::text::find(w, Pat::Is('\n'), 0);
            lemma_find(w, Pat::Is('\n'), 0);
            if i < w.len() {
                let x = indent_text(ls[0].depth, style);
                assert(all_space(indent_text(ls[0].depth, style)));
                crate::text::lemma_has_char(x, '\n');
                if i < x.len() {
                    assert(w[i] == x[i]);
                } else {
                    assert(w[i] == ls[0].text[i - x.len()]);
                    crate::text::lemma_has_char(ls[0].text, '\n');
                }
            }
        }
        lemma_split_head(w, '\n', text_of(rest, style));
        assert(hold_content(rest)) by {
            assert forall|j: int| 0 <= j < rest.len() implies is_content(
                (#[trigger] rest[j]).text,
            ) by {
                assert(rest[j] == ls[j + 1]);
            }
        }
        assert(are_indented_with_space(rest, style)) by {
            assert forall|j: int| 0 <= j < rest.len() implies all_space(
                indent_text((#[trigger] rest[j]).depth, style),
            ) && !has_char(indent_text(rest[j].depth, style), '\n') by {
                assert(rest[j] == ls[j + 1]);
            }
        }
        lemma_lines_of_text(rest, style);
        assert(written_lines(ls, style).push(Seq::empty()) =~= seq![w] + written_lines(
            rest,
            style,
        ).push(Seq::empty())) by {
            let a = written_lines(ls, style).push(Seq::empty());
            let b = seq![w] + written_lines(rest, style).push(Seq::empty());
            assert(a.len() == b.len());
            assert forall|j: int| 0 <= j < a.len() implies a[j] == b[j] by {
                if 0 < j < ls.len() {
                    assert(rest[j - 1] == ls[j]);
                }
            }
        }
    }
}

/// The item that the line `l` gives when it is read: the width of its indentation and
/// the node that its content parses to.
pub open spec fn item_read(l: Line, style: Indent) -> Item {
    Item { indent: (l.depth * style.width) as int, node: parse_line(l.text)->Ok_0 }
}

/// The items that the lines `ls` give when they are read.
pub open spec fn items_read(ls: Seq<Line>, style: Indent) -> Seq<Item> {
    Seq::new(ls.len(), |j: int| item_read(ls[j], style))
}

/// Whether every line of `ls` reads as a line.
pub open spec fn hold_lines(ls: Seq<Line>) -> bool {
    forall|j: int| 0 <= j < ls.len() ==> line_reads((#[trigger] ls[j]).text)
}

/// Reading the first `n` lines of a text, as they stand in it, gives the items of
/// those lines.
pub proof fn lemma_items_of_lines(ls: Seq<Line>, style: Indent, n: int)
    requires
        are_indented_with_space(ls, style),
        hold_lines(ls),
        0 <= n <= ls.len(),
    ensures
        items_upto(written_lines(ls, style).push(Seq::empty()), n) == Ok::<Seq<Item>, Failure>(
            items_read(ls, style).take(n),
        ),
    decreases n,
{
    let lines = written_lines(ls, style).push(Seq::empty());
    if n == 0 {
        assert(items_read(ls, style).take(0) =~= Seq::empty());
    } else {
        lemma_items_of_lines(ls, style, n - 1);
        let l = ls[n - 1];
        assert(lines[n - 1] == written(l, style));
        let x = indent_text(l.depth, style);
        assert(all_space(indent_text(l.depth, style)));
        assert(line_reads(l.text));
        lemma_trim_indented(x, l.text);
        assert(!is_skipped(l.text));
        assert(items_read(ls, style).take(n) =~= items_read(ls, style).take(n - 1).push(
            item_read(l, style),
        ));
    }
}

/// Reading a text line by line gives the items of its lines.
pub proof fn lemma_items_of_text(ls: Seq<Line>, style: Indent)
    requires
        are_indented_with_space(ls, style),
        hold_lines(ls),
    ensures
        items_upto(
            lines_of(text_of(ls, style)),
            lines_of(text_of(ls, style)).len() as int,
        ) == Ok::<Seq<Item>, Failure>(items_read(ls, style)),
{
    assert(hold_content(ls)) by {
        assert forall|j: int| 0 <= j < ls.len() implies is_content((#[trigger] ls[j]).text) by {
            assert(line_reads(ls[j].text));
        }
    }
    lemma_lines_of_text(ls, style);
    lemma_items_of_lines(ls, style, ls.len() as int);
    let lines = written_lines(ls, style).push(Seq::empty());
    assert(lines[ls.len() as int] =~= Seq::<char>::empty());
    assert(trim(Seq::<char>::empty()) =~= Seq::<char>::empty());
    assert(items_read(ls, style).take(ls.len() as int) =~= items_read(ls, style));
}

/// Whether the items of `its` from `lo` on are the items that the lines `ls` give.
pub open spec fn stand_at(its: Seq<Item>, lo: int, ls: Seq<Line>, style: Indent) -> bool {
    &&& 0 <= lo
    &&& lo + ls.len() <= its.len()
    &&& forall|j: int| 0 <= j < ls.len() ==> its[lo + j] == item_read(#[trigger] ls[j], style)
}

/// Items that stand for lines in a row stand for the first lines and for the others.
pub proof fn lemma_stand_at_split(its: Seq<Item>, lo: int, a: Seq<Line>, b: Seq<Line>, style: Indent)
    requires
        stand_at(its, lo, a + b, style),
    ensures
        stand_at(its, lo, a, style),
        stand_at(its, lo + a.len(), b, style),
{
    let ab = a + b;
    assert forall|j: int| 0 <= j < a.len() implies its[lo + j] == item_read(
        #[trigger] a[j],
        style,
    ) by {
        assert(ab[j] == a[j]);
    }
    assert forall|j: int| 0 <= j < b.len() implies its[lo + a.len() + j] == item_read(
        #[trigger] b[j],
        style,
    ) by {
        assert(ab[a.len() + j] == b[j]);
    }
}

/// A deeper line is indented more.
pub proof fn lemma_deeper_is_wider(a: nat, b: nat, width: nat)
    requires
        a < b,
        width > 0,
    ensures
        a * width < b * width,
{
    assert(a * width < b * width) by (nonlinear_arith)
        requires
            a < b,
            width > 0,
    ;
}

/// A node without children is laid out as one line.
pub proof fn lemma_layout_of_childless(n: Node, depth: nat)
    requires
        children_of(n).len() == 0,
    ensures
        layout_node(n, depth) == seq![Line { depth, text: head_text(n) }],
{
    let own = seq![Line { depth, text: head_text(n) }];
    match n {
        Node::Element { children, .. } => {
            assert(layout_run(children, 0, children.len() as int, depth + 1)
                =~= Seq::empty());
            assert(own + Seq::<Line>::empty() =~= own);
        },
        Node::Component { children, .. } => {
            assert(layout_run(children, 0, children.len() as int, depth + 1) =~= Seq::empty());
            assert(own + Seq::<Line>::empty() =~= own);
        },
        _ => {},
    }
}

/// The lines beneath `n`: those of its children.
pub open spec fn lines_beneath(n: Node, depth: nat) -> Seq<Line> {
    match n {
        Node::Element { children, .. } => layout_run(
            children,
            0,
            children.len() as int,
            depth + 1,
        ),
        Node::Component { children, .. } => layout_run(children, 0, children.len() as int, depth + 1),
        _ => Seq::empty(),
    }
}

/// What reading the lines beneath `n` gives.
pub open spec fn reread_beneath(n: Node) -> Seq<Node> {
    match n {
        Node::Element { children, .. } => reread_run(
            children,
            0,
            children.len() as int,
        ),
        Node::Component { children, .. } => reread_run(children, 0, children.len() as int),
        _ => Seq::empty(),
    }
}

/// Taking no further children leaves a node as it is.
pub proof fn lemma_adopt_nothing(n: Node)
    ensures
        adopt(n, Seq::empty()) == n,
{
    match n {
        Node::Element { tag, props, children } => {
            assert(children + Seq::<Node>::empty() =~= children);
        },
        Node::Component { name, props, children } => {
            assert(children + Seq::<Node>::empty() =~= children);
        },
        _ => {},
    }
}

/// Nesting the items that the lines of a run give, where those lines read back, gives
/// what reading the run gives.
#[verifier::rlimit(40)]
pub proof fn lemma_rebuild_run(
    its: Seq<Item>,
    style: Indent,
    f: Seq<Node>,
    from: int,
    n: int,
    depth: nat,
    lo: int,
)
    requires
        style.width > 0,
        0 <= from <= n <= f.len(),
        stand_at(its, lo, layout_run(f, from, n, depth), style),
        all_read_back(f.take(n), from),
    ensures
        forest(its, lo, lo + layout_run(f, from, n, depth).len()) == reread_run(f, from, n),
    decreases f, n - from,
{
    let run = layout_run(f, from, n, depth);
    let hi = lo + run.len();
    if from == n {
        assert(run =~= Seq::empty());
        assert(forest(its, lo, lo) =~= Seq::empty());
        assert(reread_run(f, from, n) =~= Seq::empty());
    } else {
        let x = f[from];
        assert(f.take(n)[from] == x);
        assert(reads_back_deep(x));
        let mine = layout_node(x, depth);
        let rest = layout_run(f, from + 1, n, depth);
        let own = Line { depth, text: head_text(x) };
        let beneath = lines_beneath(x, depth);
        let head = parse_line(head_text(x))->Ok_0;
        lemma_layout_run_first(f, from, n, depth);
        lemma_stand_at_split(its, lo, mine, rest, style);
        lemma_node_depths(x, depth);
        assert(mine =~= seq![own] + beneath);
        lemma_stand_at_split(its, lo, seq![own], beneath, style);
        assert(its[lo + 0] == item_read(seq![own][0], style));
        assert(its[lo].node == head);
        assert(its[lo].indent == depth * style.width);
        let end = lo + mine.len();
        // what stands beneath is indented deeper
        assert forall|k: int| lo + 1 <= k < end implies (#[trigger] its[k]).indent
            > its[lo].indent by {
            let j = k - lo - 1;
            assert(its[lo + 1 + j] == item_read(beneath[j], style));
            assert(mine[j + 1] == beneath[j]);
            lemma_deeper_is_wider(depth, beneath[j].depth, style.width);
        }
        // what follows is indented no deeper
        if end < hi {
            lemma_layout_depths(f, from + 1, n, depth);
            assert(its[end + 0] == item_read(rest[0], style));
            assert(its[end].indent == depth * style.width);
        }
        // the rest of the run
        assert(all_read_back(f.take(n), from + 1));
        lemma_rebuild_run(its, style, f, from + 1, n, depth, end);
        lemma_reread_run_first(f, from, n);
        // the node itself
        let e = block_end(its, lo, lo + 1);
        lemma_block_end(its, lo, lo + 1);
        if end < hi {
            lemma_block_end_is(its, lo, lo + 1, end);
        } else {
            if e < hi {
                assert(its[e].indent > its[lo].indent);
            }
        }
        if is_container(head) {
            assert(crate::nesting::children_end(its, lo, hi) == end);
            match x {
                Node::Element { children, .. } => {
                    assert(all_read_back(children.take(children.len() as int), 0)) by {
                        assert(children.take(children.len() as int) =~= children);
                    }
                    lemma_rebuild_run(
                        its,
                        style,
                        children,
                        0,
                        children.len() as int,
                        depth + 1,
                        lo + 1,
                    );
                },
                Node::Component { children, .. } => {
                    assert(all_read_back(children.take(children.len() as int), 0)) by {
                        assert(children.take(children.len() as int) =~= children);
                    }
                    lemma_rebuild_run(
                        its,
                        style,
                        children,
                        0,
                        children.len() as int,
                        depth + 1,
                        lo + 1,
                    );
                },
                _ => {
                    assert(forest(its, lo + 1, lo + 1) =~= Seq::empty());
                    lemma_adopt_nothing(head);
                },
            }
            assert(node_at(its, lo, hi) == reread_node(x));
        } else {
            assert(children_of(x).len() == 0);
            lemma_layout_of_childless(x, depth);
            assert(end == lo + 1);
            match x {
                Node::Element { children, .. } => {
                    assert(reread_run(children, 0, children.len() as int)
                        =~= Seq::empty());
                    lemma_adopt_nothing(head);
                },
                Node::Component { children, .. } => {
                    assert(reread_run(children, 0, children.len() as int) =~= Seq::empty());
                    lemma_adopt_nothing(head);
                },
                _ => {},
            }
            assert(node_at(its, lo, hi) == reread_node(x));
        }
        assert(crate::nesting::sibling_start(its, lo, hi) == end);
    }
}

/// A node that is read from a line, with children taken from the lines beneath it,
/// is written as the line is, and has those children.
pub proof fn lemma_head_of_adopted(head: Node, kids: Seq<Node>)
    requires
        children_of(head).len() == 0,
    ensures
        head_text(adopt(head, kids)) == head_text(head),
        head is Element || head is Component ==> children_of(adopt(head, kids)) == kids,
        !(head is Element || head is Component) ==> adopt(head, kids) == head,
{
    reveal(head_text);
    match head {
        Node::Element { tag, props, children } => {
            assert(children + kids =~= kids);
        },
        Node::Component { name, props, children } => {
            assert(children + kids =~= kids);
        },
        _ => {},
    }
}

/// What reading a node gives is laid out as the node is.
pub proof fn lemma_relayout_node(x: Node, depth: nat)
    requires
        reads_back_deep(x),
    ensures
        layout_node(reread_node(x), depth) == layout_node(x, depth),
    decreases x, 1nat,
{
    let head = parse_line(head_text(x))->Ok_0;
    let kids = reread_beneath(x);
    let own = seq![Line { depth, text: head_text(x) }];
    let beneath = lines_beneath(x, depth);
    match x {
        Node::Element { children, .. } => {
            assert(children.take(children.len() as int) =~= children);
            lemma_relayout_run(children, 0, children.len() as int, depth + 1);
            lemma_reread_run_len(children, 0, children.len() as int);
        },
        Node::Component { children, .. } => {
            assert(children.take(children.len() as int) =~= children);
            lemma_relayout_run(children, 0, children.len() as int, depth + 1);
            lemma_reread_run_len(children, 0, children.len() as int);
        },
        _ => {
            assert(layout_run(kids, 0, 0, depth + 1) =~= Seq::empty());
        },
    }
    assert(layout_node(x, depth) =~= own + beneath);
    assert(layout_run(kids, 0, kids.len() as int, depth + 1) == beneath);
    assert(kids.len() == children_of(x).len());
    let r = adopt(head, kids);
    assert(reread_node(x) == r) by {
        match x {
            Node::Element { .. } => {},
            Node::Component { .. } => {},
            _ => {
                lemma_adopt_nothing(head);
            },
        }
    }
    lemma_head_of_adopted(head, kids);
    if head is Element || head is Component {
        assert(layout_node(r, depth) =~= own + beneath);
    } else {
        assert(!is_container(head));
        assert(kids.len() == 0);
        assert(beneath =~= Seq::empty());
        assert(layout_node(r, depth) =~= own + beneath);
    }
}

/// What reading a run gives is laid out as the run is.
pub proof fn lemma_relayout_run(f: Seq<Node>, from: int, n: int, depth: nat)
    requires
        0 <= from <= n <= f.len(),
        all_read_back(f.take(n), from),
    ensures
        layout_run(reread_run(f, from, n), 0, n - from, depth) == layout_run(f, from, n, depth),
    decreases f, 0nat, n - from,
{
    lemma_reread_run_len(f, from, n);
    if from == n {
        assert(layout_run(reread_run(f, from, n), 0, 0, depth) =~= Seq::empty());
        assert(layout_run(f, from, n, depth) =~= Seq::empty());
    } else {
        let before = reread_run(f, from, n - 1);
        let last = reread_node(f[n - 1]);
        let all = reread_run(f, from, n);
        assert(all == before.push(last));
        lemma_reread_run_len(f, from, n - 1);
        assert(all_read_back(f.take(n - 1), from)) by {
            assert forall|i: int| from <= i < f.take(n - 1).len() && 0 <= i implies reads_back_deep(
                #[trigger] f.take(n - 1)[i],
            ) by {
                assert(f.take(n)[i] == f[i]);
            }
        }
        lemma_relayout_run(f, from, n - 1, depth);
        assert(f.take(n)[n - 1] == f[n - 1]);
        lemma_relayout_node(f[n - 1], depth);
        lemma_layout_run_same(all, before, n - 1 - from, depth);
        assert(all[n - 1 - from] == last);
    }
}

/// Laying out the first `n` nodes depends on those nodes only.
pub proof fn lemma_layout_run_same(a: Seq<Node>, b: Seq<Node>, n: int, depth: nat)
    requires
        0 <= n <= a.len(),
        n <= b.len(),
        forall|i: int| 0 <= i < n ==> a[i] == b[i],
    ensures
        layout_run(a, 0, n, depth) == layout_run(b, 0, n, depth),
    decreases n,
{
    if n > 0 {
        lemma_layout_run_same(a, b, n - 1, depth);
    }
}

/// Lines that read back read as lines.
pub proof fn lemma_read_back_reads_as_lines(f: Seq<Node>, from: int)
    requires
        all_read_back(f, from),
    ensures
        all_lines_read(f, from),
    decreases f, 0nat,
{
    assert forall|i: int| from <= i < f.len() && 0 <= i implies reads_as_lines(#[trigger] f[i]) by {
        lemma_node_reads_as_lines(f[i]);
    }
}

/// Lines that read back read as lines.
pub proof fn lemma_node_reads_as_lines(x: Node)
    requires
        reads_back_deep(x),
    ensures
        reads_as_lines(x),
    decreases x, 1nat,
{
    match x {
        Node::Element { children, .. } => {
            lemma_read_back_reads_as_lines(children, 0);
        },
        Node::Component { children, .. } => {
            lemma_read_back_reads_as_lines(children, 0);
        },
        _ => {},
    }
}

/// Every line of a run whose lines read as lines reads as a line.
pub proof fn lemma_run_holds_lines(f: Seq<Node>, from: int, n: int, depth: nat)
    requires
        0 <= from <= n <= f.len(),
        all_lines_read(f.take(n), from),
    ensures
        hold_lines(layout_run(f, from, n, depth)),
    decreases f, 0nat, n - from,
{
    if from < n {
        assert(all_lines_read(f.take(n - 1), from)) by {
            assert forall|i: int| from <= i < f.take(n - 1).len() && 0 <= i implies reads_as_lines(
                #[trigger] f.take(n - 1)[i],
            ) by {
                assert(f.take(n)[i] == f[i]);
            }
        }
        lemma_run_holds_lines(f, from, n - 1, depth);
        assert(f.take(n)[n - 1] == f[n - 1]);
        lemma_node_holds_lines(f[n - 1], depth);
        let a = layout_run(f, from, n - 1, depth);
        let b = layout_node(f[n - 1], depth);
        assert forall|j: int| 0 <= j < (a + b).len() implies line_reads(
            (#[trigger] (a + b)[j]).text,
        ) by {
            if j < a.len() {
                assert((a + b)[j] == a[j]);
            } else {
                assert((a + b)[j] == b[j - a.len()]);
            }
        }
    }
}

/// Every line of a node whose lines read as lines reads as a line.
pub proof fn lemma_node_holds_lines(x: Node, depth: nat)
    requires
        reads_as_lines(x),
    ensures
        hold_lines(layout_node(x, depth)),
    decreases x, 1nat,
{
    let own = seq![Line { depth, text: head_text(x) }];
    let beneath = lines_beneath(x, depth);
    match x {
        Node::Element { children, .. } => {
            assert(children.take(children.len() as int) =~= children);
            lemma_run_holds_lines(children, 0, children.len() as int, depth + 1);
        },
        Node::Component { children, .. } => {
            assert(children.take(children.len() as int) =~= children);
            lemma_run_holds_lines(children, 0, children.len() as int, depth + 1);
        },
        _ => {},
    }
    assert(layout_node(x, depth) =~= own + beneath);
    assert forall|j: int| 0 <= j < (own + beneath).len() implies line_reads(
        (#[trigger] (own + beneath)[j]).text,
    ) by {
        if j > 0 {
            assert((own + beneath)[j] == beneath[j - 1]);
        }
    }
}

/// The canonical text of a forest whose lines read back, indented with white space,
/// parses to what reading the forest gives, and that is written as the same text.
pub proof fn lemma_canonical_text_reads_back(f: Seq<Node>, style: Indent)
    requires
        indents_with_space(style),
        all_read_back(f, 0),
    ensures
        parse_source(render(f, style)) == Ok::<Seq<Node>, Failure>(reread(f)),
        render(reread(f), style) == render(f, style),
{
    let n = f.len() as int;
    let ls = layout(f);
    assert(f.take(n) =~= f);
    lemma_read_back_reads_as_lines(f, 0);
    lemma_run_holds_lines(f, 0, n, 0);
    lemma_style_indents_with_space(ls, style);
    lemma_items_of_text(ls, style);
    let its = items_read(ls, style);
    assert(stand_at(its, 0, ls, style));
    lemma_rebuild_run(its, style, f, 0, n, 0, 0);
    lemma_relayout_run(f, 0, n, 0);
    lemma_reread_run_len(f, 0, n);
}

/// Whether no node of `f` has a child.
pub open spec fn is_flat(f: Seq<Node>) -> bool {
    forall|i: int| 0 <= i < f.len() ==> children_of(#[trigger] f[i]).len() == 0
}

/// The nodes that the lines `ls` are read as.
pub open spec fn nodes_read(ls: Seq<Line>) -> Seq<Node> {
    Seq::new(ls.len(), |k: int| parse_line(ls[k].text)->Ok_0)
}

/// Items that are all indented alike give a forest without children: the nodes of
/// the items.
pub proof fn lemma_flat_forest(items: Seq<Item>, lo: int, hi: int)
    requires
        forall|k: int| 0 <= k < items.len() ==> (#[trigger] items[k]).indent == 0,
        0 <= lo <= hi <= items.len(),
    ensures
        forest(items, lo, hi) == Seq::new((hi - lo) as nat, |k: int| items[lo + k].node),
    decreases hi - lo,
{
    let flat = Seq::new((hi - lo) as nat, |k: int| items[lo + k].node);
    if lo == hi {
        assert(forest(items, lo, hi) =~= flat);
    } else {
        lemma_flat_forest(items, lo + 1, hi);
        if lo + 1 < items.len() {
            assert(items[lo + 1].indent <= items[lo].indent);
        }
        assert(block_end(items, lo, lo + 1) == lo + 1);
        assert(crate::nesting::children_end(items, lo, hi) == lo + 1);
        assert(crate::nesting::sibling_start(items, lo, hi) == lo + 1);
        assert(forest(items, lo + 1, lo + 1) =~= Seq::empty());
        lemma_adopt_nothing(items[lo].node);
        assert(node_at(items, lo, hi) == items[lo].node);
        let rest = Seq::new((hi - lo - 1) as nat, |k: int| items[lo + 1 + k].node);
        assert(seq![items[lo].node] + rest =~= flat);
    }
}

/// Nodes without children are laid out one line each, at the depth of the run.
pub proof fn lemma_flat_layout(g: Seq<Node>, n: int)
    requires
        is_flat(g),
        0 <= n <= g.len(),
    ensures
        layout_run(g, 0, n, 0) == Seq::new(
            n as nat,
            |k: int| Line { depth: 0, text: head_text(g[k]) },
        ),
    decreases n,
{
    let flat = Seq::new(n as nat, |k: int| Line { depth: 0, text: head_text(g[k]) });
    if n == 0 {
        assert(layout_run(g, 0, 0, 0) =~= flat);
    } else {
        lemma_flat_layout(g, n - 1);
        assert(children_of(g[n - 1]).len() == 0);
        lemma_layout_of_childless(g[n - 1], 0);
        assert(layout_run(g, 0, n, 0) =~= flat);
    }
}

/// Nothing stands before the lines of a forest without children.
pub proof fn lemma_flat_is_unindented(f: Seq<Node>, style: Indent)
    requires
        is_flat(f),
    ensures
        are_unindented(layout(f), style),
{
    lemma_flat_layout(f, f.len() as int);
}

/// A style without width writes nothing before any line.
pub proof fn lemma_no_width_is_unindented(ls: Seq<Line>, style: Indent)
    requires
        style.width == 0,
    ensures
        are_unindented(ls, style),
{
    assert forall|j: int| 0 <= j < ls.len() implies (#[trigger] ls[j]).depth * style.width
        == 0 by {
        assert(ls[j].depth * style.width == 0) by (nonlinear_arith)
            requires
                style.width == 0,
        ;
    }
}

/// Without indentation, the text of lines depends on their contents only.
pub proof fn lemma_text_without_indentation(a: Seq<Line>, b: Seq<Line>, n: int, style: Indent)
    requires
        are_unindented(a, style),
        are_unindented(b, style),
        0 <= n <= a.len(),
        n <= b.len(),
        forall|j: int| 0 <= j < n ==> (#[trigger] a[j]).text == b[j].text,
    ensures
        lines_text(a, n, style) == lines_text(b, n, style),
    decreases n,
{
    if n > 0 {
        lemma_text_without_indentation(a, b, n - 1, style);
        assert(a[n - 1].depth * style.width == 0);
        assert(b[n - 1].depth * style.width == 0);
        assert(indent_text(a[n - 1].depth, style) =~= indent_text(b[n - 1].depth, style));
        assert(a[n - 1].text == b[n - 1].text);
    }
}

/// Written without indentation, lines that read as lines parse to the nodes that
/// they are read as, without children, and those are written as the same text.
pub proof fn lemma_unindented_lines_read_back(ls: Seq<Line>, style: Indent)
    requires
        are_unindented(ls, style),
        hold_lines(ls),
    ensures
        parse_source(text_of(ls, style)) == Ok::<Seq<Node>, Failure>(nodes_read(ls)),
        render(nodes_read(ls), style) == text_of(ls, style),
{
    lemma_unindented_is_indented_with_space(ls, style);
    lemma_items_of_text(ls, style);
    let its = items_read(ls, style);
    let m = its.len() as int;
    assert forall|k: int| 0 <= k < its.len() implies (#[trigger] its[k]).indent == 0 by {
        assert(ls[k].depth * style.width == 0);
    }
    lemma_flat_forest(its, 0, m);
    let g = forest(its, 0, m);
    assert(g =~= nodes_read(ls));
    assert forall|k: int| 0 <= k < g.len() implies children_of(#[trigger] g[k]).len() == 0 by {
        assert(line_reads(ls[k].text));
    }
    lemma_flat_layout(g, m);
    let again = layout(g);
    assert forall|j: int| 0 <= j < m implies (#[trigger] again[j]).text == ls[j].text by {
        assert(line_reads(ls[j].text));
    }
    assert(are_unindented(again, style)) by {
        assert forall|j: int| 0 <= j < again.len() implies (#[trigger] again[j]).depth
            * style.width == 0 by {
            assert(again[j].depth == 0);
        }
    }
    lemma_text_without_indentation(again, ls, m, style);
}

/// Written without indentation, the canonical text of a forest whose lines read as
/// lines parses to the nodes that the lines are read as, without children, and
/// those are written as the same text.
pub proof fn lemma_unindented_text_reads_back(f: Seq<Node>, style: Indent)
    requires
        are_unindented(layout(f), style),
        all_lines_read(f, 0),
    ensures
        parse_source(render(f, style)) == Ok::<Seq<Node>, Failure>(nodes_read(layout(f))),
        render(nodes_read(layout(f)), style) == render(f, style),
{
    let n = f.len() as int;
    assert(f.take(n) =~= f);
    lemma_run_holds_lines(f, 0, n, 0);
    lemma_unindented_lines_read_back(layout(f), style);
}

/// Whether every line of `ls`, as it stands in the text with what is written before
/// it, reads as a line by itself.
pub open spec fn are_read_alone(ls: Seq<Line>, style: Indent) -> bool {
    forall|j: int| 0 <= j < ls.len() ==> line_reads(written(#[trigger] ls[j], style))
}

/// The lines of `ls` as lines at depth 0 that hold what is written before them.
pub open spec fn taken_alone(ls: Seq<Line>, style: Indent) -> Seq<Line> {
    Seq::new(ls.len(), |j: int| Line { depth: 0, text: written(ls[j], style) })
}

/// Lines are written as the lines that hold what is written before them are.
pub proof fn lemma_text_taken_alone(ls: Seq<Line>, n: int, style: Indent)
    requires
        0 <= n <= ls.len(),
    ensures
        lines_text(taken_alone(ls, style), n, style) == lines_text(ls, n, style),
    decreases n,
{
    if n > 0 {
        lemma_text_taken_alone(ls, n - 1, style);
        let l = ls[n - 1];
        let a = taken_alone(ls, style)[n - 1];
        assert(0nat * style.width == 0) by (nonlinear_arith);
        assert(indent_text(0, style) =~= Seq::<char>::empty());
        assert(line_text(a, style) =~= line_text(l, style));
    }
}

/// A text whose lines read as lines by themselves parses to the nodes that they are
/// read as, without children, and those are written as the same text.
pub proof fn lemma_lines_alone_read_back(ls: Seq<Line>, style: Indent)
    requires
        are_read_alone(ls, style),
    ensures
        parse_source(text_of(ls, style)) == Ok::<Seq<Node>, Failure>(
            nodes_read(taken_alone(ls, style)),
        ),
        render(nodes_read(taken_alone(ls, style)), style) == text_of(ls, style),
{
    let a = taken_alone(ls, style);
    lemma_text_taken_alone(ls, ls.len() as int, style);
    assert(are_unindented(a, style)) by {
        assert forall|j: int| 0 <= j < a.len() implies (#[trigger] a[j]).depth * style.width
            == 0 by {
            assert(0nat * style.width == 0) by (nonlinear_arith);
        }
    }
    assert(hold_lines(a)) by {
        assert forall|j: int| 0 <= j < a.len() implies line_reads((#[trigger] a[j]).text) by {
            assert(line_reads(written(ls[j], style)));
        }
    }
    lemma_unindented_lines_read_back(a, style);
}

/// Whether every line of the canonical text of `f` in this style reads as it is
/// written. One of three holds. Every line reads as a line and no indentation is
/// written, because no node has a child or a level has no width. Or the fill is white
/// space, other than a line feed, and every line reads back, as a node that takes
/// children where it has any. Or every line reads as a line by itself together with
/// its indentation, as it does with a fill that is no white space.
pub open spec fn reads_as_written(f: Seq<Node>, style: Indent) -> bool {
    ||| all_lines_read(f, 0) && (is_flat(f) || style.width == 0)
    ||| is_space(style.fill) && style.fill != '\n' && all_read_back(f, 0)
    ||| are_read_alone(layout(f), style)
}

/// Whether the canonical text of `f` in this style stays as it is written when it is
/// formatted: it is the canonical text of a forest that reads as written. That forest
/// is `f` itself, but where text of `f` begins with white space that the text before
/// it makes indentation: text that begins with a tab, in a style that indents by one
/// tab, behind a node that takes children.
pub open spec fn stays_as_written(f: Seq<Node>, style: Indent) -> bool {
    exists|g: Seq<Node>|
        render(g, style) == render(f, style) && #[trigger] reads_as_written(g, style)
}

/// A forest that reads as written stays as it is written.
pub proof fn lemma_read_as_written_stays(f: Seq<Node>, style: Indent)
    requires
        reads_as_written(f, style),
    ensures
        stays_as_written(f, style),
{
}

/// The canonical text of a forest that reads as written is formatted to itself.
pub proof fn lemma_read_text_is_stable(f: Seq<Node>, style: Indent)
    requires
        reads_as_written(f, style),
    ensures
        format_source(render(f, style), style) == Ok::<Seq<char>, Failure>(render(f, style)),
{
    if all_lines_read(f, 0) && is_flat(f) {
        lemma_flat_is_unindented(f, style);
        lemma_unindented_text_reads_back(f, style);
    } else if all_lines_read(f, 0) && style.width == 0 {
        lemma_no_width_is_unindented(layout(f), style);
        lemma_unindented_text_reads_back(f, style);
    } else if is_space(style.fill) && style.fill != '\n' && all_read_back(f, 0) {
        if style.width == 0 {
            lemma_read_back_reads_as_lines(f, 0);
            lemma_no_width_is_unindented(layout(f), style);
            lemma_unindented_text_reads_back(f, style);
        } else {
            lemma_canonical_text_reads_back(f, style);
        }
    } else {
        lemma_lines_alone_read_back(layout(f), style);
    }
}

/// The canonical text of a forest that stays as it is written is formatted to itself.
pub proof fn lemma_canonical_text_is_stable(f: Seq<Node>, style: Indent)
    requires
        stays_as_written(f, style),
    ensures
        format_source(render(f, style), style) == Ok::<Seq<char>, Failure>(render(f, style)),
{
    let g = choose|g: Seq<Node>|
        render(g, style) == render(f, style) && #[trigger] reads_as_written(g, style);
    lemma_read_text_is_stable(g, style);
}

/// Formatting is idempotent: where the source parses to a forest that stays as it
/// is written, formatting the formatted text gives the formatted text.
pub proof fn lemma_format_is_idempotent(source: Seq<char>, style: Indent)
    requires
        parse_source(source) is Ok,
        stays_as_written(parse_source(source)->Ok_0, style),
    ensures
        format_source(source, style) is Ok,
        format_source(format_source(source, style)->Ok_0, style) == format_source(source, style),
{
    lemma_canonical_text_is_stable(parse_source(source)->Ok_0, style);
}

/// `n` as its own line gives it: without children.
pub open spec fn own_line(n: Node) -> Node {
    match n {
        Node::Element { tag, props, children } => Node::Element {
            tag,
            props,
            children: Seq::empty(),
        },
        Node::Component { name, props, children } => Node::Component {
            name,
            props,
            children: Seq::empty(),
        },
        _ => n,
    }
}

/// Whether the line of `n` reads back as `n` itself, and `n` is of a kind that can
/// have the children that it has.
pub open spec fn reads_back_as_itself(n: Node) -> bool {
    &&& is_content(head_text(n))
    &&& parse_line(head_text(n)) == Ok::<Node, Failure>(own_line(n))
    &&& (children_of(n).len() > 0 ==> is_container(n))
}

/// Whether the lines of the nodes `f[from..]`, and of all that stands beneath them,
/// read back as the nodes themselves.
pub open spec fn all_read_back_as_themselves(f: Seq<Node>, from: int) -> bool
    decreases f, 0nat,
{
    forall|i: int| from <= i < f.len() && 0 <= i ==> reads_back_as_itself_deep(#[trigger] f[i])
}

/// Whether the line of `n`, and of all that stands beneath it, reads back as the node
/// itself.
pub open spec fn reads_back_as_itself_deep(n: Node) -> bool
    decreases n, 1nat,
{
    &&& reads_back_as_itself(n)
    &&& match n {
        Node::Element { children, .. } => all_read_back_as_themselves(children, 0),
        Node::Component { children, .. } => all_read_back_as_themselves(children, 0),
        _ => true,
    }
}

/// A node without its children has the line of the node.
pub proof fn lemma_own_line_text(n: Node)
    ensures
        head_text(own_line(n)) == head_text(n),
        is_container(own_line(n)) == is_container(n),
        children_of(own_line(n)).len() == 0,
        children_of(n).len() == 0 ==> own_line(n) == n,
{
    reveal(head_text);
    match n {
        Node::Element { tag, props, children } => {
            if children.len() == 0 {
                assert(children =~= Seq::empty());
            }
        },
        Node::Component { name, props, children } => {
            if children.len() == 0 {
                assert(children =~= Seq::empty());
            }
        },
        _ => {},
    }
}

/// A line that reads back as the node itself reads back.
pub proof fn lemma_itself_reads_back(n: Node)
    requires
        reads_back_as_itself(n),
    ensures
        reads_back(n),
{
    lemma_own_line_text(n);
}

/// Lines that read back as the nodes themselves read back, and reading them gives
/// the nodes themselves.
pub proof fn lemma_node_reads_as_itself(n: Node)
    requires
        reads_back_as_itself_deep(n),
    ensures
        reads_back_deep(n),
        reread_node(n) == n,
    decreases n, 1nat,
{
    lemma_itself_reads_back(n);
    match n {
        Node::Element { tag, props, children } => {
            lemma_run_reads_as_itself(children, 0, children.len() as int);
            assert(Seq::<Node>::empty() + children.subrange(0, children.len() as int)
                =~= children);
        },
        Node::Component { name, props, children } => {
            lemma_run_reads_as_itself(children, 0, children.len() as int);
            assert(Seq::<Node>::empty() + children.subrange(0, children.len() as int)
                =~= children);
        },
        _ => {},
    }
}

/// Lines that read back as the nodes themselves read back, and reading them gives
/// the nodes themselves.
pub proof fn lemma_run_reads_as_itself(f: Seq<Node>, from: int, n: int)
    requires
        0 <= from <= n <= f.len(),
        all_read_back_as_themselves(f, from),
    ensures
        all_read_back(f, from),
        reread_run(f, from, n) == f.subrange(from, n),
    decreases f, 0nat, n - from,
{
    assert forall|i: int| from <= i < f.len() && 0 <= i implies reads_back_deep(
        #[trigger] f[i],
    ) by {
        lemma_node_reads_as_itself(f[i]);
    }
    if from < n {
        lemma_run_reads_as_itself(f, from, n - 1);
        lemma_node_reads_as_itself(f[n - 1]);
        assert(f.subrange(from, n - 1).push(f[n - 1]) =~= f.subrange(from, n));
    } else {
        assert(f.subrange(from, n) =~= Seq::empty());
    }
}

/// Whether the canonical text of `f` in this style parses to `f`: every line reads
/// back as the node that wrote it, and the indentation is white space of some width,
/// unless none is written because no node has a child.
pub open spec fn comes_back(f: Seq<Node>, style: Indent) -> bool {
    &&& all_read_back_as_themselves(f, 0)
    &&& (is_flat(f) || indents_with_space(style))
}

/// The canonical text of a forest that comes back parses to the forest.
pub proof fn lemma_canonical_text_parses_to_forest(f: Seq<Node>, style: Indent)
    requires
        comes_back(f, style),
    ensures
        parse_source(render(f, style)) == Ok::<Seq<Node>, Failure>(f),
{
    let n = f.len() as int;
    lemma_run_reads_as_itself(f, 0, n);
    if is_flat(f) {
        lemma_read_back_reads_as_lines(f, 0);
        lemma_flat_is_unindented(f, style);
        lemma_unindented_text_reads_back(f, style);
        lemma_flat_layout(f, n);
        let g = nodes_read(layout(f));
        assert(g =~= f) by {
            assert forall|k: int| 0 <= k < n implies g[k] == f[k] by {
                assert(reads_back_as_itself_deep(f[k]));
                lemma_own_line_text(f[k]);
            }
        }
    } else {
        lemma_canonical_text_reads_back(f, style);
        assert(f.subrange(0, n) =~= f);
    }
}

/// Formatting preserves structure: where the source parses to a forest that comes
/// back, the formatted text parses to the forest of the source.
pub proof fn lemma_format_keeps_forest(source: Seq<char>, style: Indent)
    requires
        parse_source(source) is Ok,
        comes_back(parse_source(source)->Ok_0, style),
    ensures
        format_source(source, style) is Ok,
        parse_source(format_source(source, style)->Ok_0) == parse_source(source),
{
    lemma_canonical_text_parses_to_forest(parse_source(source)->Ok_0, style);
}

} // verus!
