//! What holds of every parsed forest.
//!
//! Whatever the source, the components, imports and state bindings of its
//! forest are plain. So the forest of a source comes back where its texts and
//! elements are plain, and stays as it is written where its elements are plain
//! or nothing but a tag, and its texts are plain or written as state bindings
//! are.

use crate::ast::{children_of, is_container, Node};
use crate::formatter::{head_text, Indent};
use crate::grammar::{
    arg_fold, arg_step, comma_args, import_of, is_line_node, is_member_access,
    lemma_line_gives_line_node, opens_call, parse_line, trimmed_nonempty,
};
use crate::nesting::{children_end, forest, node_at, sibling_start, Item};
use crate::parser::{items_upto, lines_of, parse_source};
use crate::plain::{
    are_plain, is_plain, is_plain_deep, lemma_plain_reads_back, lemma_plain_run_reads_back,
};
use crate::props::{key_from, lemma_key_from, lemma_put, put, Entries};
use crate::readback::{
    are_plain_args, is_bare_word, is_plain_arg, is_plain_import, lemma_bare_text_reads_back,
    lemma_ident_is_content, lemma_state_binding_reads_back,
};
use crate::roundtrip::{
    all_read_back, comes_back, indents_with_space, is_flat, lemma_itself_reads_back,
    lemma_read_as_written_stays, lemma_read_back_reads_as_lines, line_reads, own_line,
    reads_back, reads_back_deep, stays_as_written, writes_indentation,
};
use crate::text::{
    find, has_char, is_ident, is_part, is_quoted, is_tidy, lemma_cut_at_first, lemma_find,
    lemma_has_char, lemma_has_char_add, lemma_has_char_one, lemma_part_lacks, lemma_split_pieces,
    lemma_subrange_is_part, lemma_trim_is_tidy_part, Pat, split, trim, unquote,
};
use vstd::prelude::*;

verus! {

/// Whether `n` is a component, an import or a state binding only where it is plain.
pub open spec fn is_sound(n: Node) -> bool {
    match n {
        Node::Component { .. } => is_plain(n),
        Node::Import { .. } => is_plain(n),
        Node::StateBinding { .. } => is_plain(n),
        _ => true,
    }
}

/// Whether every segment is a stretch of `inner` without a comma.
pub open spec fn are_segments(segs: Seq<Seq<char>>, inner: Seq<char>) -> bool {
    forall|k: int| 0 <= k < segs.len() ==> is_part(#[trigger] segs[k], inner) && !has_char(
        segs[k],
        ',',
    )
}

/// Reading one more segment keeps the arguments plain.
proof fn lemma_arg_step_plain(m: Entries, seg: Seq<char>, inner: Seq<char>)
    requires
        are_plain_args(m),
        is_part(seg, inner),
        !has_char(seg, ','),
        !has_char(inner, '\n'),
    ensures
        are_plain_args(arg_step(m, seg)),
{
    let t = trim(seg);
    lemma_trim_is_tidy_part(seg);
    lemma_part_lacks(seg, inner, '\n');
    lemma_part_lacks(t, seg, '\n');
    lemma_part_lacks(t, seg, ',');
    let c = find(t, Pat::Is(':'), 0);
    lemma_find(t, Pat::Is(':'), 0);
    if c < t.len() {
        let raw_key = t.subrange(0, c);
        let raw_value = t.subrange(c + 1, t.len() as int);
        lemma_cut_at_first(t, ':');
        lemma_subrange_is_part(t, 0, c);
        lemma_subrange_is_part(t, c + 1, t.len() as int);
        let key = trim(raw_key);
        let value = trim(raw_value);
        lemma_trim_is_tidy_part(raw_key);
        lemma_trim_is_tidy_part(raw_value);
        lemma_part_lacks(key, raw_key, ':');
        lemma_part_lacks(raw_key, t, ',');
        lemma_part_lacks(key, raw_key, ',');
        lemma_part_lacks(raw_key, t, '\n');
        lemma_part_lacks(key, raw_key, '\n');
        lemma_part_lacks(raw_value, t, ',');
        lemma_part_lacks(value, raw_value, ',');
        lemma_part_lacks(raw_value, t, '\n');
        lemma_part_lacks(value, raw_value, '\n');
        assert(is_plain_arg(key, value));
        lemma_put(m, key, value);
        lemma_key_from(m, key, 0);
        let after = put(m, key, value);
        assert forall|i: int| 0 <= i < after.len() implies is_plain_arg(
            (#[trigger] after[i]).0,
            after[i].1,
        ) by {
            if i < m.len() && i != key_from(m, key, 0) {
                assert(after[i] == m[i]);
                assert(is_plain_arg(m[i].0, m[i].1));
            }
        }
    }
}

/// Reading segments gives plain arguments.
proof fn lemma_arg_fold_plain(segs: Seq<Seq<char>>, n: int, inner: Seq<char>)
    requires
        are_segments(segs, inner),
        !has_char(inner, '\n'),
        0 <= n <= segs.len(),
    ensures
        are_plain_args(arg_fold(segs, n)),
    decreases n,
{
    if n > 0 {
        lemma_arg_fold_plain(segs, n - 1, inner);
        lemma_arg_step_plain(arg_fold(segs, n - 1), segs[n - 1], inner);
    }
}

/// The arguments of every component call are plain.
pub proof fn lemma_comma_args_are_plain(inner: Seq<char>)
    requires
        !has_char(inner, '\n'),
    ensures
        are_plain_args(comma_args(inner)),
{
    lemma_split_pieces(inner, ',', 0);
    lemma_arg_fold_plain(split(inner, ','), split(inner, ',').len() as int, inner);
}

/// The names that stand between commas, without the white space around them, are
/// plain names of an import.
proof fn lemma_names_are_plain(segs: Seq<Seq<char>>, n: int, inner: Seq<char>)
    requires
        are_segments(segs, inner),
        !has_char(inner, '\n'),
        !has_char(inner, '}'),
        0 <= n <= segs.len(),
    ensures
        forall|i: int|
            0 <= i < trimmed_nonempty(segs, n).len() ==> {
                &&& (#[trigger] trimmed_nonempty(segs, n)[i]).len() > 0
                &&& is_tidy(trimmed_nonempty(segs, n)[i])
                &&& !has_char(trimmed_nonempty(segs, n)[i], ',')
                &&& !has_char(trimmed_nonempty(segs, n)[i], '}')
                &&& !has_char(trimmed_nonempty(segs, n)[i], '\n')
            },
    decreases n,
{
    if n > 0 {
        lemma_names_are_plain(segs, n - 1, inner);
        let seg = segs[n - 1];
        let name = trim(seg);
        lemma_trim_is_tidy_part(seg);
        lemma_part_lacks(name, seg, ',');
        lemma_part_lacks(seg, inner, '}');
        lemma_part_lacks(name, seg, '}');
        lemma_part_lacks(seg, inner, '\n');
        lemma_part_lacks(name, seg, '\n');
        let before = trimmed_nonempty(segs, n - 1);
        let all = trimmed_nonempty(segs, n);
        assert forall|i: int| 0 <= i < all.len() implies {
            &&& (#[trigger] all[i]).len() > 0
            &&& is_tidy(all[i])
            &&& !has_char(all[i], ',')
            &&& !has_char(all[i], '}')
            &&& !has_char(all[i], '\n')
        } by {
            if i < before.len() {
                assert(all[i] == before[i]);
            }
        }
    }
}

/// Every import that a line without line feed gives is plain.
pub proof fn lemma_import_is_plain(c: Seq<char>)
    requires
        !has_char(c, '\n'),
        import_of(c) is Some,
    ensures
        is_plain_import(import_of(c)->Some_0.0, import_of(c)->Some_0.1),
{
    let l = find(c, Pat::Is('{'), 6);
    let r = find(c, Pat::Is('}'), l + 1);
    lemma_find(c, Pat::Is('{'), 6);
    lemma_find(c, Pat::Is('}'), l + 1);
    // the source
    let tail = c.subrange(r + 1, c.len() as int);
    let after = trim(tail);
    lemma_subrange_is_part(c, r + 1, c.len() as int);
    lemma_trim_is_tidy_part(tail);
    reveal_strlit("from");
    assert(after.len() >= 4);
    let rest = after.subrange(4, after.len() as int);
    lemma_subrange_is_part(after, 4, after.len() as int);
    let src = trim(rest);
    lemma_trim_is_tidy_part(rest);
    let from = unquote(src);
    lemma_subrange_is_part(src, 1, src.len() - 1);
    lemma_part_lacks(tail, c, '\n');
    lemma_part_lacks(after, tail, '\n');
    lemma_part_lacks(rest, after, '\n');
    lemma_part_lacks(src, rest, '\n');
    lemma_part_lacks(from, src, '\n');
    // the names
    let inner = c.subrange(l + 1, r);
    lemma_subrange_is_part(c, l + 1, r);
    lemma_part_lacks(inner, c, '\n');
    assert(!has_char(inner, '}')) by {
        lemma_has_char(inner, '}');
        if has_char(inner, '}') {
            let j = choose|j: int| 0 <= j < inner.len() && inner[j] == '}';
            assert(c[l + 1 + j] == '}');
        }
    }
    lemma_split_pieces(inner, ',', 0);
    lemma_names_are_plain(split(inner, ','), split(inner, ',').len() as int, inner);
}

/// Every component, import and state binding that a line without line feed gives is
/// plain.
pub proof fn lemma_line_gives_sound(c: Seq<char>)
    requires
        !has_char(c, '\n'),
    ensures
        parse_line(c) is Ok ==> is_sound(parse_line(c)->Ok_0),
{
    reveal(parse_line);
    if is_quoted(c) {
    } else if import_of(c) is Some {
        lemma_import_is_plain(c);
    } else if opens_call(c) {
        if c.len() > 0 && c[c.len() - 1] == ')' {
            let p = find(c, Pat::Is('('), 0);
            lemma_find(c, Pat::Is('('), 0);
            let inner = c.subrange(p + 1, c.len() - 1);
            lemma_subrange_is_part(c, p + 1, c.len() - 1);
            lemma_part_lacks(inner, c, '\n');
            lemma_comma_args_are_plain(inner);
        }
    } else {
    }
}

/// Whether every component, import and state binding of `f`, at any depth, is plain.
pub open spec fn are_sound(f: Seq<Node>) -> bool
    decreases f, 0nat,
{
    forall|i: int| 0 <= i < f.len() ==> is_sound_deep(#[trigger] f[i])
}

/// Whether `n`, and every node beneath it, is a component, an import or a state
/// binding only where it is plain.
pub open spec fn is_sound_deep(n: Node) -> bool
    decreases n, 1nat,
{
    &&& is_sound(n)
    &&& match n {
        Node::Element { children, .. } => are_sound(children),
        Node::Component { children, .. } => are_sound(children),
        _ => true,
    }
}

/// Whether every item holds a node as one line gives it, plain where it is a
/// component, an import or a state binding.
pub open spec fn holds_sound_nodes(items: Seq<Item>) -> bool {
    forall|k: int|
        0 <= k < items.len() ==> is_line_node((#[trigger] items[k]).node) && is_sound(
            items[k].node,
        )
}

/// A node built from sound items is sound at every depth.
proof fn lemma_node_at_is_sound(items: Seq<Item>, i: int, hi: int)
    requires
        holds_sound_nodes(items),
        0 <= i < hi <= items.len(),
    ensures
        is_sound_deep(node_at(items, i, hi)),
    decreases hi - i, 0nat,
{
    let head = items[i].node;
    assert(is_line_node(head) && is_sound(head));
    if is_container(head) {
        let kids = forest(items, i + 1, children_end(items, i, hi));
        lemma_forest_is_sound(items, i + 1, children_end(items, i, hi));
        match head {
            Node::Element { tag, props, children } => {
                assert forall|k: int| 0 <= k < (children + kids).len() implies is_sound_deep(
                    #[trigger] (children + kids)[k],
                ) by {
                    if k < children.len() {
                        assert(children[k] is Text);
                    } else {
                        assert((children + kids)[k] == kids[k - children.len()]);
                    }
                }
            },
            Node::Component { name, props, children } => {
                assert(children + kids =~= kids);
            },
            _ => {},
        }
    } else {
        match head {
            Node::Element { tag, props, children } => {
                assert forall|k: int| 0 <= k < children.len() implies is_sound_deep(
                    #[trigger] children[k],
                ) by {
                    assert(children[k] is Text);
                }
            },
            _ => {},
        }
    }
}

/// A forest built from sound items is sound at every depth.
proof fn lemma_forest_is_sound(items: Seq<Item>, lo: int, hi: int)
    requires
        holds_sound_nodes(items),
    ensures
        are_sound(forest(items, lo, hi)),
    decreases hi - lo, 1nat,
{
    if lo < 0 || lo >= hi || hi > items.len() {
    } else {
        let to = sibling_start(items, lo, hi);
        lemma_node_at_is_sound(items, lo, hi);
        lemma_forest_is_sound(items, to, hi);
        let rest = forest(items, to, hi);
        let all = seq![node_at(items, lo, hi)] + rest;
        assert forall|k: int| 0 <= k < all.len() implies is_sound_deep(#[trigger] all[k]) by {
            if k > 0 {
                assert(all[k] == rest[k - 1]);
            }
        }
    }
}

/// The items that lines without line feeds give are sound.
proof fn lemma_items_are_sound(lines: Seq<Seq<char>>, n: int)
    requires
        forall|k: int| 0 <= k < lines.len() ==> !has_char(#[trigger] lines[k], '\n'),
        0 <= n <= lines.len(),
    ensures
        items_upto(lines, n) is Ok ==> holds_sound_nodes(items_upto(lines, n)->Ok_0),
    decreases n,
{
    if n > 0 {
        lemma_items_are_sound(lines, n - 1);
        let content = trim(lines[n - 1]);
        lemma_trim_is_tidy_part(lines[n - 1]);
        lemma_part_lacks(content, lines[n - 1], '\n');
        lemma_line_gives_line_node(content);
        lemma_line_gives_sound(content);
    }
}

/// In the forest of any source, every component, import and state binding is plain.
pub proof fn lemma_parsed_forest_is_sound(source: Seq<char>)
    ensures
        parse_source(source) is Ok ==> are_sound(parse_source(source)->Ok_0),
{
    let lines = lines_of(source);
    lemma_split_pieces(source, '\n', 0);
    lemma_items_are_sound(lines, lines.len() as int);
    if items_upto(lines, lines.len() as int) is Ok {
        let items = items_upto(lines, lines.len() as int)->Ok_0;
        lemma_forest_is_sound(items, 0, items.len() as int);
    }
}

/// Whether the texts and elements among the nodes `f[from..]`, and among all that
/// stands beneath them, are plain.
pub open spec fn has_plain_texts_and_elements(f: Seq<Node>, from: int) -> bool
    decreases f, 0nat,
{
    forall|i: int|
        from <= i < f.len() && 0 <= i ==> is_plain_text_or_element_deep(#[trigger] f[i])
}

/// Whether `n` is plain where it is text or an element, and the same holds of all
/// that stands beneath it.
pub open spec fn is_plain_text_or_element_deep(n: Node) -> bool
    decreases n, 1nat,
{
    &&& (n is Text || n is Element ==> is_plain(n))
    &&& match n {
        Node::Element { children, .. } => has_plain_texts_and_elements(
            children,
            0,
        ),
        Node::Component { children, .. } => has_plain_texts_and_elements(children, 0),
        _ => true,
    }
}

/// A sound node with plain texts and elements is plain.
proof fn lemma_sound_node_is_plain(n: Node)
    requires
        is_sound_deep(n),
        is_plain_text_or_element_deep(n),
    ensures
        is_plain_deep(n),
    decreases n, 1nat,
{
    match n {
        Node::Element { children, .. } => {
            lemma_sound_run_is_plain(children, 0);
        },
        Node::Component { children, .. } => {
            lemma_sound_run_is_plain(children, 0);
        },
        _ => {},
    }
}

/// Sound nodes with plain texts and elements are plain.
proof fn lemma_sound_run_is_plain(f: Seq<Node>, from: int)
    requires
        are_sound(f),
        has_plain_texts_and_elements(f, from),
    ensures
        are_plain(f, from),
    decreases f, 0nat,
{
    assert forall|i: int| from <= i < f.len() && 0 <= i implies is_plain_deep(#[trigger] f[i]) by {
        lemma_sound_node_is_plain(f[i]);
    }
}

/// Whether `t`, written as a line, is read as a state binding: it is an identifier,
/// or two identifiers with one dot between them.
pub open spec fn is_binding_word(t: Seq<char>) -> bool {
    is_ident(t) || is_member_access(t)
}

/// Whether `n` is an element with nothing but a tag, which is an identifier or a
/// bare word. Such an element is written as a state binding or as text is.
pub open spec fn is_tag_alone(n: Node) -> bool {
    match n {
        Node::Element { tag, props, children } => {
            &&& props.len() == 0
            &&& children.len() == 0
            &&& (is_ident(tag) || is_bare_word(tag))
        },
        _ => false,
    }
}

/// Whether the line of `n` is steady where `n` is text or an element: an element is
/// plain or has nothing but a tag, and text is plain or is written as a state
/// binding is.
pub open spec fn is_steady(n: Node) -> bool {
    match n {
        Node::Text(t) => is_plain(n) || is_binding_word(t),
        Node::Element { .. } => is_plain(n) || is_tag_alone(n),
        _ => true,
    }
}

/// Whether the lines of the texts and elements among the nodes `f[from..]`, and among
/// all that stands beneath them, are steady.
pub open spec fn has_steady_lines(f: Seq<Node>, from: int) -> bool
    decreases f, 0nat,
{
    forall|i: int| from <= i < f.len() && 0 <= i ==> is_steady_deep(#[trigger] f[i])
}

/// Whether the line of `n` is steady, and so are the lines of all that stands beneath it.
pub open spec fn is_steady_deep(n: Node) -> bool
    decreases n, 1nat,
{
    &&& is_steady(n)
    &&& match n {
        Node::Element { children, .. } => has_steady_lines(children, 0),
        Node::Component { children, .. } => has_steady_lines(children, 0),
        _ => true,
    }
}

/// Text that is written as a state binding is reads back: as that state binding,
/// which is written as the text is.
pub proof fn lemma_binding_word_reads_back(t: Seq<char>)
    requires
        is_binding_word(t),
    ensures
        reads_back(Node::Text(t)),
{
    reveal(head_text);
    if is_ident(t) {
        lemma_ident_is_content(t);
        lemma_state_binding_reads_back(t, Seq::empty());
    } else {
        let d = find(t, Pat::Is('.'), 0);
        let signal = t.subrange(0, d);
        let operation = t.subrange(d + 1, t.len() as int);
        lemma_find(t, Pat::Is('.'), 0);
        lemma_ident_is_content(signal);
        lemma_ident_is_content(operation);
        lemma_state_binding_reads_back(signal, operation);
        assert(t =~= signal + seq!['.'] + operation);
        lemma_has_char_one('.', ' ');
        lemma_has_char_add(signal, seq!['.'], ' ');
        lemma_has_char_add(signal + seq!['.'], operation, ' ');
    }
}

/// An element with nothing but a tag reads back: as the state binding or the text
/// that is written as the tag is.
pub proof fn lemma_tag_alone_reads_back(n: Node)
    requires
        is_tag_alone(n),
    ensures
        reads_back(n),
{
    reveal(head_text);
    let tag = n->Element_tag;
    let props = n->Element_props;
    assert(props =~= Seq::empty());
    assert(crate::formatter::other_attrs(props, 0) =~= Seq::empty());
    assert(head_text(n) =~= tag);
    if is_ident(tag) {
        let b = Node::StateBinding { signal: tag, operation: Seq::empty() };
        lemma_state_binding_reads_back(tag, Seq::empty());
        assert(head_text(b) =~= tag);
        assert(own_line(b) == b);
        assert(children_of(b).len() == 0);
        assert(line_reads(tag));
    } else {
        let t = Node::Text(tag);
        lemma_bare_text_reads_back(tag);
        lemma_has_char(tag, ' ');
        assert(head_text(t) =~= tag);
        assert(own_line(t) == t);
        assert(children_of(t).len() == 0);
        assert(line_reads(tag));
    }
    assert(children_of(n).len() == 0);
}

/// The lines of a sound node with steady lines read back.
proof fn lemma_steady_node_reads_back(n: Node)
    requires
        is_sound_deep(n),
        is_steady_deep(n),
    ensures
        reads_back_deep(n),
    decreases n, 1nat,
{
    match n {
        Node::Text(t) => {
            if is_plain(n) {
                lemma_plain_reads_back(n);
                lemma_itself_reads_back(n);
            } else {
                lemma_binding_word_reads_back(t);
            }
        },
        Node::Element { children, .. } => {
            if is_plain(n) {
                lemma_plain_reads_back(n);
                lemma_itself_reads_back(n);
            } else {
                lemma_tag_alone_reads_back(n);
            }
            lemma_steady_run_reads_back(children, 0);
        },
        Node::Component { children, .. } => {
            lemma_plain_reads_back(n);
            lemma_itself_reads_back(n);
            lemma_steady_run_reads_back(children, 0);
        },
        _ => {
            lemma_plain_reads_back(n);
            lemma_itself_reads_back(n);
        },
    }
}

/// The lines of sound nodes with steady lines read back.
proof fn lemma_steady_run_reads_back(f: Seq<Node>, from: int)
    requires
        are_sound(f),
        has_steady_lines(f, from),
    ensures
        all_read_back(f, from),
    decreases f, 0nat,
{
    assert forall|i: int| from <= i < f.len() && 0 <= i implies reads_back_deep(
        #[trigger] f[i],
    ) by {
        lemma_steady_node_reads_back(f[i]);
    }
}

/// The forest of every source whose elements are plain or nothing but a tag, and
/// whose texts are plain or written as state bindings are, stays as it is written,
/// where the indentation is white space, or none is written. Formatting such a source
/// is idempotent.
pub proof fn lemma_steady_source_stays_as_written(source: Seq<char>, style: Indent)
    requires
        parse_source(source) is Ok,
        has_steady_lines(parse_source(source)->Ok_0, 0),
        writes_indentation(style) || is_flat(parse_source(source)->Ok_0),
    ensures
        stays_as_written(parse_source(source)->Ok_0, style),
{
    let f = parse_source(source)->Ok_0;
    lemma_parsed_forest_is_sound(source);
    lemma_steady_run_reads_back(f, 0);
    lemma_read_back_reads_as_lines(f, 0);
    lemma_read_as_written_stays(f, style);
}

/// The forest of every source whose texts and elements are plain comes back, where
/// the indentation is white space of some width, or no node has a child. Formatting
/// such a source preserves its structure.
pub proof fn lemma_plain_source_comes_back(source: Seq<char>, style: Indent)
    requires
        parse_source(source) is Ok,
        has_plain_texts_and_elements(parse_source(source)->Ok_0, 0),
        indents_with_space(style) || is_flat(parse_source(source)->Ok_0),
    ensures
        comes_back(parse_source(source)->Ok_0, style),
{
    let f = parse_source(source)->Ok_0;
    lemma_parsed_forest_is_sound(source);
    lemma_sound_run_is_plain(f, 0);
    lemma_plain_run_reads_back(f, 0);
}

} // verus!
