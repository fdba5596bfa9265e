//! Plain forests.
//!
//! A node is plain where it is made of plain parts: names without the
//! characters that the grammar gives a meaning, attributes in canonical order,
//! text without line feeds. The line of a plain node reads back as the node
//! itself.

use crate::ast::{is_void_tag, Node};
use crate::element_lines::{is_plain_element, lemma_element_reads_back, props_of, stands_alone};
use crate::props::Entries;
use crate::readback::{
    are_plain_args, is_bare_word, is_plain_import, lemma_bare_text_reads_back,
    lemma_component_reads_back, lemma_import_reads_back, lemma_spaced_text_reads_back,
    lemma_state_binding_reads_back,
};
use crate::roundtrip::{
    all_read_back_as_themselves, reads_back_as_itself, reads_back_as_itself_deep,
};
use crate::text::{has_char, is_ident, words};
use vstd::prelude::*;

verus! {

/// The id among the attributes of an element, which stands first where there is one.
pub open spec fn element_id(props: Entries) -> Option<Seq<char>> {
    if props.len() > 0 && props[0].0 == "id"@ {
        Some(props[0].1)
    } else {
        None
    }
}

/// The classes among the attributes of an element, which stand last where there are any.
pub open spec fn element_classes(props: Entries) -> Seq<Seq<char>> {
    if props.len() > 0 && props[props.len() - 1].0 == "class"@ {
        words(props[props.len() - 1].1)
    } else {
        Seq::empty()
    }
}

/// The attributes of an element between its id and its class.
pub open spec fn element_others(props: Entries) -> Entries {
    let from: int = if element_id(props) is Some {
        1
    } else {
        0
    };
    let to: int = if props.len() > 0 && props[props.len() - 1].0 == "class"@ {
        props.len() - 1
    } else {
        props.len() as int
    };
    if from <= to {
        props.subrange(from, to)
    } else {
        Seq::empty()
    }
}

/// Whether `n` is plain.
///
/// - Text holds no line feed, and holds a space or is a bare word.
/// - A state binding is made of identifiers.
/// - An import has names without white space at their ends, commas and closing braces.
/// - A component has an identifier as its name, and arguments without white space
///   at their ends and without commas, with keys without colons.
/// - An element has a tag, an id, classes and keys that are plain names, and values
///   without white space and `<`; the id stands first among its attributes and the
///   class last, as the class names with one space between them. A void element has
///   no children. The element has an attribute, an id or two classes, or one class
///   that is no member of the tag.
pub open spec fn is_plain(n: Node) -> bool {
    match n {
        Node::Text(t) => !has_char(t, '\n') && (has_char(t, ' ') || is_bare_word(t)),
        Node::StateBinding { signal, operation } => is_ident(signal) && (operation.len() == 0
            || is_ident(operation)),
        Node::Import { names, from } => is_plain_import(names, from),
        Node::Component { name, props, .. } => is_ident(name) && are_plain_args(props),
        Node::Element { tag, props, children } => {
            let id = element_id(props);
            let others = element_others(props);
            let classes = element_classes(props);
            &&& props == props_of(id, others, classes)
            &&& is_plain_element(tag, id, others, classes)
            &&& stands_alone(tag, id, others, classes)
            &&& (children.len() > 0 ==> !is_void_tag(tag))
        },
    }
}

/// Whether the nodes `f[from..]`, and all that stands beneath them, are plain.
pub open spec fn are_plain(f: Seq<Node>, from: int) -> bool
    decreases f, 0nat,
{
    forall|i: int| from <= i < f.len() && 0 <= i ==> is_plain_deep(#[trigger] f[i])
}

/// Whether `n`, and all that stands beneath it, is plain.
pub open spec fn is_plain_deep(n: Node) -> bool
    decreases n, 1nat,
{
    &&& is_plain(n)
    &&& match n {
        Node::Element { children, .. } => are_plain(children, 0),
        Node::Component { children, .. } => are_plain(children, 0),
        _ => true,
    }
}

/// The line of a plain node reads back as the node itself.
pub proof fn lemma_plain_reads_back(n: Node)
    requires
        is_plain(n),
    ensures
        reads_back_as_itself(n),
{
    match n {
        Node::Text(t) => {
            if has_char(t, ' ') {
                lemma_spaced_text_reads_back(t);
            } else {
                lemma_bare_text_reads_back(t);
            }
        },
        Node::StateBinding { signal, operation } => {
            lemma_state_binding_reads_back(signal, operation);
        },
        Node::Import { names, from } => {
            lemma_import_reads_back(names, from);
        },
        Node::Component { name, props, children } => {
            lemma_component_reads_back(name, props, children);
        },
        Node::Element { tag, props, children } => {
            let id = element_id(props);
            let others = element_others(props);
            let classes = element_classes(props);
            lemma_element_reads_back(tag, id, others, classes, children);
        },
    }
}

/// The lines of plain nodes read back as the nodes themselves.
pub proof fn lemma_plain_deep_reads_back(n: Node)
    requires
        is_plain_deep(n),
    ensures
        reads_back_as_itself_deep(n),
    decreases n, 1nat,
{
    lemma_plain_reads_back(n);
    match n {
        Node::Element { children, .. } => {
            lemma_plain_run_reads_back(children, 0);
        },
        Node::Component { children, .. } => {
            lemma_plain_run_reads_back(children, 0);
        },
        _ => {},
    }
}

/// The lines of plain nodes read back as the nodes themselves.
pub proof fn lemma_plain_run_reads_back(f: Seq<Node>, from: int)
    requires
        are_plain(f, from),
    ensures
        all_read_back_as_themselves(f, from),
    decreases f, 0nat,
{
    assert forall|i: int| from <= i < f.len() && 0 <= i implies reads_back_as_itself_deep(
        #[trigger] f[i],
    ) by {
        lemma_plain_deep_reads_back(f[i]);
    }
}

} // verus!
