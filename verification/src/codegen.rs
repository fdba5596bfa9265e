//! The view-code generator: from a forest to view code for the target framework.
//!
//! Every node of the forest becomes a `view!` block. Elements and components
//! are written as tags around their children, text as a string literal, and a
//! state binding as a read of its signal. Imports write nothing.

use crate::ast::{forest_view, FerrumNode, Node};
use crate::formatter::quoted;
use crate::parser::FerrumParser;
use crate::props::{Entries, Props};
use crate::text::{put_char, put_str, string_of};
use vstd::prelude::*;

verus! {

/// The first `n` of `props` as the attributes of an element: `key="value" ` each.
pub open spec fn element_props_code(props: Entries, n: int) -> Seq<char>
    decreases n,
{
    if n <= 0 {
        Seq::empty()
    } else {
        element_props_code(props, n - 1) + props[n - 1].0 + seq!['=', '"'] + props[n - 1].1 + seq![
            '"',
            ' ',
        ]
    }
}

/// The first `n` of `props` as the arguments of a component: `key=value ` each.
pub open spec fn component_props_code(props: Entries, n: int) -> Seq<char>
    decreases n,
{
    if n <= 0 {
        Seq::empty()
    } else {
        component_props_code(props, n - 1) + props[n - 1].0 + seq!['='] + props[n - 1].1 + seq![' ']
    }
}

/// What opens a block: `view!`, and the tag named `name` with the attributes `attrs`.
pub open spec fn block_start(name: Seq<char>, attrs: Seq<char>) -> Seq<char> {
    "view! {\n    <"@ + name + seq![' '] + attrs
}

/// What stands behind the attributes of a block: the end of a self-closing tag where
/// there are no children, and else the children and the closing tag named `name`.
pub open spec fn block_end(name: Seq<char>, kids: Seq<Node>) -> Seq<char>
    decreases kids, 1nat,
{
    if kids.len() == 0 {
        "/>\n}"@
    } else {
        ">\n"@ + children_code(kids, kids.len() as int) + "    </"@ + name + ">\n}"@
    }
}

/// The view code of `n`.
pub open spec fn node_code(n: Node) -> Seq<char>
    decreases n, 2nat,
{
    match n {
        Node::Element { tag, props, children } => block_start(
            tag,
            element_props_code(props, props.len() as int),
        ) + block_end(tag, children),
        Node::Text(t) => quoted(t),
        Node::Component { name, props, children } => block_start(
            name,
            component_props_code(props, props.len() as int),
        ) + block_end(name, children),
        Node::StateBinding { signal, operation } => if operation.len() == 0 {
            "read("@ + signal + seq![')']
        } else {
            "read("@ + signal + seq!['.'] + operation + seq![')']
        },
        Node::Import { .. } => Seq::empty(),
    }
}

/// The view code of the first `n` children `kids`, each on a line of its own
/// behind eight spaces.
pub open spec fn children_code(kids: Seq<Node>, n: int) -> Seq<char>
    decreases kids, 0nat, n,
{
    if n <= 0 || n > kids.len() {
        Seq::empty()
    } else {
        children_code(kids, n - 1) + "        "@ + node_code(kids[n - 1]) + seq!['\n']
    }
}

/// The view code of the first `n` nodes of `f`, each followed by a line feed.
pub open spec fn roots_code(f: Seq<Node>, n: int) -> Seq<char>
    decreases n,
{
    if n <= 0 {
        Seq::empty()
    } else {
        roots_code(f, n - 1) + node_code(f[n - 1]) + seq!['\n']
    }
}

/// The view code of the forest `f`: the import of the framework, then the nodes.
pub open spec fn view_code(f: Seq<Node>) -> Seq<char> {
    "use leptos::*;\n\n"@ + roots_code(f, f.len() as int)
}

/// Appends the attributes of an element to `out`.
fn put_element_props(out: &mut Vec<char>, props: &Props)
    ensures
        final(out)@ == old(out)@ + element_props_code(props@, props@.len() as int),
{
    let n = props.len();
    let mut i: usize = 0;
    assert(out@ =~= old(out)@ + element_props_code(props@, 0));
    while i < n
        invariant
            i <= n,
            n == props@.len(),
            out@ == old(out)@ + element_props_code(props@, i as int),
        decreases n - i,
    {
        put_str(out, props.key_at(i).as_str());
        put_char(out, '=');
        put_char(out, '"');
        put_str(out, props.value_at(i).as_str());
        put_char(out, '"');
        put_char(out, ' ');
        assert(out@ =~= old(out)@ + (element_props_code(props@, i as int) + props@[i as int].0
            + seq!['=', '"'] + props@[i as int].1 + seq!['"', ' ']));
        i += 1;
    }
}

/// Appends the arguments of a component to `out`.
fn put_component_props(out: &mut Vec<char>, props: &Props)
    ensures
        final(out)@ == old(out)@ + component_props_code(props@, props@.len() as int),
{
    let n = props.len();
    let mut i: usize = 0;
    assert(out@ =~= old(out)@ + component_props_code(props@, 0));
    while i < n
        invariant
            i <= n,
            n == props@.len(),
            out@ == old(out)@ + component_props_code(props@, i as int),
        decreases n - i,
    {
        put_str(out, props.key_at(i).as_str());
        put_char(out, '=');
        put_str(out, props.value_at(i).as_str());
        put_char(out, ' ');
        assert(out@ =~= old(out)@ + (component_props_code(props@, i as int) + props@[i as int].0
            + seq!['='] + props@[i as int].1 + seq![' ']));
        i += 1;
    }
}

/// Appends what stands behind the attributes of a block to `out`.
fn put_block_end(out: &mut Vec<char>, name: &str, children: &Vec<FerrumNode>)
    ensures
        final(out)@ == old(out)@ + block_end(name@, forest_view(children@)),
    decreases children, 1nat,
{
    let ghost kids = forest_view(children@);
    if children.len() == 0 {
        put_str(out, "/>\n}");
    } else {
        put_str(out, ">\n");
        put_children(out, children);
        put_str(out, "    </");
        put_str(out, name);
        put_str(out, ">\n}");
        assert(out@ =~= old(out)@ + (">\n"@ + children_code(kids, kids.len() as int) + "    </"@
            + name@ + ">\n}"@));
    }
}

/// Appends the view code of the children `children` to `out`, each on a line of
/// its own behind eight spaces.
fn put_children(out: &mut Vec<char>, children: &Vec<FerrumNode>)
    ensures
        final(out)@ == old(out)@ + children_code(
            forest_view(children@),
            children@.len() as int,
        ),
    decreases children, 0nat,
{
    let ghost kids = forest_view(children@);
    let mut i: usize = 0;
    assert(out@ =~= old(out)@ + children_code(kids, 0));
    while i < children.len()
        invariant
            i <= children.len(),
            kids == forest_view(children@),
            out@ == old(out)@ + children_code(kids, i as int),
        decreases children.len() - i,
    {
        let ghost before = out@;
        put_str(out, "        ");
        put_code(out, &children[i]);
        put_char(out, '\n');
        proof {
            assert(kids[i as int] == children[i as int]@);
            assert(out@ =~= old(out)@ + (children_code(kids, i as int) + "        "@ + node_code(
                kids[i as int],
            ) + seq!['\n']));
        }
        i += 1;
    }
}

/// Appends the view code of `node` to `out`.
fn put_code(out: &mut Vec<char>, node: &FerrumNode)
    ensures
        final(out)@ == old(out)@ + node_code(node@),
    decreases node,
{
    match node {
        FerrumNode::Element { tag, props, children } => {
            let ghost attrs = element_props_code(props@, props@.len() as int);
            put_str(out, "view! {\n    <");
            put_str(out, tag.as_str());
            put_char(out, ' ');
            put_element_props(out, props);
            put_block_end(out, tag.as_str(), children);
            assert(out@ =~= old(out)@ + (block_start(tag@, attrs) + block_end(
                tag@,
                forest_view(children@),
            )));
        },
        FerrumNode::Component { name, props, children } => {
            let ghost attrs = component_props_code(props@, props@.len() as int);
            put_str(out, "view! {\n    <");
            put_str(out, name.as_str());
            put_char(out, ' ');
            put_component_props(out, props);
            put_block_end(out, name.as_str(), children);
            assert(out@ =~= old(out)@ + (block_start(name@, attrs) + block_end(
                name@,
                forest_view(children@),
            )));
        },
        FerrumNode::Text(t) => {
            put_char(out, '"');
            put_str(out, t.as_str());
            put_char(out, '"');
            assert(out@ =~= old(out)@ + quoted(t@));
        },
        FerrumNode::StateBinding { signal, operation } => {
            put_str(out, "read(");
            put_str(out, signal.as_str());
            if operation.as_str().unicode_len() > 0 {
                put_char(out, '.');
                put_str(out, operation.as_str());
            }
            put_char(out, ')');
            assert(out@ =~= old(out)@ + node_code(node@));
        },
        FerrumNode::Import { .. } => {
            assert(out@ =~= old(out)@ + node_code(node@));
        },
    }
}

impl FerrumParser {
    /// The view code of the forest `nodes`: the import of the framework, then each
    /// node's code followed by a line feed.
    pub fn generate_rust(&self, nodes: &Vec<FerrumNode>) -> (r: String)
        ensures
            r@ == view_code(forest_view(nodes@)),
    {
        let mut out: Vec<char> = Vec::new();
        put_str(&mut out, "use leptos::*;\n\n");
        let ghost f = forest_view(nodes@);
        let ghost base = out@;
        let mut i: usize = 0;
        assert(out@ =~= base + roots_code(f, 0));
        while i < nodes.len()
            invariant
                i <= nodes.len(),
                f == forest_view(nodes@),
                out@ == base + roots_code(f, i as int),
            decreases nodes.len() - i,
        {
            put_code(&mut out, &nodes[i]);
            put_char(&mut out, '\n');
            proof {
                assert(f[i as int] == nodes[i as int]@);
                assert(out@ =~= base + (roots_code(f, i as int) + node_code(f[i as int]) + seq![
                    '\n',
                ]));
            }
            i += 1;
        }
        assert(out@ =~= view_code(f));
        string_of(&out)
    }

    /// The view code of `node`: a `view!` block for an element or a component, a
    /// string literal for text, a read for a state binding, nothing for an import.
    pub fn node_to_rust(&self, node: &FerrumNode) -> (r: String)
        ensures
            r@ == node_code(node@),
    {
        let mut out: Vec<char> = Vec::new();
        put_code(&mut out, node);
        assert(out@ =~= node_code(node@));
        string_of(&out)
    }

    /// The view code of `node` where it stands as a child, which is its view code.
    pub fn child_to_rust(&self, node: &FerrumNode) -> (r: String)
        ensures
            r@ == node_code(node@),
    {
        self.node_to_rust(node)
    }
}

} // verus!
