//! The syntax tree shared by the parser, the formatter and the generators.
//!
//! `FerrumNode` is the tree that programs hold. `Node` is its mathematical
//! model: the same tree with sequences of characters for strings. Contracts
//! speak of the model, which `@` gives.

use crate::props::{Entries, Props};
use crate::text::str_eq;
use vstd::prelude::*;

verus! {

/// Mathematical model of a node.
pub enum Node {
    /// A markup element with its attributes.
    Element { tag: Seq<char>, props: Entries, children: Seq<Node> },
    /// Literal text.
    Text(Seq<char>),
    /// A call of a reusable component with its arguments.
    Component { name: Seq<char>, props: Entries, children: Seq<Node> },
    /// A read of a signal, or of a member of it where `operation` is not empty.
    StateBinding { signal: Seq<char>, operation: Seq<char> },
    /// A declaration that brings names in from a module.
    Import { names: Seq<Seq<char>>, from: Seq<char> },
}

/// A node of the syntax tree.
#[derive(Debug, PartialEq, Eq)]
pub enum FerrumNode {
    /// A markup element with its attributes.
    Element { tag: String, props: Props, children: Vec<FerrumNode> },
    /// Literal text.
    Text(String),
    /// A call of a reusable component with its arguments.
    Component { name: String, props: Props, children: Vec<FerrumNode> },
    /// A read of a signal, or of a member of it where `operation` is not empty.
    StateBinding { signal: String, operation: String },
    /// A declaration that brings names in from a module.
    Import { names: Vec<String>, from: String },
}

/// The models of the strings of `v`.
pub open spec fn strings_view(v: Seq<String>) -> Seq<Seq<char>> {
    Seq::new(v.len(), |i: int| v[i]@)
}

/// The models of the nodes of `v`.
pub open spec fn forest_view(v: Seq<FerrumNode>) -> Seq<Node>
    decreases v,
{
    Seq::new(
        v.len(),
        |i: int|
            if 0 <= i < v.len() {
                v[i].view()
            } else {
                Node::Text(Seq::empty())
            },
    )
}

impl View for FerrumNode {
    type V = Node;

    open spec fn view(&self) -> Node
        decreases self,
    {
        match self {
            FerrumNode::Element { tag, props, children } => Node::Element {
                tag: tag@,
                props: props@,
                children: forest_view(children@),
            },
            FerrumNode::Text(t) => Node::Text(t@),
            FerrumNode::Component { name, props, children } => Node::Component {
                name: name@,
                props: props@,
                children: forest_view(children@),
            },
            FerrumNode::StateBinding { signal, operation } => Node::StateBinding {
                signal: signal@,
                operation: operation@,
            },
            FerrumNode::Import { names, from } => Node::Import {
                names: strings_view(names@),
                from: from@,
            },
        }
    }
}

/// The model of a forest grows with the forest.
pub proof fn lemma_forest_view_push(v: Seq<FerrumNode>, n: FerrumNode)
    ensures
        forest_view(v.push(n)) == forest_view(v).push(n@),
{
    assert(forest_view(v.push(n)) =~= forest_view(v).push(n@));
}

/// The model of two forests in a row is their models in a row.
pub proof fn lemma_forest_view_add(a: Seq<FerrumNode>, b: Seq<FerrumNode>)
    ensures
        forest_view(a + b) == forest_view(a) + forest_view(b),
{
    assert(forest_view(a + b) =~= forest_view(a) + forest_view(b));
}

/// The tags of elements that never have children.
pub open spec fn is_void_tag(tag: Seq<char>) -> bool {
    tag == "input"@ || tag == "img"@ || tag == "br"@ || tag == "hr"@ || tag == "meta"@ || tag
        == "link"@
}

/// Tells whether `tag` names an element that never has children.
pub fn is_void(tag: &str) -> (b: bool)
    ensures
        b == is_void_tag(tag@),
{
    str_eq(tag, "input") || str_eq(tag, "img") || str_eq(tag, "br") || str_eq(tag, "hr") || str_eq(
        tag,
        "meta",
    ) || str_eq(tag, "link")
}

/// Whether lines indented beneath `n` become its children: components, and elements
/// but those with a void tag.
pub open spec fn is_container(n: Node) -> bool {
    match n {
        Node::Element { tag, .. } => !is_void_tag(tag),
        Node::Component { .. } => true,
        _ => false,
    }
}

/// The children of `n`; none for the kinds that never have any.
pub open spec fn children_of(n: Node) -> Seq<Node> {
    match n {
        Node::Element { children, .. } => children,
        Node::Component { children, .. } => children,
        _ => Seq::empty(),
    }
}

/// `n` with `kids` behind the children it has; `n` itself for the kinds that never have any.
pub open spec fn adopt(n: Node, kids: Seq<Node>) -> Node {
    match n {
        Node::Element { tag, props, children } => Node::Element {
            tag,
            props,
            children: children + kids,
        },
        Node::Component { name, props, children } => Node::Component {
            name,
            props,
            children: children + kids,
        },
        _ => n,
    }
}

/// No element with a void tag, at any depth of `f`, has a child.
pub open spec fn void_elements_are_leaves(f: Seq<Node>) -> bool
    decreases f, 0nat,
{
    forall|i: int| 0 <= i < f.len() ==> void_element_is_leaf(#[trigger] f[i])
}

/// Neither `n` nor any node beneath it is an element with a void tag and a child.
pub open spec fn void_element_is_leaf(n: Node) -> bool
    decreases n, 1nat,
{
    match n {
        Node::Element { tag, children, .. } => (is_void_tag(tag) ==> children.len() == 0)
            && void_elements_are_leaves(children),
        Node::Component { children, .. } => void_elements_are_leaves(children),
        _ => true,
    }
}

impl FerrumNode {
    /// Tells whether lines indented beneath this node become its children.
    pub fn can_have_children(&self) -> (b: bool)
        ensures
            b == is_container(self@),
    {
        match self {
            FerrumNode::Element { tag, .. } => !is_void(tag.as_str()),
            FerrumNode::Component { .. } => true,
            FerrumNode::Text(_) => false,
            FerrumNode::StateBinding { .. } => false,
            FerrumNode::Import { .. } => false,
        }
    }

    /// The children of this node, where its kind has any.
    pub fn children(&self) -> (r: Option<&Vec<FerrumNode>>)
        ensures
            match r {
                Some(c) => (self is Element || self is Component) && forest_view(c@) == children_of(
                    self@,
                ),
                None => !(self is Element || self is Component),
            },
    {
        match self {
            FerrumNode::Element { children, .. } => Some(children),
            FerrumNode::Component { children, .. } => Some(children),
            FerrumNode::Text(_) => None,
            FerrumNode::StateBinding { .. } => None,
            FerrumNode::Import { .. } => None,
        }
    }

    /// Puts `kids` behind the children of this node; a node of a kind without children
    /// comes back as it is.
    pub fn adopt(self, kids: Vec<FerrumNode>) -> (r: FerrumNode)
        ensures
            r@ == adopt(self@, forest_view(kids@)),
    {
        let mut kids = kids;
        match self {
            FerrumNode::Element { tag, props, children } => {
                let mut all = children;
                proof {
                    lemma_forest_view_add(all@, kids@);
                }
                all.append(&mut kids);
                FerrumNode::Element { tag, props, children: all }
            },
            FerrumNode::Component { name, props, children } => {
                let mut all = children;
                proof {
                    lemma_forest_view_add(all@, kids@);
                }
                all.append(&mut kids);
                FerrumNode::Component { name, props, children: all }
            },
            other => other,
        }
    }
}

/// A copy of `v`.
pub fn clone_strings(v: &Vec<String>) -> (r: Vec<String>)
    ensures
        strings_view(r@) == strings_view(v@),
{
    let mut r: Vec<String> = Vec::new();
    let mut i: usize = 0;
    while i < v.len()
        invariant
            i <= v.len(),
            r.len() == i,
            forall|j: int| 0 <= j < i ==> (#[trigger] r[j])@ == v[j]@,
        decreases v.len() - i,
    {
        r.push(v[i].clone());
        i += 1;
    }
    assert(strings_view(r@) =~= strings_view(v@));
    r
}

impl Clone for FerrumNode {
    #[verifier::loop_isolation(false)]
    fn clone(&self) -> (r: Self)
        ensures
            r@ == self@,
        decreases self,
    {
        match self {
            FerrumNode::Element { tag, props, children } => {
                let mut kids: Vec<FerrumNode> = Vec::new();
                let mut i: usize = 0;
                while i < children.len()
                    invariant
                        i <= children.len(),
                        kids.len() == i,
                        forall|j: int| 0 <= j < i ==> (#[trigger] kids[j])@ == children[j]@,
                    decreases children.len() - i,
                {
                    kids.push(children[i].clone());
                    i += 1;
                }
                assert(forest_view(kids@) =~= forest_view(children@));
                FerrumNode::Element { tag: tag.clone(), props: props.clone(), children: kids }
            },
            FerrumNode::Text(t) => FerrumNode::Text(t.clone()),
            FerrumNode::Component { name, props, children } => {
                let mut kids: Vec<FerrumNode> = Vec::new();
                let mut i: usize = 0;
                while i < children.len()
                    invariant
                        i <= children.len(),
                        kids.len() == i,
                        forall|j: int| 0 <= j < i ==> (#[trigger] kids[j])@ == children[j]@,
                    decreases children.len() - i,
                {
                    kids.push(children[i].clone());
                    i += 1;
                }
                assert(forest_view(kids@) =~= forest_view(children@));
                FerrumNode::Component { name: name.clone(), props: props.clone(), children: kids }
            },
            FerrumNode::StateBinding { signal, operation } => FerrumNode::StateBinding {
                signal: signal.clone(),
                operation: operation.clone(),
            },
            FerrumNode::Import { names, from } => FerrumNode::Import {
                names: clone_strings(names),
                from: from.clone(),
            },
        }
    }
}

/// The operators of a binary operation.
#[derive(Debug, Clone, Copy, PartialEq, Eq)]
pub enum BinaryOperator {
    Add,
    Subtract,
    Multiply,
    Divide,
    Equals,
    NotEquals,
    GreaterThan,
    LessThan,
    And,
    Or,
}

/// An expression as it is written down; it is printed, never evaluated.
#[derive(Debug, PartialEq, Eq)]
pub enum Expression {
    /// A string, printed between double quotes.
    StringLiteral(String),
    /// A number, held as its decimal text.
    Number(String),
    /// The name of a signal.
    SignalAccess(String),
    /// A property of a signal.
    PropertyAccess { signal: String, property: String },
    /// Two operands with an operator between them.
    BinaryOperation { left: Box<Expression>, operator: BinaryOperator, right: Box<Expression> },
    /// A call of a function on arguments.
    FunctionCall { function: String, args: Vec<Expression> },
}

} // verus!
