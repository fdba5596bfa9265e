//! From indented lines to a forest.
//!
//! Each line that counts gives an item: the width of its indentation and the
//! node that it stands for. An item that may have children takes as its
//! children the items that follow it, up to the first one that is indented no
//! deeper than itself. `forest` states this; `nest` computes it with a stack
//! of the nodes that are still open.

use crate::ast::{
    adopt, FerrumNode, forest_view, is_container, lemma_forest_view_push, Node,
    void_element_is_leaf, void_elements_are_leaves,
};
use crate::grammar::is_line_node;
use vstd::prelude::*;

verus! {

/// A line that counts: the width of its indentation and the node that it stands for.
pub struct Item {
    pub indent: int,
    pub node: Node,
}

/// The first index at or after `j` whose item is indented no deeper than item `i`;
/// the number of items where there is none.
pub open spec fn block_end(items: Seq<Item>, i: int, j: int) -> int
    decreases items.len() - j,
{
    if j < 0 || j >= items.len() {
        items.len() as int
    } else if items[j].indent <= items[i].indent {
        j
    } else {
        block_end(items, i, j + 1)
    }
}

/// `block_end` returns the least such index at or after `j`.
pub proof fn lemma_block_end(items: Seq<Item>, i: int, j: int)
    requires
        0 <= j <= items.len(),
    ensures
        j <= block_end(items, i, j) <= items.len(),
        block_end(items, i, j) < items.len() ==> items[block_end(items, i, j)].indent
            <= items[i].indent,
        forall|k: int|
            j <= k < block_end(items, i, j) ==> (#[trigger] items[k]).indent > items[i].indent,
    decreases items.len() - j,
{
    if j < items.len() && items[j].indent > items[i].indent {
        lemma_block_end(items, i, j + 1);
    }
}

/// An index that is the end or is indented no deeper than item `i`, with only
/// deeper items from `j` up to it, is what `block_end` returns.
pub proof fn lemma_block_end_is(items: Seq<Item>, i: int, j: int, r: int)
    requires
        0 <= j <= r <= items.len(),
        r < items.len() ==> items[r].indent <= items[i].indent,
        forall|k: int| j <= k < r ==> (#[trigger] items[k]).indent > items[i].indent,
    ensures
        block_end(items, i, j) == r,
    decreases r - j,
{
    if j < r {
        assert(items[j].indent > items[i].indent);
        lemma_block_end_is(items, i, j + 1, r);
    }
}

/// Where the sibling after item `i` would stand: behind its block where it may have
/// children, and right behind it otherwise.
pub open spec fn next_sibling(items: Seq<Item>, i: int) -> int {
    if is_container(items[i].node) {
        block_end(items, i, i + 1)
    } else {
        i + 1
    }
}

/// Where the children of item `i` end among the items before `hi`: at the end of its
/// block, or at `hi` where the block goes on to there.
pub open spec fn children_end(items: Seq<Item>, i: int, hi: int) -> int {
    let e = block_end(items, i, i + 1);
    if i < e < hi {
        e
    } else {
        hi
    }
}

/// Where the sibling after item `lo` stands among the items before `hi`; `hi` where
/// there is none.
pub open spec fn sibling_start(items: Seq<Item>, lo: int, hi: int) -> int {
    let next = next_sibling(items, lo);
    if next <= lo {
        lo + 1
    } else if next < hi {
        next
    } else {
        hi
    }
}

/// The node of item `i` with its children, of which none stands at or behind `hi`.
pub open spec fn node_at(items: Seq<Item>, i: int, hi: int) -> Node
    decreases hi - i, 0nat,
{
    if 0 <= i < hi && is_container(items[i].node) {
        adopt(items[i].node, forest(items, i + 1, children_end(items, i, hi)))
    } else {
        items[i].node
    }
}

/// The nodes that the items `lo..hi` give, where item `lo` begins a node: that node,
/// then its siblings.
pub open spec fn forest(items: Seq<Item>, lo: int, hi: int) -> Seq<Node>
    decreases hi - lo, 1nat,
{
    if lo < 0 || lo >= hi || hi > items.len() {
        Seq::empty()
    } else {
        seq![node_at(items, lo, hi)] + forest(items, sibling_start(items, lo, hi), hi)
    }
}

/// The forest that `items` give.
pub open spec fn forest_of(items: Seq<Item>) -> Seq<Node> {
    forest(items, 0, items.len() as int)
}

/// Whether the siblings that begin at `lo` end exactly at `hi`.
pub open spec fn ends_at(items: Seq<Item>, lo: int, hi: int) -> bool
    decreases hi - lo,
{
    if lo >= hi {
        lo == hi
    } else {
        lo < next_sibling(items, lo) <= hi && ends_at(items, next_sibling(items, lo), hi)
    }
}

/// A node does not depend on the bound, once the bound is behind its block.
pub proof fn lemma_node_at_bound(items: Seq<Item>, i: int, h1: int, h2: int)
    requires
        0 <= i < items.len(),
        next_sibling(items, i) <= h1,
        next_sibling(items, i) <= h2,
        i < h1,
        i < h2,
    ensures
        node_at(items, i, h1) == node_at(items, i, h2),
{
    lemma_block_end(items, i, i + 1);
}

/// Siblings that end at `mid` are followed by the siblings that begin there.
pub proof fn lemma_forest_split(items: Seq<Item>, lo: int, mid: int, hi: int)
    requires
        0 <= lo,
        ends_at(items, lo, mid),
        mid <= hi <= items.len(),
    ensures
        forest(items, lo, hi) == forest(items, lo, mid) + forest(items, mid, hi),
    decreases mid - lo,
{
    if lo < mid {
        let next = next_sibling(items, lo);
        lemma_node_at_bound(items, lo, mid, hi);
        lemma_forest_split(items, next, mid, hi);
        assert(forest(items, lo, hi) =~= forest(items, lo, mid) + forest(items, mid, hi));
    } else {
        assert(forest(items, lo, mid) =~= Seq::empty());
        assert(forest(items, lo, hi) =~= forest(items, lo, mid) + forest(items, mid, hi));
    }
}

/// Siblings that end at `mid`, followed by siblings that end at `hi`, end at `hi`.
pub proof fn lemma_ends_at_join(items: Seq<Item>, lo: int, mid: int, hi: int)
    requires
        ends_at(items, lo, mid),
        ends_at(items, mid, hi),
    ensures
        ends_at(items, lo, hi),
    decreases mid - lo,
{
    if lo < mid {
        lemma_ends_at_join(items, next_sibling(items, lo), mid, hi);
    }
}

/// Whether every item holds a node as one line gives it.
pub open spec fn holds_line_nodes(items: Seq<Item>) -> bool {
    forall|k: int| 0 <= k < items.len() ==> is_line_node((#[trigger] items[k]).node)
}

/// In a node built from line nodes, no element with a void tag has a child.
pub proof fn lemma_node_at_keeps_void_leaves(items: Seq<Item>, i: int, hi: int)
    requires
        holds_line_nodes(items),
        0 <= i < hi <= items.len(),
    ensures
        void_element_is_leaf(node_at(items, i, hi)),
    decreases hi - i, 0nat,
{
    let head = items[i].node;
    assert(is_line_node(head));
    if is_container(head) {
        let up = children_end(items, i, hi);
        let kids = forest(items, i + 1, up);
        lemma_forest_keeps_void_leaves(items, i + 1, up);
        let n = adopt(head, kids);
        match head {
            Node::Element { tag, props, children } => {
                assert forall|k: int| 0 <= k < (children + kids).len() implies void_element_is_leaf(
                    #[trigger] (children + kids)[k],
                ) by {
                    if k < children.len() {
                        assert(children[k] is Text);
                    } else {
                        assert((children + kids)[k] == kids[k - children.len()]);
                    }
                }
            },
            Node::Component { name, props, children } => {
                assert(children + kids =~= kids);
            },
            _ => {},
        }
    } else {
        match head {
            Node::Element { tag, props, children } => {
                assert(children.len() == 0);
            },
            _ => {},
        }
    }
}

/// In a forest built from line nodes, no element with a void tag has a child.
pub proof fn lemma_forest_keeps_void_leaves(items: Seq<Item>, lo: int, hi: int)
    requires
        holds_line_nodes(items),
    ensures
        void_elements_are_leaves(forest(items, lo, hi)),
    decreases hi - lo, 1nat,
{
    if lo < 0 || lo >= hi || hi > items.len() {
    } else {
        let to = sibling_start(items, lo, hi);
        lemma_node_at_keeps_void_leaves(items, lo, hi);
        lemma_forest_keeps_void_leaves(items, to, hi);
        let rest = forest(items, to, hi);
        let all = seq![node_at(items, lo, hi)] + rest;
        assert forall|k: int| 0 <= k < all.len() implies void_element_is_leaf(#[trigger] all[k]) by {
            if k > 0 {
                assert(all[k] == rest[k - 1]);
            }
        }
    }
}

/// A node that is still open: where its item stands, what the item holds, and the
/// children gathered so far.
pub struct Open {
    pub at: int,
    pub indent: int,
    pub head: Node,
    pub kids: Seq<Node>,
}

/// Where the children of open node `m` end so far: at the next open node, or at `i`
/// for the innermost one.
pub open spec fn upper(opens: Seq<Open>, m: int, i: int) -> int {
    if m + 1 < opens.len() {
        opens[m + 1].at
    } else {
        i
    }
}

/// Whether the items between `a` and `i` are all indented deeper than item `a`.
pub open spec fn deeper_between(items: Seq<Item>, a: int, i: int) -> bool {
    forall|j: int| a < j < i ==> (#[trigger] items[j]).indent > items[a].indent
}

/// What holds of open node `m` when the items before `i` have been taken in.
pub open spec fn open_ok(items: Seq<Item>, opens: Seq<Open>, m: int, i: int) -> bool {
    let a = opens[m].at;
    let u = upper(opens, m, i);
    &&& 0 <= a < u <= i
    &&& is_container(items[a].node)
    &&& opens[m].indent == items[a].indent
    &&& opens[m].head == items[a].node
    &&& opens[m].kids == forest(items, a + 1, u)
    &&& ends_at(items, a + 1, u)
    &&& deeper_between(items, a, i)
}

/// What holds of the stack and the roots when the items before `i` have been taken in.
pub open spec fn machine_ok(items: Seq<Item>, roots: Seq<Node>, opens: Seq<Open>, i: int) -> bool {
    let floor = if opens.len() > 0 {
        opens[0].at
    } else {
        i
    };
    &&& 0 <= i <= items.len()
    &&& forall|m: int| 0 <= m < opens.len() ==> #[trigger] open_ok(items, opens, m, i)
    &&& roots == forest(items, 0, floor)
    &&& ends_at(items, 0, floor)
}

/// The innermost open node is the deepest one.
pub proof fn lemma_innermost_is_deepest(
    items: Seq<Item>,
    roots: Seq<Node>,
    opens: Seq<Open>,
    i: int,
    m: int,
)
    requires
        machine_ok(items, roots, opens, i),
        0 <= m < opens.len(),
    ensures
        opens[m].indent <= opens[opens.len() - 1].indent,
    decreases opens.len() - m,
{
    if m + 1 < opens.len() {
        assert(open_ok(items, opens, m, i));
        assert(open_ok(items, opens, m + 1, i));
        lemma_innermost_is_deepest(items, roots, opens, i, m + 1);
    }
}

/// The innermost open node, closed: its item with the children gathered.
pub open spec fn closed_node(opens: Seq<Open>) -> Node {
    adopt(opens[opens.len() - 1].head, opens[opens.len() - 1].kids)
}

/// The open nodes after `n` has become a child of the innermost one.
pub open spec fn give_child(opens: Seq<Open>, n: Node) -> Seq<Open> {
    let last = opens.len() - 1;
    opens.update(last, Open { kids: opens[last].kids.push(n), ..opens[last] })
}

/// Closing the innermost open node keeps the machine in order, where the items are
/// at their end or the next item is indented no deeper than that node.
pub proof fn lemma_close(items: Seq<Item>, roots: Seq<Node>, opens: Seq<Open>, i: int)
    requires
        machine_ok(items, roots, opens, i),
        opens.len() > 0,
        i < items.len() ==> items[i].indent <= opens[opens.len() - 1].indent,
    ensures
        opens.len() == 1 ==> machine_ok(items, roots.push(closed_node(opens)), Seq::empty(), i),
        opens.len() > 1 ==> machine_ok(
            items,
            roots,
            give_child(opens.drop_last(), closed_node(opens)),
            i,
        ),
{
    let last = opens.len() - 1;
    let a = opens[last].at;
    assert(open_ok(items, opens, last, i));
    lemma_block_end_is(items, a, a + 1, i);
    assert(next_sibling(items, a) == i);
    let n = closed_node(opens);
    assert(n == node_at(items, a, i));
    assert(forest(items, i, i) =~= Seq::empty());
    assert(forest(items, a, i) =~= seq![n]);
    assert(ends_at(items, i, i));
    assert(ends_at(items, a, i));
    if opens.len() == 1 {
        lemma_forest_split(items, 0, a, i);
        lemma_ends_at_join(items, 0, a, i);
        assert(roots.push(n) =~= forest(items, 0, a) + seq![n]);
    } else {
        let rest = opens.drop_last();
        let next = give_child(rest, n);
        let p = last - 1;
        assert(open_ok(items, opens, p, i));
        let b = opens[p].at;
        lemma_forest_split(items, b + 1, a, i);
        lemma_ends_at_join(items, b + 1, a, i);
        assert(opens[p].kids.push(n) =~= forest(items, b + 1, a) + seq![n]);
        assert forall|m: int| 0 <= m < next.len() implies #[trigger] open_ok(items, next, m, i) by {
            assert(open_ok(items, opens, m, i));
            if m < p {
                assert(next[m] == opens[m]);
                assert(upper(next, m, i) == upper(opens, m, i));
            }
        }
        assert(next[0].at == opens[0].at);
    }
}

/// The open nodes after item `i`, which may have children, has been opened.
pub open spec fn open_item(items: Seq<Item>, opens: Seq<Open>, i: int) -> Seq<Open> {
    opens.push(Open { at: i, indent: items[i].indent, head: items[i].node, kids: Seq::empty() })
}

/// Taking in item `i` keeps the machine in order, once every open node is indented
/// less than it: the item is opened where it may have children, and else becomes a
/// child of the innermost open node, or a root.
pub proof fn lemma_take(items: Seq<Item>, roots: Seq<Node>, opens: Seq<Open>, i: int)
    requires
        machine_ok(items, roots, opens, i),
        i < items.len(),
        opens.len() > 0 ==> opens[opens.len() - 1].indent < items[i].indent,
    ensures
        is_container(items[i].node) ==> machine_ok(items, roots, open_item(items, opens, i), i + 1),
        !is_container(items[i].node) && opens.len() == 0 ==> machine_ok(
            items,
            roots.push(items[i].node),
            opens,
            i + 1,
        ),
        !is_container(items[i].node) && opens.len() > 0 ==> machine_ok(
            items,
            roots,
            give_child(opens, items[i].node),
            i + 1,
        ),
{
    let i1 = i + 1;
    assert forall|m: int| 0 <= m < opens.len() implies deeper_between(
        items,
        (#[trigger] opens[m]).at,
        i1,
    ) by {
        assert(open_ok(items, opens, m, i));
        lemma_innermost_is_deepest(items, roots, opens, i, m);
    }
    if is_container(items[i].node) {
        let next = open_item(items, opens, i);
        assert(forest(items, i + 1, i + 1) =~= Seq::empty());
        assert(ends_at(items, i + 1, i + 1));
        assert forall|m: int| 0 <= m < next.len() implies #[trigger] open_ok(items, next, m, i1) by {
            if m < opens.len() {
                assert(open_ok(items, opens, m, i));
                assert(next[m] == opens[m]);
                assert(upper(next, m, i + 1) == upper(opens, m, i));
            }
        }
    } else {
        let n = items[i].node;
        assert(n == node_at(items, i, i + 1));
        assert(forest(items, i + 1, i + 1) =~= Seq::empty());
        assert(forest(items, i, i + 1) =~= seq![n]);
        assert(ends_at(items, i + 1, i + 1));
        assert(ends_at(items, i, i + 1));
        if opens.len() == 0 {
            lemma_forest_split(items, 0, i, i + 1);
            lemma_ends_at_join(items, 0, i, i + 1);
            assert(roots.push(n) =~= forest(items, 0, i) + seq![n]);
        } else {
            let last = opens.len() - 1;
            let next = give_child(opens, n);
            assert(open_ok(items, opens, last, i));
            let b = opens[last].at;
            lemma_forest_split(items, b + 1, i, i + 1);
            lemma_ends_at_join(items, b + 1, i, i + 1);
            assert(opens[last].kids.push(n) =~= forest(items, b + 1, i) + seq![n]);
            assert forall|m: int| 0 <= m < next.len() implies #[trigger] open_ok(items, next, m, i1) by {
                assert(open_ok(items, opens, m, i));
                if m < last {
                    assert(next[m] == opens[m]);
                    assert(upper(next, m, i + 1) == upper(opens, m, i));
                }
            }
            assert(next[0].at == opens[0].at);
        }
    }
}


/// A node that is still open, on the stack.
pub struct Frame {
    indent: usize,
    head: FerrumNode,
    kids: Vec<FerrumNode>,
    at: Ghost<int>,
}

impl View for Frame {
    type V = Open;

    closed spec fn view(&self) -> Open {
        Open {
            at: self.at@,
            indent: self.indent as int,
            head: self.head@,
            kids: forest_view(self.kids@),
        }
    }
}

/// The models of the frames of a stack, outermost first.
pub open spec fn opens_of(stack: Seq<Frame>) -> Seq<Open> {
    Seq::new(stack.len(), |m: int| stack[m]@)
}

/// The items that a vector of indentation widths and nodes stands for.
pub open spec fn items_of(lines: Seq<(usize, FerrumNode)>) -> Seq<Item> {
    Seq::new(lines.len(), |k: int| Item { indent: lines[k].0 as int, node: lines[k].1@ })
}

/// Makes `node` the last child of the innermost open node.
fn give_to_top(stack: &mut Vec<Frame>, node: FerrumNode)
    requires
        old(stack).len() > 0,
    ensures
        opens_of(final(stack)@) == give_child(opens_of(old(stack)@), node@),
        final(stack).len() == old(stack).len(),
{
    let ghost before = opens_of(stack@);
    let mut top = stack.pop().unwrap();
    proof {
        lemma_forest_view_push(top.kids@, node);
    }
    top.kids.push(node);
    stack.push(top);
    assert(opens_of(stack@) =~= give_child(before, node@));
}

/// Closes the innermost open node: with its children it becomes the last child of
/// the open node around it, or the last root where there is none.
fn close_top(roots: &mut Vec<FerrumNode>, stack: &mut Vec<Frame>)
    requires
        old(stack).len() > 0,
    ensures
        old(stack).len() == 1 ==> final(stack)@.len() == 0 && forest_view(final(roots)@)
            == forest_view(old(roots)@).push(closed_node(opens_of(old(stack)@))),
        old(stack).len() > 1 ==> forest_view(final(roots)@) == forest_view(old(roots)@)
            && opens_of(final(stack)@) == give_child(
            opens_of(old(stack)@).drop_last(),
            closed_node(opens_of(old(stack)@)),
        ),
        final(stack).len() == old(stack).len() - 1,
{
    let ghost before = opens_of(stack@);
    let top = stack.pop().unwrap();
    assert(top@ == before[before.len() - 1]);
    assert(opens_of(stack@) =~= before.drop_last());
    let node = top.head.adopt(top.kids);
    assert(node@ == closed_node(before));
    if stack.len() == 0 {
        proof {
            lemma_forest_view_push(roots@, node);
        }
        roots.push(node);
    } else {
        give_to_top(stack, node);
    }
}

/// Builds the forest that the lines give: each node takes as its children the
/// lines that follow it, up to the first one that is indented no deeper.
pub fn nest(lines: Vec<(usize, FerrumNode)>) -> (roots: Vec<FerrumNode>)
    ensures
        forest_view(roots@) == forest_of(items_of(lines@)),
{
    let ghost all = lines@;
    let ghost items = items_of(lines@);
    let mut roots: Vec<FerrumNode> = Vec::new();
    let mut stack: Vec<Frame> = Vec::new();
    proof {
        assert(forest_view(roots@) =~= Seq::empty());
        assert(opens_of(stack@) =~= Seq::empty());
        assert(forest(items, 0, 0) =~= Seq::empty());
    }
    for line in it: lines
        invariant
            it.seq() == all,
            items == items_of(all),
            machine_ok(items, forest_view(roots@), opens_of(stack@), it.index() as int),
    {
        let ghost i = it.index() as int;
        let (indent, node) = line;
        assert(items[i].indent == indent as int && items[i].node == node@);
        while stack.len() > 0 && stack[stack.len() - 1].indent >= indent
            invariant
                0 <= i < items.len(),
                items[i].indent == indent as int,
                machine_ok(items, forest_view(roots@), opens_of(stack@), i),
            decreases stack.len(),
        {
            proof {
                assert(opens_of(stack@)[stack.len() - 1] == stack[stack.len() - 1]@);
                lemma_close(items, forest_view(roots@), opens_of(stack@), i);
            }
            close_top(&mut roots, &mut stack);
            proof {
                if stack.len() == 0 {
                    assert(opens_of(stack@) =~= Seq::empty());
                }
            }
        }
        proof {
            if stack.len() > 0 {
                assert(opens_of(stack@)[stack.len() - 1] == stack[stack.len() - 1]@);
            }
            lemma_take(items, forest_view(roots@), opens_of(stack@), i);
        }
        if node.can_have_children() {
            let ghost before = opens_of(stack@);
            let kids: Vec<FerrumNode> = Vec::new();
            assert(forest_view(kids@) =~= Seq::empty());
            stack.push(Frame { indent, head: node, kids, at: Ghost(i) });
            assert(opens_of(stack@) =~= open_item(items, before, i));
        } else if stack.len() == 0 {
            proof {
                lemma_forest_view_push(roots@, node);
            }
            roots.push(node);
        } else {
            give_to_top(&mut stack, node);
        }
    }
    let ghost n = items.len() as int;
    while stack.len() > 0
        invariant
            n == items.len(),
            machine_ok(items, forest_view(roots@), opens_of(stack@), n),
        decreases stack.len(),
    {
        proof {
            lemma_close(items, forest_view(roots@), opens_of(stack@), n);
        }
        close_top(&mut roots, &mut stack);
        proof {
            if stack.len() == 0 {
                assert(opens_of(stack@) =~= Seq::empty());
            }
        }
    }
    roots
}

} // verus!
