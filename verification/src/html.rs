//! The HTML generator: from a forest to a static document.
//!
//! A forest is written as a stream of events: an element opens its tag, writes
//! its children and closes its tag; a component does the same with a `div`
//! that carries its name and arguments as data attributes; text is written as
//! it is, without escaping; state bindings and imports write nothing. The
//! document wraps the stream in a fixed shell that embeds a stylesheet.

use crate::ast::{forest_view, FerrumNode, Node};
use crate::props::{Entries, Props};
use crate::text::{put_char, put_str, starts_with, string_of};
use vstd::prelude::*;

verus! {

/// What the generator writes, piece by piece.
pub enum Event {
    /// An opening tag `<name attrs>`; `attrs` holds each attribute behind a space.
    Open { name: Seq<char>, attrs: Seq<char> },
    /// A closing tag `</name>`.
    Close { name: Seq<char> },
    /// Text, written as it is.
    Text { text: Seq<char> },
}

/// The first `n` of `props`, each as ` key='value'` with `lead` before the key.
pub open spec fn attrs_html(props: Entries, lead: Seq<char>, n: int) -> Seq<char>
    decreases n,
{
    if n <= 0 {
        Seq::empty()
    } else {
        attrs_html(props, lead, n - 1) + seq![' '] + lead + props[n - 1].0 + seq!['=', '\'']
            + props[n - 1].1 + seq!['\'']
    }
}

/// The events of `n`.
pub open spec fn node_events(n: Node) -> Seq<Event>
    decreases n, 0nat,
{
    match n {
        Node::Element { tag, props, children } => seq![
            Event::Open { name: tag, attrs: attrs_html(props, Seq::empty(), props.len() as int) },
        ] + run_events(children, children.len() as int) + seq![Event::Close { name: tag }],
        Node::Text(t) => seq![Event::Text { text: t }],
        Node::Component { name, props, children } => seq![
            Event::Open {
                name: "div"@,
                attrs: " data-component='"@ + name + seq!['\''] + attrs_html(
                    props,
                    "data-"@,
                    props.len() as int,
                ),
            },
        ] + run_events(children, children.len() as int) + seq![Event::Close { name: "div"@ }],
        _ => Seq::empty(),
    }
}

/// The events of the first `n` nodes of `f`.
pub open spec fn run_events(f: Seq<Node>, n: int) -> Seq<Event>
    decreases f, n,
{
    if n <= 0 || n > f.len() {
        Seq::empty()
    } else {
        run_events(f, n - 1) + node_events(f[n - 1])
    }
}

/// The events of the forest `f`.
pub open spec fn forest_events(f: Seq<Node>) -> Seq<Event> {
    run_events(f, f.len() as int)
}

/// An event as it is written.
pub open spec fn event_text(e: Event) -> Seq<char> {
    match e {
        Event::Open { name, attrs } => seq!['<'] + name + attrs + seq!['>'],
        Event::Close { name } => seq!['<', '/'] + name + seq!['>'],
        Event::Text { text } => text,
    }
}

/// The first `n` of `es` as they are written.
pub open spec fn events_text(es: Seq<Event>, n: int) -> Seq<char>
    decreases n,
{
    if n <= 0 {
        Seq::empty()
    } else {
        events_text(es, n - 1) + event_text(es[n - 1])
    }
}

/// The events `es` as they are written.
pub open spec fn html_of(es: Seq<Event>) -> Seq<char> {
    events_text(es, es.len() as int)
}

/// The first `n` events depend on those events only.
pub proof fn lemma_events_text_prefix(a: Seq<Event>, b: Seq<Event>, n: int)
    requires
        n <= a.len(),
        n <= b.len(),
        forall|i: int| 0 <= i < n ==> a[i] == b[i],
    ensures
        events_text(a, n) == events_text(b, n),
    decreases n,
{
    if n > 0 {
        lemma_events_text_prefix(a, b, n - 1);
    }
}

/// Events in a row are written as their texts in a row.
pub proof fn lemma_html_of_add(a: Seq<Event>, b: Seq<Event>)
    ensures
        html_of(a + b) == html_of(a) + html_of(b),
    decreases b.len(),
{
    if b.len() == 0 {
        assert(a + b =~= a);
        assert(html_of(a) + html_of(b) =~= html_of(a));
    } else {
        let b0 = b.drop_last();
        lemma_html_of_add(a, b0);
        lemma_events_text_prefix(a + b, a + b0, (a + b0).len() as int);
        lemma_events_text_prefix(b, b0, b0.len() as int);
        assert((a + b)[a.len() + b.len() - 1] == b[b.len() - 1]);
        assert(html_of(a + b) =~= html_of(a) + html_of(b));
    }
}

/// One event is written as its text.
pub proof fn lemma_html_of_one(e: Event)
    ensures
        html_of(seq![e]) == event_text(e),
{
    assert(events_text(seq![e], 0) =~= Seq::empty());
    assert(html_of(seq![e]) =~= event_text(e));
}

/// The HTML of the node `n`.
pub open spec fn html_node(n: Node) -> Seq<char> {
    html_of(node_events(n))
}

/// The HTML of the forest `f`, without the document around it.
pub open spec fn body_html(f: Seq<Node>) -> Seq<char> {
    html_of(forest_events(f))
}

/// What every document writes before the forest: the doctype, the head with its
/// title and the stylesheet `css`, and the opening of the body and of the root container.
pub open spec fn shell_before(css: Seq<char>) -> Seq<Event> {
    seq![
        Event::Text { text: "<!DOCTYPE html>"@ },
        Event::Open { name: "html"@, attrs: " lang='en'"@ },
        Event::Open { name: "head"@, attrs: Seq::empty() },
        Event::Text { text: "<meta charset='UTF-8'>"@ },
        Event::Text {
            text: "<meta name='viewport' content='width=device-width, initial-scale=1.0'>"@,
        },
        Event::Open { name: "title"@, attrs: Seq::empty() },
        Event::Text { text: "Ferrum App - Pure Rust"@ },
        Event::Close { name: "title"@ },
        Event::Open { name: "style"@, attrs: Seq::empty() },
        Event::Text { text: css },
        Event::Close { name: "style"@ },
        Event::Close { name: "head"@ },
        Event::Open { name: "body"@, attrs: Seq::empty() },
        Event::Open { name: "div"@, attrs: " id='ferrum-app'"@ },
    ]
}

/// What every document writes behind the forest: the closing of the root container,
/// of the body and of the document.
pub open spec fn shell_after() -> Seq<Event> {
    seq![
        Event::Close { name: "div"@ },
        Event::Close { name: "body"@ },
        Event::Close { name: "html"@ },
    ]
}

/// The events of the document for the forest `f` with the stylesheet `css`.
pub open spec fn document_events(f: Seq<Node>, css: Seq<char>) -> Seq<Event> {
    shell_before(css) + forest_events(f) + shell_after()
}

/// The document for the forest `f` with the stylesheet `css`.
pub open spec fn document(f: Seq<Node>, css: Seq<char>) -> Seq<char> {
    html_of(document_events(f, css))
}

/// Whether the events `es`, read with the tags `open` still open (innermost last),
/// close every tag that they or `open` opened, innermost first, and no other.
pub open spec fn nests(es: Seq<Event>, open: Seq<Seq<char>>) -> bool
    decreases es.len(),
{
    if es.len() == 0 {
        open.len() == 0
    } else {
        match es[0] {
            Event::Open { name, .. } => nests(es.drop_first(), open.push(name)),
            Event::Close { name } => open.len() > 0 && open[open.len() - 1] == name && nests(
                es.drop_first(),
                open.drop_last(),
            ),
            Event::Text { .. } => nests(es.drop_first(), open),
        }
    }
}

/// Whether every tag that `es` opens is closed, innermost first, and nothing else is closed.
pub open spec fn balanced(es: Seq<Event>) -> bool {
    nests(es, Seq::empty())
}

/// The events of a node leave the open tags as they found them.
pub proof fn lemma_node_nests(n: Node, rest: Seq<Event>, open: Seq<Seq<char>>)
    ensures
        nests(node_events(n) + rest, open) == nests(rest, open),
    decreases n, 0nat,
{
    match n {
        Node::Element { tag, props, children } => {
            let first = Event::Open {
                name: tag,
                attrs: attrs_html(props, Seq::empty(), props.len() as int),
            };
            let kids = run_events(children, children.len() as int);
            let last = seq![Event::Close { name: tag }];
            let all = node_events(n) + rest;
            assert(all[0] == first);
            assert(all.drop_first() =~= kids + (last + rest));
            lemma_run_nests(children, children.len() as int, last + rest, open.push(tag));
            assert((last + rest).drop_first() =~= rest);
            assert(open.push(tag).drop_last() =~= open);
        },
        Node::Component { name, props, children } => {
            let kids = run_events(children, children.len() as int);
            let last = seq![Event::Close { name: "div"@ }];
            let all = node_events(n) + rest;
            assert(all[0] is Open);
            assert(all.drop_first() =~= kids + (last + rest));
            lemma_run_nests(children, children.len() as int, last + rest, open.push("div"@));
            assert((last + rest).drop_first() =~= rest);
            assert(open.push("div"@).drop_last() =~= open);
        },
        Node::Text(t) => {
            let all = node_events(n) + rest;
            assert(all.drop_first() =~= rest);
        },
        _ => {
            assert(node_events(n) + rest =~= rest);
        },
    }
}

/// The events of a run of nodes leave the open tags as they found them.
pub proof fn lemma_run_nests(f: Seq<Node>, n: int, rest: Seq<Event>, open: Seq<Seq<char>>)
    ensures
        nests(run_events(f, n) + rest, open) == nests(rest, open),
    decreases f, n,
{
    if n <= 0 || n > f.len() {
        assert(run_events(f, n) + rest =~= rest);
    } else {
        let last = node_events(f[n - 1]);
        assert(run_events(f, n) + rest =~= run_events(f, n - 1) + (last + rest));
        lemma_run_nests(f, n - 1, last + rest, open);
        lemma_node_nests(f[n - 1], rest, open);
    }
}

/// How the events from `k` on nest: the event at `k` opens or closes a tag, or
/// writes text, and the others follow.
pub proof fn lemma_nests_at(all: Seq<Event>, k: int, open: Seq<Seq<char>>)
    requires
        0 <= k < all.len(),
    ensures
        nests(all.subrange(k, all.len() as int), open) == match all[k] {
            Event::Open { name, .. } => nests(
                all.subrange(k + 1, all.len() as int),
                open.push(name),
            ),
            Event::Close { name } => open.len() > 0 && open[open.len() - 1] == name && nests(
                all.subrange(k + 1, all.len() as int),
                open.drop_last(),
            ),
            Event::Text { .. } => nests(all.subrange(k + 1, all.len() as int), open),
        },
{
    let from = all.subrange(k, all.len() as int);
    assert(from[0] == all[k]);
    assert(from.drop_first() =~= all.subrange(k + 1, all.len() as int));
}

/// In every document, every tag that is opened is closed, innermost first: those
/// of the shell around the forest as those of the forest.
pub proof fn lemma_document_balanced(f: Seq<Node>, css: Seq<char>)
    ensures
        balanced(document_events(f, css)),
{
    let before = shell_before(css);
    let body = forest_events(f);
    let after = shell_after();
    let all = document_events(f, css);
    let n = all.len() as int;
    let none = Seq::<Seq<char>>::empty();
    let s1 = seq!["html"@];
    let s2 = seq!["html"@, "head"@];
    let s3 = seq!["html"@, "head"@, "title"@];
    let s4 = seq!["html"@, "head"@, "style"@];
    let s5 = seq!["html"@, "body"@];
    let s6 = seq!["html"@, "body"@, "div"@];
    assert forall|k: int| 0 <= k < 14 implies all[k] == before[k] by {}
    assert(all.subrange(0, n) =~= all);
    lemma_nests_at(all, 0, none);
    lemma_nests_at(all, 1, none);
    assert(none.push("html"@) =~= s1);
    lemma_nests_at(all, 2, s1);
    assert(s1.push("head"@) =~= s2);
    lemma_nests_at(all, 3, s2);
    lemma_nests_at(all, 4, s2);
    lemma_nests_at(all, 5, s2);
    assert(s2.push("title"@) =~= s3);
    lemma_nests_at(all, 6, s3);
    lemma_nests_at(all, 7, s3);
    assert(s3.drop_last() =~= s2);
    lemma_nests_at(all, 8, s2);
    assert(s2.push("style"@) =~= s4);
    lemma_nests_at(all, 9, s4);
    lemma_nests_at(all, 10, s4);
    assert(s4.drop_last() =~= s2);
    lemma_nests_at(all, 11, s2);
    assert(s2.drop_last() =~= s1);
    lemma_nests_at(all, 12, s1);
    assert(s1.push("body"@) =~= s5);
    lemma_nests_at(all, 13, s5);
    assert(s5.push("div"@) =~= s6);
    // the forest
    assert(all.subrange(14, n) =~= body + after);
    lemma_run_nests(f, f.len() as int, after, s6);
    // the closing of the shell
    let m: int = 14 + body.len() as int;
    assert(all.subrange(m, n) =~= after);
    assert(all[m] == after[0]);
    assert(all[m + 1] == after[1]);
    assert(all[m + 2] == after[2]);
    lemma_nests_at(all, m, s6);
    assert(s6.drop_last() =~= s5);
    lemma_nests_at(all, m + 1, s5);
    assert(s5.drop_last() =~= s1);
    lemma_nests_at(all, m + 2, s1);
    assert(s1.drop_last() =~= none);
    assert(all.subrange(m + 3, n) =~= Seq::<Event>::empty());
}

/// Every document begins with the doctype.
pub proof fn lemma_document_begins_with_doctype(f: Seq<Node>, css: Seq<char>)
    ensures
        starts_with(document(f, css), "<!DOCTYPE html>"@),
{
    let all = document_events(f, css);
    let first = Event::Text { text: "<!DOCTYPE html>"@ };
    let rest = all.drop_first();
    assert(all[0] == first);
    assert(all =~= seq![first] + rest);
    lemma_html_of_add(seq![first], rest);
    lemma_html_of_one(first);
    let p = "<!DOCTYPE html>"@;
    assert(document(f, css).subrange(0, p.len() as int) =~= p);
}

/// Appends the attributes of `props` to `out`.
fn put_attrs(out: &mut Vec<char>, props: &Props, lead: &str)
    ensures
        final(out)@ == old(out)@ + attrs_html(props@, lead@, props@.len() as int),
{
    let n = props.len();
    let mut i: usize = 0;
    assert(out@ =~= old(out)@ + attrs_html(props@, lead@, 0));
    while i < n
        invariant
            i <= n,
            n == props@.len(),
            out@ == old(out)@ + attrs_html(props@, lead@, i as int),
        decreases n - i,
    {
        put_char(out, ' ');
        put_str(out, lead);
        put_str(out, props.key_at(i).as_str());
        put_char(out, '=');
        put_char(out, '\'');
        put_str(out, props.value_at(i).as_str());
        put_char(out, '\'');
        assert(out@ =~= old(out)@ + (attrs_html(props@, lead@, i as int) + seq![' '] + lead@
            + props@[i as int].0 + seq!['=', '\''] + props@[i as int].1 + seq!['\'']));
        i += 1;
    }
}

/// Appends the HTML of the children `kids` to `out`.
#[verifier::loop_isolation(false)]
fn put_run(out: &mut Vec<char>, kids: &Vec<FerrumNode>)
    ensures
        final(out)@ == old(out)@ + html_of(forest_events(forest_view(kids@))),
    decreases kids,
{
    let ghost f = forest_view(kids@);
    let mut i: usize = 0;
    assert(out@ =~= old(out)@ + html_of(run_events(f, 0)));
    while i < kids.len()
        invariant
            i <= kids.len(),
            f == forest_view(kids@),
            out@ == old(out)@ + html_of(run_events(f, i as int)),
        decreases kids.len() - i,
    {
        put_node(out, &kids[i]);
        proof {
            assert(f[i as int] == kids[i as int]@);
            lemma_html_of_add(run_events(f, i as int), node_events(f[i as int]));
            assert(out@ =~= old(out)@ + (html_of(run_events(f, i as int)) + html_of(
                node_events(f[i as int]),
            )));
        }
        i += 1;
    }
}

/// Appends the HTML of `node` to `out`.
fn put_node(out: &mut Vec<char>, node: &FerrumNode)
    ensures
        final(out)@ == old(out)@ + html_node(node@),
    decreases node,
{
    match node {
        FerrumNode::Element { tag, props, children } => {
            let ghost open = Event::Open {
                name: tag@,
                attrs: attrs_html(props@, Seq::empty(), props@.len() as int),
            };
            let ghost close = Event::Close { name: tag@ };
            let ghost kids = forest_events(forest_view(children@));
            put_char(out, '<');
            put_str(out, tag.as_str());
            put_attrs(out, props, "");
            put_char(out, '>');
            proof {
                reveal_strlit("");
                assert(""@ =~= Seq::<char>::empty());
                assert(out@ =~= old(out)@ + event_text(open));
            }
            put_run(out, children);
            put_char(out, '<');
            put_char(out, '/');
            put_str(out, tag.as_str());
            put_char(out, '>');
            proof {
                lemma_html_of_one(open);
                lemma_html_of_one(close);
                lemma_html_of_add(seq![open], kids);
                lemma_html_of_add(seq![open] + kids, seq![close]);
                assert(out@ =~= old(out)@ + (event_text(open) + html_of(kids) + event_text(close)));
            }
        },
        FerrumNode::Text(t) => {
            put_str(out, t.as_str());
            proof {
                lemma_html_of_one(Event::Text { text: t@ });
            }
        },
        FerrumNode::Component { name, props, children } => {
            let ghost open = Event::Open {
                name: "div"@,
                attrs: " data-component='"@ + name@ + seq!['\''] + attrs_html(
                    props@,
                    "data-"@,
                    props@.len() as int,
                ),
            };
            let ghost close = Event::Close { name: "div"@ };
            let ghost kids = forest_events(forest_view(children@));
            put_char(out, '<');
            put_str(out, "div");
            put_str(out, " data-component='");
            put_str(out, name.as_str());
            put_char(out, '\'');
            put_attrs(out, props, "data-");
            put_char(out, '>');
            proof {
                assert(out@ =~= old(out)@ + event_text(open));
            }
            put_run(out, children);
            put_char(out, '<');
            put_char(out, '/');
            put_str(out, "div");
            put_char(out, '>');
            proof {
                lemma_html_of_one(open);
                lemma_html_of_one(close);
                lemma_html_of_add(seq![open], kids);
                lemma_html_of_add(seq![open] + kids, seq![close]);
                assert(out@ =~= old(out)@ + (event_text(open) + html_of(kids) + event_text(close)));
            }
        },
        _ => {
            assert(html_of(Seq::<Event>::empty()) =~= Seq::<char>::empty());
            assert(out@ =~= old(out)@ + html_node(node@));
        },
    }
}

/// The HTML of `node`: its tag with its attributes around the HTML of its children
/// for an element, a `div` with data attributes for a component, the text itself
/// for text, and nothing for the other kinds.
pub fn node_to_html(node: &FerrumNode) -> (r: String)
    ensures
        r@ == html_node(node@),
{
    let mut out: Vec<char> = Vec::new();
    put_node(&mut out, node);
    assert(out@ =~= html_node(node@));
    string_of(&out)
}

/// The HTML of the forest `nodes`, without the document around it.
pub fn generate_body_html_from_nodes(nodes: &Vec<FerrumNode>) -> (r: String)
    ensures
        r@ == body_html(forest_view(nodes@)),
{
    let mut out: Vec<char> = Vec::new();
    put_run(&mut out, nodes);
    assert(out@ =~= body_html(forest_view(nodes@)));
    string_of(&out)
}

/// Appends the opening tag `<name attrs>` to `out`.
fn put_open(out: &mut Vec<char>, name: &str, attrs: &str)
    ensures
        final(out)@ == old(out)@ + event_text(Event::Open { name: name@, attrs: attrs@ }),
{
    put_char(out, '<');
    put_str(out, name);
    put_str(out, attrs);
    put_char(out, '>');
    assert(out@ =~= old(out)@ + (seq!['<'] + name@ + attrs@ + seq!['>']));
}

/// Appends the closing tag `</name>` to `out`.
fn put_close(out: &mut Vec<char>, name: &str)
    ensures
        final(out)@ == old(out)@ + event_text(Event::Close { name: name@ }),
{
    put_char(out, '<');
    put_char(out, '/');
    put_str(out, name);
    put_char(out, '>');
    assert(out@ =~= old(out)@ + (seq!['<', '/'] + name@ + seq!['>']));
}

/// Appends what every document writes before the forest to `out`.
fn put_shell_before(out: &mut Vec<char>, stylesheet: &str)
    ensures
        final(out)@ == old(out)@ + html_of(shell_before(stylesheet@)),
{
    let ghost es = shell_before(stylesheet@);
    let ghost start = out@;
    proof {
        reveal_strlit("");
        assert(""@ =~= Seq::<char>::empty());
        assert(events_text(es, 0) =~= Seq::empty());
    }
    put_str(out, "<!DOCTYPE html>");
    assert(out@ =~= start + events_text(es, 1));
    put_open(out, "html", " lang='en'");
    assert(out@ =~= start + events_text(es, 2));
    put_open(out, "head", "");
    assert(out@ =~= start + events_text(es, 3));
    put_str(out, "<meta charset='UTF-8'>");
    assert(out@ =~= start + events_text(es, 4));
    put_str(out, "<meta name='viewport' content='width=device-width, initial-scale=1.0'>");
    assert(out@ =~= start + events_text(es, 5));
    put_open(out, "title", "");
    assert(out@ =~= start + events_text(es, 6));
    put_str(out, "Ferrum App - Pure Rust");
    assert(out@ =~= start + events_text(es, 7));
    put_close(out, "title");
    assert(out@ =~= start + events_text(es, 8));
    put_open(out, "style", "");
    assert(out@ =~= start + events_text(es, 9));
    put_str(out, stylesheet);
    assert(out@ =~= start + events_text(es, 10));
    put_close(out, "style");
    assert(out@ =~= start + events_text(es, 11));
    put_close(out, "head");
    assert(out@ =~= start + events_text(es, 12));
    put_open(out, "body", "");
    assert(out@ =~= start + events_text(es, 13));
    put_open(out, "div", " id='ferrum-app'");
    assert(out@ =~= start + events_text(es, 14));
}

/// Appends what every document writes behind the forest to `out`.
fn put_shell_after(out: &mut Vec<char>)
    ensures
        final(out)@ == old(out)@ + html_of(shell_after()),
{
    let ghost es = shell_after();
    let ghost start = out@;
    assert(events_text(es, 0) =~= Seq::empty());
    put_close(out, "div");
    assert(out@ =~= start + events_text(es, 1));
    put_close(out, "body");
    assert(out@ =~= start + events_text(es, 2));
    put_close(out, "html");
    assert(out@ =~= start + events_text(es, 3));
}

/// The document for the forest `nodes`: doctype, a head that embeds `stylesheet`,
/// and a body whose root container holds the HTML of the forest. Every tag that
/// the document opens it closes, innermost first.
pub fn generate_html_from_nodes(nodes: &Vec<FerrumNode>, stylesheet: &str) -> (r: String)
    ensures
        r@ == document(forest_view(nodes@), stylesheet@),
        starts_with(r@, "<!DOCTYPE html>"@),
        balanced(document_events(forest_view(nodes@), stylesheet@)),
{
    let mut out: Vec<char> = Vec::new();
    put_shell_before(&mut out, stylesheet);
    put_run(&mut out, nodes);
    put_shell_after(&mut out);
    proof {
        let f = forest_view(nodes@);
        let before = shell_before(stylesheet@);
        lemma_html_of_add(before, forest_events(f));
        lemma_html_of_add(before + forest_events(f), shell_after());
        assert(out@ =~= html_of(before) + html_of(forest_events(f)) + html_of(shell_after()));
        lemma_document_begins_with_doctype(f, stylesheet@);
        lemma_document_balanced(f, stylesheet@);
    }
    string_of(&out)
}

/// What stands before the message on the page that reports an error.
pub open spec fn error_page_head() -> Seq<char> {
    "\n<!DOCTYPE html>\n<html lang='en'>\n<head>\n    <meta charset='UTF-8'>\n    <title>Ferrum Error</title>\n    <style>\n        body {\n            font-family: system-ui, sans-serif;\n            background: #1a1a1a;\n            color: white;\n            margin: 0;\n            padding: 2rem;\n        }\n        .error-container {\n            max-width: 600px;\n            margin: 0 auto;\n            background: #2d2d2d;\n            border-radius: 8px;\n            padding: 2rem;\n            border: 1px solid #ef4444;\n        }\n        .error-title {\n            color: #ef4444;\n            font-size: 1.5rem;\n            margin-bottom: 1rem;\n        }\n        .error-message {\n            font-size: 1rem;\n            line-height: 1.5;\n        }\n    </style>\n</head>\n<body>\n    <div class='error-container'>\n        <h1 class='error-title'>\u{26a0}\u{fe0f} Ferrum Compilation Error</h1>\n        <p class='error-message'>"@
}

/// What stands behind the message on the page that reports an error.
pub open spec fn error_page_foot() -> Seq<char> {
    "</p>\n    </div>\n</body>\n</html>\n    "@
}

/// The page that reports `error_message`, which is written as it is.
pub fn generate_error_page(error_message: &str) -> (r: String)
    ensures
        r@ == error_page_head() + error_message@ + error_page_foot(),
{
    let mut out: Vec<char> = Vec::new();
    put_str(
        &mut out,
        "\n<!DOCTYPE html>\n<html lang='en'>\n<head>\n    <meta charset='UTF-8'>\n    <title>Ferrum Error</title>\n    <style>\n        body {\n            font-family: system-ui, sans-serif;\n            background: #1a1a1a;\n            color: white;\n            margin: 0;\n            padding: 2rem;\n        }\n        .error-container {\n            max-width: 600px;\n            margin: 0 auto;\n            background: #2d2d2d;\n            border-radius: 8px;\n            padding: 2rem;\n            border: 1px solid #ef4444;\n        }\n        .error-title {\n            color: #ef4444;\n            font-size: 1.5rem;\n            margin-bottom: 1rem;\n        }\n        .error-message {\n            font-size: 1rem;\n            line-height: 1.5;\n        }\n    </style>\n</head>\n<body>\n    <div class='error-container'>\n        <h1 class='error-title'>\u{26a0}\u{fe0f} Ferrum Compilation Error</h1>\n        <p class='error-message'>",
    );
    put_str(&mut out, error_message);
    put_str(&mut out, "</p>\n    </div>\n</body>\n</html>\n    ");
    assert(out@ =~= error_page_head() + error_message@ + error_page_foot());
    string_of(&out)
}

} // verus!
