//! The grammar of one line.
//!
//! A line of source, once the white space around it is cut off, is read as
//! exactly one node. The rules are tried in this order:
//!
//! 1. a line between double quotes is text;
//! 2. `import { a, b } from "source"` is an import;
//! 3. an identifier followed by `(` opens a component call, which must end in `)`;
//! 4. a line that ends in `"` and holds an earlier `"` behind white space is an
//!    element followed by text that becomes its first child;
//! 5. a line with a `<` is a bracketed element, which must have a `>` after it;
//! 6. a line without space, `#`, `.` and `(` is a state binding where it is an
//!    identifier, and text otherwise;
//! 7. two identifiers with one `.` between them are a state binding with a member;
//! 8. anything else is an element in shorthand: `tag#id.class.class key="value"`.

use crate::ast::{forest_view, is_void, is_void_tag, strings_view, FerrumNode, Node};
use crate::error::{Failure, ParseError, SyntaxKind};
use crate::props::{put, Entries, Props};
use crate::text::{
    chars_of, find, find_in, has_char, is_ident, is_ident_vec, is_quoted, is_quoted_vec,
    is_space, is_space_char, lemma_rows_push, Pat, rows, same_chars, slice_of, split, split_vec,
    starts_with, starts_with_vec, string_of, trim, trim_vec, unquote, words, words_vec,
};
use vstd::prelude::*;

verus! {

/// The first `n` of `pieces`, without the empty ones.
pub open spec fn keep_nonempty(pieces: Seq<Seq<char>>, n: int) -> Seq<Seq<char>>
    decreases n,
{
    if n <= 0 {
        Seq::empty()
    } else if pieces[n - 1].len() > 0 {
        keep_nonempty(pieces, n - 1).push(pieces[n - 1])
    } else {
        keep_nonempty(pieces, n - 1)
    }
}

/// The class names in a run such as `.a.b`: what stands between the dots.
pub open spec fn class_parts(s: Seq<char>) -> Seq<Seq<char>> {
    keep_nonempty(split(s, '.'), split(s, '.').len() as int)
}

/// The first `n` of `parts` in a row with `sep` between them.
pub open spec fn join(parts: Seq<Seq<char>>, sep: Seq<char>, n: int) -> Seq<char>
    decreases n,
{
    if n <= 0 {
        Seq::empty()
    } else if n == 1 {
        parts[0]
    } else {
        join(parts, sep, n - 1) + sep + parts[n - 1]
    }
}

/// What the words of an element have told so far.
pub struct Attrs {
    /// The id, from `#id` or from `id="..."`; the later one wins.
    pub id: Option<Seq<char>>,
    /// The attributes other than id and class, in the order in which they were first written.
    pub others: Entries,
    /// The class names written with a dot.
    pub classes: Seq<Seq<char>>,
    /// The value of a `class="..."`, which counts only where no class is written with a dot.
    pub class_attr: Option<Seq<char>>,
}

/// Nothing told yet.
pub open spec fn no_attrs() -> Attrs {
    Attrs { id: None, others: Seq::empty(), classes: Seq::empty(), class_attr: None }
}

/// `a` after the word `w`. A word that begins with a dot names classes, where `dots`
/// allows it; a word `key="value"` is an attribute; any other word tells nothing.
pub open spec fn attr_step(a: Attrs, w: Seq<char>, dots: bool) -> Attrs {
    if dots && w.len() > 0 && w[0] == '.' {
        Attrs { classes: a.classes + class_parts(w), ..a }
    } else {
        let e = find(w, Pat::Is('='), 0);
        let key = w.subrange(0, e);
        let val = w.subrange(e + 1, w.len() as int);
        if e < w.len() && is_quoted(val) {
            if key == "id"@ {
                Attrs { id: Some(unquote(val)), ..a }
            } else if key == "class"@ {
                Attrs { class_attr: Some(unquote(val)), ..a }
            } else {
                Attrs { others: put(a.others, key, unquote(val)), ..a }
            }
        } else {
            a
        }
    }
}

/// `init` after the words `ws[from..n]`.
pub open spec fn attr_fold(ws: Seq<Seq<char>>, from: int, n: int, dots: bool, init: Attrs) -> Attrs
    decreases n,
{
    if n <= from || n <= 0 {
        init
    } else {
        attr_step(attr_fold(ws, from, n - 1, dots, init), ws[n - 1], dots)
    }
}

/// `m` after the first `n` of `entries` are written to it in order.
pub open spec fn put_all(m: Entries, entries: Entries, n: int) -> Entries
    decreases n,
{
    if n <= 0 {
        m
    } else {
        put(put_all(m, entries, n - 1), entries[n - 1].0, entries[n - 1].1)
    }
}

/// The value of the class attribute: the dotted class names with one space between
/// them, or, where there is none, the value of `class="..."`.
pub open spec fn class_value(a: Attrs) -> Option<Seq<char>> {
    if a.classes.len() > 0 {
        Some(join(a.classes, " "@, a.classes.len() as int))
    } else {
        a.class_attr
    }
}

/// The attributes of the element: the id first, the class last, the others between
/// them in the order in which they were first written.
pub open spec fn assemble(a: Attrs) -> Entries {
    let m0 = match a.id {
        Some(v) => put(Seq::empty(), "id"@, v),
        None => Seq::empty(),
    };
    let m1 = put_all(m0, a.others, a.others.len() as int);
    match class_value(a) {
        Some(v) => put(m1, "class"@, v),
        None => m1,
    }
}

/// Where the tag ends in the first word of a shorthand: at the first `#` or `.`.
pub open spec fn tag_end(w: Seq<char>) -> int {
    let a = find(w, Pat::Is('#'), 0);
    let b = find(w, Pat::Is('.'), 0);
    if a < b {
        a
    } else {
        b
    }
}

/// Where the classes begin in the first word of a shorthand: behind the id, where
/// the tag is followed by `#`, and behind the tag otherwise.
pub open spec fn id_end(w: Seq<char>) -> int {
    let t = tag_end(w);
    if 0 <= t < w.len() && w[t] == '#' {
        find(w, Pat::Is('.'), t + 1)
    } else {
        t
    }
}

/// The id in the first word of a shorthand; empty where it has none.
pub open spec fn word_id(w: Seq<char>) -> Seq<char> {
    let t = tag_end(w);
    if 0 <= t < w.len() && w[t] == '#' {
        w.subrange(t + 1, id_end(w))
    } else {
        Seq::empty()
    }
}

/// What the first word of a shorthand tells: its id, where that is not empty, and its classes.
pub open spec fn first_word_attrs(w: Seq<char>) -> Attrs {
    Attrs {
        id: if word_id(w).len() > 0 {
            Some(word_id(w))
        } else {
            None
        },
        others: Seq::empty(),
        classes: class_parts(w.subrange(id_end(w), w.len() as int)),
        class_attr: None,
    }
}

/// The element that the shorthand `h` stands for.
pub open spec fn shorthand(h: Seq<char>) -> Node {
    let ws = words(h);
    if ws.len() == 0 {
        Node::Element { tag: Seq::empty(), props: Seq::empty(), children: Seq::empty() }
    } else {
        let first = ws[0];
        let a = attr_fold(ws, 1, ws.len() as int, true, first_word_attrs(first));
        Node::Element {
            tag: first.subrange(0, tag_end(first)),
            props: assemble(a),
            children: Seq::empty(),
        }
    }
}

/// The element between the first `<` of `h` and the first `>` behind it; a failure that
/// carries `line` where there is no such pair. The tag runs up to the first space; the
/// words behind it are attributes.
pub open spec fn bracketed(h: Seq<char>, line: Seq<char>) -> Result<Node, Failure> {
    let s = find(h, Pat::Is('<'), 0);
    let e = find(h, Pat::Is('>'), s + 1);
    if s < h.len() && e < h.len() {
        let content = h.subrange(s + 1, e);
        let sp = find(content, Pat::Is(' '), 0);
        let rest = if sp < content.len() {
            content.subrange(sp + 1, content.len() as int)
        } else {
            Seq::empty()
        };
        let ws = words(rest);
        Ok(
            Node::Element {
                tag: content.subrange(0, sp),
                props: assemble(attr_fold(ws, 0, ws.len() as int, false, no_attrs())),
                children: Seq::empty(),
            },
        )
    } else {
        Err(Failure { kind: SyntaxKind::MalformedElement, line })
    }
}

/// The element that `h` stands for: bracketed where `h` holds a `<`, in shorthand otherwise.
pub open spec fn element_of(h: Seq<char>, line: Seq<char>) -> Result<Node, Failure> {
    if has_char(h, '<') {
        bracketed(h, line)
    } else {
        Ok(shorthand(h))
    }
}

/// `m` after the segment `seg` of a component's arguments: `key: value` is written to
/// it, both without the white space around them; a segment without a colon tells nothing.
pub open spec fn arg_step(m: Entries, seg: Seq<char>) -> Entries {
    let t = trim(seg);
    let c = find(t, Pat::Is(':'), 0);
    if c < t.len() {
        put(m, trim(t.subrange(0, c)), trim(t.subrange(c + 1, t.len() as int)))
    } else {
        m
    }
}

/// The arguments that the first `n` of `segs` give.
pub open spec fn arg_fold(segs: Seq<Seq<char>>, n: int) -> Entries
    decreases n,
{
    if n <= 0 {
        Seq::empty()
    } else {
        arg_step(arg_fold(segs, n - 1), segs[n - 1])
    }
}

/// The arguments of a component call, from what stands between its parentheses:
/// the segments between the commas, each split at its first colon.
pub open spec fn comma_args(inner: Seq<char>) -> Entries {
    arg_fold(split(inner, ','), split(inner, ',').len() as int)
}

/// The first `n` of `pieces`, each without the white space around it, but for the
/// ones that are empty then.
pub open spec fn trimmed_nonempty(pieces: Seq<Seq<char>>, n: int) -> Seq<Seq<char>>
    decreases n,
{
    if n <= 0 {
        Seq::empty()
    } else if trim(pieces[n - 1]).len() > 0 {
        trimmed_nonempty(pieces, n - 1).push(trim(pieces[n - 1]))
    } else {
        trimmed_nonempty(pieces, n - 1)
    }
}

/// The names and the source of an import, where `c` is one:
/// `import`, `{`, names between commas, `}`, `from`, and the source between double quotes.
pub open spec fn import_of(c: Seq<char>) -> Option<(Seq<Seq<char>>, Seq<char>)> {
    let l = find(c, Pat::Is('{'), 6);
    let r = find(c, Pat::Is('}'), l + 1);
    let after = trim(c.subrange(r + 1, c.len() as int));
    let src = trim(after.subrange(4, after.len() as int));
    if starts_with(c, "import"@) && l < c.len() && trim(c.subrange(6, l)).len() == 0 && r < c.len()
        && starts_with(after, "from"@) && is_quoted(src) {
        let pieces = split(c.subrange(l + 1, r), ',');
        Some((trimmed_nonempty(pieces, pieces.len() as int), unquote(src)))
    } else {
        None
    }
}

/// The first index at or after `from` that holds a double quote behind white space;
/// the length of `c` where there is none.
pub open spec fn quote_after_space(c: Seq<char>, from: int) -> int
    decreases c.len() - from,
{
    if from < 1 || from >= c.len() {
        c.len() as int
    } else if c[from] == '"' && is_space(c[from - 1]) {
        from
    } else {
        quote_after_space(c, from + 1)
    }
}

/// An index that holds a double quote behind white space, or is the end, with no such
/// quote from `from` up to it, is what `quote_after_space` returns.
pub proof fn lemma_quote_after_space_is(c: Seq<char>, from: int, r: int)
    requires
        1 <= from <= r <= c.len(),
        r < c.len() ==> c[r] == '"' && is_space(c[r - 1]),
        forall|j: int| from <= j < r ==> !(#[trigger] c[j] == '"' && is_space(c[j - 1])),
    ensures
        quote_after_space(c, from) == r,
    decreases r - from,
{
    if from < r {
        assert(!(c[from] == '"' && is_space(c[from - 1])));
        lemma_quote_after_space_is(c, from + 1, r);
    }
}

/// Whether `c` ends in text between double quotes that follows an element.
pub open spec fn has_trailing_text(c: Seq<char>) -> bool {
    c.len() >= 2 && c[c.len() - 1] == '"' && quote_after_space(c, 1) < c.len() - 1
}

/// `n` with the text `t` as its only child, where `n` is an element that may have
/// children; `n` itself otherwise.
pub open spec fn with_text(n: Node, t: Seq<char>) -> Node {
    match n {
        Node::Element { tag, props, children } => if is_void_tag(tag) {
            n
        } else {
            Node::Element { tag, props, children: seq![Node::Text(t)] }
        },
        _ => n,
    }
}

/// The element and its trailing text, where `c` has one.
pub open spec fn element_with_text(c: Seq<char>) -> Result<Node, Failure> {
    let q = quote_after_space(c, 1);
    match element_of(trim(c.subrange(0, q)), c) {
        Ok(n) => Ok(with_text(n, c.subrange(q + 1, c.len() - 1))),
        Err(e) => Err(e),
    }
}

/// Whether `c` opens a component call: an identifier, then `(`.
pub open spec fn opens_call(c: Seq<char>) -> bool {
    let p = find(c, Pat::Is('('), 0);
    p < c.len() && is_ident(trim(c.subrange(0, p)))
}

/// The component that the call `c` stands for, or the failure where its closing
/// parenthesis is missing.
pub open spec fn call_of(c: Seq<char>) -> Result<Node, Failure> {
    let p = find(c, Pat::Is('('), 0);
    if c.len() > 0 && c[c.len() - 1] == ')' {
        Ok(
            Node::Component {
                name: trim(c.subrange(0, p)),
                props: comma_args(c.subrange(p + 1, c.len() - 1)),
                children: Seq::empty(),
            },
        )
    } else {
        Err(Failure { kind: SyntaxKind::UnterminatedCall, line: c })
    }
}

/// Whether `c` holds none of space, `#`, `.` and `(`.
pub open spec fn is_bare(c: Seq<char>) -> bool {
    !has_char(c, ' ') && !has_char(c, '#') && !has_char(c, '.') && !has_char(c, '(')
}

/// Whether `c` is two identifiers with one dot between them.
pub open spec fn is_member_access(c: Seq<char>) -> bool {
    let d = find(c, Pat::Is('.'), 0);
    d < c.len() && is_ident(c.subrange(0, d)) && is_ident(c.subrange(d + 1, c.len() as int))
}

/// The node that the line `c` stands for, or the failure that it gives. `c` is the
/// line without the white space around it.
#[verifier::opaque]
pub open spec fn parse_line(c: Seq<char>) -> Result<Node, Failure> {
    if is_quoted(c) {
        Ok(Node::Text(unquote(c)))
    } else if import_of(c) is Some {
        Ok(Node::Import { names: import_of(c)->Some_0.0, from: import_of(c)->Some_0.1 })
    } else if opens_call(c) {
        call_of(c)
    } else if has_trailing_text(c) {
        element_with_text(c)
    } else if has_char(c, '<') {
        bracketed(c, c)
    } else if is_bare(c) {
        if is_ident(c) {
            Ok(Node::StateBinding { signal: c, operation: Seq::empty() })
        } else {
            Ok(Node::Text(c))
        }
    } else if is_member_access(c) {
        let d = find(c, Pat::Is('.'), 0);
        Ok(
            Node::StateBinding {
                signal: c.subrange(0, d),
                operation: c.subrange(d + 1, c.len() as int),
            },
        )
    } else {
        Ok(shorthand(c))
    }
}

/// Whether `n` is as one line gives it: without children, but for an element that
/// may have children and has one, which is text.
pub open spec fn is_line_node(n: Node) -> bool {
    match n {
        Node::Element { tag, children, .. } => children.len() == 0 || (!is_void_tag(tag)
            && children.len() == 1 && children[0] is Text),
        Node::Component { children, .. } => children.len() == 0,
        _ => true,
    }
}

/// Every node that a line gives is as one line gives it.
pub proof fn lemma_line_gives_line_node(c: Seq<char>)
    ensures
        parse_line(c) is Ok ==> is_line_node(parse_line(c)->Ok_0),
{
    reveal(parse_line);
}

/// The model of what reading a line gave.
pub open spec fn outcome(r: Result<FerrumNode, ParseError>) -> Result<Node, Failure> {
    match r {
        Ok(n) => Ok(n@),
        Err(e) => Err(e@),
    }
}

/// The model of an optional sequence of characters.
pub open spec fn opt_view(o: Option<Vec<char>>) -> Option<Seq<char>> {
    match o {
        Some(v) => Some(v@),
        None => None,
    }
}

/// What the words of an element have told so far.
struct AttrList {
    id: Option<Vec<char>>,
    others: Props,
    classes: Vec<Vec<char>>,
    class_attr: Option<Vec<char>>,
}

impl View for AttrList {
    type V = Attrs;

    closed spec fn view(&self) -> Attrs {
        Attrs {
            id: opt_view(self.id),
            others: self.others@,
            classes: rows(self.classes@),
            class_attr: opt_view(self.class_attr),
        }
    }
}

/// Moves the vectors of `more` behind those of `all`.
fn append_rows(all: &mut Vec<Vec<char>>, more: Vec<Vec<char>>)
    ensures
        rows(final(all)@) == rows(old(all)@) + rows(more@),
{
    let mut more = more;
    let ghost a = all@;
    let ghost b = more@;
    all.append(&mut more);
    assert(rows(a + b) =~= rows(a) + rows(b));
}

/// The pieces of `pieces` that are not empty.
fn keep_nonempty_vec(pieces: Vec<Vec<char>>) -> (r: Vec<Vec<char>>)
    ensures
        rows(r@) == keep_nonempty(rows(pieces@), pieces.len() as int),
{
    let mut r: Vec<Vec<char>> = Vec::new();
    let mut i: usize = 0;
    assert(rows(r@) =~= Seq::empty());
    while i < pieces.len()
        invariant
            i <= pieces.len(),
            rows(r@) == keep_nonempty(rows(pieces@), i as int),
        decreases pieces.len() - i,
    {
        if pieces[i].len() > 0 {
            let piece = slice_of(&pieces[i], 0, pieces[i].len());
            proof {
                assert(piece@ =~= pieces[i as int]@);
                lemma_rows_push(r@, piece);
            }
            r.push(piece);
        }
        i += 1;
    }
    r
}

/// The class names in a run such as `.a.b`.
pub fn class_parts_of(s: &Vec<char>) -> (r: Vec<Vec<char>>)
    ensures
        rows(r@) == class_parts(s@),
{
    keep_nonempty_vec(split_vec(s, '.'))
}

/// The words of `parts` in a row with `sep` between them.
pub fn join_rows(parts: &Vec<Vec<char>>, sep: &Vec<char>) -> (r: Vec<char>)
    ensures
        r@ == join(rows(parts@), sep@, parts.len() as int),
{
    let mut r: Vec<char> = Vec::new();
    let mut i: usize = 0;
    while i < parts.len()
        invariant
            i <= parts.len(),
            r@ == join(rows(parts@), sep@, i as int),
        decreases parts.len() - i,
    {
        let ghost before = r@;
        if i > 0 {
            let mut j: usize = 0;
            while j < sep.len()
                invariant
                    j <= sep.len(),
                    r@ == before + sep@.subrange(0, j as int),
                decreases sep.len() - j,
            {
                r.push(sep[j]);
                proof {
                    assert(sep@.subrange(0, j + 1) =~= sep@.subrange(0, j as int).push(
                        sep@[j as int],
                    ));
                }
                j += 1;
            }
            proof {
                assert(sep@.subrange(0, sep.len() as int) =~= sep@);
            }
        }
        let ghost mid = r@;
        let part = &parts[i];
        let mut k: usize = 0;
        while k < part.len()
            invariant
                k <= part.len(),
                r@ == mid + part@.subrange(0, k as int),
            decreases part.len() - k,
        {
            r.push(part[k]);
            proof {
                assert(part@.subrange(0, k + 1) =~= part@.subrange(0, k as int).push(
                    part@[k as int],
                ));
            }
            k += 1;
        }
        proof {
            assert(part@.subrange(0, part.len() as int) =~= part@);
            assert(rows(parts@)[i as int] == part@);
            if i == 0 {
                assert(r@ =~= part@);
            }
        }
        i += 1;
    }
    r
}

/// Takes the word `w` into account.
fn attr_step_of(a: AttrList, w: &Vec<char>, dots: bool) -> (r: AttrList)
    ensures
        r@ == attr_step(a@, w@, dots),
{
    let mut a = a;
    if dots && w.len() > 0 && w[0] == '.' {
        append_rows(&mut a.classes, class_parts_of(w));
        return a;
    }
    let e = find_in(w, Pat::Is('='), 0);
    if e < w.len() {
        let key = slice_of(w, 0, e);
        let val = slice_of(w, e + 1, w.len());
        if is_quoted_vec(&val) {
            let inner = slice_of(&val, 1, val.len() - 1);
            if same_chars(&key, &chars_of("id")) {
                a.id = Some(inner);
            } else if same_chars(&key, &chars_of("class")) {
                a.class_attr = Some(inner);
            } else {
                a.others.insert(string_of(&key), string_of(&inner));
            }
        }
    }
    a
}

/// Takes the words `ws[from..]` into account.
fn attr_fold_of(ws: &Vec<Vec<char>>, from: usize, dots: bool, init: AttrList) -> (r: AttrList)
    ensures
        r@ == attr_fold(rows(ws@), from as int, ws.len() as int, dots, init@),
{
    let mut a = init;
    let mut i: usize = from;
    if from >= ws.len() {
        return a;
    }
    while i < ws.len()
        invariant
            from <= i <= ws.len(),
            a@ == attr_fold(rows(ws@), from as int, i as int, dots, init@),
        decreases ws.len() - i,
    {
        a = attr_step_of(a, &ws[i], dots);
        i += 1;
    }
    a
}

/// The attributes of the element, in their order.
fn assemble_of(a: AttrList) -> (r: Props)
    ensures
        r@ == assemble(a@),
{
    let mut m = Props::new();
    match &a.id {
        Some(v) => {
            m.insert(string_of(&chars_of("id")), string_of(v));
        },
        None => {},
    }
    let n = a.others.len();
    let ghost m0 = m@;
    let mut i: usize = 0;
    while i < n
        invariant
            i <= n,
            n == a.others@.len(),
            m@ == put_all(m0, a.others@, i as int),
        decreases n - i,
    {
        m.insert(a.others.key_at(i).clone(), a.others.value_at(i).clone());
        i += 1;
    }
    if a.classes.len() > 0 {
        let v = join_rows(&a.classes, &chars_of(" "));
        m.insert(string_of(&chars_of("class")), string_of(&v));
    } else {
        match &a.class_attr {
            Some(v) => {
                m.insert(string_of(&chars_of("class")), string_of(v));
            },
            None => {},
        }
    }
    m
}

/// An element without children.
fn leaf_element(tag: &Vec<char>, props: Props) -> (r: FerrumNode)
    ensures
        r@ == (Node::Element { tag: tag@, props: props@, children: Seq::empty() }),
{
    let children: Vec<FerrumNode> = Vec::new();
    assert(forest_view(children@) =~= Seq::empty());
    FerrumNode::Element { tag: string_of(tag), props, children }
}

/// Reads an element in shorthand.
pub fn shorthand_of(h: &Vec<char>) -> (r: FerrumNode)
    ensures
        r@ == shorthand(h@),
{
    let ws = words_vec(h);
    if ws.len() == 0 {
        let tag: Vec<char> = Vec::new();
        return leaf_element(&tag, Props::new());
    }
    let first = &ws[0];
    assert(first@ == rows(ws@)[0]);
    let a = find_in(first, Pat::Is('#'), 0);
    let b = find_in(first, Pat::Is('.'), 0);
    let t = if a < b {
        a
    } else {
        b
    };
    let tag = slice_of(first, 0, t);
    let mut id: Option<Vec<char>> = None;
    let mut ie = t;
    if t < first.len() && first[t] == '#' {
        ie = find_in(first, Pat::Is('.'), t + 1);
        if ie > t + 1 {
            id = Some(slice_of(first, t + 1, ie));
        }
    }
    let classes = class_parts_of(&slice_of(first, ie, first.len()));
    let init = AttrList { id, others: Props::new(), classes, class_attr: None };
    assert(init@ == first_word_attrs(first@));
    let attrs = attr_fold_of(&ws, 1, true, init);
    leaf_element(&tag, assemble_of(attrs))
}

/// Reads a bracketed element; `line` is what a failure reports.
pub fn bracketed_of(h: &Vec<char>, line: &Vec<char>) -> (r: Result<FerrumNode, ParseError>)
    ensures
        outcome(r) == bracketed(h@, line@),
{
    let s = find_in(h, Pat::Is('<'), 0);
    if s >= h.len() {
        return Err(ParseError { kind: SyntaxKind::MalformedElement, line: string_of(line) });
    }
    let e = find_in(h, Pat::Is('>'), s + 1);
    if e >= h.len() {
        return Err(ParseError { kind: SyntaxKind::MalformedElement, line: string_of(line) });
    }
    let content = slice_of(h, s + 1, e);
    let sp = find_in(&content, Pat::Is(' '), 0);
    let tag = slice_of(&content, 0, sp);
    let rest = if sp < content.len() {
        slice_of(&content, sp + 1, content.len())
    } else {
        Vec::new()
    };
    let ws = words_vec(&rest);
    let init = AttrList { id: None, others: Props::new(), classes: Vec::new(), class_attr: None };
    assert(rows(init.classes@) =~= Seq::empty());
    assert(init@ == no_attrs());
    let attrs = attr_fold_of(&ws, 0, false, init);
    Ok(leaf_element(&tag, assemble_of(attrs)))
}

/// Reads an element, bracketed or in shorthand.
pub fn element_of_line(h: &Vec<char>, line: &Vec<char>) -> (r: Result<FerrumNode, ParseError>)
    ensures
        outcome(r) == element_of(h@, line@),
{
    if find_in(h, Pat::Is('<'), 0) < h.len() {
        bracketed_of(h, line)
    } else {
        Ok(shorthand_of(h))
    }
}

/// Reads the arguments of a component call.
pub fn comma_args_of(inner: &Vec<char>) -> (r: Props)
    ensures
        r@ == comma_args(inner@),
{
    let segs = split_vec(inner, ',');
    let mut m = Props::new();
    let mut i: usize = 0;
    while i < segs.len()
        invariant
            i <= segs.len(),
            m@ == arg_fold(rows(segs@), i as int),
        decreases segs.len() - i,
    {
        let t = trim_vec(&segs[i]);
        assert(segs[i as int]@ == rows(segs@)[i as int]);
        let c = find_in(&t, Pat::Is(':'), 0);
        if c < t.len() {
            let key = trim_vec(&slice_of(&t, 0, c));
            let value = trim_vec(&slice_of(&t, c + 1, t.len()));
            m.insert(string_of(&key), string_of(&value));
        }
        i += 1;
    }
    m
}

/// The pieces of `pieces` without the white space around them, but for the empty ones.
fn trimmed_nonempty_of(pieces: &Vec<Vec<char>>) -> (r: Vec<String>)
    ensures
        strings_view(r@) == trimmed_nonempty(rows(pieces@), pieces.len() as int),
{
    let mut r: Vec<String> = Vec::new();
    let mut i: usize = 0;
    assert(strings_view(r@) =~= Seq::empty());
    while i < pieces.len()
        invariant
            i <= pieces.len(),
            strings_view(r@) == trimmed_nonempty(rows(pieces@), i as int),
        decreases pieces.len() - i,
    {
        let t = trim_vec(&pieces[i]);
        assert(pieces[i as int]@ == rows(pieces@)[i as int]);
        if t.len() > 0 {
            let name = string_of(&t);
            assert(strings_view(r@.push(name)) =~= strings_view(r@).push(name@));
            r.push(name);
        }
        i += 1;
    }
    r
}

/// Reads an import.
pub fn import_of_line(c: &Vec<char>) -> (r: Option<(Vec<String>, String)>)
    ensures
        match r {
            Some(p) => import_of(c@) == Some((strings_view(p.0@), p.1@)),
            None => import_of(c@) is None,
        },
{
    if !starts_with_vec(c, &chars_of("import")) {
        return None;
    }
    proof {
        reveal_strlit("import");
    }
    let l = find_in(c, Pat::Is('{'), 6);
    if l >= c.len() {
        return None;
    }
    if trim_vec(&slice_of(c, 6, l)).len() != 0 {
        return None;
    }
    let r = find_in(c, Pat::Is('}'), l + 1);
    if r >= c.len() {
        return None;
    }
    let after = trim_vec(&slice_of(c, r + 1, c.len()));
    if !starts_with_vec(&after, &chars_of("from")) {
        return None;
    }
    proof {
        reveal_strlit("from");
    }
    let src = trim_vec(&slice_of(&after, 4, after.len()));
    if !is_quoted_vec(&src) {
        return None;
    }
    let pieces = split_vec(&slice_of(c, l + 1, r), ',');
    let names = trimmed_nonempty_of(&pieces);
    let from = string_of(&slice_of(&src, 1, src.len() - 1));
    Some((names, from))
}

/// Searches `c` for a double quote behind white space.
fn quote_after_space_in(c: &Vec<char>) -> (q: usize)
    ensures
        q == quote_after_space(c@, 1),
        1 <= q || c.len() == 0,
        q <= c.len(),
{
    if c.len() == 0 {
        return 0;
    }
    let mut i: usize = 1;
    while i < c.len() && !(c[i] == '"' && is_space_char(c[i - 1]))
        invariant
            1 <= i <= c.len(),
            quote_after_space(c@, 1) == quote_after_space(c@, i as int),
        decreases c.len() - i,
    {
        i += 1;
    }
    i
}

/// Gives the element `n` the text `t` as its only child, unless its tag is void.
fn with_text_of(n: FerrumNode, t: &Vec<char>) -> (r: FerrumNode)
    ensures
        r@ == with_text(n@, t@),
{
    match n {
        FerrumNode::Element { tag, props, children } => {
            if is_void(tag.as_str()) {
                FerrumNode::Element { tag, props, children }
            } else {
                let mut kids: Vec<FerrumNode> = Vec::new();
                kids.push(FerrumNode::Text(string_of(t)));
                assert(forest_view(kids@) =~= seq![Node::Text(t@)]);
                FerrumNode::Element { tag, props, children: kids }
            }
        },
        other => other,
    }
}

/// Tells whether `c` holds none of space, `#`, `.` and `(`.
fn is_bare_line(c: &Vec<char>) -> (b: bool)
    ensures
        b == is_bare(c@),
{
    find_in(c, Pat::Is(' '), 0) >= c.len() && find_in(c, Pat::Is('#'), 0) >= c.len() && find_in(
        c,
        Pat::Is('.'),
        0,
    ) >= c.len() && find_in(c, Pat::Is('('), 0) >= c.len()
}

/// Reads the line `c`, which has no white space around it.
pub fn read_line(c: &Vec<char>) -> (r: Result<FerrumNode, ParseError>)
    ensures
        outcome(r) == parse_line(c@),
{
    reveal(parse_line);
    if is_quoted_vec(c) {
        return Ok(FerrumNode::Text(string_of(&slice_of(c, 1, c.len() - 1))));
    }
    match import_of_line(c) {
        Some(p) => {
            return Ok(FerrumNode::Import { names: p.0, from: p.1 });
        },
        None => {},
    }
    let p = find_in(c, Pat::Is('('), 0);
    if p < c.len() {
        let name = trim_vec(&slice_of(c, 0, p));
        if is_ident_vec(&name) {
            if c[c.len() - 1] == ')' {
                let props = comma_args_of(&slice_of(c, p + 1, c.len() - 1));
                let children: Vec<FerrumNode> = Vec::new();
                assert(forest_view(children@) =~= Seq::empty());
                return Ok(FerrumNode::Component { name: string_of(&name), props, children });
            } else {
                return Err(ParseError { kind: SyntaxKind::UnterminatedCall, line: string_of(c) });
            }
        }
    }
    if c.len() >= 2 && c[c.len() - 1] == '"' {
        let q = quote_after_space_in(c);
        if q < c.len() - 1 {
            let head = trim_vec(&slice_of(c, 0, q));
            let text = slice_of(c, q + 1, c.len() - 1);
            return match element_of_line(&head, c) {
                Ok(n) => Ok(with_text_of(n, &text)),
                Err(e) => Err(e),
            };
        }
    }
    if find_in(c, Pat::Is('<'), 0) < c.len() {
        return bracketed_of(c, c);
    }
    if is_bare_line(c) {
        if is_ident_vec(c) {
            return Ok(FerrumNode::StateBinding { signal: string_of(c), operation: String::new() });
        } else {
            return Ok(FerrumNode::Text(string_of(c)));
        }
    }
    let d = find_in(c, Pat::Is('.'), 0);
    if d < c.len() {
        let signal = slice_of(c, 0, d);
        let operation = slice_of(c, d + 1, c.len());
        if is_ident_vec(&signal) && is_ident_vec(&operation) {
            return Ok(
                FerrumNode::StateBinding {
                    signal: string_of(&signal),
                    operation: string_of(&operation),
                },
            );
        }
    }
    Ok(shorthand_of(c))
}

} // verus!
