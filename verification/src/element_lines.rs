//! How the line of an element reads back.
//!
//! An element that is made of plain names, with its id first and its class
//! last among its attributes, is written as a line that the grammar reads as
//! that very element, where the line has more than a tag that an identifier
//! could be. A line that ends in text between double quotes is read as the
//! element with that text as its child.

use crate::ast::{is_void_tag, Node};
use crate::error::Failure;
use crate::formatter::{dotted, element_text, head_text, other_attrs, quoted};
use crate::grammar::{
    assemble, attr_fold, attr_step, Attrs, class_parts, element_of, element_with_text,
    first_word_attrs, has_trailing_text, id_end, import_of, is_bare, is_member_access, join,
    keep_nonempty, lemma_quote_after_space_is, opens_call, parse_line, put_all, shorthand,
    tag_end, word_id,
};
use crate::roundtrip::{is_content, reads_back_as_itself};
use crate::props::{distinct_keys, key_from, lemma_key_from, lemma_put_new, lookup, put, Entries};
use crate::text::{
    find, has_char, is_ident, is_ident_char, is_quoted, is_space, is_tidy, lemma_find,
    lemma_find_between, lemma_find_is, lemma_find_none, lemma_has_char, lemma_has_char_add,
    lemma_has_char_one, lemma_split_last, lemma_split_none, lemma_trim_holds, lemma_trim_keeps,
    lemma_trim_padded, lemma_words_last, lemma_words_one, no_space, Pat, split, starts_with,
    trim, unquote, words,
};
use vstd::prelude::*;

verus! {

/// Whether `s` is a plain name: it is not empty and holds no white space and none
/// of `#`, `.`, `(`, `<`, `"`, `=` and `{`.
pub open spec fn is_name(s: Seq<char>) -> bool {
    &&& s.len() > 0
    &&& forall|i: int| 0 <= i < s.len() ==> is_name_char(#[trigger] s[i])
}

/// A character that may stand in a plain name.
pub open spec fn is_name_char(c: char) -> bool {
    !is_space(c) && c != '#' && c != '.' && c != '(' && c != '<' && c != '"' && c != '=' && c
        != '{'
}

/// Whether every one of `names` is a plain name.
pub open spec fn are_names(names: Seq<Seq<char>>) -> bool {
    forall|i: int| 0 <= i < names.len() ==> is_name(#[trigger] names[i])
}

/// A plain name holds only characters that may stand in plain names.
pub proof fn lemma_name_lacks(s: Seq<char>, c: char)
    requires
        is_name(s),
        !is_name_char(c),
    ensures
        !has_char(s, c),
{
    lemma_has_char(s, c);
}

/// A plain name holds no white space.
pub proof fn lemma_name_no_space(s: Seq<char>)
    requires
        is_name(s),
    ensures
        no_space(s),
{
    assert forall|i: int| 0 <= i < s.len() implies !is_space(#[trigger] s[i]) by {
        assert(is_name_char(s[i]));
    }
}

/// Sequences without white space in a row hold no white space.
pub proof fn lemma_no_space_add(a: Seq<char>, b: Seq<char>)
    requires
        no_space(a),
        no_space(b),
    ensures
        no_space(a + b),
{
    assert forall|i: int| 0 <= i < (a + b).len() implies !is_space(#[trigger] (a + b)[i]) by {
        if i < a.len() {
            assert((a + b)[i] == a[i]);
        } else {
            assert((a + b)[i] == b[i - a.len()]);
        }
    }
}

/// Names behind dots hold no white space, and none of `c` where neither the names
/// nor the dot hold it.
pub proof fn lemma_dotted_lacks(names: Seq<Seq<char>>, n: int, c: char)
    requires
        are_names(names),
        0 <= n <= names.len(),
        !is_name_char(c) || c == '#',
        c != '.',
    ensures
        no_space(dotted(names, n)),
        !has_char(dotted(names, n), c),
    decreases n,
{
    if n <= 0 {
        lemma_has_char(Seq::<char>::empty(), c);
    } else {
        lemma_dotted_lacks(names, n - 1, c);
        let before = dotted(names, n - 1);
        let dot = seq!['.'];
        assert(!is_space('.'));
        lemma_name_no_space(names[n - 1]);
        lemma_no_space_add(before, dot);
        lemma_no_space_add(before + dot, names[n - 1]);
        lemma_has_char_one('.', c);
        lemma_has_char_add(before, dot, c);
        lemma_has_char(names[n - 1], c);
        lemma_has_char_add(before + dot, names[n - 1], c);
    }
}

/// Names behind dots split at the dots into an empty piece and the names.
pub proof fn lemma_dotted_split(names: Seq<Seq<char>>, n: int)
    requires
        are_names(names),
        0 <= n <= names.len(),
    ensures
        split(dotted(names, n), '.') == seq![Seq::<char>::empty()] + names.take(n),
    decreases n,
{
    let e = Seq::<char>::empty();
    if n <= 0 {
        lemma_has_char(e, '.');
        lemma_split_none(e, '.');
        assert(seq![e] + names.take(0) =~= seq![e]);
    } else {
        lemma_dotted_split(names, n - 1);
        lemma_name_lacks(names[n - 1], '.');
        lemma_split_last(dotted(names, n - 1), '.', names[n - 1]);
        assert((seq![e] + names.take(n - 1)).push(names[n - 1]) =~= seq![e] + names.take(n));
    }
}

/// Dropping the empty pieces of an empty piece and names leaves the names.
pub proof fn lemma_keep_names(names: Seq<Seq<char>>, k: int)
    requires
        are_names(names),
        0 <= k <= names.len(),
    ensures
        keep_nonempty(seq![Seq::<char>::empty()] + names, k + 1) == names.take(k),
    decreases k,
{
    let all = seq![Seq::<char>::empty()] + names;
    if k == 0 {
        assert(all[0].len() == 0);
        assert(keep_nonempty(all, 0) =~= Seq::empty());
        assert(names.take(0) =~= Seq::empty());
    } else {
        lemma_keep_names(names, k - 1);
        assert(all[k] == names[k - 1]);
        assert(names.take(k - 1).push(names[k - 1]) =~= names.take(k));
    }
}

/// Names behind dots are read as those names.
pub proof fn lemma_class_parts_of_dotted(names: Seq<Seq<char>>)
    requires
        are_names(names),
    ensures
        class_parts(dotted(names, names.len() as int)) == names,
{
    let n = names.len() as int;
    lemma_dotted_split(names, n);
    assert(names.take(n) =~= names);
    lemma_keep_names(names, n);
}

/// The words of names with one space between them are the names.
pub proof fn lemma_words_of_join(names: Seq<Seq<char>>, n: int)
    requires
        are_names(names),
        0 <= n <= names.len(),
    ensures
        words(join(names, seq![' '], n)) == names.take(n),
    decreases n,
{
    let sp = seq![' '];
    if n <= 0 {
        assert(words(Seq::<char>::empty()) =~= Seq::empty());
        assert(names.take(0) =~= Seq::empty());
    } else if n == 1 {
        lemma_name_no_space(names[0]);
        lemma_words_one(names[0]);
        assert(names.take(1) =~= seq![names[0]]);
    } else {
        lemma_words_of_join(names, n - 1);
        lemma_name_no_space(names[n - 1]);
        lemma_words_last(join(names, sp, n - 1), names[n - 1], 0);
        assert(names.take(n - 1).push(names[n - 1]) =~= names.take(n));
    }
}

/// Whether `key="value"` reads back as an attribute: the key is a plain name other
/// than `id` and `class`, and the value has no white space and no `<`.
pub open spec fn is_plain_attr(key: Seq<char>, value: Seq<char>) -> bool {
    &&& is_name(key)
    &&& key != "id"@
    &&& key != "class"@
    &&& no_space(value)
    &&& !has_char(value, '<')
}

/// Whether `others` read back as the attributes of an element besides id and class:
/// their keys are distinct, and every one reads back.
pub open spec fn are_plain_attrs(others: Entries) -> bool {
    &&& distinct_keys(others)
    &&& forall|i: int|
        0 <= i < others.len() ==> is_plain_attr((#[trigger] others[i]).0, others[i].1)
}

/// The id as an attribute, where there is one.
pub open spec fn id_entry(id: Option<Seq<char>>) -> Entries {
    match id {
        Some(v) => seq![("id"@, v)],
        None => Seq::empty(),
    }
}

/// The classes as an attribute, where there are any: their names with one space
/// between them.
pub open spec fn class_entry(classes: Seq<Seq<char>>) -> Entries {
    if classes.len() > 0 {
        seq![("class"@, join(classes, seq![' '], classes.len() as int))]
    } else {
        Seq::empty()
    }
}

/// The attributes of an element in their canonical order: the id, the others, the class.
pub open spec fn props_of(
    id: Option<Seq<char>>,
    others: Entries,
    classes: Seq<Seq<char>>,
) -> Entries {
    id_entry(id) + others + class_entry(classes)
}

/// The id as it is written: behind a `#`.
pub open spec fn id_text(id: Option<Seq<char>>) -> Seq<char> {
    match id {
        Some(v) => seq!['#'] + v,
        None => Seq::empty(),
    }
}

/// The first word of an element's line: tag, id and classes.
pub open spec fn first_word(tag: Seq<char>, id: Option<Seq<char>>, classes: Seq<Seq<char>>) -> Seq<
    char,
> {
    tag + id_text(id) + dotted(classes, classes.len() as int)
}

/// The keys `id` and `class` differ.
pub proof fn lemma_id_is_not_class()
    ensures
        "id"@ != "class"@,
        "id"@.len() == 2,
        "class"@.len() == 5,
{
    reveal_strlit("id");
    reveal_strlit("class");
    assert("id"@.len() == 2);
    assert("class"@.len() == 5);
}

/// Writing attributes in a row writes the first ones, then the others.
pub proof fn lemma_other_attrs_add(a: Entries, b: Entries, k: int)
    requires
        0 <= k <= b.len(),
    ensures
        other_attrs(a + b, a.len() + k) == other_attrs(a, a.len() as int) + other_attrs(b, k),
    decreases k,
{
    if k == 0 {
        lemma_other_attrs_same(a + b, a, a.len() as int);
        assert(other_attrs(a, a.len() as int) + Seq::<char>::empty() =~= other_attrs(
            a,
            a.len() as int,
        ));
    } else {
        lemma_other_attrs_add(a, b, k - 1);
        assert((a + b)[a.len() + k - 1] == b[k - 1]);
        let before = other_attrs(a, a.len() as int);
        let mid = other_attrs(b, k - 1);
        if b[k - 1].0 == "id"@ || b[k - 1].0 == "class"@ {
        } else {
            assert(other_attrs(a + b, a.len() + k) =~= before + (mid + seq![' '] + b[k - 1].0
                + seq!['=', '"'] + b[k - 1].1 + seq!['"']));
        }
    }
}

/// Writing the first `n` attributes depends on those attributes only.
pub proof fn lemma_other_attrs_same(a: Entries, b: Entries, n: int)
    requires
        0 <= n <= a.len(),
        n <= b.len(),
        forall|i: int| 0 <= i < n ==> a[i] == b[i],
    ensures
        other_attrs(a, n) == other_attrs(b, n),
    decreases n,
{
    if n > 0 {
        lemma_other_attrs_same(a, b, n - 1);
    }
}

/// Among the attributes in canonical order, those besides id and class are written
/// as they are written alone.
pub proof fn lemma_other_attrs_of(id: Option<Seq<char>>, others: Entries, classes: Seq<Seq<char>>)
    ensures
        other_attrs(
            props_of(id, others, classes),
            props_of(id, others, classes).len() as int,
        ) == other_attrs(others, others.len() as int),
{
    let a = id_entry(id);
    let c = class_entry(classes);
    let e = Seq::<char>::empty();
    assert(other_attrs(a, a.len() as int) =~= e) by {
        if a.len() > 0 {
            assert(other_attrs(a, 0) =~= e);
        }
    }
    assert(other_attrs(c, c.len() as int) =~= e) by {
        if c.len() > 0 {
            assert(other_attrs(c, 0) =~= e);
        }
    }
    lemma_other_attrs_add(a, others, others.len() as int);
    lemma_other_attrs_add(a + others, c, c.len() as int);
    assert(e + other_attrs(others, others.len() as int) + e =~= other_attrs(
        others,
        others.len() as int,
    ));
}

/// Among the attributes in canonical order, the id and the class are found as they
/// were given.
pub proof fn lemma_lookups(id: Option<Seq<char>>, others: Entries, classes: Seq<Seq<char>>)
    requires
        are_plain_attrs(others),
    ensures
        lookup(props_of(id, others, classes), "id"@) == id,
        classes.len() > 0 ==> lookup(props_of(id, others, classes), "class"@) == Some(
            join(classes, seq![' '], classes.len() as int),
        ),
        classes.len() == 0 ==> lookup(props_of(id, others, classes), "class"@) is None,
        distinct_keys(props_of(id, others, classes)),
{
    lemma_id_is_not_class();
    let a = id_entry(id);
    let c = class_entry(classes);
    let p = props_of(id, others, classes);
    assert forall|i: int| 0 <= i < p.len() implies (#[trigger] p[i]).0 == (if i < a.len() {
        "id"@
    } else if i < a.len() + others.len() {
        others[i - a.len()].0
    } else {
        "class"@
    }) by {}
    assert forall|i: int| a.len() <= i < a.len() + others.len() implies (#[trigger] p[i]).0
        != "id"@ && p[i].0 != "class"@ by {
        assert(is_plain_attr(others[i - a.len()].0, others[i - a.len()].1));
    }
    lemma_key_from(p, "id"@, 0);
    lemma_key_from(p, "class"@, 0);
    let i = key_from(p, "id"@, 0);
    let j = key_from(p, "class"@, 0);
    if id is Some {
        assert(p[0].0 == "id"@);
        assert(i == 0);
    } else {
        if i < p.len() {
            assert(p[i].0 == "id"@);
        }
    }
    if classes.len() > 0 {
        assert(p[p.len() - 1].0 == "class"@);
        if j < p.len() - 1 {
            assert(p[j].0 == "class"@);
        }
        assert(j == p.len() - 1);
    } else {
        if j < p.len() {
            assert(p[j].0 == "class"@);
        }
    }
    assert forall|x: int, y: int| 0 <= x < y < p.len() implies (#[trigger] p[x]).0 != (
    #[trigger] p[y]).0 by {
        if a.len() <= x && y < a.len() + others.len() {
            assert(others[x - a.len()].0 != others[y - a.len()].0);
        }
    }
}

/// An element with its attributes in canonical order is written as its first word,
/// then the attributes besides id and class.
pub proof fn lemma_element_text(
    tag: Seq<char>,
    id: Option<Seq<char>>,
    others: Entries,
    classes: Seq<Seq<char>>,
)
    requires
        are_plain_attrs(others),
        are_names(classes),
    ensures
        element_text(tag, props_of(id, others, classes)) == first_word(tag, id, classes)
            + other_attrs(others, others.len() as int),
{
    lemma_lookups(id, others, classes);
    lemma_other_attrs_of(id, others, classes);
    let n = classes.len() as int;
    lemma_words_of_join(classes, n);
    assert(classes.take(n) =~= classes);
    if n == 0 {
        assert(dotted(classes, 0) =~= Seq::empty());
    }
}

/// An attribute as it is written: `key="value"`.
pub open spec fn attr_word(key: Seq<char>, value: Seq<char>) -> Seq<char> {
    key + seq!['=', '"'] + value + seq!['"']
}

/// The attributes as they are written, one word each.
pub open spec fn attr_words(others: Entries) -> Seq<Seq<char>> {
    Seq::new(others.len(), |i: int| attr_word(others[i].0, others[i].1))
}

/// A written attribute is one word that begins with its key.
pub proof fn lemma_attr_word(key: Seq<char>, value: Seq<char>)
    requires
        is_plain_attr(key, value),
    ensures
        attr_word(key, value).len() > 0,
        no_space(attr_word(key, value)),
        attr_word(key, value)[0] == key[0],
        attr_word(key, value)[attr_word(key, value).len() - 1] == '"',
{
    let w = attr_word(key, value);
    lemma_name_no_space(key);
    assert(!is_space('='));
    assert(!is_space('"'));
    assert forall|i: int| 0 <= i < w.len() implies !is_space(#[trigger] w[i]) by {
        if i < key.len() {
            assert(w[i] == key[i]);
        } else if i < key.len() + 2 {
        } else if i < key.len() + 2 + value.len() {
            assert(w[i] == value[i - key.len() - 2]);
        } else {
        }
    }
}

/// The words of an element's line: its first word, then one word for each attribute.
pub proof fn lemma_line_words(first: Seq<char>, others: Entries, k: int)
    requires
        first.len() > 0,
        no_space(first),
        are_plain_attrs(others),
        0 <= k <= others.len(),
    ensures
        words(first + other_attrs(others, k)) == seq![first] + attr_words(others).take(k),
    decreases k,
{
    if k == 0 {
        assert(first + other_attrs(others, 0) =~= first);
        lemma_words_one(first);
        assert(seq![first] + attr_words(others).take(0) =~= seq![first]);
    } else {
        lemma_line_words(first, others, k - 1);
        let (key, value) = others[k - 1];
        assert(is_plain_attr(others[k - 1].0, others[k - 1].1));
        lemma_attr_word(key, value);
        let w = attr_word(key, value);
        let before = first + other_attrs(others, k - 1);
        assert(first + other_attrs(others, k) =~= before + seq![' '] + w);
        lemma_words_last(before, w, 0);
        assert((seq![first] + attr_words(others).take(k - 1)).push(w) =~= seq![first]
            + attr_words(others).take(k));
    }
}

/// Names behind dots, where there are any, begin with a dot.
pub proof fn lemma_dotted_first(names: Seq<Seq<char>>, n: int)
    requires
        1 <= n <= names.len(),
    ensures
        dotted(names, n).len() > 0,
        dotted(names, n)[0] == '.',
    decreases n,
{
    if n == 1 {
        assert(dotted(names, 0) =~= Seq::empty());
        assert(dotted(names, 1) =~= seq!['.'] + names[0]);
    } else {
        lemma_dotted_first(names, n - 1);
        assert(dotted(names, n)[0] == dotted(names, n - 1)[0]);
    }
}

/// Whether tag, id and classes are plain names.
pub open spec fn are_plain_parts(
    tag: Seq<char>,
    id: Option<Seq<char>>,
    classes: Seq<Seq<char>>,
) -> bool {
    &&& is_name(tag)
    &&& (id is Some ==> is_name(id->Some_0))
    &&& are_names(classes)
}

/// The first word of an element's line is one word that holds none of `(`, `<`, `"`,
/// `=` and `{`.
pub proof fn lemma_first_word_lacks(
    tag: Seq<char>,
    id: Option<Seq<char>>,
    classes: Seq<Seq<char>>,
    c: char,
)
    requires
        are_plain_parts(tag, id, classes),
        !is_name_char(c),
        c != '#',
        c != '.',
    ensures
        first_word(tag, id, classes).len() > 0,
        no_space(first_word(tag, id, classes)),
        !has_char(first_word(tag, id, classes), c),
        first_word(tag, id, classes)[0] == tag[0],
{
    let n = classes.len() as int;
    let d = dotted(classes, n);
    lemma_dotted_lacks(classes, n, c);
    lemma_name_no_space(tag);
    lemma_name_lacks(tag, c);
    let it = id_text(id);
    assert(!is_space('#'));
    if id is Some {
        lemma_name_no_space(id->Some_0);
        lemma_name_lacks(id->Some_0, c);
        lemma_no_space_add(seq!['#'], id->Some_0);
        lemma_has_char_one('#', c);
        lemma_has_char_add(seq!['#'], id->Some_0, c);
    } else {
        lemma_has_char(it, c);
    }
    lemma_no_space_add(tag, it);
    lemma_no_space_add(tag + it, d);
    lemma_has_char_add(tag, it, c);
    lemma_has_char_add(tag + it, d, c);
}

/// The first word of an element's line is read as its tag, its id and its classes.
#[verifier::rlimit(40)]
pub proof fn lemma_first_word_read(tag: Seq<char>, id: Option<Seq<char>>, classes: Seq<Seq<char>>)
    requires
        are_plain_parts(tag, id, classes),
    ensures
        first_word(tag, id, classes).subrange(0, tag_end(first_word(tag, id, classes))) == tag,
        first_word_attrs(first_word(tag, id, classes)) == (Attrs {
            id,
            others: Seq::empty(),
            classes,
            class_attr: None,
        }),
{
    let n = classes.len() as int;
    let d = dotted(classes, n);
    let it = id_text(id);
    let first = first_word(tag, id, classes);
    let t = tag.len() as int;
    lemma_name_lacks(tag, '#');
    lemma_name_lacks(tag, '.');
    lemma_dotted_lacks(classes, n, '#');
    if n > 0 {
        lemma_dotted_first(classes, n);
    } else {
        assert(d =~= Seq::empty());
    }
    // where the first dot stands
    let dot_at = t + it.len();
    assert(find(first, Pat::Is('.'), 0) == if n > 0 {
        dot_at
    } else {
        first.len() as int
    }) by {
        let head = tag + it;
        assert(!has_char(head, '.')) by {
            if id is Some {
                lemma_name_lacks(id->Some_0, '.');
                lemma_has_char_one('#', '.');
                lemma_has_char_add(seq!['#'], id->Some_0, '.');
            } else {
                lemma_has_char(it, '.');
            }
            lemma_has_char_add(tag, it, '.');
        }
        if n > 0 {
            let rest = d.subrange(1, d.len() as int);
            assert(first =~= head + seq!['.'] + rest);
            lemma_find_between(head, '.', rest);
        } else {
            assert(first =~= head);
            lemma_find_none(first, '.', 0);
        }
    }
    // where the first `#` stands
    assert(find(first, Pat::Is('#'), 0) == if id is Some {
        t
    } else {
        first.len() as int
    }) by {
        if id is Some {
            let rest = id->Some_0 + d;
            assert(first =~= tag + seq!['#'] + rest);
            lemma_find_between(tag, '#', rest);
        } else {
            lemma_has_char(it, '#');
            lemma_has_char_add(tag, it, '#');
            lemma_has_char_add(tag + it, d, '#');
            lemma_find_none(first, '#', 0);
        }
    }
    assert(tag_end(first) == t);
    assert(first.subrange(0, t) =~= tag);
    if id is Some {
        let v = id->Some_0;
        assert(first[t] == '#');
        // the dot behind the id
        let ie = t + 1 + v.len();
        lemma_name_lacks(v, '.');
        assert forall|j: int| t + 1 <= j < ie implies !crate::text::hits(
            Pat::Is('.'),
            #[trigger] first[j],
        ) by {
            assert(first[j] == v[j - t - 1]);
            lemma_has_char(v, '.');
        }
        if n > 0 {
            assert(first[ie] == d[0]);
        }
        lemma_find_is(first, Pat::Is('.'), t + 1, ie);
        assert(id_end(first) == ie);
        assert(first.subrange(t + 1, ie) =~= v);
        assert(word_id(first) == v);
        assert(first.subrange(ie, first.len() as int) =~= d);
    } else {
        if t < first.len() {
            assert(first[t] == d[0]);
        }
        assert(id_end(first) == t);
        assert(word_id(first) =~= Seq::<char>::empty());
        assert(first.subrange(t, first.len() as int) =~= d);
    }
    lemma_class_parts_of_dotted(classes);
}

/// What the words of an element's line tell: the attributes, one after the other.
pub proof fn lemma_attr_words_read(first: Seq<char>, others: Entries, init: Attrs, k: int)
    requires
        are_plain_attrs(others),
        init.others == Seq::<(Seq<char>, Seq<char>)>::empty(),
        0 <= k <= others.len(),
    ensures
        attr_fold(seq![first] + attr_words(others), 1, 1 + k, true, init) == (Attrs {
            others: others.take(k),
            ..init
        }),
    decreases k,
{
    let ws = seq![first] + attr_words(others);
    if k == 0 {
        assert(others.take(0) =~= Seq::empty());
    } else {
        lemma_attr_words_read(first, others, init, k - 1);
        let (key, value) = others[k - 1];
        assert(is_plain_attr(others[k - 1].0, others[k - 1].1));
        let w = attr_word(key, value);
        assert(ws[k] == w);
        lemma_attr_word(key, value);
        assert(is_name_char(key[0]));
        assert(w[0] != '.');
        lemma_name_lacks(key, '=');
        let rest = seq!['"'] + value + seq!['"'];
        assert(w =~= key + seq!['='] + rest);
        lemma_find_between(key, '=', rest);
        let e = key.len() as int;
        assert(w.subrange(0, e) =~= key);
        assert(w.subrange(e + 1, w.len() as int) =~= rest);
        assert(is_quoted(rest));
        assert(unquote(rest) =~= value);
        let before = others.take(k - 1);
        assert forall|j: int| 0 <= j < before.len() implies (#[trigger] before[j]).0 != key by {
            assert(before[j] == others[j]);
        }
        lemma_put_new(before, key, value);
        assert(before.push((key, value)) =~= others.take(k));
    }
}

/// Writing attributes with fresh keys to a map puts them behind what the map holds.
pub proof fn lemma_put_all_new(m: Entries, others: Entries, k: int)
    requires
        distinct_keys(others),
        0 <= k <= others.len(),
        forall|i: int, j: int|
            0 <= i < m.len() && 0 <= j < others.len() ==> (#[trigger] m[i]).0 != (
            #[trigger] others[j]).0,
    ensures
        put_all(m, others, k) == m + others.take(k),
    decreases k,
{
    if k == 0 {
        assert(m + others.take(0) =~= m);
    } else {
        lemma_put_all_new(m, others, k - 1);
        let before = m + others.take(k - 1);
        let key = others[k - 1].0;
        assert forall|j: int| 0 <= j < before.len() implies (#[trigger] before[j]).0 != key by {
            if j < m.len() {
                assert(before[j] == m[j]);
            } else {
                assert(before[j] == others[j - m.len()]);
            }
        }
        lemma_put_new(before, key, others[k - 1].1);
        assert(before.push(others[k - 1]) =~= m + others.take(k));
    }
}

/// What the words told is put together in canonical order.
pub proof fn lemma_assemble(id: Option<Seq<char>>, others: Entries, classes: Seq<Seq<char>>)
    requires
        are_plain_attrs(others),
    ensures
        assemble(Attrs { id, others, classes, class_attr: None }) == props_of(id, others, classes),
{
    lemma_id_is_not_class();
    let a = Attrs { id, others, classes, class_attr: None };
    let e: Entries = Seq::empty();
    let m0 = id_entry(id);
    if id is Some {
        lemma_put_new(e, "id"@, id->Some_0);
        assert(e.push(("id"@, id->Some_0)) =~= m0);
    }
    assert forall|i: int, j: int| 0 <= i < m0.len() && 0 <= j < others.len() implies (
    #[trigger] m0[i]).0 != (#[trigger] others[j]).0 by {
        assert(is_plain_attr(others[j].0, others[j].1));
    }
    let n = others.len() as int;
    lemma_put_all_new(m0, others, n);
    assert(others.take(n) =~= others);
    let m1 = m0 + others;
    if classes.len() > 0 {
        let v = join(classes, seq![' '], classes.len() as int);
        assert(join(classes, " "@, classes.len() as int) == v) by {
            reveal_strlit(" ");
            assert(" "@ =~= seq![' ']);
        }
        assert forall|j: int| 0 <= j < m1.len() implies (#[trigger] m1[j]).0 != "class"@ by {
            if j < m0.len() {
            } else {
                assert(m1[j] == others[j - m0.len()]);
                assert(is_plain_attr(others[j - m0.len()].0, others[j - m0.len()].1));
            }
        }
        lemma_put_new(m1, "class"@, v);
        assert(m1.push(("class"@, v)) =~= props_of(id, others, classes));
    } else {
        assert(m1 =~= props_of(id, others, classes));
    }
}

/// The line of an element, without text behind it, is read in shorthand as the
/// element without children.
pub proof fn lemma_shorthand_of_line(
    tag: Seq<char>,
    id: Option<Seq<char>>,
    others: Entries,
    classes: Seq<Seq<char>>,
)
    requires
        are_plain_parts(tag, id, classes),
        are_plain_attrs(others),
    ensures
        shorthand(first_word(tag, id, classes) + other_attrs(others, others.len() as int)) == (
        Node::Element { tag, props: props_of(id, others, classes), children: Seq::empty() }),
{
    let first = first_word(tag, id, classes);
    let n = others.len() as int;
    lemma_first_word_lacks(tag, id, classes, '(');
    lemma_line_words(first, others, n);
    assert(attr_words(others).take(n) =~= attr_words(others));
    let ws = seq![first] + attr_words(others);
    assert(ws[0] == first);
    lemma_first_word_read(tag, id, classes);
    let init = Attrs { id, others: Seq::empty(), classes, class_attr: None };
    lemma_attr_words_read(first, others, init, n);
    assert(others.take(n) =~= others);
    lemma_assemble(id, others, classes);
}

/// Written attributes hold a character only where a key or a value holds it, or where
/// it is one of the characters between them.
pub proof fn lemma_attrs_lack(others: Entries, k: int, c: char)
    requires
        are_plain_attrs(others),
        0 <= k <= others.len(),
        c != ' ',
        c != '=',
        c != '"',
        forall|i: int|
            0 <= i < others.len() ==> !has_char((#[trigger] others[i]).0, c) && !has_char(
                others[i].1,
                c,
            ),
    ensures
        !has_char(other_attrs(others, k), c),
    decreases k,
{
    if k == 0 {
        lemma_has_char(Seq::<char>::empty(), c);
    } else {
        lemma_attrs_lack(others, k - 1, c);
        let (key, value) = others[k - 1];
        assert(is_plain_attr(others[k - 1].0, others[k - 1].1));
        assert(!has_char(others[k - 1].0, c) && !has_char(others[k - 1].1, c));
        let a = other_attrs(others, k - 1);
        lemma_has_char_one(' ', c);
        lemma_has_char(seq!['=', '"'], c);
        lemma_has_char_one('"', c);
        lemma_has_char_add(a, seq![' '], c);
        lemma_has_char_add(a + seq![' '], key, c);
        lemma_has_char_add(a + seq![' '] + key, seq!['=', '"'], c);
        lemma_has_char_add(a + seq![' '] + key + seq!['=', '"'], value, c);
        lemma_has_char_add(a + seq![' '] + key + seq!['=', '"'] + value, seq!['"'], c);
    }
}

/// Whether no double quote of `s` stands behind white space.
pub open spec fn is_quiet(s: Seq<char>) -> bool {
    forall|j: int| 1 <= j < s.len() ==> !(#[trigger] s[j] == '"' && is_space(s[j - 1]))
}

/// Whether every `{` of `s` stands somewhere behind a double quote.
pub open spec fn is_guarded(s: Seq<char>) -> bool {
    forall|l: int|
        0 <= l < s.len() && #[trigger] s[l] == '{' ==> exists|q: int|
            0 <= q < l && #[trigger] s[q] == '"'
}

/// What holds of an element's line up to its `k`th attribute: it ends in something
/// other than white space, no double quote stands behind white space, and every `{`
/// stands behind a double quote.
#[verifier::rlimit(40)]
pub proof fn lemma_line_shape(first: Seq<char>, others: Entries, k: int)
    requires
        first.len() > 0,
        no_space(first),
        !has_char(first, '"'),
        !has_char(first, '{'),
        are_plain_attrs(others),
        0 <= k <= others.len(),
    ensures
        !is_space((first + other_attrs(others, k))[(first + other_attrs(others, k)).len() - 1]),
        is_quiet(first + other_attrs(others, k)),
        is_guarded(first + other_attrs(others, k)),
        k > 0 ==> (first + other_attrs(others, k))[first.len() as int] == ' ' && (first
            + other_attrs(others, k))[first.len() as int + 1] == others[0].0[0],
    decreases k,
{
    let line = first + other_attrs(others, k);
    lemma_has_char(first, '"');
    lemma_has_char(first, '{');
    if k == 0 {
        assert(line =~= first);
    } else {
        lemma_line_shape(first, others, k - 1);
        let (key, value) = others[k - 1];
        assert(is_plain_attr(others[k - 1].0, others[k - 1].1));
        let w = attr_word(key, value);
        lemma_attr_word(key, value);
        let before = first + other_attrs(others, k - 1);
        assert(line =~= before + seq![' '] + w);
        let n = before.len() as int;
        assert(line[line.len() - 1] == w[w.len() - 1]);
        assert(!is_space('"'));
        assert(is_name_char(key[0]));
        assert forall|j: int| 1 <= j < line.len() implies !(#[trigger] line[j] == '"' && is_space(
            line[j - 1],
        )) by {
            if j < n {
                assert(line[j] == before[j]);
                assert(line[j - 1] == before[j - 1]);
            } else if j == n {
            } else if j == n + 1 {
                assert(line[j] == w[0]);
            } else {
                assert(line[j - 1] == w[j - 1 - n - 1]);
            }
        }
        lemma_name_lacks(key, '{');
        lemma_has_char(key, '{');
        assert forall|l: int| 0 <= l < line.len() && #[trigger] line[l] == '{' implies exists|
            q: int,
        |
            0 <= q < l && #[trigger] line[q] == '"' by {
            if l < n {
                assert(before[l] == '{');
                let q = choose|q: int| 0 <= q < l && #[trigger] before[q] == '"';
                assert(line[q] == '"');
            } else {
                // the brace stands in the value, behind the quote that opens it
                let at: int = n + 1 + key.len() as int + 1;
                assert(line[at] == w[key.len() as int + 1]);
                assert(line[at] == '"');
                if l <= at {
                    if l > n {
                        assert(line[l] == w[l - n - 1]);
                        if l - n - 1 < key.len() {
                            assert(w[l - n - 1] == key[l - n - 1]);
                        }
                    }
                }
                assert(at < l);
            }
        }
        if k == 1 {
            assert(before =~= first);
            assert(line[n + 1] == w[0]);
        } else {
            assert(line[first.len() as int] == before[first.len() as int]);
            assert(line[first.len() as int + 1] == before[first.len() as int + 1]);
        }
    }
}

/// A line whose first word holds no `(` and is followed by a space and something
/// other than `(` opens no component call.
pub proof fn lemma_no_call(c: Seq<char>, w: int)
    requires
        0 < w <= c.len(),
        !is_space(c[0]),
        forall|j: int| 0 <= j < w ==> #[trigger] c[j] != '(',
        w < c.len() ==> c[w] == ' ' && w + 1 < c.len() && !is_space(c[w + 1]) && c[w + 1] != '(',
    ensures
        !opens_call(c),
{
    let p = find(c, Pat::Is('('), 0);
    lemma_find(c, Pat::Is('('), 0);
    if p < c.len() {
        assert(c[p] == '(');
        if p < w {
            assert(c[p] != '(');
        }
        assert(p >= w + 2);
        let prefix = c.subrange(0, p);
        assert(prefix[0] == c[0]);
        assert(prefix[w + 1] == c[w + 1]);
        lemma_trim_keeps(prefix, w + 1);
        assert(prefix[w] == c[w]);
        assert(trim(prefix)[w] == prefix[w]);
        assert(trim(prefix)[w] == ' ');
        assert(!is_ident_char(' '));
    }
}

/// A line in which every `{` stands behind a double quote is no import.
pub proof fn lemma_no_import(c: Seq<char>)
    requires
        is_guarded(c),
    ensures
        import_of(c) is None,
{
    if starts_with(c, "import"@) {
        reveal_strlit("import");
        let l = find(c, Pat::Is('{'), 6);
        lemma_find(c, Pat::Is('{'), 6);
        if l < c.len() {
            assert(c[l] == '{');
            let q = choose|q: int| 0 <= q < l && #[trigger] c[q] == '"';
            if q < 6 {
                assert(c.subrange(0, 6)[q] == c[q]);
            }
            let gap = c.subrange(6, l);
            assert(gap[q - 6] == '"');
            assert(!is_space('"'));
            lemma_trim_holds(gap, q - 6);
        }
    }
}

/// A line that holds something other than a dot and an identifier character is no
/// member access.
pub proof fn lemma_not_member(c: Seq<char>, x: int)
    requires
        0 <= x < c.len(),
        !is_ident_char(c[x]),
        c[x] != '.',
    ensures
        !is_member_access(c),
{
    let d = find(c, Pat::Is('.'), 0);
    lemma_find(c, Pat::Is('.'), 0);
    if d < c.len() {
        if x < d {
            assert(c.subrange(0, d)[x] == c[x]);
        } else {
            assert(c.subrange(d + 1, c.len() as int)[x - d - 1] == c[x]);
        }
    }
}

/// A line with a dot behind its first dot is no member access.
pub proof fn lemma_not_member_second_dot(c: Seq<char>, x: int)
    requires
        find(c, Pat::Is('.'), 0) < x < c.len(),
        c[x] == '.',
    ensures
        !is_member_access(c),
{
    let d = find(c, Pat::Is('.'), 0);
    lemma_find(c, Pat::Is('.'), 0);
    assert(c.subrange(d + 1, c.len() as int)[x - d - 1] == '.');
    assert(!is_ident_char('.'));
}

/// A sequence without white space holds no white space.
pub proof fn lemma_no_space_lacks(s: Seq<char>, c: char)
    requires
        no_space(s),
        is_space(c),
    ensures
        !has_char(s, c),
{
    lemma_has_char(s, c);
}

/// The line of an element without the text behind it: first word and attributes.
pub open spec fn element_line(
    tag: Seq<char>,
    id: Option<Seq<char>>,
    others: Entries,
    classes: Seq<Seq<char>>,
) -> Seq<char> {
    first_word(tag, id, classes) + other_attrs(others, others.len() as int)
}

/// Whether tag, id, classes and attributes make an element that reads back: they are
/// plain, and the tag does not begin with a slash.
pub open spec fn is_plain_element(
    tag: Seq<char>,
    id: Option<Seq<char>>,
    others: Entries,
    classes: Seq<Seq<char>>,
) -> bool {
    &&& are_plain_parts(tag, id, classes)
    &&& tag[0] != '/'
    &&& are_plain_attrs(others)
}

/// What holds of the line of a plain element.
pub proof fn lemma_line_facts(
    tag: Seq<char>,
    id: Option<Seq<char>>,
    others: Entries,
    classes: Seq<Seq<char>>,
)
    requires
        is_plain_element(tag, id, others, classes),
    ensures
        element_line(tag, id, others, classes).len() >= first_word(tag, id, classes).len() > 0,
        element_line(tag, id, others, classes)[0] == tag[0],
        is_tidy(element_line(tag, id, others, classes)),
        is_quiet(element_line(tag, id, others, classes)),
        is_guarded(element_line(tag, id, others, classes)),
        !has_char(element_line(tag, id, others, classes), '<'),
        !has_char(element_line(tag, id, others, classes), '\n'),
        !is_quoted(element_line(tag, id, others, classes)),
        !starts_with(element_line(tag, id, others, classes), "//"@),
        forall|j: int|
            0 <= j < first_word(tag, id, classes).len() ==> #[trigger] element_line(
                tag,
                id,
                others,
                classes,
            )[j] != '(',
        others.len() > 0 ==> {
            let w = first_word(tag, id, classes).len() as int;
            let line = element_line(tag, id, others, classes);
            w + 1 < line.len() && line[w] == ' ' && !is_space(line[w + 1]) && line[w + 1] != '('
                && line[w + 1] != '"'
        },
{
    let first = first_word(tag, id, classes);
    let n = others.len() as int;
    let attrs = other_attrs(others, n);
    let line = first + attrs;
    lemma_first_word_lacks(tag, id, classes, '"');
    lemma_first_word_lacks(tag, id, classes, '{');
    lemma_first_word_lacks(tag, id, classes, '<');
    lemma_first_word_lacks(tag, id, classes, '(');
    lemma_line_shape(first, others, n);
    assert(line[0] == first[0]);
    assert(is_name_char(tag[0]));
    // no `<` and no line feed
    assert forall|i: int| 0 <= i < others.len() implies !has_char((#[trigger] others[i]).0, '<')
        && !has_char(others[i].1, '<') by {
        assert(is_plain_attr(others[i].0, others[i].1));
        lemma_name_lacks(others[i].0, '<');
    }
    lemma_attrs_lack(others, n, '<');
    lemma_has_char_add(first, attrs, '<');
    assert(is_space('\n'));
    assert forall|i: int| 0 <= i < others.len() implies !has_char((#[trigger] others[i]).0, '\n')
        && !has_char(others[i].1, '\n') by {
        assert(is_plain_attr(others[i].0, others[i].1));
        lemma_name_lacks(others[i].0, '\n');
        lemma_no_space_lacks(others[i].1, '\n');
    }
    lemma_attrs_lack(others, n, '\n');
    lemma_no_space_lacks(first, '\n');
    lemma_has_char_add(first, attrs, '\n');
    if starts_with(line, "//"@) {
        reveal_strlit("//");
        assert(line.subrange(0, 2)[0] == '/');
    }
    lemma_has_char(first, '(');
    assert forall|j: int| 0 <= j < first.len() implies #[trigger] line[j] != '(' by {
        assert(line[j] == first[j]);
    }
    if n > 0 {
        assert(is_plain_attr(others[0].0, others[0].1));
        assert(is_name_char(others[0].0[0]));
    }
}

/// A line that none of the earlier rules takes is read in shorthand.
pub proof fn lemma_read_in_shorthand(c: Seq<char>)
    requires
        !is_quoted(c),
        import_of(c) is None,
        !opens_call(c),
        !has_trailing_text(c),
        !has_char(c, '<'),
        !is_bare(c),
        !is_member_access(c),
    ensures
        parse_line(c) == Ok::<Node, Failure>(shorthand(c)),
{
    reveal(parse_line);
}

/// A line that none of the earlier rules takes, and that ends in text, is read as an
/// element with that text.
pub proof fn lemma_read_with_text(c: Seq<char>)
    requires
        !is_quoted(c),
        import_of(c) is None,
        !opens_call(c),
        has_trailing_text(c),
    ensures
        parse_line(c) == element_with_text(c),
{
    reveal(parse_line);
}

/// The line of a plain element, written without text behind it, is read as the
/// element without children, where the line stands as an element: it has an
/// attribute, an id or two classes, or one class that is no member of the tag.
#[verifier::rlimit(40)]
pub proof fn lemma_element_line_read(
    tag: Seq<char>,
    id: Option<Seq<char>>,
    others: Entries,
    classes: Seq<Seq<char>>,
)
    requires
        is_plain_element(tag, id, others, classes),
        others.len() > 0 || id is Some || classes.len() >= 2 || (classes.len() == 1 && !(is_ident(
            tag,
        ) && is_ident(classes[0]))),
    ensures
        is_content(element_line(tag, id, others, classes)),
        parse_line(element_line(tag, id, others, classes)) == Ok::<Node, Failure>(
            Node::Element { tag, props: props_of(id, others, classes), children: Seq::empty() },
        ),
{
    let first = first_word(tag, id, classes);
    let c = element_line(tag, id, others, classes);
    let w = first.len() as int;
    lemma_line_facts(tag, id, others, classes);
    lemma_shorthand_of_line(tag, id, others, classes);
    lemma_no_import(c);
    lemma_no_call(c, w);
    if c.len() >= 2 {
        lemma_quote_after_space_is(c, 1, c.len() as int);
    }
    assert(!has_trailing_text(c));
    // the line is no bare word and no member access
    let t = tag.len() as int;
    if others.len() > 0 {
        lemma_has_char(c, ' ');
        assert(!is_ident_char(' '));
        lemma_not_member(c, w);
    } else if id is Some {
        assert(c[t] == '#');
        lemma_has_char(c, '#');
        assert(!is_ident_char('#'));
        lemma_not_member(c, t);
    } else {
        let n = classes.len() as int;
        let d = dotted(classes, n);
        assert(other_attrs(others, 0) =~= Seq::empty());
        assert(c =~= tag + d);
        lemma_dotted_first(classes, n);
        assert(c[t] == '.');
        lemma_has_char(c, '.');
        lemma_name_lacks(tag, '.');
        let rest = d.subrange(1, d.len() as int);
        assert(c =~= tag + seq!['.'] + rest);
        lemma_find_between(tag, '.', rest);
        if n >= 2 {
            let x = t + dotted(classes, n - 1).len();
            lemma_dotted_first(classes, n - 1);
            assert(d =~= dotted(classes, n - 1) + seq!['.'] + classes[n - 1]);
            assert(c[x] == '.');
            lemma_not_member_second_dot(c, x);
        } else {
            assert(dotted(classes, 0) =~= Seq::empty());
            assert(d =~= seq!['.'] + classes[0]);
            assert(c.subrange(0, t) =~= tag);
            assert(c.subrange(t + 1, c.len() as int) =~= classes[0]);
        }
    }
    assert(!is_bare(c));
    assert(!is_member_access(c));
    lemma_read_in_shorthand(c);
}

/// Trailing text: the line of a plain element that may have children, written with
/// text between double quotes behind it, is read as the element with that text as its
/// only child.
#[verifier::rlimit(40)]
pub proof fn lemma_element_line_with_text_read(
    tag: Seq<char>,
    id: Option<Seq<char>>,
    others: Entries,
    classes: Seq<Seq<char>>,
    text: Seq<char>,
)
    requires
        is_plain_element(tag, id, others, classes),
        !is_void_tag(tag),
        !has_char(text, '\n'),
    ensures
        is_content(element_line(tag, id, others, classes) + seq![' '] + quoted(text)),
        parse_line(element_line(tag, id, others, classes) + seq![' '] + quoted(text)) == Ok::<
            Node,
            Failure,
        >(
            Node::Element {
                tag,
                props: props_of(id, others, classes),
                children: seq![Node::Text(text)],
            },
        ),
{
    let first = first_word(tag, id, classes);
    let line = element_line(tag, id, others, classes);
    let sp = seq![' '];
    let c = line + sp + quoted(text);
    let w = first.len() as int;
    let n = line.len() as int;
    lemma_line_facts(tag, id, others, classes);
    lemma_shorthand_of_line(tag, id, others, classes);
    assert(is_space(' '));
    assert(!is_space('"'));
    assert(c[0] == line[0]);
    assert(c[n] == ' ');
    assert(c[n + 1] == '"');
    assert(c[c.len() - 1] == '"');
    assert forall|j: int| 0 <= j < n implies #[trigger] c[j] == line[j] by {}
    // content
    lemma_has_char_one(' ', '\n');
    lemma_has_char_one('"', '\n');
    lemma_has_char_add(seq!['"'], text, '\n');
    lemma_has_char_add(seq!['"'] + text, seq!['"'], '\n');
    lemma_has_char_add(line, sp, '\n');
    lemma_has_char_add(line + sp, quoted(text), '\n');
    if starts_with(c, "//"@) {
        reveal_strlit("//");
        assert(c.subrange(0, 2)[0] == '/');
        assert(is_name_char(tag[0]));
    }
    // no import
    assert(is_guarded(c)) by {
        assert forall|l: int| 0 <= l < c.len() && #[trigger] c[l] == '{' implies exists|q: int|
            0 <= q < l && #[trigger] c[q] == '"' by {
            if l < n {
                assert(line[l] == '{');
                let q = choose|q: int| 0 <= q < l && #[trigger] line[q] == '"';
                assert(c[q] == '"');
            } else {
                assert(l > n + 1);
            }
        }
    }
    lemma_no_import(c);
    // no call
    assert forall|j: int| 0 <= j < w implies #[trigger] c[j] != '(' by {
        assert(c[j] == line[j]);
    }
    if others.len() > 0 {
        assert(c[w] == line[w]);
        assert(c[w + 1] == line[w + 1]);
    } else {
        assert(other_attrs(others, 0) =~= Seq::empty());
        assert(line =~= first);
    }
    lemma_no_call(c, w);
    // the text behind the element
    assert forall|j: int| 1 <= j < n + 1 implies !(#[trigger] c[j] == '"' && is_space(
        c[j - 1],
    )) by {
        if j < n {
            assert(c[j] == line[j]);
            assert(c[j - 1] == line[j - 1]);
        }
    }
    lemma_quote_after_space_is(c, 1, n + 1);
    assert(has_trailing_text(c));
    let e = Seq::<char>::empty();
    assert(c.subrange(0, n + 1) =~= e + line + sp);
    lemma_trim_padded(e, line, sp);
    assert(c.subrange(n + 2, c.len() - 1) =~= text);
    assert(!is_quoted(c)) by {
        assert(is_name_char(tag[0]));
    }
    lemma_read_with_text(c);
    assert(!has_char(line, '<'));
    assert(element_of(line, c) == Ok::<Node, Failure>(shorthand(line)));
}

/// Whether the line of an element stands as an element: it has an attribute, an id
/// or two classes, or one class that is no member of the tag.
pub open spec fn stands_alone(
    tag: Seq<char>,
    id: Option<Seq<char>>,
    others: Entries,
    classes: Seq<Seq<char>>,
) -> bool {
    others.len() > 0 || id is Some || classes.len() >= 2 || (classes.len() == 1 && !(is_ident(tag)
        && is_ident(classes[0])))
}

/// An element of plain names, with its attributes in canonical order, reads back as
/// itself where its line stands as an element, and it has children only where it may
/// have children.
pub proof fn lemma_element_reads_back(
    tag: Seq<char>,
    id: Option<Seq<char>>,
    others: Entries,
    classes: Seq<Seq<char>>,
    children: Seq<Node>,
)
    requires
        is_plain_element(tag, id, others, classes),
        stands_alone(tag, id, others, classes),
        children.len() > 0 ==> !is_void_tag(tag),
    ensures
        reads_back_as_itself(
            Node::Element { tag, props: props_of(id, others, classes), children },
        ),
{
    reveal(head_text);
    lemma_element_text(tag, id, others, classes);
    lemma_element_line_read(tag, id, others, classes);
}

/// An element with an id and a class, written with both as attributes:
/// `tag id="id" class="class"`.
pub open spec fn explicit_line(tag: Seq<char>, id: Seq<char>, class: Seq<char>) -> Seq<char> {
    tag + seq![' ', 'i', 'd', '=', '"'] + id + seq!['"', ' ', 'c', 'l', 'a', 's', 's', '=', '"']
        + class + seq!['"']
}

/// An element with an id and a class, written in shorthand: `tag#id.class`.
pub open spec fn shorthand_line(tag: Seq<char>, id: Seq<char>, class: Seq<char>) -> Seq<char> {
    tag + seq!['#'] + id + seq!['.'] + class
}

/// The element with the tag `tag`, the id `id` and the class `class`.
pub open spec fn element_with_id_and_class(
    tag: Seq<char>,
    id: Seq<char>,
    class: Seq<char>,
) -> Node {
    Node::Element { tag, props: seq![("id"@, id), ("class"@, class)], children: Seq::empty() }
}

/// The line `tag id="id" class="class"` is read in shorthand as the element with
/// that tag, id and class.
proof fn lemma_explicit_shorthand(tag: Seq<char>, id: Seq<char>, class: Seq<char>)
    requires
        is_name(tag),
        is_name(id),
        is_name(class),
    ensures
        shorthand(explicit_line(tag, id, class)) == element_with_id_and_class(tag, id, class),
{
    reveal_strlit("id");
    reveal_strlit("class");
    let sp = seq![' '];
    let k1 = "id"@;
    let k2 = "class"@;
    assert(k1 =~= seq!['i', 'd']);
    assert(k2 =~= seq!['c', 'l', 'a', 's', 's']);
    let w1 = attr_word(k1, id);
    let w2 = attr_word(k2, class);
    let x = explicit_line(tag, id, class);
    assert(x =~= tag + sp + w1 + sp + w2);
    lemma_name_no_space(tag);
    lemma_name_no_space(id);
    lemma_name_no_space(class);
    assert(!is_space('='));
    assert(!is_space('"'));
    assert(no_space(w1)) by {
        assert forall|i: int| 0 <= i < w1.len() implies !is_space(#[trigger] w1[i]) by {
            if 4 <= i < 4 + id.len() {
                assert(w1[i] == id[i - 4]);
            }
        }
    }
    assert(no_space(w2)) by {
        assert forall|i: int| 0 <= i < w2.len() implies !is_space(#[trigger] w2[i]) by {
            if 7 <= i < 7 + class.len() {
                assert(w2[i] == class[i - 7]);
            }
        }
    }
    lemma_words_one(tag);
    lemma_words_last(tag, w1, 0);
    lemma_words_last(tag + sp + w1, w2, 0);
    let ws = seq![tag, w1, w2];
    assert(words(x) =~= ws);
    // the first word tells the tag only
    lemma_name_lacks(tag, '#');
    lemma_name_lacks(tag, '.');
    lemma_find_none(tag, '#', 0);
    lemma_find_none(tag, '.', 0);
    assert(tag_end(tag) == tag.len());
    assert(tag.subrange(0, tag.len() as int) =~= tag);
    let e = Seq::<char>::empty();
    assert(tag.subrange(tag.len() as int, tag.len() as int) =~= e);
    lemma_has_char(e, '.');
    lemma_split_none(e, '.');
    assert(keep_nonempty(seq![e], 0) =~= Seq::empty());
    assert(class_parts(e) =~= Seq::empty());
    let init = first_word_attrs(tag);
    assert(init == Attrs {
        id: None,
        others: Seq::empty(),
        classes: Seq::empty(),
        class_attr: None,
    });
    // the two attributes
    let r1 = seq!['"'] + id + seq!['"'];
    assert(w1 =~= k1 + seq!['='] + r1);
    lemma_has_char(k1, '=');
    lemma_find_between(k1, '=', r1);
    assert(w1.subrange(0, 2) =~= k1);
    assert(w1.subrange(3, w1.len() as int) =~= r1);
    assert(unquote(r1) =~= id);
    let a1 = attr_step(init, w1, true);
    assert(a1 == Attrs { id: Some(id), ..init });
    let r2 = seq!['"'] + class + seq!['"'];
    assert(w2 =~= k2 + seq!['='] + r2);
    lemma_has_char(k2, '=');
    lemma_find_between(k2, '=', r2);
    assert(w2.subrange(0, 5) =~= k2);
    assert(w2.subrange(6, w2.len() as int) =~= r2);
    assert(unquote(r2) =~= class);
    let a2 = attr_step(a1, w2, true);
    assert(a2 == Attrs { class_attr: Some(class), ..a1 });
    assert(attr_fold(ws, 1, 1, true, init) == init);
    assert(attr_fold(ws, 1, 2, true, init) == a1);
    assert(attr_fold(ws, 1, 3, true, init) == a2);
    // put together
    let none: Entries = Seq::empty();
    lemma_put_new(none, k1, id);
    let m0 = none.push((k1, id));
    assert(put_all(m0, none, 0) == m0);
    assert forall|j: int| 0 <= j < m0.len() implies (#[trigger] m0[j]).0 != k2 by {}
    lemma_put_new(m0, k2, class);
    assert(m0.push((k2, class)) =~= seq![(k1, id), (k2, class)]);
}

/// Shorthand equivalence: for plain names, `tag#id.class` and
/// `tag id="id" class="class"` are read as the same element, with that tag, id and
/// class.
#[verifier::rlimit(40)]
pub proof fn lemma_shorthand_matches_explicit(tag: Seq<char>, id: Seq<char>, class: Seq<char>)
    requires
        is_name(tag),
        tag[0] != '/',
        is_name(id),
        is_name(class),
    ensures
        parse_line(shorthand_line(tag, id, class)) == Ok::<Node, Failure>(
            element_with_id_and_class(tag, id, class),
        ),
        parse_line(explicit_line(tag, id, class)) == parse_line(shorthand_line(tag, id, class)),
{
    // the shorthand
    let classes = seq![class];
    let none: Entries = Seq::empty();
    lemma_element_line_read(tag, Some(id), none, classes);
    assert(other_attrs(none, 0) =~= Seq::empty());
    assert(dotted(classes, 0) =~= Seq::empty());
    assert(dotted(classes, 1) =~= seq!['.'] + class);
    assert(element_line(tag, Some(id), none, classes) =~= shorthand_line(tag, id, class));
    assert(props_of(Some(id), none, classes) =~= seq![("id"@, id), ("class"@, class)]);
    // the line with attributes
    let x = explicit_line(tag, id, class);
    let w = tag.len() as int;
    let lead = seq![' ', 'i', 'd', '=', '"'];
    let mid = seq!['"', ' ', 'c', 'l', 'a', 's', 's', '=', '"'];
    let end = seq!['"'];
    lemma_explicit_shorthand(tag, id, class);
    lemma_name_no_space(tag);
    lemma_name_no_space(id);
    lemma_name_no_space(class);
    assert(is_name_char(tag[0]));
    assert(is_space(' '));
    assert(!is_space('"'));
    let a = w + 5;
    let b = a + id.len();
    let c0 = b + 9;
    let d = c0 + class.len();
    assert forall|j: int| 0 <= j < x.len() implies #[trigger] x[j] == (if j < w {
        tag[j]
    } else if j < a {
        lead[j - w]
    } else if j < b {
        id[j - a]
    } else if j < c0 {
        mid[j - b]
    } else if j < d {
        class[j - c0]
    } else {
        '"'
    }) by {}
    assert forall|j: int| 0 <= j < x.len() implies is_name_char(#[trigger] x[j]) || x[j] == ' '
        || x[j] == '=' || x[j] == '"' by {
        if j < w {
            assert(is_name_char(tag[j]));
        } else if j < a {
        } else if j < b {
            assert(is_name_char(id[j - a]));
        } else if j < c0 {
        } else if j < d {
            assert(is_name_char(class[j - c0]));
        }
    }
    assert(x[0] == tag[0]);
    assert(x[x.len() - 1] == '"');
    lemma_has_char(x, '\n');
    lemma_has_char(x, '<');
    lemma_has_char(x, '(');
    lemma_has_char(x, '{');
    if has_char(x, '\n') {
        let j = choose|j: int| 0 <= j < x.len() && x[j] == '\n';
        assert(is_name_char(x[j]) || x[j] == ' ' || x[j] == '=' || x[j] == '"');
    }
    if has_char(x, '<') {
        let j = choose|j: int| 0 <= j < x.len() && x[j] == '<';
        assert(is_name_char(x[j]) || x[j] == ' ' || x[j] == '=' || x[j] == '"');
    }
    if has_char(x, '(') {
        let j = choose|j: int| 0 <= j < x.len() && x[j] == '(';
        assert(is_name_char(x[j]) || x[j] == ' ' || x[j] == '=' || x[j] == '"');
    }
    assert(is_guarded(x)) by {
        assert forall|l: int| 0 <= l < x.len() && #[trigger] x[l] == '{' implies exists|q: int|
            0 <= q < l && #[trigger] x[q] == '"' by {
            assert(is_name_char(x[l]) || x[l] == ' ' || x[l] == '=' || x[l] == '"');
        }
    }
    lemma_no_import(x);
    lemma_find_none(x, '(', 0);
    assert(!opens_call(x));
    assert forall|j: int| 1 <= j < x.len() implies !(#[trigger] x[j] == '"' && is_space(
        x[j - 1],
    )) by {
        if x[j] == '"' {
            if j - 1 < w {
                assert(!is_space(tag[j - 1]));
            } else if j - 1 < a {
            } else if j - 1 < b {
                assert(!is_space(id[j - 1 - a]));
            } else if j - 1 < c0 {
            } else if j - 1 < d {
                assert(!is_space(class[j - 1 - c0]));
            }
        }
    }
    lemma_quote_after_space_is(x, 1, x.len() as int);
    assert(!has_trailing_text(x));
    assert(x[w] == ' ');
    lemma_has_char(x, ' ');
    assert(!is_bare(x));
    assert(!is_ident_char(' '));
    lemma_not_member(x, w);
    assert(!is_quoted(x));
    lemma_read_in_shorthand(x);
}

} // verus!
