//! Which nodes read back.
//!
//! The laws of formatting speak of nodes whose lines read back. This module
//! shows kinds of nodes of which that holds, by what they are made of.

use crate::ast::Node;
use crate::formatter::{arg_texts, comma_list, head_text, quoted};
use crate::grammar::{
    arg_fold, arg_step, comma_args, has_trailing_text, import_of, is_bare, is_member_access,
    join, opens_call, parse_line, quote_after_space, trimmed_nonempty,
};
use crate::props::{distinct_keys, lemma_put_new, put, Entries};
use crate::roundtrip::{is_content, own_line, reads_back_as_itself};
use crate::text::{
    all_space, find, has_char, is_ident, is_ident_char, is_quoted, is_space, is_tidy,
    lemma_find, lemma_find_between, lemma_find_is, lemma_find_none, lemma_has_char,
    lemma_has_char_add, lemma_has_char_one, lemma_ident_lacks, lemma_split_append,
    lemma_split_last, lemma_split_none, lemma_trim_content, lemma_trim_keeps_first,
    lemma_trim_padded, no_space, Pat, split, starts_with, trim, unquote,
};
use vstd::prelude::*;

verus! {

/// An identifier is content of a line, and holds none of the characters that the
/// grammar gives a meaning.
pub proof fn lemma_ident_is_content(s: Seq<char>)
    requires
        is_ident(s),
    ensures
        is_content(s),
        !is_quoted(s),
        !has_char(s, ' '),
        !has_char(s, '#'),
        !has_char(s, '.'),
        !has_char(s, '('),
        !has_char(s, '<'),
        !has_char(s, '{'),
        !has_char(s, '"'),
{
    lemma_ident_lacks(s, '\n');
    lemma_ident_lacks(s, ' ');
    lemma_ident_lacks(s, '#');
    lemma_ident_lacks(s, '.');
    lemma_ident_lacks(s, '(');
    lemma_ident_lacks(s, '<');
    lemma_ident_lacks(s, '{');
    lemma_ident_lacks(s, '"');
    assert(is_ident_char(s[0]));
    assert(is_ident_char(s[s.len() - 1]));
    if starts_with(s, "//"@) {
        reveal_strlit("//");
        assert(s.subrange(0, 2)[0] == '/');
        assert(is_ident_char(s[0]));
    }
}

/// A state binding made of identifiers reads back as itself.
#[verifier::rlimit(40)]
pub proof fn lemma_state_binding_reads_back(signal: Seq<char>, operation: Seq<char>)
    requires
        is_ident(signal),
        operation.len() == 0 || is_ident(operation),
    ensures
        reads_back_as_itself(Node::StateBinding { signal, operation }),
{
    reveal(parse_line);
    reveal(head_text);
    let n = Node::StateBinding { signal, operation };
    lemma_ident_is_content(signal);
    if operation.len() == 0 {
        let c = signal;
        lemma_find_none(c, '{', if c.len() >= 6 {
            6
        } else {
            c.len() as int
        });
        assert(import_of(c) is None);
        lemma_find_none(c, '(', 0);
        assert(!has_trailing_text(c)) by {
            assert(is_ident_char(c[c.len() - 1]));
        }
        assert(operation =~= Seq::empty());
    } else {
        lemma_ident_is_content(operation);
        let dot = seq!['.'];
        let c = signal + dot + operation;
        assert(head_text(n) == c);
        assert(c[0] == signal[0]);
        assert(c[c.len() - 1] == operation[operation.len() - 1]);
        assert(is_ident_char(c[0]));
        assert(is_ident_char(c[c.len() - 1]));
        lemma_has_char_add(signal, dot, '\n');
        lemma_has_char_add(signal + dot, operation, '\n');
        lemma_has_char_one('.', '\n');
        lemma_has_char_add(signal, dot, '{');
        lemma_has_char_add(signal + dot, operation, '{');
        lemma_has_char_one('.', '{');
        lemma_has_char_add(signal, dot, '(');
        lemma_has_char_add(signal + dot, operation, '(');
        lemma_has_char_one('.', '(');
        lemma_has_char_add(signal, dot, '<');
        lemma_has_char_add(signal + dot, operation, '<');
        lemma_has_char_one('.', '<');
        lemma_has_char_add(signal, dot, '.');
        lemma_has_char_add(signal + dot, operation, '.');
        lemma_has_char_one('.', '.');
        if starts_with(c, "//"@) {
            reveal_strlit("//");
            assert(c.subrange(0, 2)[0] == '/');
        }
        lemma_find_none(c, '{', if c.len() >= 6 {
            6
        } else {
            c.len() as int
        });
        assert(import_of(c) is None);
        lemma_find_none(c, '(', 0);
        assert(!opens_call(c));
        assert(!has_trailing_text(c));
        assert(!is_bare(c));
        lemma_find_between(signal, '.', operation);
        assert(c.subrange(0, signal.len() as int) =~= signal);
        assert(c.subrange(signal.len() as int + 1, c.len() as int) =~= operation);
        assert(is_member_access(c));
    }
}

/// Parts in a row hold a character only where a part or the separator holds it.
pub proof fn lemma_join_lacks(parts: Seq<Seq<char>>, sep: Seq<char>, n: int, c: char)
    requires
        0 <= n <= parts.len(),
        !has_char(sep, c),
        forall|i: int| 0 <= i < n ==> !has_char(#[trigger] parts[i], c),
    ensures
        !has_char(join(parts, sep, n), c),
    decreases n,
{
    if n <= 0 {
        lemma_has_char(Seq::<char>::empty(), c);
    } else if n == 1 {
    } else {
        lemma_join_lacks(parts, sep, n - 1, c);
        lemma_has_char_add(join(parts, sep, n - 1), sep, c);
        lemma_has_char_add(join(parts, sep, n - 1) + sep, parts[n - 1], c);
    }
}

/// Whether `key: value` reads back as an argument of a component: neither has white
/// space at its ends, a comma or a line feed, and the key has no colon.
pub open spec fn is_plain_arg(key: Seq<char>, value: Seq<char>) -> bool {
    &&& is_tidy(key)
    &&& is_tidy(value)
    &&& !has_char(key, ':')
    &&& !has_char(key, ',')
    &&& !has_char(value, ',')
    &&& !has_char(key, '\n')
    &&& !has_char(value, '\n')
}

/// Whether `props` read back as the arguments of a component: the keys are
/// distinct, and every argument reads back.
pub open spec fn are_plain_args(props: Entries) -> bool {
    &&& distinct_keys(props)
    &&& forall|i: int| 0 <= i < props.len() ==> is_plain_arg((#[trigger] props[i]).0, props[i].1)
}

/// An argument as it is written holds no comma and no line feed.
pub proof fn lemma_arg_text_lacks(key: Seq<char>, value: Seq<char>)
    requires
        is_plain_arg(key, value),
    ensures
        !has_char(key + seq![':', ' '] + value, ','),
        !has_char(key + seq![':', ' '] + value, '\n'),
        !has_char(seq![' '] + (key + seq![':', ' '] + value), ','),
{
    let mid = seq![':', ' '];
    lemma_has_char(mid, ',');
    lemma_has_char(mid, '\n');
    lemma_has_char_add(key, mid, ',');
    lemma_has_char_add(key + mid, value, ',');
    lemma_has_char_add(key, mid, '\n');
    lemma_has_char_add(key + mid, value, '\n');
    lemma_has_char_one(' ', ',');
    lemma_has_char_add(seq![' '], key + mid + value, ',');
}

/// A written argument, with or without a space before it, is read as its key and value.
pub proof fn lemma_arg_step(m: Entries, pad: Seq<char>, key: Seq<char>, value: Seq<char>)
    requires
        all_space(pad),
        is_plain_arg(key, value),
    ensures
        arg_step(m, pad + (key + seq![':', ' '] + value)) == put(m, key, value),
{
    let seg = pad + (key + seq![':', ' '] + value);
    let colon = seq![':'];
    let sp = seq![' '];
    assert(is_space(' '));
    assert(!is_space(':'));
    // what the segment is without the white space around it
    let t = if value.len() == 0 {
        key + colon
    } else {
        key + colon + sp + value
    };
    let y = if value.len() == 0 {
        sp
    } else {
        Seq::<char>::empty()
    };
    assert(seg =~= pad + t + y);
    assert(is_tidy(t)) by {
        if key.len() > 0 {
            assert(t[0] == key[0]);
        } else {
            assert(t[0] == ':');
        }
        if value.len() > 0 {
            assert(t[t.len() - 1] == value[value.len() - 1]);
        } else {
            assert(t[t.len() - 1] == ':');
        }
    }
    lemma_trim_padded(pad, t, y);
    assert(trim(seg) == t);
    // the first colon stands behind the key
    let rest = if value.len() == 0 {
        Seq::<char>::empty()
    } else {
        sp + value
    };
    assert(t =~= key + colon + rest);
    lemma_find_between(key, ':', rest);
    let c = key.len() as int;
    assert(find(t, Pat::Is(':'), 0) == c);
    assert(t.subrange(0, c) =~= key);
    assert(t.subrange(c + 1, t.len() as int) =~= rest);
    lemma_trim_padded(Seq::empty(), key, Seq::empty());
    assert(Seq::<char>::empty() + key + Seq::<char>::empty() =~= key);
    if value.len() == 0 {
        lemma_trim_padded(Seq::empty(), value, Seq::empty());
        assert(Seq::<char>::empty() + value + Seq::<char>::empty() =~= rest);
        assert(value =~= Seq::empty());
    } else {
        lemma_trim_padded(sp, value, Seq::empty());
        assert(sp + value + Seq::<char>::empty() =~= rest);
    }
}

/// The segments between the commas of written arguments: the first argument, and
/// every further one behind a space.
pub open spec fn arg_segments(props: Entries, n: int) -> Seq<Seq<char>> {
    Seq::new(
        n as nat,
        |i: int|
            if i == 0 {
                arg_texts(props)[0]
            } else {
                seq![' '] + arg_texts(props)[i]
            },
    )
}

/// Written arguments split at their commas into their segments.
pub proof fn lemma_args_split(props: Entries, n: int)
    requires
        are_plain_args(props),
        1 <= n <= props.len(),
    ensures
        split(join(arg_texts(props), seq![',', ' '], n), ',') == arg_segments(props, n),
    decreases n,
{
    let texts = arg_texts(props);
    let sep = seq![',', ' '];
    assert(is_plain_arg(props[n - 1].0, props[n - 1].1));
    lemma_arg_text_lacks(props[n - 1].0, props[n - 1].1);
    if n == 1 {
        lemma_split_none(texts[0], ',');
        assert(arg_segments(props, 1) =~= seq![texts[0]]);
    } else {
        lemma_args_split(props, n - 1);
        let before = join(texts, sep, n - 1);
        let last = seq![' '] + texts[n - 1];
        assert(join(texts, sep, n) =~= before + seq![','] + last);
        lemma_split_last(before, ',', last);
        assert(arg_segments(props, n - 1).push(last) =~= arg_segments(props, n));
    }
}

/// Reading the first `k` segments of written arguments gives the first `k` arguments.
pub proof fn lemma_args_fold(props: Entries, n: int, k: int)
    requires
        are_plain_args(props),
        0 <= k <= n <= props.len(),
    ensures
        arg_fold(arg_segments(props, n), k) == props.take(k),
    decreases k,
{
    if k == 0 {
        assert(props.take(0) =~= Seq::empty());
    } else {
        lemma_args_fold(props, n, k - 1);
        let (key, value) = props[k - 1];
        assert(is_plain_arg(props[k - 1].0, props[k - 1].1));
        let pad = if k - 1 == 0 {
            Seq::<char>::empty()
        } else {
            seq![' ']
        };
        assert(is_space(' '));
        let written = key + seq![':', ' '] + value;
        assert(arg_texts(props)[k - 1] == written);
        assert(arg_segments(props, n)[k - 1] =~= pad + written);
        lemma_arg_step(props.take(k - 1), pad, key, value);
        lemma_put_new(props.take(k - 1), key, value);
        assert(props.take(k - 1).push((key, value)) =~= props.take(k));
    }
}

/// Arguments that read back, written with commas between them, are read as they are.
pub proof fn lemma_args_read_back(props: Entries)
    requires
        are_plain_args(props),
    ensures
        comma_args(comma_list(arg_texts(props))) == props,
        !has_char(comma_list(arg_texts(props)), '\n'),
{
    let texts = arg_texts(props);
    let sep = seq![',', ' '];
    let n = props.len() as int;
    assert forall|i: int| 0 <= i < n implies !has_char(#[trigger] texts[i], '\n') by {
        assert(is_plain_arg(props[i].0, props[i].1));
        lemma_arg_text_lacks(props[i].0, props[i].1);
    }
    lemma_has_char(sep, '\n');
    lemma_join_lacks(texts, sep, n, '\n');
    if n == 0 {
        let e = Seq::<char>::empty();
        lemma_has_char(e, ',');
        lemma_split_none(e, ',');
        lemma_trim_padded(e, e, e);
        assert(e + e + e =~= e);
        assert(find(e, Pat::Is(':'), 0) == 0);
        assert(arg_fold(seq![e], 0) =~= Seq::empty());
        assert(props =~= Seq::empty());
    } else {
        lemma_args_split(props, n);
        lemma_args_fold(props, n, n);
        assert(props.take(n) =~= props);
    }
}

/// A component whose name is an identifier and whose arguments read back reads back
/// as itself, whatever children it has.
#[verifier::rlimit(40)]
pub proof fn lemma_component_reads_back(name: Seq<char>, props: Entries, children: Seq<Node>)
    requires
        is_ident(name),
        are_plain_args(props),
    ensures
        reads_back_as_itself(Node::Component { name, props, children }),
{
    reveal(parse_line);
    reveal(head_text);
    let n = Node::Component { name, props, children };
    let inner = comma_list(arg_texts(props));
    let open = seq!['('];
    let close = seq![')'];
    let c = name + open + inner + close;
    assert(head_text(n) == c);
    lemma_ident_is_content(name);
    lemma_args_read_back(props);
    let rest = inner + close;
    assert(c =~= name + open + rest);
    assert(c[0] == name[0]);
    assert(is_ident_char(c[0]));
    assert(c[c.len() - 1] == ')');
    // content
    lemma_has_char_one('(', '\n');
    lemma_has_char_one(')', '\n');
    lemma_has_char_add(name, open, '\n');
    lemma_has_char_add(name + open, inner, '\n');
    lemma_has_char_add(name + open + inner, close, '\n');
    if starts_with(c, "//"@) {
        reveal_strlit("//");
        assert(c.subrange(0, 2)[0] == '/');
    }
    assert(is_content(c));
    // the call
    lemma_find_between(name, '(', rest);
    let p = name.len() as int;
    assert(find(c, Pat::Is('('), 0) == p);
    assert(c.subrange(0, p) =~= name);
    lemma_trim_content(name);
    assert(opens_call(c));
    assert(c.subrange(p + 1, c.len() - 1) =~= inner);
    // no import
    if starts_with(c, "import"@) {
        reveal_strlit("import");
        let l = find(c, Pat::Is('{'), 6);
        if name.len() < 6 {
            assert(c.subrange(0, 6)[p] == '(');
            assert("import"@[p] != '(');
        } else {
            lemma_find(c, Pat::Is('{'), 6);
            if l < c.len() {
                assert(c[6] != '{') by {
                    if name.len() == 6 {
                        assert(c[6] == '(');
                    } else {
                        assert(c[6] == name[6]);
                        assert(is_ident_char(name[6]));
                    }
                }
                let gap = c.subrange(6, l);
                assert(gap[0] == c[6]);
                assert(!is_space(gap[0])) by {
                    if name.len() == 6 {
                        assert(c[6] == '(');
                    } else {
                        assert(c[6] == name[6]);
                        assert(is_ident_char(name[6]));
                    }
                }
                lemma_trim_keeps_first(gap);
            }
        }
    }
    assert(import_of(c) is None);
    assert(own_line(n) == Node::Component { name, props, children: Seq::empty() });
}

/// Text with a space in it, and without a line feed, reads back as itself.
pub proof fn lemma_spaced_text_reads_back(t: Seq<char>)
    requires
        has_char(t, ' '),
        !has_char(t, '\n'),
    ensures
        reads_back_as_itself(Node::Text(t)),
{
    reveal(parse_line);
    reveal(head_text);
    let q = seq!['"'];
    let c = quoted(t);
    assert(c =~= q + t + q);
    assert(c[0] == '"');
    assert(c[c.len() - 1] == '"');
    assert(!is_space('"'));
    lemma_has_char_one('"', '\n');
    lemma_has_char_add(q, t, '\n');
    lemma_has_char_add(q + t, q, '\n');
    if starts_with(c, "//"@) {
        reveal_strlit("//");
        assert(c.subrange(0, 2)[0] == '/');
    }
    assert(unquote(c) =~= t);
}

/// Where no character of `c` is white space, no double quote of `c` stands behind
/// white space.
pub proof fn lemma_no_quote_after_space(c: Seq<char>, from: int)
    requires
        no_space(c),
        1 <= from <= c.len(),
    ensures
        quote_after_space(c, from) == c.len(),
    decreases c.len() - from,
{
    if from < c.len() {
        assert(!is_space(c[from - 1]));
        lemma_no_quote_after_space(c, from + 1);
    }
}

/// Whether `t` is a word that the grammar reads as text: it has no white space and
/// none of `#`, `.`, `(` and `<`, is no identifier, does not stand between double
/// quotes, and begins neither a comment nor an import.
pub open spec fn is_bare_word(t: Seq<char>) -> bool {
    &&& t.len() > 0
    &&& no_space(t)
    &&& !has_char(t, '#')
    &&& !has_char(t, '.')
    &&& !has_char(t, '(')
    &&& !has_char(t, '<')
    &&& !is_ident(t)
    &&& !is_quoted(t)
    &&& !starts_with(t, "//"@)
    &&& !starts_with(t, "import"@)
}

/// A bare word reads back as the text that it is.
pub proof fn lemma_bare_text_reads_back(t: Seq<char>)
    requires
        is_bare_word(t),
    ensures
        reads_back_as_itself(Node::Text(t)),
{
    reveal(parse_line);
    reveal(head_text);
    assert(is_space(' '));
    assert(is_space('\n'));
    lemma_has_char(t, ' ');
    lemma_has_char(t, '\n');
    assert(!is_space(t[0]));
    assert(!is_space(t[t.len() - 1]));
    if t.len() >= 2 {
        lemma_no_quote_after_space(t, 1);
    }
    lemma_find_none(t, '(', 0);
}

/// Whether an import of `names` from `from` reads back: every name is something
/// without white space at its ends, without comma, closing brace and line feed, and
/// `from` has no line feed.
pub open spec fn is_plain_import(names: Seq<Seq<char>>, from: Seq<char>) -> bool {
    &&& !has_char(from, '\n')
    &&& forall|i: int|
        0 <= i < names.len() ==> {
            &&& (#[trigger] names[i]).len() > 0
            &&& is_tidy(names[i])
            &&& !has_char(names[i], ',')
            &&& !has_char(names[i], '}')
            &&& !has_char(names[i], '\n')
        }
}

/// The segments between the commas of written names: every name behind a space.
pub open spec fn name_segments(names: Seq<Seq<char>>, n: int) -> Seq<Seq<char>> {
    Seq::new(n as nat, |i: int| seq![' '] + names[i])
}

/// Written names behind a space split at their commas into their segments.
pub proof fn lemma_names_split(names: Seq<Seq<char>>, from: Seq<char>, n: int)
    requires
        is_plain_import(names, from),
        1 <= n <= names.len(),
    ensures
        split(seq![' '] + join(names, seq![',', ' '], n), ',') == name_segments(names, n),
    decreases n,
{
    let sep = seq![',', ' '];
    let sp = seq![' '];
    let last = sp + names[n - 1];
    lemma_has_char_one(' ', ',');
    lemma_has_char_add(sp, names[n - 1], ',');
    if n == 1 {
        lemma_split_none(last, ',');
        assert(name_segments(names, 1) =~= seq![last]);
    } else {
        lemma_names_split(names, from, n - 1);
        let before = sp + join(names, sep, n - 1);
        assert(sp + join(names, sep, n) =~= before + seq![','] + last);
        lemma_split_last(before, ',', last);
        assert(name_segments(names, n - 1).push(last) =~= name_segments(names, n));
    }
}

/// What stands between the braces of a written import, split at its commas.
pub open spec fn brace_segments(names: Seq<Seq<char>>) -> Seq<Seq<char>> {
    if names.len() == 0 {
        seq![seq![' ', ' ']]
    } else {
        let n = names.len() as int;
        name_segments(names, n).drop_last().push(seq![' '] + names[n - 1] + seq![' '])
    }
}

/// Cutting the white space off the first `k` segments between the braces gives the
/// first `k` names.
pub proof fn lemma_names_fold(names: Seq<Seq<char>>, from: Seq<char>, k: int)
    requires
        is_plain_import(names, from),
        0 <= k <= names.len(),
        names.len() > 0,
    ensures
        trimmed_nonempty(brace_segments(names), k) == names.take(k),
    decreases k,
{
    if k == 0 {
        assert(names.take(0) =~= Seq::empty());
    } else {
        lemma_names_fold(names, from, k - 1);
        let sp = seq![' '];
        assert(is_space(' '));
        let seg = brace_segments(names)[k - 1];
        if k == names.len() {
            assert(seg == sp + names[k - 1] + sp);
            lemma_trim_padded(sp, names[k - 1], sp);
        } else {
            assert(seg == sp + names[k - 1]);
            lemma_trim_padded(sp, names[k - 1], Seq::empty());
            assert(sp + names[k - 1] + Seq::<char>::empty() =~= seg);
        }
        assert(names.take(k - 1).push(names[k - 1]) =~= names.take(k));
    }
}

/// The names of a written import are read as they are.
pub proof fn lemma_names_read_back(names: Seq<Seq<char>>, from: Seq<char>)
    requires
        is_plain_import(names, from),
    ensures
        trimmed_nonempty(
            split(seq![' '] + comma_list(names) + seq![' '], ','),
            split(seq![' '] + comma_list(names) + seq![' '], ',').len() as int,
        ) == names,
{
    let sp = seq![' '];
    let inner = sp + comma_list(names) + sp;
    assert(is_space(' '));
    lemma_has_char_one(' ', ',');
    if names.len() == 0 {
        assert(inner =~= seq![' ', ' ']);
        lemma_has_char(inner, ',');
        lemma_split_none(inner, ',');
        let e = Seq::<char>::empty();
        lemma_trim_padded(inner, e, e);
        assert(inner + e + e =~= inner);
        assert(trimmed_nonempty(seq![inner], 0) =~= Seq::empty());
        assert(names =~= Seq::empty());
    } else {
        let n = names.len() as int;
        lemma_names_split(names, from, n);
        let head = sp + comma_list(names);
        lemma_split_append(head, ',', sp);
        assert(name_segments(names, n).last() == sp + names[n - 1]);
        assert(split(inner, ',') == brace_segments(names));
        lemma_names_fold(names, from, n);
        assert(names.take(n) =~= names);
    }
}

/// An import whose names and source read back reads back as itself.
#[verifier::rlimit(40)]
pub proof fn lemma_import_reads_back(names: Seq<Seq<char>>, from: Seq<char>)
    requires
        is_plain_import(names, from),
    ensures
        reads_back_as_itself(Node::Import { names, from }),
{
    reveal(parse_line);
    reveal(head_text);
    reveal_strlit("import { ");
    reveal_strlit(" } from ");
    reveal_strlit("import");
    reveal_strlit("from");
    reveal_strlit("//");
    let n = Node::Import { names, from };
    let p = "import { "@;
    let j = comma_list(names);
    let s = " } from "@;
    let q = quoted(from);
    let c = p + j + s + q;
    assert(head_text(n) == c);
    assert(is_space(' '));
    assert(!is_space('"'));
    let sp = seq![' '];
    // the names hold no brace and no line feed
    lemma_has_char(seq![',', ' '], '}');
    lemma_has_char(seq![',', ' '], '\n');
    lemma_join_lacks(names, seq![',', ' '], names.len() as int, '}');
    lemma_join_lacks(names, seq![',', ' '], names.len() as int, '\n');
    lemma_has_char(j, '}');
    // content
    assert(c[0] == 'i');
    assert(c[c.len() - 1] == '"');
    lemma_has_char(p, '\n');
    lemma_has_char(s, '\n');
    lemma_has_char_one('"', '\n');
    lemma_has_char_add(seq!['"'], from, '\n');
    lemma_has_char_add(seq!['"'] + from, seq!['"'], '\n');
    lemma_has_char_add(p, j, '\n');
    lemma_has_char_add(p + j, s, '\n');
    lemma_has_char_add(p + j + s, q, '\n');
    if starts_with(c, "//"@) {
        assert(c.subrange(0, 2)[0] == '/');
    }
    assert(is_content(c));
    // the opening brace
    assert(c.subrange(0, 6) =~= "import"@);
    assert(c[6] == ' ');
    assert(c[7] == '{');
    lemma_find_is(c, Pat::Is('{'), 6, 7);
    let e = Seq::<char>::empty();
    assert(c.subrange(6, 7) =~= sp + e + e);
    lemma_trim_padded(sp, e, e);
    // the closing brace
    let r: int = 10 + j.len() as int;
    assert(c[8] == ' ');
    assert(c[r - 1] == ' ');
    assert(c[r] == '}');
    assert forall|k: int| 8 <= k < r implies !crate::text::hits(Pat::Is('}'), #[trigger] c[k]) by {
        if 9 <= k < r - 1 {
            assert(c[k] == j[k - 9]);
        }
    }
    lemma_find_is(c, Pat::Is('}'), 8, r);
    // what stands behind it
    let word = "from"@;
    let t = word + sp + q;
    assert(c.subrange(r + 1, c.len() as int) =~= sp + t + e);
    assert(t[0] == 'f');
    assert(t[t.len() - 1] == '"');
    lemma_trim_padded(sp, t, e);
    assert(t.subrange(0, 4) =~= word);
    assert(t.subrange(4, t.len() as int) =~= sp + q + e);
    assert(q[0] == '"');
    assert(q[q.len() - 1] == '"');
    lemma_trim_padded(sp, q, e);
    assert(unquote(q) =~= from);
    // the names
    assert(c.subrange(8, r) =~= sp + j + sp);
    lemma_names_read_back(names, from);
}

} // verus!
