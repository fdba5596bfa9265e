//! Character sequences: searching, trimming and splitting.
//!
//! Every routine has a mathematical twin on `Seq<char>`; the executable
//! versions work on `Vec<char>` and are proved to compute exactly that twin.

use vstd::prelude::*;

verus! {

/// The characters that Unicode gives the property `White_Space`.
pub open spec fn is_space(c: char) -> bool {
    let n = c as u32;
    (0x09 <= n <= 0x0D) || n == 0x20 || n == 0x85 || n == 0xA0 || n == 0x1680 || (0x2000 <= n
        <= 0x200A) || n == 0x2028 || n == 0x2029 || n == 0x202F || n == 0x205F || n == 0x3000
}

/// Tells whether `c` is white space.
pub fn is_space_char(c: char) -> (b: bool)
    ensures
        b == is_space(c),
{
    let n: u32 = c as u32;
    (0x09 <= n && n <= 0x0D) || n == 0x20 || n == 0x85 || n == 0xA0 || n == 0x1680 || (0x2000 <= n
        && n <= 0x200A) || n == 0x2028 || n == 0x2029 || n == 0x202F || n == 0x205F || n == 0x3000
}

/// A letter of the ASCII alphabet or an underscore.
pub open spec fn is_ident_start(c: char) -> bool {
    ('a' <= c <= 'z') || ('A' <= c <= 'Z') || c == '_'
}

/// A character that may continue an identifier.
pub open spec fn is_ident_char(c: char) -> bool {
    is_ident_start(c) || ('0' <= c <= '9')
}

/// An identifier: a letter or underscore followed by letters, digits and underscores.
pub open spec fn is_ident(s: Seq<char>) -> bool {
    &&& s.len() > 0
    &&& is_ident_start(s[0])
    &&& forall|i: int| 0 <= i < s.len() ==> is_ident_char(#[trigger] s[i])
}

/// Tells whether `v` is an identifier.
pub fn is_ident_vec(v: &Vec<char>) -> (b: bool)
    ensures
        b == is_ident(v@),
{
    if v.len() == 0 {
        return false;
    }
    let c0 = v[0];
    if !(('a' <= c0 && c0 <= 'z') || ('A' <= c0 && c0 <= 'Z') || c0 == '_') {
        return false;
    }
    let mut i: usize = 0;
    while i < v.len()
        invariant
            i <= v.len(),
            forall|j: int| 0 <= j < i ==> is_ident_char(#[trigger] v@[j]),
        decreases v.len() - i,
    {
        let c = v[i];
        if !(('a' <= c && c <= 'z') || ('A' <= c && c <= 'Z') || c == '_' || ('0' <= c && c
            <= '9')) {
            return false;
        }
        i += 1;
    }
    true
}

/// What a search looks for.
#[derive(Clone, Copy, Debug)]
pub enum Pat {
    /// This very character.
    Is(char),
    /// Any white space.
    Space,
    /// Anything but white space.
    NonSpace,
}

/// Whether `c` is what `p` looks for.
pub open spec fn hits(p: Pat, c: char) -> bool {
    match p {
        Pat::Is(x) => c == x,
        Pat::Space => is_space(c),
        Pat::NonSpace => !is_space(c),
    }
}

/// Tells whether `c` is what `p` looks for.
pub fn hits_char(p: Pat, c: char) -> (b: bool)
    ensures
        b == hits(p, c),
{
    match p {
        Pat::Is(x) => c == x,
        Pat::Space => is_space_char(c),
        Pat::NonSpace => !is_space_char(c),
    }
}

/// The first index at or after `from` whose character `p` looks for;
/// the length of `s` where there is none.
pub open spec fn find(s: Seq<char>, p: Pat, from: int) -> int
    decreases s.len() - from,
{
    if from < 0 || from >= s.len() {
        s.len() as int
    } else if hits(p, s[from]) {
        from
    } else {
        find(s, p, from + 1)
    }
}

/// `find` returns the least hit at or after `from`.
pub proof fn lemma_find(s: Seq<char>, p: Pat, from: int)
    requires
        0 <= from <= s.len(),
    ensures
        from <= find(s, p, from) <= s.len(),
        find(s, p, from) < s.len() ==> hits(p, s[find(s, p, from)]),
        forall|j: int| from <= j < find(s, p, from) ==> !hits(p, #[trigger] s[j]),
    decreases s.len() - from,
{
    if from < s.len() && !hits(p, s[from]) {
        lemma_find(s, p, from + 1);
    }
}

/// An index with no hit before it, and a hit or the end at it, is what `find` returns.
pub proof fn lemma_find_is(s: Seq<char>, p: Pat, from: int, r: int)
    requires
        0 <= from <= r <= s.len(),
        r < s.len() ==> hits(p, s[r]),
        forall|j: int| from <= j < r ==> !hits(p, #[trigger] s[j]),
    ensures
        find(s, p, from) == r,
    decreases r - from,
{
    if from < r {
        assert(!hits(p, s[from]));
        lemma_find_is(s, p, from + 1, r);
    }
}

/// Searches `v` from `from` on.
pub fn find_in(v: &Vec<char>, p: Pat, from: usize) -> (r: usize)
    requires
        from <= v.len(),
    ensures
        r == find(v@, p, from as int),
        from <= r <= v.len(),
        r < v.len() ==> hits(p, v@[r as int]),
{
    let mut i: usize = from;
    while i < v.len() && !hits_char(p, v[i])
        invariant
            from <= i <= v.len(),
            find(v@, p, from as int) == find(v@, p, i as int),
        decreases v.len() - i,
    {
        i += 1;
    }
    proof {
        lemma_find(v@, p, i as int);
    }
    i
}

/// Whether `s` holds the character `c`.
pub open spec fn has_char(s: Seq<char>, c: char) -> bool {
    find(s, Pat::Is(c), 0) < s.len()
}

/// `has_char` says that some index holds `c`.
pub proof fn lemma_has_char(s: Seq<char>, c: char)
    ensures
        has_char(s, c) <==> exists|i: int| 0 <= i < s.len() && s[i] == c,
{
    lemma_find(s, Pat::Is(c), 0);
    if has_char(s, c) {
        assert(s[find(s, Pat::Is(c), 0)] == c);
    }
}

/// The end of `s[..n]` once trailing white space is cut off.
pub open spec fn trim_end(s: Seq<char>, n: int) -> int
    decreases n,
{
    if n <= 0 || n > s.len() {
        0
    } else if !is_space(s[n - 1]) {
        n
    } else {
        trim_end(s, n - 1)
    }
}

/// `trim_end` stops behind the last character that is no white space.
pub proof fn lemma_trim_end(s: Seq<char>, n: int)
    requires
        0 <= n <= s.len(),
    ensures
        0 <= trim_end(s, n) <= n,
        trim_end(s, n) > 0 ==> !is_space(s[trim_end(s, n) - 1]),
        forall|j: int| trim_end(s, n) <= j < n ==> is_space(#[trigger] s[j]),
    decreases n,
{
    if n > 0 && is_space(s[n - 1]) {
        lemma_trim_end(s, n - 1);
    }
}

/// `s` without the white space at its two ends.
pub open spec fn trim(s: Seq<char>) -> Seq<char> {
    let a = find(s, Pat::NonSpace, 0);
    let b = trim_end(s, s.len() as int);
    if a < b {
        s.subrange(a, b)
    } else {
        Seq::empty()
    }
}

/// The number of white-space characters that `s` begins with.
pub open spec fn indent_of(s: Seq<char>) -> int {
    find(s, Pat::NonSpace, 0)
}

/// A copy of `v[from..to]`.
pub fn slice_of(v: &Vec<char>, from: usize, to: usize) -> (r: Vec<char>)
    requires
        from <= to <= v.len(),
    ensures
        r@ == v@.subrange(from as int, to as int),
{
    let mut r: Vec<char> = Vec::new();
    let mut i: usize = from;
    while i < to
        invariant
            from <= i <= to <= v.len(),
            r@ == v@.subrange(from as int, i as int),
        decreases to - i,
    {
        r.push(v[i]);
        i += 1;
    }
    r
}

/// Cuts the white space off both ends of `v`.
pub fn trim_vec(v: &Vec<char>) -> (r: Vec<char>)
    ensures
        r@ == trim(v@),
{
    let a = find_in(v, Pat::NonSpace, 0);
    let mut b: usize = v.len();
    while b > 0 && is_space_char(v[b - 1])
        invariant
            b <= v.len(),
            trim_end(v@, v.len() as int) == trim_end(v@, b as int),
        decreases b,
    {
        b -= 1;
    }
    if a < b {
        slice_of(v, a, b)
    } else {
        Vec::new()
    }
}

/// The character sequences that the vectors of `v` hold.
pub open spec fn rows(v: Seq<Vec<char>>) -> Seq<Seq<char>> {
    Seq::new(v.len(), |i: int| v[i]@)
}

/// The rows of a vector grow with the vector.
pub proof fn lemma_rows_push(v: Seq<Vec<char>>, x: Vec<char>)
    ensures
        rows(v.push(x)) == rows(v).push(x@),
{
    assert(rows(v.push(x)) =~= rows(v).push(x@));
}

/// The pieces of `s[from..]` between the occurrences of `c`.
pub open spec fn split_from(s: Seq<char>, c: char, from: int) -> Seq<Seq<char>>
    decreases s.len() - from,
{
    if from < 0 || from > s.len() {
        Seq::empty()
    } else {
        let i = find(s, Pat::Is(c), from);
        if i < from || i >= s.len() {
            seq![s.subrange(from, s.len() as int)]
        } else {
            seq![s.subrange(from, i)] + split_from(s, c, i + 1)
        }
    }
}

/// The pieces of `s` between the occurrences of `c`; one piece more than there are occurrences.
pub open spec fn split(s: Seq<char>, c: char) -> Seq<Seq<char>> {
    split_from(s, c, 0)
}

/// Splits `v` at every `c`.
pub fn split_vec(v: &Vec<char>, c: char) -> (r: Vec<Vec<char>>)
    ensures
        rows(r@) == split(v@, c),
{
    let mut r: Vec<Vec<char>> = Vec::new();
    let mut from: usize = 0;
    assert(rows(r@) =~= Seq::empty());
    loop
        invariant
            from <= v.len(),
            split(v@, c) == rows(r@) + split_from(v@, c, from as int),
        decreases v.len() - from,
    {
        let i = find_in(v, Pat::Is(c), from);
        let piece = slice_of(v, from, i);
        proof {
            lemma_rows_push(r@, piece);
        }
        let ghost before = rows(r@);
        r.push(piece);
        if i >= v.len() {
            proof {
                assert(split(v@, c) =~= rows(r@));
            }
            return r;
        }
        proof {
            assert(before + (seq![v@.subrange(from as int, i as int)] + split_from(
                v@,
                c,
                i + 1,
            )) =~= rows(r@) + split_from(v@, c, i + 1));
        }
        from = i + 1;
    }
}

/// The maximal runs of characters of `s[from..]` that hold no white space.
pub open spec fn words_from(s: Seq<char>, from: int) -> Seq<Seq<char>>
    decreases s.len() - from,
{
    if from < 0 || from >= s.len() {
        Seq::empty()
    } else {
        let a = find(s, Pat::NonSpace, from);
        if a < from || a >= s.len() {
            Seq::empty()
        } else {
            let b = find(s, Pat::Space, a);
            if a < b <= s.len() {
                seq![s.subrange(a, b)] + words_from(s, b)
            } else {
                Seq::empty()
            }
        }
    }
}

/// The words of `s`: what stands between its stretches of white space.
pub open spec fn words(s: Seq<char>) -> Seq<Seq<char>> {
    words_from(s, 0)
}

/// Splits `v` into its words.
pub fn words_vec(v: &Vec<char>) -> (r: Vec<Vec<char>>)
    ensures
        rows(r@) == words(v@),
{
    let mut r: Vec<Vec<char>> = Vec::new();
    let mut from: usize = 0;
    assert(rows(r@) =~= Seq::empty());
    while from < v.len()
        invariant
            from <= v.len(),
            words(v@) == rows(r@) + words_from(v@, from as int),
        decreases v.len() - from,
    {
        let a = find_in(v, Pat::NonSpace, from);
        if a >= v.len() {
            proof {
                assert(words(v@) =~= rows(r@));
            }
            return r;
        }
        let b = find_in(v, Pat::Space, a);
        let word = slice_of(v, a, b);
        proof {
            lemma_find(v@, Pat::NonSpace, from as int);
            lemma_find(v@, Pat::Space, a as int);
            assert(b > a);
            lemma_rows_push(r@, word);
            assert(rows(r@) + (seq![v@.subrange(a as int, b as int)] + words_from(v@, b as int))
                =~= rows(r@).push(word@) + words_from(v@, b as int));
        }
        r.push(word);
        from = b;
    }
    proof {
        assert(words(v@) =~= rows(r@));
    }
    r
}

/// Searching behind a prefix is searching in what follows the prefix.
pub proof fn lemma_find_shift(a: Seq<char>, b: Seq<char>, p: Pat, k: int)
    requires
        0 <= k <= b.len(),
    ensures
        find(a + b, p, a.len() + k) == a.len() + find(b, p, k),
    decreases b.len() - k,
{
    if k < b.len() {
        assert((a + b)[a.len() + k] == b[k]);
        if !hits(p, b[k]) {
            lemma_find_shift(a, b, p, k + 1);
        }
    }
}

/// Searching in a prefix that holds a hit does not depend on what follows.
pub proof fn lemma_find_in_prefix(a: Seq<char>, b: Seq<char>, p: Pat, k: int)
    requires
        0 <= k <= a.len(),
        find(a, p, k) < a.len(),
    ensures
        find(a + b, p, k) == find(a, p, k),
    decreases a.len() - k,
{
    if k < a.len() {
        assert((a + b)[k] == a[k]);
        if !hits(p, a[k]) {
            lemma_find_in_prefix(a, b, p, k + 1);
        }
    }
}

/// Searching in a prefix without a hit goes on in what follows.
pub proof fn lemma_find_past_prefix(a: Seq<char>, b: Seq<char>, p: Pat, k: int)
    requires
        0 <= k <= a.len(),
        find(a, p, k) == a.len(),
    ensures
        find(a + b, p, k) == a.len() + find(b, p, 0),
    decreases a.len() - k,
{
    if k < a.len() {
        assert((a + b)[k] == a[k]);
        lemma_find_past_prefix(a, b, p, k + 1);
    } else {
        lemma_find_shift(a, b, p, 0);
    }
}

/// Splitting behind a prefix is splitting what follows the prefix.
pub proof fn lemma_split_shift(a: Seq<char>, b: Seq<char>, c: char, k: int)
    requires
        0 <= k <= b.len(),
    ensures
        split_from(a + b, c, a.len() + k) == split_from(b, c, k),
    decreases b.len() - k,
{
    let s = a + b;
    lemma_find_shift(a, b, Pat::Is(c), k);
    lemma_find(b, Pat::Is(c), k);
    let i = find(b, Pat::Is(c), k);
    if i >= b.len() {
        assert(s.subrange(a.len() + k, s.len() as int) =~= b.subrange(k, b.len() as int));
    } else {
        assert(s.subrange(a.len() + k, a.len() + i) =~= b.subrange(k, i));
        lemma_split_shift(a, b, c, i + 1);
    }
}

/// The pieces of `p`, `c`, `q` in a row, where `p` holds no `c`: `p`, then the pieces of `q`.
pub proof fn lemma_split_head(p: Seq<char>, c: char, q: Seq<char>)
    requires
        !has_char(p, c),
    ensures
        split(p + seq![c] + q, c) == seq![p] + split(q, c),
{
    let a = p + seq![c];
    let s = a + q;
    lemma_find(p, Pat::Is(c), 0);
    assert forall|j: int| 0 <= j < p.len() implies !hits(Pat::Is(c), #[trigger] s[j]) by {
        assert(s[j] == p[j]);
    }
    assert(s[p.len() as int] == c);
    lemma_find_is(s, Pat::Is(c), 0, p.len() as int);
    assert(s.subrange(0, p.len() as int) =~= p);
    lemma_split_shift(a, q, c, 0);
}

/// Cutting the white space off an indented line gives its content, and the width of
/// its indentation is the number of characters before the content.
pub proof fn lemma_trim_indented(x: Seq<char>, t: Seq<char>)
    requires
        forall|i: int| 0 <= i < x.len() ==> is_space(#[trigger] x[i]),
        t.len() > 0,
        !is_space(t[0]),
        !is_space(t[t.len() - 1]),
    ensures
        trim(x + t) == t,
        indent_of(x + t) == x.len(),
{
    let s = x + t;
    assert forall|j: int| 0 <= j < x.len() implies !hits(Pat::NonSpace, #[trigger] s[j]) by {
        assert(s[j] == x[j]);
    }
    assert(s[x.len() as int] == t[0]);
    lemma_find_is(s, Pat::NonSpace, 0, x.len() as int);
    assert(s[s.len() - 1] == t[t.len() - 1]);
    assert(trim_end(s, s.len() as int) == s.len());
    assert(s.subrange(x.len() as int, s.len() as int) =~= t);
}

/// Cutting the white space off a sequence that has none at its ends changes nothing.
pub proof fn lemma_trim_content(t: Seq<char>)
    requires
        t.len() > 0,
        !is_space(t[0]),
        !is_space(t[t.len() - 1]),
    ensures
        trim(t) == t,
{
    lemma_trim_indented(Seq::empty(), t);
    assert(Seq::<char>::empty() + t =~= t);
}

/// A character is in two sequences in a row where it is in one of them.
pub proof fn lemma_has_char_add(a: Seq<char>, b: Seq<char>, c: char)
    ensures
        has_char(a + b, c) == (has_char(a, c) || has_char(b, c)),
{
    lemma_has_char(a + b, c);
    lemma_has_char(a, c);
    lemma_has_char(b, c);
    if has_char(a, c) {
        let i = choose|i: int| 0 <= i < a.len() && a[i] == c;
        assert((a + b)[i] == c);
    }
    if has_char(b, c) {
        let i = choose|i: int| 0 <= i < b.len() && b[i] == c;
        assert((a + b)[a.len() + i] == c);
    }
    if has_char(a + b, c) {
        let i = choose|i: int| 0 <= i < (a + b).len() && (a + b)[i] == c;
        if i < a.len() {
            assert(a[i] == c);
        } else {
            assert(b[i - a.len()] == c);
        }
    }
}

/// A sequence of one character holds that character and no other.
pub proof fn lemma_has_char_one(x: char, c: char)
    ensures
        has_char(seq![x], c) == (x == c),
{
    lemma_has_char(seq![x], c);
    if x == c {
        assert(seq![x][0] == c);
    }
}

/// An identifier holds only characters that may stand in identifiers.
pub proof fn lemma_ident_lacks(s: Seq<char>, c: char)
    requires
        is_ident(s),
        !is_ident_char(c),
    ensures
        !has_char(s, c),
{
    lemma_has_char(s, c);
}

/// Where `a` holds no `c`, the first `c` of `a`, `c`, `b` in a row is the one between them.
pub proof fn lemma_find_between(a: Seq<char>, c: char, b: Seq<char>)
    requires
        !has_char(a, c),
    ensures
        find(a + seq![c] + b, Pat::Is(c), 0) == a.len(),
{
    let s = a + seq![c] + b;
    lemma_find(a, Pat::Is(c), 0);
    assert forall|j: int| 0 <= j < a.len() implies !hits(Pat::Is(c), #[trigger] s[j]) by {
        assert(s[j] == a[j]);
    }
    assert(s[a.len() as int] == c);
    lemma_find_is(s, Pat::Is(c), 0, a.len() as int);
}

/// A sequence without `c` is searched for `c` in vain, from anywhere.
pub proof fn lemma_find_none(s: Seq<char>, c: char, from: int)
    requires
        !has_char(s, c),
        0 <= from <= s.len(),
    ensures
        find(s, Pat::Is(c), from) == s.len(),
{
    lemma_has_char(s, c);
    lemma_find(s, Pat::Is(c), from);
    let i = find(s, Pat::Is(c), from);
    if i < s.len() {
        assert(s[i] == c);
    }
}

/// A sequence without `c` is one piece.
pub proof fn lemma_split_none(s: Seq<char>, c: char)
    requires
        !has_char(s, c),
    ensures
        split(s, c) == seq![s],
{
    assert(s.subrange(0, s.len() as int) =~= s);
}

/// A sequence that holds `c` is what stands before its first `c`, that `c`, and the rest.
pub proof fn lemma_cut_at_first(s: Seq<char>, c: char)
    requires
        has_char(s, c),
    ensures
        s == s.subrange(0, find(s, Pat::Is(c), 0)) + seq![c] + s.subrange(
            find(s, Pat::Is(c), 0) + 1,
            s.len() as int,
        ),
        !has_char(s.subrange(0, find(s, Pat::Is(c), 0)), c),
{
    let i = find(s, Pat::Is(c), 0);
    lemma_find(s, Pat::Is(c), 0);
    let a = s.subrange(0, i);
    assert(s =~= a + seq![c] + s.subrange(i + 1, s.len() as int));
    lemma_has_char(a, c);
    if has_char(a, c) {
        let j = choose|j: int| 0 <= j < a.len() && a[j] == c;
        assert(s[j] == c);
    }
}

/// The pieces of `a`, `c`, `b` in a row, where `b` holds no `c`: those of `a`, then `b`.
pub proof fn lemma_split_last(a: Seq<char>, c: char, b: Seq<char>)
    requires
        !has_char(b, c),
    ensures
        split(a + seq![c] + b, c) == split(a, c).push(b),
    decreases a.len(),
{
    if !has_char(a, c) {
        lemma_split_none(a, c);
        lemma_split_none(b, c);
        lemma_split_head(a, c, b);
        assert(seq![a] + seq![b] =~= seq![a].push(b));
    } else {
        let i = find(a, Pat::Is(c), 0);
        lemma_find(a, Pat::Is(c), 0);
        lemma_cut_at_first(a, c);
        let a1 = a.subrange(0, i);
        let a2 = a.subrange(i + 1, a.len() as int);
        lemma_split_head(a1, c, a2);
        lemma_split_last(a2, c, b);
        assert(a + seq![c] + b =~= a1 + seq![c] + (a2 + seq![c] + b));
        lemma_split_head(a1, c, a2 + seq![c] + b);
        assert(seq![a1] + split(a2, c).push(b) =~= (seq![a1] + split(a2, c)).push(b));
    }
}

/// Splitting gives at least one piece.
pub proof fn lemma_split_len(s: Seq<char>, c: char)
    ensures
        split(s, c).len() >= 1,
{
}

/// The pieces of `a` and `b` in a row, where `b` holds no `c`: those of `a`, the last
/// one with `b` behind it.
pub proof fn lemma_split_append(a: Seq<char>, c: char, b: Seq<char>)
    requires
        !has_char(b, c),
    ensures
        split(a, c).len() >= 1,
        split(a + b, c) == split(a, c).drop_last().push(split(a, c).last() + b),
    decreases a.len(),
{
    lemma_split_len(a, c);
    if !has_char(a, c) {
        lemma_split_none(a, c);
        lemma_has_char_add(a, b, c);
        lemma_split_none(a + b, c);
        assert(seq![a].drop_last().push(a + b) =~= seq![a + b]);
    } else {
        let i = find(a, Pat::Is(c), 0);
        lemma_find(a, Pat::Is(c), 0);
        lemma_cut_at_first(a, c);
        let a1 = a.subrange(0, i);
        let a2 = a.subrange(i + 1, a.len() as int);
        lemma_split_head(a1, c, a2);
        lemma_split_append(a2, c, b);
        assert(a + b =~= a1 + seq![c] + (a2 + b));
        lemma_split_head(a1, c, a2 + b);
        let tail_pieces = split(a2, c);
        assert((seq![a1] + tail_pieces).drop_last() =~= seq![a1] + tail_pieces.drop_last());
        assert(seq![a1] + tail_pieces.drop_last().push(tail_pieces.last() + b) =~= (seq![a1]
            + tail_pieces.drop_last()).push(tail_pieces.last() + b));
        assert((seq![a1] + tail_pieces).last() == tail_pieces.last());
    }
}

/// Whether every character of `s` is white space.
pub open spec fn all_space(s: Seq<char>) -> bool {
    forall|i: int| 0 <= i < s.len() ==> is_space(#[trigger] s[i])
}

/// Whether no character of `s` is white space.
pub open spec fn no_space(s: Seq<char>) -> bool {
    forall|i: int| 0 <= i < s.len() ==> !is_space(#[trigger] s[i])
}

/// Whether `s` has no white space at its ends: it is empty, or begins and ends with
/// something else.
pub open spec fn is_tidy(s: Seq<char>) -> bool {
    s.len() == 0 || (!is_space(s[0]) && !is_space(s[s.len() - 1]))
}

/// An index with only white space from it up to `n`, and none right before it, is
/// where `trim_end` stops.
pub proof fn lemma_trim_end_is(s: Seq<char>, n: int, r: int)
    requires
        0 <= r <= n <= s.len(),
        r > 0 ==> !is_space(s[r - 1]),
        forall|j: int| r <= j < n ==> is_space(#[trigger] s[j]),
    ensures
        trim_end(s, n) == r,
    decreases n - r,
{
    if r < n {
        assert(is_space(s[n - 1]));
        lemma_trim_end_is(s, n - 1, r);
    }
}

/// Cutting the white space off `x`, `t`, `y` in a row, where `x` and `y` are white
/// space and `t` has none at its ends, gives `t`.
pub proof fn lemma_trim_padded(x: Seq<char>, t: Seq<char>, y: Seq<char>)
    requires
        all_space(x),
        all_space(y),
        is_tidy(t),
    ensures
        trim(x + t + y) == t,
{
    let s = x + t + y;
    if t.len() == 0 {
        assert forall|j: int| 0 <= j < s.len() implies is_space(#[trigger] s[j]) by {
            if j < x.len() {
                assert(s[j] == x[j]);
            } else {
                assert(s[j] == y[j - x.len()]);
            }
        }
        lemma_find_is(s, Pat::NonSpace, 0, s.len() as int);
        lemma_trim_end_is(s, s.len() as int, 0);
        assert(t =~= Seq::empty());
    } else {
        assert forall|j: int| 0 <= j < x.len() implies !hits(Pat::NonSpace, #[trigger] s[j]) by {
            assert(s[j] == x[j]);
        }
        assert(s[x.len() as int] == t[0]);
        lemma_find_is(s, Pat::NonSpace, 0, x.len() as int);
        let r = x.len() + t.len();
        assert(s[r - 1] == t[t.len() - 1]);
        assert forall|j: int| r <= j < s.len() implies is_space(#[trigger] s[j]) by {
            assert(s[j] == y[j - r]);
        }
        lemma_trim_end_is(s, s.len() as int, r as int);
        assert(s.subrange(x.len() as int, r as int) =~= t);
    }
}

/// Cutting the white space off a sequence that begins with something else leaves
/// something.
pub proof fn lemma_trim_keeps_first(s: Seq<char>)
    requires
        s.len() > 0,
        !is_space(s[0]),
    ensures
        trim(s).len() > 0,
{
    lemma_trim_end(s, s.len() as int);
    let b = trim_end(s, s.len() as int);
    if b == 0 {
        assert(is_space(s[0]));
    }
}

/// Cutting the white space off a sequence that holds something else leaves something.
pub proof fn lemma_trim_holds(s: Seq<char>, k: int)
    requires
        0 <= k < s.len(),
        !is_space(s[k]),
    ensures
        trim(s).len() > 0,
{
    lemma_find(s, Pat::NonSpace, 0);
    lemma_trim_end(s, s.len() as int);
    let a = find(s, Pat::NonSpace, 0);
    let b = trim_end(s, s.len() as int);
    if a > k {
        assert(!hits(Pat::NonSpace, s[k]));
    }
    if b <= k {
        assert(is_space(s[k]));
    }
}

/// Cutting the white space off a sequence that begins with something else keeps what
/// stands before its last character that is no white space.
pub proof fn lemma_trim_keeps(s: Seq<char>, k: int)
    requires
        0 <= k < s.len(),
        !is_space(s[0]),
        !is_space(s[k]),
    ensures
        trim(s).len() > k,
        forall|j: int| 0 <= j <= k ==> trim(s)[j] == s[j],
{
    lemma_find_is(s, Pat::NonSpace, 0, 0);
    lemma_trim_end(s, s.len() as int);
    let b = trim_end(s, s.len() as int);
    if b <= k {
        assert(is_space(s[k]));
    }
}

/// Whether `p` is a stretch of `s`.
pub open spec fn is_part(p: Seq<char>, s: Seq<char>) -> bool {
    exists|a: int, b: int| 0 <= a <= b <= s.len() && p == #[trigger] s.subrange(a, b)
}

/// A stretch of a sequence holds no character that the sequence does not hold.
pub proof fn lemma_part_lacks(p: Seq<char>, s: Seq<char>, c: char)
    requires
        is_part(p, s),
        !has_char(s, c),
    ensures
        !has_char(p, c),
{
    let (a, b) = choose|a: int, b: int| 0 <= a <= b <= s.len() && p == #[trigger] s.subrange(a, b);
    lemma_has_char(p, c);
    lemma_has_char(s, c);
    if has_char(p, c) {
        let i = choose|i: int| 0 <= i < p.len() && p[i] == c;
        assert(s[a + i] == c);
    }
}

/// What stands between two indices of a sequence is a stretch of it.
pub proof fn lemma_subrange_is_part(s: Seq<char>, a: int, b: int)
    requires
        0 <= a <= b <= s.len(),
    ensures
        is_part(s.subrange(a, b), s),
{
}

/// What is left of a sequence without the white space at its ends is a stretch of it
/// without white space at its ends.
pub proof fn lemma_trim_is_tidy_part(s: Seq<char>)
    ensures
        is_part(trim(s), s),
        is_tidy(trim(s)),
{
    lemma_find(s, Pat::NonSpace, 0);
    lemma_trim_end(s, s.len() as int);
    let a = find(s, Pat::NonSpace, 0);
    let b = trim_end(s, s.len() as int);
    if a < b {
        assert(trim(s) == s.subrange(a, b));
        assert(trim(s)[0] == s[a]);
        assert(trim(s)[trim(s).len() - 1] == s[b - 1]);
    } else {
        assert(trim(s) =~= s.subrange(0, 0));
    }
}

/// Every piece between the occurrences of `c` is a stretch without `c`.
pub proof fn lemma_split_pieces(s: Seq<char>, c: char, from: int)
    requires
        0 <= from <= s.len(),
    ensures
        forall|k: int|
            0 <= k < split_from(s, c, from).len() ==> is_part(
                #[trigger] split_from(s, c, from)[k],
                s,
            ) && !has_char(split_from(s, c, from)[k], c),
    decreases s.len() - from,
{
    let i = find(s, Pat::Is(c), from);
    lemma_find(s, Pat::Is(c), from);
    let first = s.subrange(from, i);
    assert(is_part(first, s));
    assert(!has_char(first, c)) by {
        lemma_has_char(first, c);
        if has_char(first, c) {
            let j = choose|j: int| 0 <= j < first.len() && first[j] == c;
            assert(s[from + j] == c);
        }
    }
    if i < s.len() {
        lemma_split_pieces(s, c, i + 1);
        let rest = split_from(s, c, i + 1);
        let all = seq![first] + rest;
        assert forall|k: int| 0 <= k < all.len() implies is_part(#[trigger] all[k], s)
            && !has_char(all[k], c) by {
            if k > 0 {
                assert(all[k] == rest[k - 1]);
            }
        }
    }
}

/// A sequence without white space that is not empty is one word.
pub proof fn lemma_words_one(w: Seq<char>)
    requires
        w.len() > 0,
        no_space(w),
    ensures
        words(w) == seq![w],
{
    lemma_find_is(w, Pat::NonSpace, 0, 0);
    assert forall|j: int| 0 <= j < w.len() implies !hits(Pat::Space, #[trigger] w[j]) by {}
    lemma_find_is(w, Pat::Space, 0, w.len() as int);
    assert(w.subrange(0, w.len() as int) =~= w);
    assert(words_from(w, w.len() as int) =~= Seq::empty());
    assert(words(w) =~= seq![w]);
}

/// The words of `a`, a space and `b` in a row, where `b` is one word: those of `a`, then `b`.
#[verifier::rlimit(40)]
pub proof fn lemma_words_last(a: Seq<char>, b: Seq<char>, from: int)
    requires
        b.len() > 0,
        no_space(b),
        0 <= from <= a.len(),
    ensures
        words_from(a + seq![' '] + b, from) == words_from(a, from).push(b),
    decreases a.len() - from,
{
    let sp = seq![' '];
    let s = a + sp + b;
    let tail = sp + b;
    assert(s =~= a + tail);
    assert(tail[0] == ' ');
    assert(is_space(' '));
    // behind `a` stands a space, then the word `b`
    assert(words_from(s, a.len() as int) =~= seq![b]) by {
        let n = a.len() as int;
        assert(s[n] == ' ');
        assert(s[n + 1] == b[0]);
        assert forall|j: int| n <= j < n + 1 implies !hits(Pat::NonSpace, #[trigger] s[j]) by {}
        lemma_find_is(s, Pat::NonSpace, n, n + 1);
        assert forall|j: int| n + 1 <= j < s.len() implies !hits(Pat::Space, #[trigger] s[j]) by {
            assert(s[j] == b[j - n - 1]);
        }
        lemma_find_is(s, Pat::Space, n + 1, s.len() as int);
        assert(s.subrange(n + 1, s.len() as int) =~= b);
        assert(words_from(s, s.len() as int) =~= Seq::empty());
    }
    if from == a.len() {
        assert(words_from(a, from) =~= Seq::empty());
    } else {
        lemma_find(a, Pat::NonSpace, from);
        let x = find(a, Pat::NonSpace, from);
        if x >= a.len() {
            // only white space is left in `a`
            assert(words_from(a, from) =~= Seq::empty());
            lemma_find_past_prefix_from(a, tail, Pat::NonSpace, from);
            lemma_find_is(tail, Pat::NonSpace, 0, 1);
            let n = a.len() as int;
            assert(find(s, Pat::NonSpace, from) == n + 1);
            assert forall|j: int| n + 1 <= j < s.len() implies !hits(
                Pat::Space,
                #[trigger] s[j],
            ) by {
                assert(s[j] == b[j - n - 1]);
            }
            lemma_find_is(s, Pat::Space, n + 1, s.len() as int);
            assert(s.subrange(n + 1, s.len() as int) =~= b);
            assert(words_from(s, s.len() as int) =~= Seq::empty());
            assert(words_from(s, from) =~= seq![b]);
        } else {
            lemma_find_in_prefix(a, tail, Pat::NonSpace, from);
            lemma_find(a, Pat::Space, x);
            let y = find(a, Pat::Space, x);
            assert(y > x);
            if y < a.len() {
                lemma_find_in_prefix(a, tail, Pat::Space, x);
                assert(s.subrange(x, y) =~= a.subrange(x, y));
                lemma_words_last(a, b, y);
                assert(seq![a.subrange(x, y)] + words_from(a, y).push(b) =~= (seq![
                    a.subrange(x, y),
                ] + words_from(a, y)).push(b));
            } else {
                lemma_find_past_prefix_from(a, tail, Pat::Space, x);
                assert(find(tail, Pat::Space, 0) == 0);
                assert(find(s, Pat::Space, x) == a.len());
                assert(s.subrange(x, a.len() as int) =~= a.subrange(x, a.len() as int));
                assert(words_from(a, a.len() as int) =~= Seq::empty());
                assert(seq![a.subrange(x, y)] + seq![b] =~= (seq![a.subrange(x, y)]
                    + Seq::<Seq<char>>::empty()).push(b));
            }
        }
    }
}

/// Searching from `k` in a prefix without a hit from `k` on goes on in what follows.
pub proof fn lemma_find_past_prefix_from(a: Seq<char>, b: Seq<char>, p: Pat, k: int)
    requires
        0 <= k <= a.len(),
        find(a, p, k) >= a.len(),
    ensures
        find(a + b, p, k) == a.len() + find(b, p, 0),
    decreases a.len() - k,
{
    lemma_find(a, p, k);
    lemma_find_past_prefix(a, b, p, k);
}

/// Whether `s` begins with `prefix`.
pub open spec fn starts_with(s: Seq<char>, prefix: Seq<char>) -> bool {
    prefix.len() <= s.len() && s.subrange(0, prefix.len() as int) == prefix
}

/// Tells whether `v` begins with `prefix`.
pub fn starts_with_vec(v: &Vec<char>, prefix: &Vec<char>) -> (b: bool)
    ensures
        b == starts_with(v@, prefix@),
{
    if prefix.len() > v.len() {
        return false;
    }
    let mut i: usize = 0;
    while i < prefix.len()
        invariant
            i <= prefix.len() <= v.len(),
            v@.subrange(0, i as int) == prefix@.subrange(0, i as int),
        decreases prefix.len() - i,
    {
        if v[i] != prefix[i] {
            proof {
                assert(v@.subrange(0, prefix.len() as int)[i as int] != prefix@[i as int]);
            }
            return false;
        }
        proof {
            assert(v@.subrange(0, i + 1) =~= v@.subrange(0, i as int).push(v@[i as int]));
            assert(prefix@.subrange(0, i + 1) =~= prefix@.subrange(0, i as int).push(
                prefix@[i as int],
            ));
        }
        i += 1;
    }
    proof {
        assert(prefix@.subrange(0, prefix.len() as int) =~= prefix@);
    }
    true
}

/// Tells whether `a` and `b` hold the same characters.
pub fn same_chars(a: &Vec<char>, b: &Vec<char>) -> (r: bool)
    ensures
        r == (a@ == b@),
{
    if a.len() != b.len() {
        return false;
    }
    let r = starts_with_vec(a, b);
    proof {
        assert(a@.subrange(0, a.len() as int) =~= a@);
    }
    r
}

/// A pair of double quotes with anything between them.
pub open spec fn is_quoted(s: Seq<char>) -> bool {
    s.len() >= 2 && s[0] == '"' && s[s.len() - 1] == '"'
}

/// What stands between the outer quotes of a quoted sequence.
pub open spec fn unquote(s: Seq<char>) -> Seq<char> {
    s.subrange(1, s.len() - 1)
}

/// Tells whether `v` is quoted.
pub fn is_quoted_vec(v: &Vec<char>) -> (b: bool)
    ensures
        b == is_quoted(v@),
{
    v.len() >= 2 && v[0] == '"' && v[v.len() - 1] == '"'
}

/// `String::push` appends one character to the end of the string.
pub assume_specification[ String::push ](s: &mut String, c: char)
    ensures
        final(s)@ == old(s)@.push(c),
;

/// The characters of `s`, in order.
pub fn chars_of(s: &str) -> (v: Vec<char>)
    ensures
        v@ == s@,
{
    let mut v: Vec<char> = Vec::new();
    for c in it: s.chars()
        invariant
            v@ == it.seq().take(it.index() as int),
            it.seq() == s@,
    {
        v.push(c);
    }
    v
}

/// Appends the characters of `v` to `out`.
pub fn push_chars(out: &mut String, v: &Vec<char>)
    ensures
        final(out)@ == old(out)@ + v@,
{
    let mut i: usize = 0;
    while i < v.len()
        invariant
            i <= v.len(),
            out@ == old(out)@ + v@.subrange(0, i as int),
        decreases v.len() - i,
    {
        out.push(v[i]);
        proof {
            assert(v@.subrange(0, i + 1) =~= v@.subrange(0, i as int).push(v@[i as int]));
        }
        i += 1;
    }
    proof {
        assert(v@.subrange(0, v.len() as int) =~= v@);
    }
}

/// Appends `c` to `out`.
pub fn put_char(out: &mut Vec<char>, c: char)
    ensures
        final(out)@ == old(out)@ + seq![c],
{
    out.push(c);
    assert(out@ =~= old(out)@ + seq![c]);
}

/// Appends the characters of `s` to `out`.
pub fn put_str(out: &mut Vec<char>, s: &str)
    ensures
        final(out)@ == old(out)@ + s@,
{
    let mut v = chars_of(s);
    out.append(&mut v);
}

/// A copy of `v`.
pub fn copy_of(v: &Vec<char>) -> (r: Vec<char>)
    ensures
        r@ == v@,
{
    let r = slice_of(v, 0, v.len());
    assert(r@ =~= v@);
    r
}

/// The string that holds the characters of `v`.
pub fn string_of(v: &Vec<char>) -> (s: String)
    ensures
        s@ == v@,
{
    let mut s = String::new();
    push_chars(&mut s, v);
    s
}

/// Tells whether two string slices hold the same characters.
pub fn str_eq(a: &str, b: &str) -> (r: bool)
    ensures
        r == (a@ == b@),
{
    let x = chars_of(a);
    let y = chars_of(b);
    same_chars(&x, &y)
}

} // verus!
