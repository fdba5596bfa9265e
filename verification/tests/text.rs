use ferrum_core::ast::FerrumNode;
use ferrum_core::nesting::nest;
use ferrum_core::text::{
    chars_of, find_in, is_ident_vec, is_quoted_vec, is_space_char, same_chars, slice_of,
    split_vec, starts_with_vec, str_eq, string_of, trim_vec, words_vec, Pat,
};

fn text(v: &Vec<char>) -> String {
    string_of(v)
}

#[test]
fn white_space_is_what_unicode_says() {
    for c in ['\u{0}', 'a', '_', '\u{200b}', '\u{feff}', '\u{1680}', '\u{3000}', ' ', '\t', '\n', '\r', '\u{85}', '\u{a0}', '\u{2028}', '\u{205f}', '\u{180e}'] {
        assert_eq!(is_space_char(c), c.is_whitespace());
    }
    let mut n = 0u32;
    while n < 0x3100 {
        if let Some(c) = char::from_u32(n) {
            assert_eq!(is_space_char(c), c.is_whitespace());
        }
        n += 1;
    }
}

#[test]
fn trimming_matches_the_standard_library() {
    for s in ["", " ", "a", "  a b \t", "\u{a0}x\u{3000}", "\r\n", "x  "] {
        assert_eq!(text(&trim_vec(&chars_of(s))), s.trim());
    }
}

#[test]
fn splitting_matches_the_standard_library() {
    for s in ["", ",", "a,b", ",a,,b,", "no comma"] {
        let pieces: Vec<String> = split_vec(&chars_of(s), ',').iter().map(text).collect();
        let expected: Vec<String> = s.split(',').map(|p| p.to_string()).collect();
        assert_eq!(pieces, expected);
    }
}

#[test]
fn words_match_the_standard_library() {
    for s in ["", "   ", "one", " one  two\tthree \n", "\u{2003}a\u{2003}b"] {
        let words: Vec<String> = words_vec(&chars_of(s)).iter().map(text).collect();
        let expected: Vec<String> = s.split_whitespace().map(|p| p.to_string()).collect();
        assert_eq!(words, expected);
    }
}

#[test]
fn searching_finds_the_first_hit() {
    let v = chars_of("ab cd ab");
    assert_eq!(find_in(&v, Pat::Is('b'), 0), 1);
    assert_eq!(find_in(&v, Pat::Is('b'), 2), 7);
    assert_eq!(find_in(&v, Pat::Is('z'), 0), 8);
    assert_eq!(find_in(&v, Pat::Space, 0), 2);
    assert_eq!(find_in(&v, Pat::NonSpace, 2), 3);
    assert_eq!(find_in(&v, Pat::Is('a'), 8), 8);
}

#[test]
fn small_helpers() {
    assert!(is_ident_vec(&chars_of("set_count2")));
    assert!(is_ident_vec(&chars_of("_x")));
    assert!(!is_ident_vec(&chars_of("2x")));
    assert!(!is_ident_vec(&chars_of("")));
    assert!(!is_ident_vec(&chars_of("a-b")));
    assert!(is_quoted_vec(&chars_of("\"\"")));
    assert!(!is_quoted_vec(&chars_of("\"")));
    assert!(!is_quoted_vec(&chars_of("a\"")));
    assert!(starts_with_vec(&chars_of("import x"), &chars_of("import")));
    assert!(!starts_with_vec(&chars_of("imp"), &chars_of("import")));
    assert!(same_chars(&chars_of("abc"), &chars_of("abc")));
    assert!(!same_chars(&chars_of("abc"), &chars_of("abd")));
    assert!(str_eq("x", "x"));
    assert!(!str_eq("x", "xy"));
    assert_eq!(text(&slice_of(&chars_of("hello"), 1, 3)), "el");
}

#[test]
fn nesting_by_indentation() {
    let leaf = |t: &str| FerrumNode::Text(t.to_string());
    let open = |n: &str| FerrumNode::Component {
        name: n.to_string(),
        props: ferrum_core::props::Props::new(),
        children: vec![],
    };
    let roots = nest(vec![
        (4, leaf("early")),
        (2, open("A")),
        (3, open("B")),
        (7, leaf("b1")),
        (3, leaf("a2")),
        (2, open("C")),
        (0, leaf("late")),
    ]);
    assert_eq!(roots.len(), 4);
    assert_eq!(roots[0], leaf("early"));
    match &roots[1] {
        FerrumNode::Component { name, children, .. } => {
            assert_eq!(name, "A");
            assert_eq!(children.len(), 2);
            match &children[0] {
                FerrumNode::Component { name, children, .. } => {
                    assert_eq!(name, "B");
                    assert_eq!(children, &vec![leaf("b1")]);
                }
                _ => panic!("Expected component node"),
            }
            assert_eq!(children[1], leaf("a2"));
        }
        _ => panic!("Expected component node"),
    }
    assert_eq!(roots[2], open("C"));
    assert_eq!(roots[3], leaf("late"));
    assert_eq!(nest(vec![]), vec![]);
}
