//! The parser: from source text to a forest.
//!
//! The source is read line by line. Blank lines and lines that begin with
//! `//` do not count. Every other line gives one node, by the grammar of a
//! line, and the width of its indentation says where the node belongs: a
//! component, or an element whose tag is not void, takes as its children the
//! lines that follow it, up to the first one that is indented no deeper than
//! itself. The first malformed line fails the whole parse.

use crate::ast::{forest_view, is_container, void_elements_are_leaves, FerrumNode, Node};
use crate::error::{Failure, ParseError};
use crate::grammar::{
    bracketed, bracketed_of, comma_args, comma_args_of, lemma_line_gives_line_node, outcome,
    parse_line, read_line, shorthand, shorthand_of,
};
use crate::nesting::{
    forest_of, holds_line_nodes, Item, items_of, lemma_forest_keeps_void_leaves, nest,
};
use crate::props::Props;
use crate::text::{
    chars_of, find_in, indent_of, Pat, rows, split, split_vec, starts_with, starts_with_vec,
    trim, trim_vec,
};
use vstd::prelude::*;

verus! {

/// Whether a line with this content does not count: it is blank or a comment.
pub open spec fn is_skipped(content: Seq<char>) -> bool {
    content.len() == 0 || starts_with(content, "//"@)
}

/// The items that the first `n` of `lines` give, or the failure of the first
/// malformed line among them.
pub open spec fn items_upto(lines: Seq<Seq<char>>, n: int) -> Result<Seq<Item>, Failure>
    decreases n,
{
    if n <= 0 {
        Ok(Seq::empty())
    } else {
        match items_upto(lines, n - 1) {
            Err(e) => Err(e),
            Ok(items) => {
                let content = trim(lines[n - 1]);
                if is_skipped(content) {
                    Ok(items)
                } else {
                    match parse_line(content) {
                        Err(e) => Err(e),
                        Ok(node) => Ok(items.push(Item { indent: indent_of(lines[n - 1]), node })),
                    }
                }
            },
        }
    }
}

/// A failure among the first `n` lines is the failure of any longer run of lines.
pub proof fn lemma_failure_stays(lines: Seq<Seq<char>>, n: int, m: int)
    requires
        n <= m,
        items_upto(lines, n) is Err,
    ensures
        items_upto(lines, m) == items_upto(lines, n),
    decreases m - n,
{
    if n < m {
        lemma_failure_stays(lines, n, m - 1);
    }
}

/// The items that lines give hold nodes as one line gives them.
pub proof fn lemma_items_hold_line_nodes(lines: Seq<Seq<char>>, n: int)
    ensures
        items_upto(lines, n) is Ok ==> holds_line_nodes(items_upto(lines, n)->Ok_0),
    decreases n,
{
    if n > 0 {
        lemma_items_hold_line_nodes(lines, n - 1);
        lemma_line_gives_line_node(trim(lines[n - 1]));
    }
}

/// The lines of a source: what stands between its line feeds.
pub open spec fn lines_of(source: Seq<char>) -> Seq<Seq<char>> {
    split(source, '\n')
}

/// The forest that a source stands for, or the failure of its first malformed line.
pub open spec fn parse_source(source: Seq<char>) -> Result<Seq<Node>, Failure> {
    match items_upto(lines_of(source), lines_of(source).len() as int) {
        Ok(items) => Ok(forest_of(items)),
        Err(e) => Err(e),
    }
}

/// Self-closing tags never get children: in the forest of any source, no element with
/// a void tag has a child, whatever is indented beneath it.
pub proof fn lemma_void_elements_stay_leaves(source: Seq<char>)
    ensures
        parse_source(source) is Ok ==> void_elements_are_leaves(parse_source(source)->Ok_0),
{
    let lines = lines_of(source);
    lemma_items_hold_line_nodes(lines, lines.len() as int);
    if items_upto(lines, lines.len() as int) is Ok {
        let items = items_upto(lines, lines.len() as int)->Ok_0;
        lemma_forest_keeps_void_leaves(items, 0, items.len() as int);
    }
}

/// The model of what parsing gave.
pub open spec fn forest_outcome(r: Result<Vec<FerrumNode>, ParseError>) -> Result<
    Seq<Node>,
    Failure,
> {
    match r {
        Ok(nodes) => Ok(forest_view(nodes@)),
        Err(e) => Err(e@),
    }
}

/// The parser of Ferrum source text.
#[derive(Debug, Clone, Copy, PartialEq, Eq)]
pub struct FerrumParser {}

impl FerrumParser {
    /// A parser.
    pub fn new() -> (r: Self) {
        FerrumParser {  }
    }

    /// Parses `input` into its forest. Fails with the first malformed line, and
    /// gives no part of a forest then.
    pub fn parse(&mut self, input: &str) -> (r: Result<Vec<FerrumNode>, ParseError>)
        ensures
            forest_outcome(r) == parse_source(input@),
            r is Ok ==> void_elements_are_leaves(forest_view(r->Ok_0@)),
    {
        proof {
            lemma_void_elements_stay_leaves(input@);
        }
        let source = chars_of(input);
        let lines = split_vec(&source, '\n');
        let comment = chars_of("//");
        let mut found: Vec<(usize, FerrumNode)> = Vec::new();
        let mut i: usize = 0;
        assert(items_of(found@) =~= Seq::empty());
        while i < lines.len()
            invariant
                i <= lines.len(),
                rows(lines@) == lines_of(input@),
                comment@ == "//"@,
                items_upto(rows(lines@), i as int) == Ok::<Seq<Item>, Failure>(items_of(found@)),
            decreases lines.len() - i,
        {
            let line = &lines[i];
            assert(line@ == rows(lines@)[i as int]);
            let content = trim_vec(line);
            if !(content.len() == 0 || starts_with_vec(&content, &comment)) {
                let indent = find_in(line, Pat::NonSpace, 0);
                match read_line(&content) {
                    Ok(node) => {
                        assert(items_of(found@.push((indent, node))) =~= items_of(found@).push(
                            Item { indent: indent as int, node: node@ },
                        ));
                        found.push((indent, node));
                    },
                    Err(e) => {
                        proof {
                            lemma_failure_stays(rows(lines@), i + 1, lines.len() as int);
                        }
                        return Err(e);
                    },
                }
            }
            i += 1;
        }
        Ok(nest(found))
    }

    /// Reads one line, which has no white space around it.
    pub fn parse_line(&self, line: &str) -> (r: Result<FerrumNode, ParseError>)
        ensures
            outcome(r) == parse_line(line@),
    {
        read_line(&chars_of(line))
    }

    /// Reads the arguments of a component call: what stands between its parentheses.
    pub fn parse_props(&self, props_str: &str) -> (r: Props)
        ensures
            r@ == comma_args(props_str@),
    {
        comma_args_of(&chars_of(props_str))
    }

    /// Reads a bracketed element such as `<a href="/">`.
    pub fn parse_html_element(&self, line: &str) -> (r: Result<FerrumNode, ParseError>)
        ensures
            outcome(r) == bracketed(line@, line@),
    {
        let v = chars_of(line);
        bracketed_of(&v, &v)
    }

    /// Reads an element in shorthand such as `div#app.container role="main"`.
    pub fn parse_tag_shorthand(&self, line: &str) -> (r: FerrumNode)
        ensures
            r@ == shorthand(line@),
    {
        shorthand_of(&chars_of(line))
    }

    /// Tells whether lines indented beneath `node` become its children.
    pub fn has_children(&self, node: &FerrumNode) -> (b: bool)
        ensures
            b == is_container(node@),
    {
        node.can_have_children()
    }
}

impl Default for FerrumParser {
    fn default() -> (r: Self) {
        FerrumParser::new()
    }
}

} // verus!
