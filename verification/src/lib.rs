//! The front end of Ferrum, a markup language that nests by indentation.
//!
//! A source describes elements, components, text, state bindings and imports,
//! one per line; what is indented beneath a line belongs to it. The parser
//! turns a source into a forest, the formatter writes a forest back in
//! canonical layout, and two generators write a forest as an HTML document
//! and as view code.
//!
//! - [`ast`]: the syntax tree and its mathematical model.
//! - [`grammar`]: how one line is read.
//! - [`nesting`]: how indentation makes a forest of the lines.
//! - [`parser`]: the parser.
//! - [`formatter`]: the formatter.
//! - [`html`], [`codegen`]: the generators.
//! - [`roundtrip`], [`readback`], [`element_lines`], [`plain`], [`parsed`]: the laws
//!   that relate formatting to parsing.
//! - [`props`], [`text`], [`error`]: maps of strings, character sequences, errors.
//! - [`css`], [`component`], [`routing`], [`config`], [`debounce`]: what an
//!   application around the front end works with.

pub mod ast;
pub mod codegen;
pub mod component;
pub mod config;
pub mod css;
pub mod debounce;
pub mod element_lines;
pub mod error;
pub mod formatter;
pub mod grammar;
pub mod html;
pub mod nesting;
pub mod parsed;
pub mod parser;
pub mod plain;
pub mod props;
pub mod readback;
pub mod roundtrip;
pub mod routing;
pub mod text;
