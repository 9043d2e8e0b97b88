//! A small regular-expression engine in the style of `grep -E`.
//!
//! A pattern is parsed into a [`Program`]: a list of [`Pattern`] nodes, two
//! anchor flags and the number of capturing groups. A backtracking matcher
//! then searches a subject, a line as a sequence of code points, for the
//! leftmost match of the program, recording what each group captures.
//!
//! Every executable function is verified against a mathematical model:
//!
//! - [`model`] defines pattern trees and, for a node, a subject and a
//!   position, the list of all ways in which the node can match there, most
//!   preferred first. Greedy quantifiers, the order of alternatives and the
//!   captures are all in that list.
//! - [`parser`] defines the program of a pattern as a scan over its code
//!   points, and holds the parser, which is proved to compute it.
//! - [`patterns`] holds the matcher, which is proved to return the first
//!   outcome of the list from which the rest of the pattern matches too, and
//!   to leave the captures untouched where there is none.
//! - [`laws`] states and proves what holds of every pattern and subject;
//!   [`wellformed`] proves that every parsed program is well formed.
//! - [`lemmas`], [`locality`], [`renumber`] and [`grouping`] hold the proofs
//!   that these rest on.
pub mod captures;
pub mod grouping;
pub mod laws;
pub mod lemmas;
pub mod locality;
pub mod matchers;
pub mod model;
pub mod parser;
pub mod patterns;
pub mod renumber;
pub mod text;
pub mod wellformed;

pub use captures::Captures;
pub use parser::{parse_patterns, ParseError};
pub use patterns::{match_pattern, match_patterns, search, Continuation, Match, Pattern, Program};
pub use text::chars_of;
