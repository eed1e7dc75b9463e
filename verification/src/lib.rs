//! Flexiglob: a wildcard query engine.  Patterns such as
//! `REVERSE(SORT(.text*))` are parsed into an operator pipeline around a
//! compiled wildcard, and run against caller-supplied candidates.

pub mod compile;
pub mod error;
pub mod globber;
pub mod laws;
pub mod matcher;
pub mod operator;
pub mod parser;
pub mod render;
pub mod paths;
pub mod shift;
pub mod text;
pub mod token;

pub use compile::compile_pattern;
pub use error::{ParseError, ParseErrorKind};
pub use globber::{noop_trace, Globber, GlobberBuilder, ScanHint};
pub use matcher::wildcard_match;
pub use operator::{FnOperator, GlobOperator, ReverseOp};
pub use parser::ParsedPattern;
pub use token::MatchToken;
