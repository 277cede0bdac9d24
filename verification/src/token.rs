//! The token tree that the formatter walks.

use vstd::prelude::*;
use crate::range::Position;

verus! {

/// The brackets around a group. `Invisible` groups tokens without showing
/// any bracket.
#[derive(Copy, Clone, Debug, PartialEq, Eq, Structural)]
pub enum Delimiter {
    Parenthesis,
    Brace,
    Bracket,
    Invisible,
}

/// Whether a punctuation character joins with the one that follows it.
#[derive(Copy, Clone, Debug, PartialEq, Eq, Structural)]
pub enum Spacing {
    Alone,
    Joint,
}

/// Where a token came from. `file` is the path of the source file, or
/// absent for a token that no source file backs.
#[derive(Debug)]
pub struct Span {
    pub file: Option<String>,
    pub start: Position,
    pub end: Position,
}

/// One node of the token tree.
#[derive(Debug)]
pub enum TokenTree {
    Group { delimiter: Delimiter, stream: Vec<TokenTree>, open: Span, close: Span },
    Ident { text: String, span: Span },
    Punct { text: String, span: Span, spacing: Spacing },
    Literal { text: String, span: Span },
}

} // verus!
