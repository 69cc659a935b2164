//! The data model: a body expression and an ordered list of qualifiers.

use crate::token::{tokens_of, Token};
use proc_macro2::TokenStream;
use vstd::prelude::*;

verus! {

/// One clause on the right of the semicolon. Order matters: a qualifier sees
/// the names bound by those before it, and is nested inside them.
#[derive(Debug)]
pub enum Qual {
    /// `pattern <- source`: binds each item of the source to the pattern.
    Generator(TokenStream, TokenStream),
    /// `let pattern = value`: binds once, without iterating.
    LocalDecl(TokenStream, TokenStream),
    /// A boolean expression: where it is false, all that follows is skipped.
    Guard(TokenStream),
}

/// A qualifier, by the tokens of its parts.
pub enum QualView {
    Generator(Seq<Token>, Seq<Token>),
    LocalDecl(Seq<Token>, Seq<Token>),
    Guard(Seq<Token>),
}

impl View for Qual {
    type V = QualView;

    open spec fn view(&self) -> QualView {
        match self {
            Qual::Generator(pattern, source) => QualView::Generator(
                tokens_of(*pattern),
                tokens_of(*source),
            ),
            Qual::LocalDecl(pattern, value) => QualView::LocalDecl(
                tokens_of(*pattern),
                tokens_of(*value),
            ),
            Qual::Guard(pred) => QualView::Guard(tokens_of(*pred)),
        }
    }
}

/// A comprehension: `body; qualifier, qualifier, ...`.
#[derive(Debug)]
pub struct Comprehension {
    pub body: TokenStream,
    pub quals: Vec<Qual>,
}

/// A comprehension, by the tokens of its parts.
pub struct ComprehensionView {
    pub body: Seq<Token>,
    pub quals: Seq<QualView>,
}

/// The views of a list of qualifiers, in order.
pub open spec fn qual_views(quals: Seq<Qual>) -> Seq<QualView> {
    Seq::new(quals.len(), |i: int| quals[i]@)
}

impl View for Comprehension {
    type V = ComprehensionView;

    open spec fn view(&self) -> ComprehensionView {
        ComprehensionView { body: tokens_of(self.body), quals: qual_views(self.quals@) }
    }
}

/// What is wrong with an input that is no comprehension.
#[derive(Clone, Copy, Debug, PartialEq, Eq, Structural)]
pub enum ErrorKind {
    /// A literal is of a kind that the host grammar cannot read, such as a C
    /// string.
    Literal,
    /// The input does not begin with an expression.
    Body,
    /// The body is not followed by `;`.
    Semicolon,
    /// The arrow of a generator is not followed by an expression.
    Source,
    /// `let` is not followed by a pattern.
    Pattern,
    /// The pattern of a `let` is not followed by `=`.
    Equals,
    /// The `=` of a `let` is not followed by an expression.
    Value,
    /// The qualifier is no generator, no `let` and no expression.
    Guard,
    /// A qualifier is followed by something other than `,`.
    Separator,
    /// A `,` is followed by nothing.
    Trailing,
}

impl ErrorKind {
    /// What was expected where the reading failed, in words.
    pub open spec fn message_text(self) -> Seq<char> {
        match self {
            ErrorKind::Literal => "this kind of literal cannot be read here"@,
            ErrorKind::Body => "expected an expression before `;`"@,
            ErrorKind::Semicolon => "expected `;` after the expression"@,
            ErrorKind::Source => "expected an expression after `<-`"@,
            ErrorKind::Pattern => "expected a pattern after `let`"@,
            ErrorKind::Equals => "expected `=` after the pattern"@,
            ErrorKind::Value => "expected an expression after `=`"@,
            ErrorKind::Guard => "expected `pattern <- expression`, `let` or an expression"@,
            ErrorKind::Separator => "expected `,`"@,
            ErrorKind::Trailing => "expected a qualifier after `,`"@,
        }
    }

    /// What was expected where the reading failed, in words.
    pub fn message(&self) -> (text: &'static str)
        ensures
            text@ == self.message_text(),
    {
        match self {
            ErrorKind::Literal => "this kind of literal cannot be read here",
            ErrorKind::Body => "expected an expression before `;`",
            ErrorKind::Semicolon => "expected `;` after the expression",
            ErrorKind::Source => "expected an expression after `<-`",
            ErrorKind::Pattern => "expected a pattern after `let`",
            ErrorKind::Equals => "expected `=` after the pattern",
            ErrorKind::Value => "expected an expression after `=`",
            ErrorKind::Guard => "expected `pattern <- expression`, `let` or an expression",
            ErrorKind::Separator => "expected `,`",
            ErrorKind::Trailing => "expected a qualifier after `,`",
        }
    }
}

/// A failure, and the number of top-level tokens of the input that stand
/// before its place: the token that holds the literal, the start of the
/// qualifier that failed, or the token that should have been a separator.
#[derive(Clone, Copy, Debug, PartialEq, Eq, Structural)]
pub struct ParseError {
    pub kind: ErrorKind,
    pub at: usize,
}

} // verus!
