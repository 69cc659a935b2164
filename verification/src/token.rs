//! Token streams seen as plain sequences of token trees.

use proc_macro2::{Group, Ident, Literal, Punct, Spacing, Span, TokenStream, TokenTree};
use quote::TokenStreamExt;
use vstd::prelude::*;

verus! {

/// How the tokens of a group are enclosed.
#[derive(Clone, Copy, Debug, PartialEq, Eq, Structural)]
pub enum Delim {
    /// `( ... )`
    Parenthesis,
    /// `{ ... }`
    Brace,
    /// `[ ... ]`
    Bracket,
    /// No visible delimiter.
    Invisible,
}

/// One token tree: what a stream holds at one place, without its span.
pub enum Token {
    /// An identifier or keyword, by its text.
    Ident(Seq<char>),
    /// One punctuation character, and whether the next punctuation character
    /// follows it immediately.
    Punct(char, bool),
    /// A literal, by its text.
    Literal(Seq<char>),
    /// A delimited group and the tokens inside it.
    Group(Delim, Seq<Token>),
}

/// What verified code reads of one token tree.
pub enum Lead {
    /// An identifier or keyword, with its text.
    Word(String),
    /// A punctuation character, and whether the next follows immediately.
    Mark(char, bool),
    /// A literal, with its text.
    Text(String),
    /// A group, with the stream inside it.
    Nest(TokenStream),
}

impl Lead {
    /// Whether this is a faithful reading of `token`.
    pub open spec fn reads(self, token: Token) -> bool {
        match self {
            Lead::Word(text) => token == Token::Ident(text@),
            Lead::Mark(ch, joint) => token == Token::Punct(ch, joint),
            Lead::Text(text) => token == Token::Literal(text@),
            Lead::Nest(inner) => {
                &&& token matches Token::Group(_, within)
                &&& within == tokens_of(inner)
            },
        }
    }
}

/// Letters, digits and the underscore of ASCII.
pub open spec fn is_word_char(c: char) -> bool {
    ('a' <= c && c <= 'z') || ('A' <= c && c <= 'Z') || ('0' <= c && c <= '9') || c == '_'
}

/// Text that every Rust edition lexes as one identifier or keyword: ASCII
/// letters, digits and underscores, not starting with a digit.
pub open spec fn is_word(text: Seq<char>) -> bool {
    &&& text.len() > 0
    &&& !('0' <= text[0] && text[0] <= '9')
    &&& forall|i: int| 0 <= i < text.len() ==> is_word_char(#[trigger] text[i])
}

/// The characters that can stand in a punctuation token.
pub open spec fn is_punct_char(c: char) -> bool {
    c == '!' || c == '#' || c == '$' || c == '%' || c == '&' || c == '\'' || c == '*' || c == '+'
        || c == ',' || c == '-' || c == '.' || c == '/' || c == ':' || c == ';' || c == '<'
        || c == '=' || c == '>' || c == '?' || c == '@' || c == '^' || c == '|' || c == '~'
}

/// The character of a decimal digit.
pub open spec fn digit_char(d: u8) -> char {
    (('0' as u8) + d) as char
}

#[verifier::external_type_specification]
#[verifier::external_body]
pub struct ExTokenStream(proc_macro2::TokenStream);

/// The token trees of a stream, in order: each identifier and literal by
/// the text that it displays, each punctuation mark by its character and
/// spacing, each group by its delimiter and the token trees inside it.
pub uninterp spec fn tokens_of(stream: TokenStream) -> Seq<Token>;

/// `TokenStream::new`: a stream that holds no token.
#[verifier::external_body]
pub(crate) fn empty_stream() -> (stream: TokenStream)
    ensures
        tokens_of(stream) == Seq::<Token>::empty(),
{
    TokenStream::new()
}

/// Counts the token trees that `TokenStream::into_iter` hands out.
#[verifier::external_body]
pub(crate) fn stream_len(stream: &TokenStream) -> (len: usize)
    ensures
        len == tokens_of(*stream).len(),
{
    stream.clone().into_iter().count()
}

/// The stream without the first `n` of the token trees that
/// `TokenStream::into_iter` hands out, collected again in the same order.
#[verifier::external_body]
pub(crate) fn stream_skip(stream: &TokenStream, n: usize) -> (rest: TokenStream)
    requires
        n <= tokens_of(*stream).len(),
    ensures
        tokens_of(rest) == tokens_of(*stream).skip(n as int),
{
    stream.clone().into_iter().skip(n).collect()
}

/// The token tree at place `at` of those that `TokenStream::into_iter` hands
/// out, if there is one: the text of an `Ident` or a `Literal`, the
/// character and spacing of a `Punct`, the inner stream of a `Group`.
#[verifier::external_body]
pub(crate) fn stream_lead(stream: &TokenStream, at: usize) -> (lead: Option<Lead>)
    ensures
        match lead {
            Some(lead) => at < tokens_of(*stream).len() && lead.reads(
                tokens_of(*stream)[at as int],
            ),
            None => at >= tokens_of(*stream).len(),
        },
{
    match stream.clone().into_iter().nth(at) {
        Some(TokenTree::Ident(word)) => Some(Lead::Word(word.to_string())),
        Some(TokenTree::Punct(mark)) => Some(
            Lead::Mark(mark.as_char(), matches!(mark.spacing(), Spacing::Joint)),
        ),
        Some(TokenTree::Literal(text)) => Some(Lead::Text(text.to_string())),
        Some(TokenTree::Group(nest)) => Some(Lead::Nest(nest.stream())),
        None => None,
    }
}

/// `Ident::new` at the call site, appended with `TokenStreamExt::append`.
#[verifier::external_body]
pub(crate) fn push_ident(stream: &mut TokenStream, text: &str)
    requires
        is_word(text@),
    ensures
        tokens_of(*final(stream)) == tokens_of(*old(stream)).push(Token::Ident(text@)),
{
    stream.append(Ident::new(text, Span::call_site()));
}

/// `Punct::new`, appended with `TokenStreamExt::append`.
#[verifier::external_body]
pub(crate) fn push_punct(stream: &mut TokenStream, ch: char, joint: bool)
    requires
        is_punct_char(ch),
    ensures
        tokens_of(*final(stream)) == tokens_of(*old(stream)).push(Token::Punct(ch, joint)),
{
    stream.append(Punct::new(ch, if joint { Spacing::Joint } else { Spacing::Alone }));
}

/// `Literal::u8_unsuffixed` of one decimal digit, appended with
/// `TokenStreamExt::append`.
#[verifier::external_body]
pub(crate) fn push_digit(stream: &mut TokenStream, digit: u8)
    requires
        digit <= 9,
    ensures
        tokens_of(*final(stream)) == tokens_of(*old(stream)).push(
            Token::Literal(seq![digit_char(digit)]),
        ),
{
    stream.append(Literal::u8_unsuffixed(digit));
}

/// `Group::new` around `inner`, appended with `TokenStreamExt::append`.
#[verifier::external_body]
pub(crate) fn push_group(stream: &mut TokenStream, delim: Delim, inner: TokenStream)
    ensures
        tokens_of(*final(stream)) == tokens_of(*old(stream)).push(
            Token::Group(delim, tokens_of(inner)),
        ),
{
    let delimiter = match delim {
        Delim::Parenthesis => proc_macro2::Delimiter::Parenthesis,
        Delim::Brace => proc_macro2::Delimiter::Brace,
        Delim::Bracket => proc_macro2::Delimiter::Bracket,
        Delim::Invisible => proc_macro2::Delimiter::None,
    };
    stream.append(Group::new(delimiter, inner));
}

/// `Extend::extend` with a copy of `more`: its token trees follow those of
/// the stream.
#[verifier::external_body]
pub(crate) fn push_stream(stream: &mut TokenStream, more: &TokenStream)
    ensures
        tokens_of(*final(stream)) == tokens_of(*old(stream)) + tokens_of(*more),
{
    stream.extend(std::iter::once(more.clone()));
}

} // verus!
