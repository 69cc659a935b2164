//! The host grammar: Rust's expressions and patterns, as syn reads them.

use crate::token::{stream_lead, stream_len, stream_skip, tokens_of, Lead, Token};
use proc_macro2::TokenStream;
use quote::ToTokens;
use syn::parse::{ParseStream, Parser};
use vstd::prelude::*;
use vstd::string::StrSliceExecFns;

verus! {

/// Whether a literal begins as one of the kinds that syn tells apart: a
/// string (`"`, `r`), a character (`'`), a number (a digit), or a byte
/// string or byte character (`b"`, `br`, `b'`). syn takes any other literal,
/// such as a C string, for a fault of its caller and does not return.
pub open spec fn literal_ok(text: Seq<char>) -> bool {
    &&& text.len() > 0
    &&& {
        ||| text[0] == '"'
        ||| text[0] == 'r'
        ||| text[0] == '\''
        ||| ('0' <= text[0] && text[0] <= '9')
        ||| (text[0] == 'b' && text.len() > 1 && (text[1] == '"' || text[1] == 'r' || text[1]
            == '\''))
    }
}

/// Whether syn can be handed this token: a literal must be of a kind that it
/// tells apart, and so must every literal inside a group, at any depth.
pub open spec fn token_readable(token: Token) -> bool
    decreases token,
{
    match token {
        Token::Literal(text) => literal_ok(text),
        Token::Group(_, within) => readable(within),
        _ => true,
    }
}

/// Whether syn can be handed these tokens.
pub open spec fn readable(tokens: Seq<Token>) -> bool
    decreases tokens,
{
    forall|i: int| 0 <= i < tokens.len() ==> token_readable(#[trigger] tokens[i])
}

/// The place of the first token at or after `from` that syn cannot be
/// handed.
pub open spec fn unreadable_from(tokens: Seq<Token>, from: nat) -> Option<nat>
    decreases tokens.len() - from,
{
    if from >= tokens.len() {
        None
    } else if !token_readable(tokens[from as int]) {
        Some(from)
    } else {
        unreadable_from(tokens, from + 1)
    }
}

/// The place of the first token that syn cannot be handed.
pub open spec fn first_unreadable(tokens: Seq<Token>) -> Option<nat> {
    unreadable_from(tokens, 0)
}

/// No place is found from `from` on exactly where every token from there on
/// can be handed to syn, and a place that is found is the first such.
pub proof fn lemma_unreadable_from(tokens: Seq<Token>, from: nat)
    ensures
        match unreadable_from(tokens, from) {
            Some(at) => {
                &&& from <= at < tokens.len()
                &&& !token_readable(tokens[at as int])
                &&& forall|i: int| from <= i < at ==> token_readable(#[trigger] tokens[i])
            },
            None => forall|i: int|
                from <= i < tokens.len() ==> token_readable(#[trigger] tokens[i]),
        },
    decreases tokens.len() - from,
{
    if from < tokens.len() && token_readable(tokens[from as int]) {
        lemma_unreadable_from(tokens, from + 1);
    }
}

/// Tokens can be handed to syn exactly where none of them is found
/// unreadable.
pub proof fn lemma_readable_is_none_unreadable(tokens: Seq<Token>)
    ensures
        readable(tokens) <==> first_unreadable(tokens) is None,
{
    lemma_unreadable_from(tokens, 0);
}

/// What is left of readable tokens after some are skipped is readable.
pub proof fn lemma_rest_is_readable(tokens: Seq<Token>, count: int)
    requires
        readable(tokens),
        0 <= count <= tokens.len(),
    ensures
        readable(tokens.skip(count)),
{
    let rest = tokens.skip(count);
    assert forall|i: int| 0 <= i < rest.len() implies token_readable(#[trigger] rest[i]) by {
        assert(rest[i] == tokens[i + count]);
    }
}

/// What syn's parser of `syn::Expr` makes of `tokens`: the tokens of the
/// expression that it reads at their front and the number of tokens that it
/// leaves, `None` where it reads no expression there.
pub uninterp spec fn host_expr(tokens: Seq<Token>) -> Option<(Seq<Token>, nat)>;

/// What syn's parser of `syn::Pat` makes of `tokens`: the tokens of the
/// pattern that it reads at their front and the number of tokens that it
/// leaves, `None` where it reads no pattern there.
pub uninterp spec fn host_pattern(tokens: Seq<Token>) -> Option<(Seq<Token>, nat)>;

/// Runs `ParseBuffer::parse::<syn::Expr>` on the stream under
/// `Parser::parse2`, and after it `ParseBuffer::parse::<TokenStream>`, which
/// takes all that is left. Hands back the expression as
/// `ToTokens::into_token_stream` writes it, and the number of token trees
/// that were left. The stream must hold no literal that syn's `Lit::new`
/// does not know, on which it panics. The contract claims only that the
/// outcome depends on the tokens alone.
#[verifier::external_body]
pub(crate) fn take_expr(stream: &TokenStream) -> (split: Option<(TokenStream, usize)>)
    requires
        readable(tokens_of(*stream)),
    ensures
        match split {
            Some((expr, left)) => host_expr(tokens_of(*stream)) == Some(
                (tokens_of(expr), left as nat),
            ),
            None => host_expr(tokens_of(*stream)) is None,
        },
{
    let read = |input: ParseStream| -> syn::Result<(TokenStream, usize)> {
        let expr = input.parse::<syn::Expr>()?;
        Ok((expr.into_token_stream(), input.parse::<TokenStream>()?.into_iter().count()))
    };
    read.parse2(stream.clone()).ok()
}

/// Runs `ParseBuffer::parse::<syn::Pat>` on the stream under
/// `Parser::parse2`, and after it `ParseBuffer::parse::<TokenStream>`, which
/// takes all that is left. Hands back the pattern as
/// `ToTokens::into_token_stream` writes it, and the number of token trees
/// that were left. The stream must hold no literal that syn's `Lit::new`
/// does not know, on which it panics. The contract claims only that the
/// outcome depends on the tokens alone.
#[verifier::external_body]
pub(crate) fn take_pattern(stream: &TokenStream) -> (split: Option<(TokenStream, usize)>)
    requires
        readable(tokens_of(*stream)),
    ensures
        match split {
            Some((pattern, left)) => host_pattern(tokens_of(*stream)) == Some(
                (tokens_of(pattern), left as nat),
            ),
            None => host_pattern(tokens_of(*stream)) is None,
        },
{
    let read = |input: ParseStream| -> syn::Result<(TokenStream, usize)> {
        let pattern = input.parse::<syn::Pat>()?;
        Ok((pattern.into_token_stream(), input.parse::<TokenStream>()?.into_iter().count()))
    };
    read.parse2(stream.clone()).ok()
}

/// What a reading makes of `tokens`, if it advanced: the piece that it read
/// and the tokens after it, which are the last `left` of `tokens`. A
/// reading that leaves as many tokens as it was given, or more, counts as
/// none.
pub open spec fn advanced(tokens: Seq<Token>, split: Option<(Seq<Token>, nat)>) -> Option<
    (Seq<Token>, Seq<Token>),
> {
    match split {
        Some((piece, left)) => if left < tokens.len() {
            Some((piece, tokens.skip(tokens.len() - left)))
        } else {
            None
        },
        None => None,
    }
}

/// An expression at the front of `tokens` that takes at least one of them:
/// its tokens, and the tokens after it. There is none where the tokens
/// cannot be handed to syn.
pub open spec fn expr_at_front(tokens: Seq<Token>) -> Option<(Seq<Token>, Seq<Token>)> {
    if readable(tokens) {
        advanced(tokens, host_expr(tokens))
    } else {
        None
    }
}

/// A pattern at the front of `tokens` that takes at least one of them: its
/// tokens, and the tokens after it. There is none where the tokens cannot be
/// handed to syn.
pub open spec fn pattern_at_front(tokens: Seq<Token>) -> Option<(Seq<Token>, Seq<Token>)> {
    if readable(tokens) {
        advanced(tokens, host_pattern(tokens))
    } else {
        None
    }
}

/// What a split of streams is, by its tokens.
pub open spec fn split_view(split: Option<(TokenStream, TokenStream)>) -> Option<
    (Seq<Token>, Seq<Token>),
> {
    match split {
        Some((piece, rest)) => Some((tokens_of(piece), tokens_of(rest))),
        None => None,
    }
}

/// What a reading handed back, by its tokens.
pub open spec fn reading_view(split: Option<(TokenStream, usize)>) -> Option<(Seq<Token>, nat)> {
    match split {
        Some((piece, left)) => Some((tokens_of(piece), left as nat)),
        None => None,
    }
}

/// Whether a literal with this text is of a kind that syn tells apart.
pub fn literal_reads(text: &str) -> (yes: bool)
    ensures
        yes == literal_ok(text@),
{
    let len = text.unicode_len();
    if len == 0 {
        return false;
    }
    let first = text.get_char(0);
    if first == '"' || first == 'r' || first == '\'' || ('0' <= first && first <= '9') {
        return true;
    }
    if first == 'b' && len > 1 {
        let second = text.get_char(1);
        return second == '"' || second == 'r' || second == '\'';
    }
    false
}

/// Whether the token at place `at` can be handed to syn.
fn token_reads(stream: &TokenStream, at: usize) -> (yes: bool)
    requires
        at < tokens_of(*stream).len(),
    ensures
        yes == token_readable(tokens_of(*stream)[at as int]),
    decreases tokens_of(*stream), 0nat,
{
    match stream_lead(stream, at) {
        Some(Lead::Text(text)) => literal_reads(text.as_str()),
        Some(Lead::Nest(inner)) => {
            proof {
                lemma_readable_is_none_unreadable(tokens_of(inner));
            }
            unreadable_at(&inner).is_none()
        },
        _ => true,
    }
}

/// Finds the first token of the stream that cannot be handed to syn: a
/// literal of a kind that syn does not know, or a group that holds one at
/// any depth.
pub fn unreadable_at(stream: &TokenStream) -> (found: Option<usize>)
    ensures
        match found {
            Some(at) => first_unreadable(tokens_of(*stream)) == Some(at as nat),
            None => first_unreadable(tokens_of(*stream)) is None,
        },
        found is None <==> readable(tokens_of(*stream)),
    decreases tokens_of(*stream), 1nat,
{
    let len = stream_len(stream);
    let mut at: usize = 0;
    proof {
        lemma_readable_is_none_unreadable(tokens_of(*stream));
    }
    while at < len
        invariant
            at <= len,
            len == tokens_of(*stream).len(),
            first_unreadable(tokens_of(*stream)) == unreadable_from(tokens_of(*stream), at as nat),
            readable(tokens_of(*stream)) <==> first_unreadable(tokens_of(*stream)) is None,
        decreases len - at,
    {
        if !token_reads(stream, at) {
            return Some(at);
        }
        at += 1;
    }
    None
}

/// Makes of what a reading handed back the piece and the rest of the
/// stream, if the reading advanced: the rest is the stream without the
/// tokens that were read.
pub fn advancing(stream: &TokenStream, split: Option<(TokenStream, usize)>) -> (kept: Option<
    (TokenStream, TokenStream),
>)
    ensures
        split_view(kept) == advanced(tokens_of(*stream), reading_view(split)),
{
    let len = stream_len(stream);
    match split {
        Some((piece, left)) => if left < len {
            Some((piece, stream_skip(stream, len - left)))
        } else {
            None
        },
        None => None,
    }
}

/// Reads an expression at the front of the stream: its tokens and the rest
/// of the stream. `None` where the host grammar finds no expression of at
/// least one token there, or cannot be handed the stream.
pub fn read_expr(stream: &TokenStream) -> (split: Option<(TokenStream, TokenStream)>)
    ensures
        split_view(split) == expr_at_front(tokens_of(*stream)),
{
    if unreadable_at(stream).is_some() {
        return None;
    }
    advancing(stream, take_expr(stream))
}

/// Reads a pattern at the front of the stream: its tokens and the rest of
/// the stream. `None` where the host grammar finds no pattern of at least
/// one token there, or cannot be handed the stream.
pub fn read_pattern(stream: &TokenStream) -> (split: Option<(TokenStream, TokenStream)>)
    ensures
        split_view(split) == pattern_at_front(tokens_of(*stream)),
{
    if unreadable_at(stream).is_some() {
        return None;
    }
    advancing(stream, take_pattern(stream))
}

} // verus!
