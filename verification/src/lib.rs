//! Haskell-style comprehensions, `expr; qualifier, qualifier, ...`, compiled
//! into lazy iterator pipelines on token streams.
//!
//! `pattern <- source` iterates, `let pattern = value` binds, and any other
//! expression is a guard. The qualifiers nest from left to right: the first
//! varies slowest.
//!
//! Input that is no comprehension comes back as a `ParseError` with the
//! place of the fault; so does input with a literal of a kind that the host
//! grammar cannot read.

pub mod host;
pub mod lower;
pub mod meaning;
pub mod parse;
pub mod qual;
pub mod terminal;
pub mod token;

use crate::lower::{lowered, rendered};
use crate::parse::comprehension;
use crate::qual::{Comprehension, ParseError};
use crate::terminal::{
    collect, collect_tokens, product_of, product_tokens, sum_of, sum_tokens,
};
use crate::token::{tokens_of, Token};
use proc_macro2::TokenStream;
use vstd::prelude::*;

verus! {

/// The lazy pipeline that `tokens` spell as a comprehension, or why they
/// spell none.
pub open spec fn expansion(tokens: Seq<Token>) -> Result<Seq<Token>, ParseError> {
    match comprehension(tokens) {
        Ok(comp) => Ok(rendered(lowered(comp))),
        Err(error) => Err(error),
    }
}

/// What an expansion hands back, by its tokens.
pub open spec fn expanded(out: Result<TokenStream, ParseError>) -> Result<Seq<Token>, ParseError> {
    match out {
        Ok(stream) => Ok(tokens_of(stream)),
        Err(error) => Err(error),
    }
}

/// Expanding keeps no state: the same tokens spell the same pipeline, however
/// often they are expanded.
pub proof fn lemma_expansion_repeats(first: Seq<Token>, second: Seq<Token>)
    requires
        first == second,
    ensures
        expansion(first) == expansion(second),
{
}

/// Iterator comprehension: `iter![body; qualifiers]` is an expression that
/// builds a lazy iterator. With no qualifier it yields the body once.
pub fn iter(item: TokenStream) -> (out: Result<TokenStream, ParseError>)
    ensures
        expanded(out) == expansion(tokens_of(item)),
{
    match Comprehension::parse(&item) {
        Ok(comp) => Ok(comp.lower()),
        Err(error) => Err(error),
    }
}

/// Vector comprehension: the iterator comprehension, collected into a `Vec`.
pub fn vect(item: TokenStream) -> (out: Result<TokenStream, ParseError>)
    ensures
        expanded(out) == match expansion(tokens_of(item)) {
            Ok(pipeline) => Ok(collect_tokens(pipeline)),
            Err(error) => Err(error),
        },
{
    match iter(item) {
        Ok(pipeline) => Ok(collect(&pipeline)),
        Err(error) => Err(error),
    }
}

/// Sum of an iterator comprehension. The type of the sum is that of the
/// items, so that the caller's context can settle it.
pub fn sum(item: TokenStream) -> (out: Result<TokenStream, ParseError>)
    ensures
        expanded(out) == match expansion(tokens_of(item)) {
            Ok(pipeline) => Ok(sum_tokens(pipeline)),
            Err(error) => Err(error),
        },
{
    match iter(item) {
        Ok(pipeline) => Ok(sum_of(&pipeline)),
        Err(error) => Err(error),
    }
}

/// Product of an iterator comprehension. The type of the product is that of
/// the items, so that the caller's context can settle it.
pub fn product(item: TokenStream) -> (out: Result<TokenStream, ParseError>)
    ensures
        expanded(out) == match expansion(tokens_of(item)) {
            Ok(pipeline) => Ok(product_tokens(pipeline)),
            Err(error) => Err(error),
        },
{
    match iter(item) {
        Ok(pipeline) => Ok(product_of(&pipeline)),
        Err(error) => Err(error),
    }
}

} // verus!
