//! Terminal consumers: what is written around a lowered pipeline to collect
//! it or to fold it into one number.

use crate::lower::{braces, call, colons, parens};
use crate::token::{
    empty_stream, is_word, push_group, push_ident, push_punct, push_stream, tokens_of, Delim,
    Token,
};
use proc_macro2::TokenStream;
use vstd::prelude::*;

verus! {

/// `pipeline . collect :: < Vec < _ > > ( )`
pub open spec fn collect_tokens(pipeline: Seq<Token>) -> Seq<Token> {
    pipeline + seq![Token::Punct('.', false), Token::Ident("collect"@)] + colons() + seq![
        Token::Punct('<', false),
        Token::Ident("Vec"@),
        Token::Punct('<', false),
        Token::Ident("_"@),
        Token::Punct('>', true),
        Token::Punct('>', false),
        parens(Seq::empty()),
    ]
}

/// `fn helper < T , I > ( it : I ) -> T`
pub open spec fn helper_head(helper: Seq<char>) -> Seq<Token> {
    seq![
        Token::Ident("fn"@),
        Token::Ident(helper),
        Token::Punct('<', false),
        Token::Ident("T"@),
        Token::Punct(',', false),
        Token::Ident("I"@),
        Token::Punct('>', false),
        parens(seq![Token::Ident("it"@), Token::Punct(':', false), Token::Ident("I"@)]),
        Token::Punct('-', true),
        Token::Punct('>', false),
        Token::Ident("T"@),
    ]
}

/// `where T : std :: iter :: bound < T > , I : Iterator < Item = T > ,`
pub open spec fn helper_bounds(bound: Seq<char>) -> Seq<Token> {
    seq![Token::Ident("where"@), Token::Ident("T"@), Token::Punct(':', false), Token::Ident("std"@)]
        + colons() + seq![Token::Ident("iter"@)] + colons() + seq![
        Token::Ident(bound),
        Token::Punct('<', false),
        Token::Ident("T"@),
        Token::Punct('>', false),
        Token::Punct(',', false),
        Token::Ident("I"@),
        Token::Punct(':', false),
        Token::Ident("Iterator"@),
        Token::Punct('<', false),
        Token::Ident("Item"@),
        Token::Punct('=', false),
        Token::Ident("T"@),
        Token::Punct('>', false),
        Token::Punct(',', false),
    ]
}

/// A block that declares a helper function, generic in the type of the
/// items, which is also the type of the result, and calls it on the pipeline:
/// `{ fn helper<T, I>(it: I) -> T where T: std::iter::bound<T>, I: Iterator<Item = T>, { it.method() } helper(pipeline) }`.
/// The result type is left for the caller's context to settle.
pub open spec fn reduce_tokens(
    helper: Seq<char>,
    bound: Seq<char>,
    method: Seq<char>,
    pipeline: Seq<Token>,
) -> Seq<Token> {
    seq![
        braces(
            helper_head(helper) + helper_bounds(bound) + seq![
                braces(seq![Token::Ident("it"@)] + call(method, Seq::empty())),
                Token::Ident(helper),
                parens(pipeline),
            ],
        ),
    ]
}

fn push_helper_head(out: &mut TokenStream, helper: &str)
    requires
        is_word(helper@),
    ensures
        tokens_of(*final(out)) == tokens_of(*old(out)) + helper_head(helper@),
{
    proof {
        reveal_strlit("fn");
        reveal_strlit("T");
        reveal_strlit("I");
        reveal_strlit("it");
    }
    let mut params = empty_stream();
    push_ident(&mut params, "it");
    push_punct(&mut params, ':', false);
    push_ident(&mut params, "I");
    assert(tokens_of(params) =~= seq![
        Token::Ident("it"@),
        Token::Punct(':', false),
        Token::Ident("I"@),
    ]);
    push_ident(out, "fn");
    push_ident(out, helper);
    push_punct(out, '<', false);
    push_ident(out, "T");
    push_punct(out, ',', false);
    push_ident(out, "I");
    push_punct(out, '>', false);
    push_group(out, Delim::Parenthesis, params);
    push_punct(out, '-', true);
    push_punct(out, '>', false);
    push_ident(out, "T");
    assert(tokens_of(*out) =~= tokens_of(*old(out)) + helper_head(helper@));
}

fn push_helper_bounds(out: &mut TokenStream, bound: &str)
    requires
        is_word(bound@),
    ensures
        tokens_of(*final(out)) == tokens_of(*old(out)) + helper_bounds(bound@),
{
    proof {
        reveal_strlit("where");
        reveal_strlit("T");
        reveal_strlit("I");
        reveal_strlit("std");
        reveal_strlit("iter");
        reveal_strlit("Iterator");
        reveal_strlit("Item");
    }
    push_ident(out, "where");
    push_ident(out, "T");
    push_punct(out, ':', false);
    push_ident(out, "std");
    push_punct(out, ':', true);
    push_punct(out, ':', false);
    push_ident(out, "iter");
    push_punct(out, ':', true);
    push_punct(out, ':', false);
    push_ident(out, bound);
    push_punct(out, '<', false);
    push_ident(out, "T");
    push_punct(out, '>', false);
    push_punct(out, ',', false);
    push_ident(out, "I");
    push_punct(out, ':', false);
    push_ident(out, "Iterator");
    push_punct(out, '<', false);
    push_ident(out, "Item");
    push_punct(out, '=', false);
    push_ident(out, "T");
    push_punct(out, '>', false);
    push_punct(out, ',', false);
    assert(tokens_of(*out) =~= tokens_of(*old(out)) + helper_bounds(bound@));
}

/// Writes `.collect::<Vec<_>>()` after the pipeline.
pub fn collect(pipeline: &TokenStream) -> (out: TokenStream)
    ensures
        tokens_of(out) == collect_tokens(tokens_of(*pipeline)),
{
    proof {
        reveal_strlit("collect");
        reveal_strlit("Vec");
        reveal_strlit("_");
    }
    let mut out = empty_stream();
    push_stream(&mut out, pipeline);
    push_punct(&mut out, '.', false);
    push_ident(&mut out, "collect");
    push_punct(&mut out, ':', true);
    push_punct(&mut out, ':', false);
    push_punct(&mut out, '<', false);
    push_ident(&mut out, "Vec");
    push_punct(&mut out, '<', false);
    push_ident(&mut out, "_");
    push_punct(&mut out, '>', true);
    push_punct(&mut out, '>', false);
    push_group(&mut out, Delim::Parenthesis, empty_stream());
    assert(tokens_of(out) =~= collect_tokens(tokens_of(*pipeline)));
    out
}

/// Writes the block that folds the pipeline with `method`, through a helper
/// function named `helper` whose item type is bound by `std::iter::bound`.
fn reduce(helper: &str, bound: &str, method: &str, pipeline: &TokenStream) -> (out:
    TokenStream)
    requires
        is_word(helper@),
        is_word(bound@),
        is_word(method@),
    ensures
        tokens_of(out) == reduce_tokens(helper@, bound@, method@, tokens_of(*pipeline)),
{
    proof {
        reveal_strlit("it");
    }
    let mut body = empty_stream();
    push_ident(&mut body, "it");
    push_punct(&mut body, '.', false);
    push_ident(&mut body, method);
    push_group(&mut body, Delim::Parenthesis, empty_stream());
    assert(tokens_of(body) =~= seq![Token::Ident("it"@)] + call(method@, Seq::empty()));

    let mut args = empty_stream();
    push_stream(&mut args, pipeline);
    assert(tokens_of(args) =~= tokens_of(*pipeline));

    let mut block = empty_stream();
    push_helper_head(&mut block, helper);
    push_helper_bounds(&mut block, bound);
    push_group(&mut block, Delim::Brace, body);
    push_ident(&mut block, helper);
    push_group(&mut block, Delim::Parenthesis, args);
    assert(tokens_of(block) =~= helper_head(helper@) + helper_bounds(bound@) + seq![
        braces(seq![Token::Ident("it"@)] + call(method@, Seq::empty())),
        Token::Ident(helper@),
        parens(tokens_of(*pipeline)),
    ]);

    let mut out = empty_stream();
    push_group(&mut out, Delim::Brace, block);
    out
}

/// `{ fn sum_helper<T, I>(it: I) -> T where ... { it.sum() } sum_helper(pipeline) }`
pub open spec fn sum_tokens(pipeline: Seq<Token>) -> Seq<Token> {
    reduce_tokens("sum_helper"@, "Sum"@, "sum"@, pipeline)
}

/// `{ fn product_helper<T, I>(it: I) -> T where ... { it.product() } product_helper(pipeline) }`
pub open spec fn product_tokens(pipeline: Seq<Token>) -> Seq<Token> {
    reduce_tokens("product_helper"@, "Product"@, "product"@, pipeline)
}

/// Writes the block that sums the pipeline. The sum has the type of the
/// items, which the place of the block settles.
pub fn sum_of(pipeline: &TokenStream) -> (out: TokenStream)
    ensures
        tokens_of(out) == sum_tokens(tokens_of(*pipeline)),
{
    proof {
        reveal_strlit("sum_helper");
        reveal_strlit("Sum");
        reveal_strlit("sum");
    }
    reduce("sum_helper", "Sum", "sum", pipeline)
}

/// Writes the block that multiplies the items of the pipeline. The product
/// has the type of the items, which the place of the block settles.
pub fn product_of(pipeline: &TokenStream) -> (out: TokenStream)
    ensures
        tokens_of(out) == product_tokens(tokens_of(*pipeline)),
{
    proof {
        reveal_strlit("product_helper");
        reveal_strlit("Product");
        reveal_strlit("product");
    }
    reduce("product_helper", "Product", "product", pipeline)
}

} // verus!
