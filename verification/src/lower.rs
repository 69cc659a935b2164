//! Lowering: from a comprehension to one expression that builds a lazy
//! iterator.
//!
//! The qualifiers are folded from the last to the first. Each wraps what the
//! later ones built, so the first qualifier is outermost and varies slowest.

use crate::qual::{qual_views, Comprehension, ComprehensionView, Qual, QualView};
use crate::token::{
    digit_char, empty_stream, is_word, push_digit, push_group, push_ident, push_punct,
    push_stream, tokens_of, Delim, Token,
};
use proc_macro2::TokenStream;
use vstd::prelude::*;

verus! {

/// The shape of a lowered expression.
pub enum Pipeline {
    /// Yields the body, once.
    Once(Seq<Token>),
    /// For each item of the source, bound to the pattern, all that the inner
    /// pipeline yields, in the order of the source.
    FlatMap { source: Seq<Token>, pattern: Seq<Token>, inner: Box<Pipeline> },
    /// The inner pipeline, with the pattern bound to the value.
    Scope { pattern: Seq<Token>, value: Seq<Token>, inner: Box<Pipeline> },
    /// The inner pipeline where the predicate holds, nothing where it does
    /// not.
    Filter { pred: Seq<Token>, inner: Box<Pipeline> },
}

/// One qualifier around what the later qualifiers and the body built.
pub open spec fn wrap(qual: QualView, inner: Pipeline) -> Pipeline {
    match qual {
        QualView::Generator(pattern, source) => Pipeline::FlatMap {
            source,
            pattern,
            inner: Box::new(inner),
        },
        QualView::LocalDecl(pattern, value) => Pipeline::Scope {
            pattern,
            value,
            inner: Box::new(inner),
        },
        QualView::Guard(pred) => Pipeline::Filter { pred, inner: Box::new(inner) },
    }
}

/// The qualifiers folded onto `inner`, from the last to the first.
pub open spec fn fold_quals(quals: Seq<QualView>, inner: Pipeline) -> Pipeline
    decreases quals.len(),
{
    if quals.len() == 0 {
        inner
    } else {
        fold_quals(quals.drop_last(), wrap(quals.last(), inner))
    }
}

/// The pipeline of a comprehension: with no qualifier left, the body once.
pub open spec fn lowered(comp: ComprehensionView) -> Pipeline {
    fold_quals(comp.quals, Pipeline::Once(comp.body))
}

/// `::`
pub open spec fn colons() -> Seq<Token> {
    seq![Token::Punct(':', true), Token::Punct(':', false)]
}

/// `( tokens )`
pub open spec fn parens(tokens: Seq<Token>) -> Token {
    Token::Group(Delim::Parenthesis, tokens)
}

/// `{ tokens }`
pub open spec fn braces(tokens: Seq<Token>) -> Token {
    Token::Group(Delim::Brace, tokens)
}

/// `. name ( args )`
pub open spec fn call(name: Seq<char>, args: Seq<Token>) -> Seq<Token> {
    seq![Token::Punct('.', false), Token::Ident(name), parens(args)]
}

/// `std::iter::once ( item )`
pub open spec fn once_tokens(item: Seq<Token>) -> Seq<Token> {
    seq![Token::Ident("std"@)] + colons() + seq![Token::Ident("iter"@)] + colons()
        + seq![Token::Ident("once"@), parens(item)]
}

/// `move | pattern | inner`
pub open spec fn closure_tokens(pattern: Seq<Token>, inner: Seq<Token>) -> Seq<Token> {
    seq![Token::Ident("move"@), Token::Punct('|', false)] + pattern + seq![
        Token::Punct('|', false),
    ] + inner
}

/// `( source ) . into_iter ( ) . flat_map ( move | pattern | inner )`
pub open spec fn flat_map_tokens(source: Seq<Token>, pattern: Seq<Token>, inner: Seq<Token>) -> Seq<
    Token,
> {
    seq![parens(source)] + call("into_iter"@, Seq::empty()) + call(
        "flat_map"@,
        closure_tokens(pattern, inner),
    )
}

/// `{ let pattern = value ; inner }`
pub open spec fn scope_tokens(pattern: Seq<Token>, value: Seq<Token>, inner: Seq<Token>) -> Seq<
    Token,
> {
    seq![
        braces(
            seq![Token::Ident("let"@)] + pattern + seq![Token::Punct('=', false)] + value + seq![
                Token::Punct(';', false),
            ] + inner,
        ),
    ]
}

/// `if pred { 1 } else { 0 }`
pub open spec fn count_tokens(pred: Seq<Token>) -> Seq<Token> {
    seq![Token::Ident("if"@)] + pred + seq![
        braces(seq![Token::Literal(seq!['1'])]),
        Token::Ident("else"@),
        braces(seq![Token::Literal(seq!['0'])]),
    ]
}

/// `std::iter::once ( ( ) ) . take ( if pred { 1 } else { 0 } ) . flat_map ( move | _ | inner )`:
/// one unit value or none, and for it all that the inner pipeline yields.
pub open spec fn filter_tokens(pred: Seq<Token>, inner: Seq<Token>) -> Seq<Token> {
    once_tokens(seq![parens(Seq::empty())]) + call("take"@, count_tokens(pred)) + call(
        "flat_map"@,
        closure_tokens(seq![Token::Ident("_"@)], inner),
    )
}

/// The tokens of a pipeline.
pub open spec fn rendered(pipeline: Pipeline) -> Seq<Token>
    decreases pipeline,
{
    match pipeline {
        Pipeline::Once(body) => once_tokens(body),
        Pipeline::FlatMap { source, pattern, inner } => flat_map_tokens(
            source,
            pattern,
            rendered(*inner),
        ),
        Pipeline::Scope { pattern, value, inner } => scope_tokens(pattern, value, rendered(*inner)),
        Pipeline::Filter { pred, inner } => filter_tokens(pred, rendered(*inner)),
    }
}

fn push_colons(out: &mut TokenStream)
    ensures
        tokens_of(*final(out)) == tokens_of(*old(out)) + colons(),
{
    push_punct(out, ':', true);
    push_punct(out, ':', false);
    assert(tokens_of(*out) =~= tokens_of(*old(out)) + colons());
}

fn push_call(out: &mut TokenStream, name: &str, args: TokenStream)
    requires
        is_word(name@),
    ensures
        tokens_of(*final(out)) == tokens_of(*old(out)) + call(name@, tokens_of(args)),
{
    push_punct(out, '.', false);
    push_ident(out, name);
    push_group(out, Delim::Parenthesis, args);
    assert(tokens_of(*out) =~= tokens_of(*old(out)) + call(name@, tokens_of(args)));
}

fn push_once(out: &mut TokenStream, item: TokenStream)
    ensures
        tokens_of(*final(out)) == tokens_of(*old(out)) + once_tokens(tokens_of(item)),
{
    proof {
        reveal_strlit("std");
        reveal_strlit("iter");
        reveal_strlit("once");
    }
    push_ident(out, "std");
    push_colons(out);
    push_ident(out, "iter");
    push_colons(out);
    push_ident(out, "once");
    push_group(out, Delim::Parenthesis, item);
    assert(tokens_of(*out) =~= tokens_of(*old(out)) + once_tokens(tokens_of(item)));
}

fn closure(pattern: &TokenStream, inner: &TokenStream) -> (out: TokenStream)
    ensures
        tokens_of(out) == closure_tokens(tokens_of(*pattern), tokens_of(*inner)),
{
    proof {
        reveal_strlit("move");
    }
    let mut out = empty_stream();
    push_ident(&mut out, "move");
    push_punct(&mut out, '|', false);
    push_stream(&mut out, pattern);
    push_punct(&mut out, '|', false);
    push_stream(&mut out, inner);
    assert(tokens_of(out) =~= closure_tokens(tokens_of(*pattern), tokens_of(*inner)));
    out
}

/// The body as a pipeline of one item: `std::iter::once(body)`.
pub fn once(body: &TokenStream) -> (out: TokenStream)
    ensures
        tokens_of(out) == once_tokens(tokens_of(*body)),
{
    let mut item = empty_stream();
    push_stream(&mut item, body);
    assert(tokens_of(item) =~= tokens_of(*body));
    let mut out = empty_stream();
    push_once(&mut out, item);
    assert(tokens_of(out) =~= once_tokens(tokens_of(*body)));
    out
}

/// A generator around `inner`: `(source).into_iter().flat_map(move |pattern| inner)`.
pub fn flat_map(source: &TokenStream, pattern: &TokenStream, inner: &TokenStream) -> (out:
    TokenStream)
    ensures
        tokens_of(out) == flat_map_tokens(
            tokens_of(*source),
            tokens_of(*pattern),
            tokens_of(*inner),
        ),
{
    proof {
        reveal_strlit("into_iter");
        reveal_strlit("flat_map");
    }
    let mut held = empty_stream();
    push_stream(&mut held, source);
    assert(tokens_of(held) =~= tokens_of(*source));
    let mut out = empty_stream();
    push_group(&mut out, Delim::Parenthesis, held);
    push_call(&mut out, "into_iter", empty_stream());
    push_call(&mut out, "flat_map", closure(pattern, inner));
    assert(tokens_of(out) =~= flat_map_tokens(
        tokens_of(*source),
        tokens_of(*pattern),
        tokens_of(*inner),
    ));
    out
}

/// A binding around `inner`: `{ let pattern = value; inner }`.
pub fn scope(pattern: &TokenStream, value: &TokenStream, inner: &TokenStream) -> (out: TokenStream)
    ensures
        tokens_of(out) == scope_tokens(tokens_of(*pattern), tokens_of(*value), tokens_of(*inner)),
{
    proof {
        reveal_strlit("let");
    }
    let mut block = empty_stream();
    push_ident(&mut block, "let");
    push_stream(&mut block, pattern);
    push_punct(&mut block, '=', false);
    push_stream(&mut block, value);
    push_punct(&mut block, ';', false);
    push_stream(&mut block, inner);
    assert(tokens_of(block) =~= seq![Token::Ident("let"@)] + tokens_of(*pattern) + seq![
        Token::Punct('=', false),
    ] + tokens_of(*value) + seq![Token::Punct(';', false)] + tokens_of(*inner));
    let mut out = empty_stream();
    push_group(&mut out, Delim::Brace, block);
    assert(tokens_of(out) =~= scope_tokens(
        tokens_of(*pattern),
        tokens_of(*value),
        tokens_of(*inner),
    ));
    out
}

fn digit_block(digit: u8) -> (out: TokenStream)
    requires
        digit <= 9,
    ensures
        tokens_of(out) == seq![Token::Literal(seq![digit_char(digit)])],
{
    let mut out = empty_stream();
    push_digit(&mut out, digit);
    out
}

/// A guard around `inner`:
/// `std::iter::once(()).take(if pred { 1 } else { 0 }).flat_map(move |_| inner)`.
pub fn filter(pred: &TokenStream, inner: &TokenStream) -> (out: TokenStream)
    ensures
        tokens_of(out) == filter_tokens(tokens_of(*pred), tokens_of(*inner)),
{
    proof {
        reveal_strlit("if");
        reveal_strlit("else");
        reveal_strlit("take");
        reveal_strlit("flat_map");
        reveal_strlit("_");
    }
    let mut count = empty_stream();
    push_ident(&mut count, "if");
    push_stream(&mut count, pred);
    push_group(&mut count, Delim::Brace, digit_block(1));
    push_ident(&mut count, "else");
    push_group(&mut count, Delim::Brace, digit_block(0));
    assert(digit_char(1) == '1');
    assert(digit_char(0) == '0');
    assert(tokens_of(count) =~= count_tokens(tokens_of(*pred)));

    let mut unit = empty_stream();
    push_group(&mut unit, Delim::Parenthesis, empty_stream());
    let mut blank = empty_stream();
    push_ident(&mut blank, "_");

    let mut out = empty_stream();
    push_once(&mut out, unit);
    push_call(&mut out, "take", count);
    push_call(&mut out, "flat_map", closure(&blank, inner));
    assert(tokens_of(out) =~= filter_tokens(tokens_of(*pred), tokens_of(*inner)));
    out
}

/// The tokens of one qualifier around the tokens of what it encloses.
pub open spec fn wrap_tokens(qual: QualView, inner: Seq<Token>) -> Seq<Token> {
    match qual {
        QualView::Generator(pattern, source) => flat_map_tokens(source, pattern, inner),
        QualView::LocalDecl(pattern, value) => scope_tokens(pattern, value, inner),
        QualView::Guard(pred) => filter_tokens(pred, inner),
    }
}

impl Qual {
    /// The expression that this qualifier makes of `inner`, the expression
    /// of all that follows it.
    pub fn wrap(&self, inner: &TokenStream) -> (out: TokenStream)
        ensures
            tokens_of(out) == wrap_tokens(self@, tokens_of(*inner)),
    {
        match self {
            Qual::Generator(pattern, source) => flat_map(source, pattern, inner),
            Qual::LocalDecl(pattern, value) => scope(pattern, value, inner),
            Qual::Guard(pred) => filter(pred, inner),
        }
    }
}

impl Comprehension {
    /// Lowers the comprehension into one expression: the body once, wrapped
    /// by each qualifier from the last to the first.
    pub fn lower(&self) -> (out: TokenStream)
        ensures
            tokens_of(out) == rendered(lowered(self@)),
    {
        let mut out = once(&self.body);
        let ghost mut built = Pipeline::Once(tokens_of(self.body));
        let ghost all = qual_views(self.quals@);
        let mut left = self.quals.len();
        assert(all.take(left as int) =~= all);
        while left > 0
            invariant
                left <= self.quals.len(),
                all == qual_views(self.quals@),
                tokens_of(out) == rendered(built),
                fold_quals(all.take(left as int), built) == lowered(self@),
            decreases left,
        {
            left -= 1;
            out = self.quals[left].wrap(&out);
            proof {
                let before = all.take(left as int + 1);
                assert(before.drop_last() =~= all.take(left as int));
                assert(before.last() == self.quals[left as int]@);
                built = wrap(self.quals[left as int]@, built);
            }
        }
        out
    }
}

} // verus!
