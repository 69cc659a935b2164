//! The qualifier parser: `body ; qualifier , qualifier , ...` on tokens.
//!
//! The grammar of the comprehension is stated here as spec functions on token
//! sequences; expressions and patterns are whatever the host grammar reads.

use crate::host::{
    expr_at_front, first_unreadable, lemma_unreadable_from, pattern_at_front, read_expr,
    read_pattern, unreadable_at,
};
use crate::qual::{
    qual_views, Comprehension, ComprehensionView, ErrorKind, ParseError, Qual, QualView,
};
use crate::token::{stream_lead, stream_len, stream_skip, tokens_of, Lead, Token};
use proc_macro2::TokenStream;
use vstd::prelude::*;

verus! {

/// Whether the first token is the punctuation character `ch`, with any
/// spacing.
pub open spec fn starts_with_mark(tokens: Seq<Token>, ch: char) -> bool {
    &&& tokens.len() > 0
    &&& tokens[0] matches Token::Punct(c, _)
    &&& c == ch
}

/// Whether the tokens begin with the binding arrow `<-`: a `<` with a `-`
/// immediately after it.
pub open spec fn starts_with_arrow(tokens: Seq<Token>) -> bool {
    &&& tokens.len() > 1
    &&& tokens[0] == Token::Punct('<', true)
    &&& tokens[1] matches Token::Punct(c, _)
    &&& c == '-'
}

/// Whether the first token is the keyword `let`.
pub open spec fn starts_with_let(tokens: Seq<Token>) -> bool {
    tokens.len() > 0 && tokens[0] == Token::Ident("let"@)
}

/// What may follow a qualifier: nothing, which ends the list (`Ok(None)`), or
/// a comma and more tokens, with which the list goes on (`Ok(Some(..))`).
pub open spec fn separator(tokens: Seq<Token>) -> Result<Option<Seq<Token>>, ErrorKind> {
    if tokens.len() == 0 {
        Ok(None)
    } else if !starts_with_mark(tokens, ',') {
        Err(ErrorKind::Separator)
    } else if tokens.len() == 1 {
        Err(ErrorKind::Trailing)
    } else {
        Ok(Some(tokens.skip(1)))
    }
}

/// The generator form, `pattern <- source`. `None` where the tokens do not
/// begin with a pattern and an arrow: the qualifier is then of another form.
/// Past the arrow the form is settled, and a missing source is an error.
pub open spec fn generator(tokens: Seq<Token>) -> Option<
    Result<(QualView, Seq<Token>), ErrorKind>,
> {
    match pattern_at_front(tokens) {
        Some((pattern, after)) => if starts_with_arrow(after) {
            match expr_at_front(after.skip(2)) {
                Some((source, rest)) => Some(Ok((QualView::Generator(pattern, source), rest))),
                None => Some(Err(ErrorKind::Source)),
            }
        } else {
            None
        },
        None => None,
    }
}

/// The binding form, `let pattern = value`. `None` where the tokens do not
/// begin with `let`.
pub open spec fn local_decl(tokens: Seq<Token>) -> Option<
    Result<(QualView, Seq<Token>), ErrorKind>,
> {
    if starts_with_let(tokens) {
        match pattern_at_front(tokens.skip(1)) {
            Some((pattern, after)) => if starts_with_mark(after, '=') {
                match expr_at_front(after.skip(1)) {
                    Some((value, rest)) => Some(Ok((QualView::LocalDecl(pattern, value), rest))),
                    None => Some(Err(ErrorKind::Value)),
                }
            } else {
                Some(Err(ErrorKind::Equals))
            },
            None => Some(Err(ErrorKind::Pattern)),
        }
    } else {
        None
    }
}

/// The guard form: an expression.
pub open spec fn guard(tokens: Seq<Token>) -> Result<(QualView, Seq<Token>), ErrorKind> {
    match expr_at_front(tokens) {
        Some((pred, rest)) => Ok((QualView::Guard(pred), rest)),
        None => Err(ErrorKind::Guard),
    }
}

/// One qualifier at the front of `tokens` and the tokens after it. The three
/// forms are tried in order, and the first that applies decides.
pub open spec fn qualifier(tokens: Seq<Token>) -> Result<(QualView, Seq<Token>), ErrorKind> {
    match generator(tokens) {
        Some(outcome) => outcome,
        None => match local_decl(tokens) {
            Some(outcome) => outcome,
            None => guard(tokens),
        },
    }
}

/// A qualifier takes at least one token.
pub proof fn lemma_qualifier_advances(tokens: Seq<Token>)
    ensures
        qualifier(tokens) matches Ok((_, rest)) ==> rest.len() < tokens.len(),
{
}

/// What a reading leaves is the end of what it was given.
pub proof fn lemma_reading_leaves_the_end(tokens: Seq<Token>)
    ensures
        expr_at_front(tokens) matches Some((_, rest)) ==> rest.len() < tokens.len() && rest
            == tokens.skip(tokens.len() - rest.len()),
        pattern_at_front(tokens) matches Some((_, rest)) ==> rest.len() < tokens.len() && rest
            == tokens.skip(tokens.len() - rest.len()),
{
}

/// What follows a qualifier is the end of the tokens that it was read from:
/// the qualifier took the tokens before it, and no others.
pub proof fn lemma_qualifier_leaves_the_end(tokens: Seq<Token>)
    ensures
        qualifier(tokens) matches Ok((_, rest)) ==> rest.len() < tokens.len() && rest
            == tokens.skip(tokens.len() - rest.len()),
{
    if let Some(Ok((_, rest))) = generator(tokens) {
        let after = match pattern_at_front(tokens) {
            Some((_, after)) => after,
            None => tokens,
        };
        lemma_reading_leaves_the_end(tokens);
        lemma_reading_leaves_the_end(after.skip(2));
        assert(rest =~= tokens.skip(tokens.len() - rest.len()));
    } else if generator(tokens) is None {
        if let Some(Ok((_, rest))) = local_decl(tokens) {
            let after = match pattern_at_front(tokens.skip(1)) {
                Some((_, after)) => after,
                None => tokens,
            };
            lemma_reading_leaves_the_end(tokens.skip(1));
            lemma_reading_leaves_the_end(after.skip(1));
            assert(rest =~= tokens.skip(tokens.len() - rest.len()));
        } else if local_decl(tokens) is None {
            lemma_reading_leaves_the_end(tokens);
        }
    }
}

/// The place of what is left to read: the number of tokens before it.
pub open spec fn place(total: nat, left: nat) -> usize {
    (total - left) as usize
}

/// The qualifiers of a non-empty list, `qualifier , qualifier , ...`: each
/// but the last is followed by a comma, and the last by nothing. `total`
/// is the length of the whole input, from which the places of errors are
/// counted.
pub open spec fn qualifiers(tokens: Seq<Token>, total: nat) -> Result<Seq<QualView>, ParseError>
    decreases tokens.len(),
{
    match qualifier(tokens) {
        Err(kind) => Err(ParseError { kind, at: place(total, tokens.len()) }),
        Ok((qual, rest)) => match separator(rest) {
            Err(kind) => Err(ParseError { kind, at: place(total, rest.len()) }),
            Ok(None) => Ok(seq![qual]),
            Ok(Some(more)) => {
                proof {
                    lemma_qualifier_advances(tokens);
                }
                match qualifiers(more, total) {
                    Ok(quals) => Ok(seq![qual] + quals),
                    Err(error) => Err(error),
                }
            },
        },
    }
}

/// An error in a list of qualifiers lies at or after the start of the list,
/// and within the input.
pub proof fn lemma_qualifiers_fail_in_place(tokens: Seq<Token>, total: nat)
    requires
        tokens.len() <= total <= usize::MAX,
    ensures
        qualifiers(tokens, total) matches Err(error) ==> total - tokens.len() <= error.at <= total,
    decreases tokens.len(),
{
    lemma_qualifier_advances(tokens);
    if let Ok((_, rest)) = qualifier(tokens) {
        if let Ok(Some(more)) = separator(rest) {
            lemma_qualifiers_fail_in_place(more, total);
        }
    }
}

/// The comprehension that `tokens` spell: a body, a semicolon, and a list of
/// qualifiers that may be empty. Tokens that hold a literal of a kind that
/// the host grammar cannot read spell none.
pub open spec fn comprehension(tokens: Seq<Token>) -> Result<ComprehensionView, ParseError> {
    match first_unreadable(tokens) {
        Some(at) => Err(ParseError { kind: ErrorKind::Literal, at: at as usize }),
        None => whole(tokens),
    }
}

/// The comprehension that `tokens` spell, where all of them can be handed to
/// the host grammar.
pub open spec fn whole(tokens: Seq<Token>) -> Result<ComprehensionView, ParseError> {
    match expr_at_front(tokens) {
        None => Err(ParseError { kind: ErrorKind::Body, at: 0 }),
        Some((body, rest)) => {
            if !starts_with_mark(rest, ';') {
                Err(ParseError { kind: ErrorKind::Semicolon, at: place(tokens.len(), rest.len()) })
            } else if rest.len() == 1 {
                Ok(ComprehensionView { body, quals: Seq::empty() })
            } else {
                match qualifiers(rest.skip(1), tokens.len()) {
                    Ok(quals) => Ok(ComprehensionView { body, quals }),
                    Err(error) => Err(error),
                }
            }
        },
    }
}

/// The place of an error is a place of the input: no more tokens stand before
/// it than the input has.
pub proof fn lemma_comprehension_fails_in_place(tokens: Seq<Token>)
    requires
        tokens.len() <= usize::MAX,
    ensures
        comprehension(tokens) matches Err(error) ==> error.at <= tokens.len(),
{
    lemma_unreadable_from(tokens, 0);
    if let Some((_, rest)) = expr_at_front(tokens) {
        if starts_with_mark(rest, ';') && rest.len() > 1 {
            lemma_qualifiers_fail_in_place(rest.skip(1), tokens.len());
        }
    }
}

/// What a reading of one qualifier hands back, by its tokens.
pub open spec fn outcome_view(outcome: Result<(Qual, TokenStream), ErrorKind>) -> Result<
    (QualView, Seq<Token>),
    ErrorKind,
> {
    match outcome {
        Ok((qual, rest)) => Ok((qual@, tokens_of(rest))),
        Err(kind) => Err(kind),
    }
}

/// What an attempt at one form hands back, by its tokens.
pub open spec fn attempt_view(attempt: Option<Result<(Qual, TokenStream), ErrorKind>>) -> Option<
    Result<(QualView, Seq<Token>), ErrorKind>,
> {
    match attempt {
        Some(outcome) => Some(outcome_view(outcome)),
        None => None,
    }
}

/// The tokens of a stream that may be there.
pub open spec fn tokens_if(stream: Option<TokenStream>) -> Option<Seq<Token>> {
    match stream {
        Some(stream) => Some(tokens_of(stream)),
        None => None,
    }
}

/// The stream past the punctuation character `ch`, if the stream begins with
/// it.
pub fn past_mark(stream: &TokenStream, ch: char) -> (rest: Option<TokenStream>)
    ensures
        tokens_if(rest) == if starts_with_mark(tokens_of(*stream), ch) {
            Some(tokens_of(*stream).skip(1))
        } else {
            None
        },
{
    match stream_lead(stream, 0) {
        Some(Lead::Mark(c, _)) => if c == ch {
            Some(stream_skip(stream, 1))
        } else {
            None
        },
        _ => None,
    }
}

/// The stream past the binding arrow `<-`, if the stream begins with it.
pub fn past_arrow(stream: &TokenStream) -> (rest: Option<TokenStream>)
    ensures
        tokens_if(rest) == if starts_with_arrow(tokens_of(*stream)) {
            Some(tokens_of(*stream).skip(2))
        } else {
            None
        },
{
    let angle = match stream_lead(stream, 0) {
        Some(Lead::Mark(c, joint)) => c == '<' && joint,
        _ => false,
    };
    let dash = match stream_lead(stream, 1) {
        Some(Lead::Mark(c, _)) => c == '-',
        _ => false,
    };
    if angle && dash {
        Some(stream_skip(stream, 2))
    } else {
        None
    }
}

/// The stream past the keyword `let`, if the stream begins with it.
pub fn past_let(stream: &TokenStream) -> (rest: Option<TokenStream>)
    ensures
        tokens_if(rest) == if starts_with_let(tokens_of(*stream)) {
            Some(tokens_of(*stream).skip(1))
        } else {
            None
        },
{
    match stream_lead(stream, 0) {
        Some(Lead::Word(text)) => {
            let keyword = "let".to_owned();
            if text == keyword {
                Some(stream_skip(stream, 1))
            } else {
                None
            }
        },
        _ => None,
    }
}

/// Decides how the list goes on after a qualifier: `Ok(None)` where nothing
/// is left, `Ok(Some(..))` with the tokens past a comma, and an error where
/// something other than a comma follows or where nothing follows the comma.
pub fn after_qualifier(rest: &TokenStream) -> (next: Result<Option<TokenStream>, ErrorKind>)
    ensures
        match next {
            Ok(more) => separator(tokens_of(*rest)) == Ok::<Option<Seq<Token>>, ErrorKind>(
                tokens_if(more),
            ),
            Err(kind) => separator(tokens_of(*rest)) == Err::<Option<Seq<Token>>, ErrorKind>(kind),
        },
{
    let len = stream_len(rest);
    if len == 0 {
        return Ok(None);
    }
    match past_mark(rest, ',') {
        None => Err(ErrorKind::Separator),
        Some(more) => if len == 1 {
            Err(ErrorKind::Trailing)
        } else {
            Ok(Some(more))
        },
    }
}

/// Tries the generator form. The pattern is read first and kept only if the
/// arrow follows it; otherwise nothing is taken and `None` says that another
/// form is to be tried.
pub fn parse_generator(input: &TokenStream) -> (attempt: Option<
    Result<(Qual, TokenStream), ErrorKind>,
>)
    ensures
        attempt_view(attempt) == generator(tokens_of(*input)),
{
    match read_pattern(input) {
        Some((pattern, after)) => match past_arrow(&after) {
            Some(past) => match read_expr(&past) {
                Some((source, rest)) => Some(Ok((Qual::Generator(pattern, source), rest))),
                None => Some(Err(ErrorKind::Source)),
            },
            None => None,
        },
        None => None,
    }
}

/// Tries the binding form, which the keyword `let` announces.
pub fn parse_local_decl(input: &TokenStream) -> (attempt: Option<
    Result<(Qual, TokenStream), ErrorKind>,
>)
    ensures
        attempt_view(attempt) == local_decl(tokens_of(*input)),
{
    match past_let(input) {
        None => None,
        Some(past) => match read_pattern(&past) {
            None => Some(Err(ErrorKind::Pattern)),
            Some((pattern, after)) => match past_mark(&after, '=') {
                None => Some(Err(ErrorKind::Equals)),
                Some(past) => match read_expr(&past) {
                    Some((value, rest)) => Some(Ok((Qual::LocalDecl(pattern, value), rest))),
                    None => Some(Err(ErrorKind::Value)),
                },
            },
        },
    }
}

/// Reads a guard: any expression.
pub fn parse_guard(input: &TokenStream) -> (outcome: Result<(Qual, TokenStream), ErrorKind>)
    ensures
        outcome_view(outcome) == guard(tokens_of(*input)),
{
    match read_expr(input) {
        Some((pred, rest)) => Ok((Qual::Guard(pred), rest)),
        None => Err(ErrorKind::Guard),
    }
}

impl Qual {
    /// Reads one qualifier at the front of `input` and hands back what
    /// follows it.
    pub fn parse(input: &TokenStream) -> (outcome: Result<(Qual, TokenStream), ErrorKind>)
        ensures
            outcome_view(outcome) == qualifier(tokens_of(*input)),
    {
        match parse_generator(input) {
            Some(outcome) => outcome,
            None => match parse_local_decl(input) {
                Some(outcome) => outcome,
                None => parse_guard(input),
            },
        }
    }
}

/// The whole comprehension, once `done` has been read and the list goes
/// on as `more` says.
pub open spec fn finish(
    body: Seq<Token>,
    done: Seq<QualView>,
    more: Result<Seq<QualView>, ParseError>,
) -> Result<ComprehensionView, ParseError> {
    match more {
        Ok(quals) => Ok(ComprehensionView { body, quals: done + quals }),
        Err(error) => Err(error),
    }
}

impl Comprehension {
    /// Reads `body ; qualifier , qualifier , ...`. The list may be empty;
    /// the first qualifier that fits none of the three forms ends the
    /// reading with an error that tells its place.
    pub fn parse(input: &TokenStream) -> (parsed: Result<Comprehension, ParseError>)
        ensures
            match parsed {
                Ok(comp) => comprehension(tokens_of(*input)) == Ok::<
                    ComprehensionView,
                    ParseError,
                >(comp@),
                Err(error) => comprehension(tokens_of(*input)) == Err::<
                    ComprehensionView,
                    ParseError,
                >(error) && error.at <= tokens_of(*input).len(),
            },
    {
        let total = stream_len(input);
        proof {
            lemma_comprehension_fails_in_place(tokens_of(*input));
        }
        if let Some(at) = unreadable_at(input) {
            return Err(ParseError { kind: ErrorKind::Literal, at });
        }
        let (body, after) = match read_expr(input) {
            Some(split) => split,
            None => return Err(ParseError { kind: ErrorKind::Body, at: 0 }),
        };
        let after_len = stream_len(&after);
        let mut rest = match past_mark(&after, ';') {
            Some(rest) => rest,
            None => return Err(ParseError { kind: ErrorKind::Semicolon, at: total - after_len }),
        };
        let mut quals: Vec<Qual> = Vec::new();
        if after_len == 1 {
            assert(qual_views(quals@) =~= Seq::empty());
            return Ok(Comprehension { body, quals });
        }
        proof {
            if let Ok(list) = qualifiers(tokens_of(rest), total as nat) {
                assert(qual_views(quals@) + list =~= list);
            }
        }
        loop
            invariant
                total == tokens_of(*input).len(),
                0 < tokens_of(rest).len() <= total,
                first_unreadable(tokens_of(*input)) is None,
                whole(tokens_of(*input)) == finish(
                    tokens_of(body),
                    qual_views(quals@),
                    qualifiers(tokens_of(rest), total as nat),
                ),
            decreases tokens_of(rest).len(),
        {
            let ghost done = qual_views(quals@);
            proof {
                lemma_qualifier_advances(tokens_of(rest));
            }
            match Qual::parse(&rest) {
                Err(kind) => {
                    return Err(ParseError { kind, at: total - stream_len(&rest) });
                },
                Ok((qual, after)) => {
                    quals.push(qual);
                    assert(qual_views(quals@) =~= done.push(qual@));
                    assert(done + seq![qual@] =~= done.push(qual@));
                    match after_qualifier(&after) {
                        Err(kind) => {
                            return Err(ParseError { kind, at: total - stream_len(&after) });
                        },
                        Ok(None) => {
                            return Ok(Comprehension { body, quals });
                        },
                        Ok(Some(more)) => {
                            rest = more;
                            proof {
                                if let Ok(list) = qualifiers(tokens_of(rest), total as nat) {
                                    assert(done + (seq![qual@] + list) =~= done.push(qual@)
                                        + list);
                                }
                            }
                        },
                    }
                },
            }
        }
    }
}

} // verus!
