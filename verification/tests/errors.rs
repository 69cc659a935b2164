use comprehension::qual::{ErrorKind, ParseError};
use comprehension::{iter, product, sum, vect};
use proc_macro2::TokenStream;

fn tokens(text: &str) -> TokenStream {
    text.parse().unwrap()
}

fn failure(text: &str) -> ParseError {
    iter(tokens(text)).unwrap_err()
}

#[test]
fn literal_that_the_host_cannot_read_is_refused() {
    assert_eq!(failure("c\"a\"; x <- xs"), ParseError { kind: ErrorKind::Literal, at: 0 });
    assert_eq!(failure("x; x <- c\"a\""), ParseError { kind: ErrorKind::Literal, at: 5 });
    assert_eq!(failure("x; x <- f(1, [c\"a\"])"), ParseError { kind: ErrorKind::Literal, at: 6 });
    assert_eq!(failure("x; let c\"a\" = y"), ParseError { kind: ErrorKind::Literal, at: 3 });
    assert_eq!(failure("x; y == cr\"a\", z"), ParseError { kind: ErrorKind::Literal, at: 5 });
    assert_eq!(failure("x; x <- m!(c\"a\")"), ParseError { kind: ErrorKind::Literal, at: 7 });
    assert_eq!(failure("1 c\"a\""), ParseError { kind: ErrorKind::Literal, at: 1 });
}

#[test]
fn other_literals_are_read() {
    let out = iter(tokens("(x, \"s\", 'c', b\"b\", b'b', r\"r\", 1.5e-3, 0xff_u8); x <- 0..10")).unwrap();
    assert_eq!(
        out.to_string(),
        "(0 .. 10) . into_iter () . flat_map (move | x | std :: iter :: once ((x , \"s\" , 'c' , b\"b\" , b'b' , r\"r\" , 1.5e-3 , 0xff_u8)))"
    );
}

#[test]
fn empty_input_has_no_body() {
    assert_eq!(failure(""), ParseError { kind: ErrorKind::Body, at: 0 });
    assert_eq!(failure("; x"), ParseError { kind: ErrorKind::Body, at: 0 });
}

#[test]
fn body_must_be_followed_by_a_semicolon() {
    assert_eq!(failure("1"), ParseError { kind: ErrorKind::Semicolon, at: 1 });
    assert_eq!(failure("1 x <- xs"), ParseError { kind: ErrorKind::Semicolon, at: 1 });
    assert_eq!(failure("a + b, c"), ParseError { kind: ErrorKind::Semicolon, at: 3 });
}

#[test]
fn arrow_must_be_followed_by_a_source() {
    assert_eq!(failure("1; x <- "), ParseError { kind: ErrorKind::Source, at: 2 });
    assert_eq!(failure("1; a, x <- , b"), ParseError { kind: ErrorKind::Source, at: 4 });
}

#[test]
fn let_must_be_followed_by_a_pattern() {
    assert_eq!(failure("1; let = 3"), ParseError { kind: ErrorKind::Pattern, at: 2 });
    assert_eq!(failure("1; let"), ParseError { kind: ErrorKind::Pattern, at: 2 });
}

#[test]
fn let_pattern_must_be_followed_by_equals() {
    assert_eq!(failure("1; let x 3"), ParseError { kind: ErrorKind::Equals, at: 2 });
    assert_eq!(failure("1; let x"), ParseError { kind: ErrorKind::Equals, at: 2 });
}

#[test]
fn let_must_have_a_value() {
    assert_eq!(failure("1; let x = "), ParseError { kind: ErrorKind::Value, at: 2 });
    assert_eq!(failure("1; let x == 3"), ParseError { kind: ErrorKind::Value, at: 2 });
}

#[test]
fn qualifier_of_no_form_is_refused() {
    assert_eq!(failure("1; x, , y"), ParseError { kind: ErrorKind::Guard, at: 4 });
    assert_eq!(failure("1; ,"), ParseError { kind: ErrorKind::Guard, at: 2 });
    assert_eq!(failure("1; ;"), ParseError { kind: ErrorKind::Guard, at: 2 });
}

#[test]
fn qualifiers_must_be_separated_by_commas() {
    assert_eq!(failure("1; x <- xs y"), ParseError { kind: ErrorKind::Separator, at: 6 });
    assert_eq!(failure("1; x <- xs; y"), ParseError { kind: ErrorKind::Separator, at: 6 });
    assert_eq!(failure("1; true false"), ParseError { kind: ErrorKind::Separator, at: 3 });
}

#[test]
fn trailing_comma_is_refused() {
    assert_eq!(failure("1; x <- xs,"), ParseError { kind: ErrorKind::Trailing, at: 6 });
    assert_eq!(failure("1; true,"), ParseError { kind: ErrorKind::Trailing, at: 3 });
}

#[test]
fn unbalanced_group_contents_are_refused() {
    assert_eq!(failure("(a b); x <- xs"), ParseError { kind: ErrorKind::Body, at: 0 });
    assert_eq!(failure("1; x <- (a b)"), ParseError { kind: ErrorKind::Source, at: 2 });
}

#[test]
fn place_of_an_error_is_within_the_input() {
    let inputs = [
        "", "1", "1 2", "; x", "1; x <-", "c\"a\"", "1; x <- (c\"a\")", "1; let", "1; let x", "1; let x =", "1; ,", "1; x,",
        "1; x y", "1; x <- xs, let y = x, y >",
    ];
    for input in inputs {
        let stream = tokens(input);
        let count = stream.clone().into_iter().count();
        let error = iter(stream).unwrap_err();
        assert!(error.at <= count);
    }
}

#[test]
fn derived_forms_fail_as_the_plain_form_does() {
    let input = "1; x <- xs,";
    let expected = ParseError { kind: ErrorKind::Trailing, at: 6 };
    assert_eq!(vect(tokens(input)).unwrap_err(), expected);
    assert_eq!(sum(tokens(input)).unwrap_err(), expected);
    assert_eq!(product(tokens(input)).unwrap_err(), expected);
    let input = "x; x <- [c\"a\"]";
    let expected = ParseError { kind: ErrorKind::Literal, at: 5 };
    assert_eq!(vect(tokens(input)).unwrap_err(), expected);
    assert_eq!(sum(tokens(input)).unwrap_err(), expected);
    assert_eq!(product(tokens(input)).unwrap_err(), expected);
}

#[test]
fn every_kind_has_its_message() {
    assert_eq!(ErrorKind::Literal.message(), "this kind of literal cannot be read here");
    assert_eq!(ErrorKind::Body.message(), "expected an expression before `;`");
    assert_eq!(ErrorKind::Semicolon.message(), "expected `;` after the expression");
    assert_eq!(ErrorKind::Source.message(), "expected an expression after `<-`");
    assert_eq!(ErrorKind::Pattern.message(), "expected a pattern after `let`");
    assert_eq!(ErrorKind::Equals.message(), "expected `=` after the pattern");
    assert_eq!(ErrorKind::Value.message(), "expected an expression after `=`");
    assert_eq!(
        ErrorKind::Guard.message(),
        "expected `pattern <- expression`, `let` or an expression"
    );
    assert_eq!(ErrorKind::Separator.message(), "expected `,`");
    assert_eq!(ErrorKind::Trailing.message(), "expected a qualifier after `,`");
}
