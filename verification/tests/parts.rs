use comprehension::host::{advancing, literal_reads, read_expr, read_pattern, unreadable_at};
use comprehension::parse::{
    after_qualifier, parse_generator, parse_guard, parse_local_decl, past_arrow, past_let,
    past_mark,
};
use comprehension::qual::{Comprehension, ErrorKind, Qual};
use proc_macro2::TokenStream;

fn tokens(text: &str) -> TokenStream {
    text.parse().unwrap()
}

fn text(stream: Option<TokenStream>) -> Option<String> {
    stream.map(|stream| stream.to_string())
}

fn texts(split: Option<(TokenStream, TokenStream)>) -> Option<(String, String)> {
    split.map(|(piece, rest)| (piece.to_string(), rest.to_string()))
}

fn shown(qual: &Qual) -> String {
    match qual {
        Qual::Generator(pattern, source) => format!("{} <- {}", pattern, source),
        Qual::LocalDecl(pattern, value) => format!("let {} = {}", pattern, value),
        Qual::Guard(pred) => format!("{}", pred),
    }
}

fn outcome(read: Result<(Qual, TokenStream), ErrorKind>) -> Result<(String, String), ErrorKind> {
    read.map(|(qual, rest)| (shown(&qual), rest.to_string()))
}

#[test]
fn past_mark_takes_one_punctuation_character() {
    assert_eq!(text(past_mark(&tokens("; x y"), ';')), Some("x y".to_string()));
    assert_eq!(text(past_mark(&tokens(";"), ';')), Some("".to_string()));
    assert_eq!(text(past_mark(&tokens("== 3"), '=')), Some("= 3".to_string()));
    assert_eq!(text(past_mark(&tokens(", x"), ';')), None);
    assert_eq!(text(past_mark(&tokens("x ;"), ';')), None);
    assert_eq!(text(past_mark(&tokens("(;)"), ';')), None);
    assert_eq!(text(past_mark(&tokens(""), ';')), None);
}

#[test]
fn past_arrow_needs_the_dash_right_after_the_angle() {
    assert_eq!(text(past_arrow(&tokens("<- xs"))), Some("xs".to_string()));
    assert_eq!(text(past_arrow(&tokens("<-"))), Some("".to_string()));
    assert_eq!(text(past_arrow(&tokens("<-- x"))), Some("- x".to_string()));
    assert_eq!(text(past_arrow(&tokens("< - xs"))), None);
    assert_eq!(text(past_arrow(&tokens("<= xs"))), None);
    assert_eq!(text(past_arrow(&tokens("<"))), None);
    assert_eq!(text(past_arrow(&tokens("- <"))), None);
    assert_eq!(text(past_arrow(&tokens("x <- xs"))), None);
    assert_eq!(text(past_arrow(&tokens(""))), None);
}

#[test]
fn past_let_takes_the_keyword_only() {
    assert_eq!(text(past_let(&tokens("let x = 1"))), Some("x = 1".to_string()));
    assert_eq!(text(past_let(&tokens("let"))), Some("".to_string()));
    assert_eq!(text(past_let(&tokens("letter = 1"))), None);
    assert_eq!(text(past_let(&tokens("r#let = 1"))), None);
    assert_eq!(text(past_let(&tokens("x let"))), None);
    assert_eq!(text(past_let(&tokens("\"let\""))), None);
    assert_eq!(text(past_let(&tokens(""))), None);
}

#[test]
fn after_qualifier_ends_goes_on_or_fails() {
    assert_eq!(after_qualifier(&tokens("")).map(text), Ok(None));
    assert_eq!(after_qualifier(&tokens(", x, y")).map(text), Ok(Some("x , y".to_string())));
    assert_eq!(after_qualifier(&tokens(",")).map(text), Err(ErrorKind::Trailing));
    assert_eq!(after_qualifier(&tokens("x")).map(text), Err(ErrorKind::Separator));
    assert_eq!(after_qualifier(&tokens("; x")).map(text), Err(ErrorKind::Separator));
}

#[test]
fn advancing_cuts_the_rest_off_the_end_of_the_stream() {
    let stream = tokens("a + b, c");
    assert_eq!(
        texts(advancing(&stream, Some((tokens("a + b"), 2)))),
        Some(("a + b".to_string(), ", c".to_string()))
    );
    assert_eq!(
        texts(advancing(&stream, Some((tokens("a"), 4)))),
        Some(("a".to_string(), "+ b , c".to_string()))
    );
    assert_eq!(
        texts(advancing(&stream, Some((tokens("a + b, c"), 0)))),
        Some(("a + b , c".to_string(), "".to_string()))
    );
    assert_eq!(texts(advancing(&stream, Some((tokens("a"), 5)))), None);
    assert_eq!(texts(advancing(&stream, Some((tokens("a"), 9)))), None);
    assert_eq!(texts(advancing(&stream, None)), None);
}

#[test]
fn literal_reads_by_its_leading_characters() {
    assert!(literal_reads("\"text\""));
    assert!(literal_reads("r\"raw\""));
    assert!(literal_reads("r#\"raw\"#"));
    assert!(literal_reads("'c'"));
    assert!(literal_reads("0"));
    assert!(literal_reads("9u8"));
    assert!(literal_reads("1.5e-3"));
    assert!(literal_reads("b\"bytes\""));
    assert!(literal_reads("br\"bytes\""));
    assert!(literal_reads("b'x'"));
    assert!(!literal_reads("c\"text\""));
    assert!(!literal_reads("cr\"text\""));
    assert!(!literal_reads("b"));
    assert!(!literal_reads("bx"));
    assert!(!literal_reads("-1"));
    assert!(!literal_reads("true"));
    assert!(!literal_reads(""));
}

#[test]
fn unreadable_at_finds_the_first_token_that_holds_such_a_literal() {
    assert_eq!(unreadable_at(&tokens("")), None);
    assert_eq!(unreadable_at(&tokens("x * 2; x <- [1, 2], \"a\" == b'a'.to_string()")), None);
    assert_eq!(unreadable_at(&tokens("c\"a\"")), Some(0));
    assert_eq!(unreadable_at(&tokens("x; x <- c\"a\", c\"b\"")), Some(5));
    assert_eq!(unreadable_at(&tokens("f(1, [2, {c\"a\"}]); x <- xs")), Some(1));
    assert_eq!(unreadable_at(&tokens("x; x <- cr#\"a\"#")), Some(5));
    assert_eq!(unreadable_at(&tokens("x; x <- m!(c\"a\")")), Some(7));
}

#[test]
fn reading_declines_what_the_host_cannot_be_handed() {
    assert_eq!(texts(read_expr(&tokens("c\"a\""))), None);
    assert_eq!(texts(read_expr(&tokens("x, c\"a\""))), None);
    assert_eq!(texts(read_pattern(&tokens("c\"a\" <- xs"))), None);
    assert_eq!(texts(read_pattern(&tokens("x <- (c\"a\")"))), None);
    assert!(parse_generator(&tokens("x <- f(c\"a\")")).is_none());
    assert_eq!(
        parse_local_decl(&tokens("let x = c\"a\"")).map(outcome),
        Some(Err(ErrorKind::Pattern))
    );
    assert_eq!(outcome(parse_guard(&tokens("c\"a\""))), Err(ErrorKind::Guard));
    assert_eq!(outcome(Qual::parse(&tokens("x == c\"a\""))), Err(ErrorKind::Guard));
}

#[test]
fn read_expr_takes_the_expression_at_the_front() {
    assert_eq!(
        texts(read_expr(&tokens("a + b, c"))),
        Some(("a + b".to_string(), ", c".to_string()))
    );
    assert_eq!(texts(read_expr(&tokens("f(x); y"))), Some(("f (x)".to_string(), "; y".to_string())));
    assert_eq!(texts(read_expr(&tokens("1.."))), Some(("1 ..".to_string(), "".to_string())));
    assert_eq!(texts(read_expr(&tokens(", c"))), None);
    assert_eq!(texts(read_expr(&tokens(""))), None);
}

#[test]
fn read_pattern_takes_the_pattern_at_the_front() {
    assert_eq!(
        texts(read_pattern(&tokens("(x, y) <- t"))),
        Some(("(x , y)".to_string(), "<- t".to_string()))
    );
    assert_eq!(
        texts(read_pattern(&tokens("x % 2 == 0"))),
        Some(("x".to_string(), "% 2 == 0".to_string()))
    );
    assert_eq!(texts(read_pattern(&tokens("= 3"))), None);
    assert_eq!(texts(read_pattern(&tokens(""))), None);
}

#[test]
fn parse_generator_declines_without_an_arrow() {
    assert!(parse_generator(&tokens("x % 2 == 0")).is_none());
    assert!(parse_generator(&tokens("gcd(i, j) == 1")).is_none());
    assert!(parse_generator(&tokens("let x = 1")).is_none());
    assert!(parse_generator(&tokens("x < -1")).is_none());
    assert!(parse_generator(&tokens("")).is_none());
}

#[test]
fn parse_generator_reads_pattern_arrow_source() {
    assert_eq!(
        parse_generator(&tokens("x <- xs, y")).map(outcome),
        Some(Ok(("x <- xs".to_string(), ", y".to_string())))
    );
    assert_eq!(
        parse_generator(&tokens("(a, b) <- zip(xs, ys)")).map(outcome),
        Some(Ok(("(a , b) <- zip (xs , ys)".to_string(), "".to_string())))
    );
    assert_eq!(parse_generator(&tokens("x <- , y")).map(outcome), Some(Err(ErrorKind::Source)));
    assert_eq!(parse_generator(&tokens("x <-")).map(outcome), Some(Err(ErrorKind::Source)));
}

#[test]
fn parse_local_decl_is_announced_by_let() {
    assert!(parse_local_decl(&tokens("x <- xs")).is_none());
    assert!(parse_local_decl(&tokens("x == 1")).is_none());
    assert!(parse_local_decl(&tokens("")).is_none());
    assert_eq!(
        parse_local_decl(&tokens("let k = i * i, j <- 1..=k")).map(outcome),
        Some(Ok(("let k = i * i".to_string(), ", j <- 1 ..= k".to_string())))
    );
    assert_eq!(parse_local_decl(&tokens("let = 1")).map(outcome), Some(Err(ErrorKind::Pattern)));
    assert_eq!(parse_local_decl(&tokens("let k 1")).map(outcome), Some(Err(ErrorKind::Equals)));
    assert_eq!(parse_local_decl(&tokens("let k = ,")).map(outcome), Some(Err(ErrorKind::Value)));
}

#[test]
fn parse_guard_reads_any_expression() {
    assert_eq!(
        outcome(parse_guard(&tokens("x % 2 == 0, y"))),
        Ok(("x % 2 == 0".to_string(), ", y".to_string()))
    );
    assert_eq!(outcome(parse_guard(&tokens(", y"))), Err(ErrorKind::Guard));
    assert_eq!(outcome(parse_guard(&tokens(""))), Err(ErrorKind::Guard));
}

#[test]
fn first_form_that_applies_decides() {
    assert_eq!(
        outcome(Qual::parse(&tokens("x<-1"))),
        Ok(("x <- 1".to_string(), "".to_string()))
    );
    assert_eq!(
        outcome(Qual::parse(&tokens("let x = 1"))),
        Ok(("let x = 1".to_string(), "".to_string()))
    );
    assert_eq!(
        outcome(Qual::parse(&tokens("x < -1"))),
        Ok(("x < - 1".to_string(), "".to_string()))
    );
    assert_eq!(outcome(Qual::parse(&tokens("x <- "))), Err(ErrorKind::Source));
    assert_eq!(outcome(Qual::parse(&tokens("let x"))), Err(ErrorKind::Equals));
    assert_eq!(outcome(Qual::parse(&tokens(","))), Err(ErrorKind::Guard));
}

#[test]
fn comprehension_keeps_its_qualifiers_in_order() {
    let comp = Comprehension::parse(&tokens("(i, j); i <- 1.., let k = i * i, j <- 1..=k, j != i"))
        .unwrap();
    assert_eq!(comp.body.to_string(), "(i , j)");
    let quals: Vec<String> = comp.quals.iter().map(shown).collect();
    assert_eq!(quals, vec!["i <- 1 ..", "let k = i * i", "j <- 1 ..= k", "j != i"]);
}

#[test]
fn comprehension_may_have_no_qualifier() {
    let comp = Comprehension::parse(&tokens("1;")).unwrap();
    assert_eq!(comp.body.to_string(), "1");
    assert!(comp.quals.is_empty());
}
