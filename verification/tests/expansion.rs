use comprehension::lower::{filter, flat_map, once, scope};
use comprehension::qual::{Comprehension, Qual};
use comprehension::terminal::{collect, product_of, sum_of};
use comprehension::{iter, product, sum, vect};
use proc_macro2::TokenStream;

fn tokens(text: &str) -> TokenStream {
    text.parse().unwrap()
}

#[test]
fn body_alone_is_wrapped_in_once() {
    let out = iter(tokens("1;")).unwrap();
    assert_eq!(out.to_string(), "std :: iter :: once (1)");
}

#[test]
fn generator_becomes_a_flat_map() {
    let out = iter(tokens("x * x; x <- 0..10")).unwrap();
    assert_eq!(
        out.to_string(),
        "(0 .. 10) . into_iter () . flat_map (move | x | std :: iter :: once (x * x))"
    );
}

#[test]
fn guard_takes_one_unit_or_none() {
    let out = iter(tokens("1; true")).unwrap();
    assert_eq!(
        out.to_string(),
        "std :: iter :: once (()) . take (if true { 1 } else { 0 }) . flat_map (move | _ | std :: iter :: once (1))"
    );
}

#[test]
fn binding_opens_a_block() {
    let out = iter(tokens("k; let k = 2")).unwrap();
    assert_eq!(out.to_string(), "{ let k = 2 ; std :: iter :: once (k) }");
}

#[test]
fn later_qualifiers_are_nested_inside_earlier_ones() {
    let out = iter(tokens("(i, j); i <- 1.., let k = i * i, j <- 1..=k, j != i")).unwrap();
    assert_eq!(
        out.to_string(),
        "(1 ..) . into_iter () . flat_map (move | i | { let k = i * i ; (1 ..= k) . into_iter () . flat_map (move | j | std :: iter :: once (()) . take (if j != i { 1 } else { 0 }) . flat_map (move | _ | std :: iter :: once ((i , j)))) })"
    );
}

#[test]
fn pattern_may_destructure() {
    let out = iter(tokens("x * y; (x, y) <- pairs")).unwrap();
    assert_eq!(
        out.to_string(),
        "(pairs) . into_iter () . flat_map (move | (x , y) | std :: iter :: once (x * y))"
    );
}

#[test]
fn commas_inside_an_expression_do_not_separate() {
    let out = iter(tokens("f(|a, b| a + b); x <- foo::<A, B>(), |a, b| a")).unwrap();
    assert_eq!(
        out.to_string(),
        "(foo :: < A , B > ()) . into_iter () . flat_map (move | x | std :: iter :: once (()) . take (if | a , b | a { 1 } else { 0 }) . flat_map (move | _ | std :: iter :: once (f (| a , b | a + b))))"
    );
}

#[test]
fn arrow_wins_over_comparison_with_a_negative() {
    let out = iter(tokens("x; x<-1")).unwrap();
    assert_eq!(
        out.to_string(),
        "(1) . into_iter () . flat_map (move | x | std :: iter :: once (x))"
    );
    let out = iter(tokens("x; x < -1")).unwrap();
    assert_eq!(
        out.to_string(),
        "std :: iter :: once (()) . take (if x < - 1 { 1 } else { 0 }) . flat_map (move | _ | std :: iter :: once (x))"
    );
}

#[test]
fn binding_takes_a_whole_expression() {
    let out = iter(tokens("k; let k = a || b")).unwrap();
    assert_eq!(out.to_string(), "{ let k = a || b ; std :: iter :: once (k) }");
}

#[test]
fn vect_collects_into_a_vec() {
    let out = vect(tokens("1; true")).unwrap();
    assert_eq!(
        out.to_string(),
        "std :: iter :: once (()) . take (if true { 1 } else { 0 }) . flat_map (move | _ | std :: iter :: once (1)) . collect :: < Vec < _ >> ()"
    );
}

#[test]
fn sum_folds_through_a_helper() {
    let out = sum(tokens("i; i <- 1..=10")).unwrap();
    assert_eq!(
        out.to_string(),
        "{ fn sum_helper < T , I > (it : I) -> T where T : std :: iter :: Sum < T > , I : Iterator < Item = T > , { it . sum () } sum_helper ((1 ..= 10) . into_iter () . flat_map (move | i | std :: iter :: once (i))) }"
    );
}

#[test]
fn product_folds_through_a_helper() {
    let out = product(tokens("i; i <- 1..=10")).unwrap();
    assert_eq!(
        out.to_string(),
        "{ fn product_helper < T , I > (it : I) -> T where T : std :: iter :: Product < T > , I : Iterator < Item = T > , { it . product () } product_helper ((1 ..= 10) . into_iter () . flat_map (move | i | std :: iter :: once (i))) }"
    );
}

#[test]
fn once_wraps_its_argument() {
    assert_eq!(once(&tokens("a + b")).to_string(), "std :: iter :: once (a + b)");
    assert_eq!(once(&tokens("")).to_string(), "std :: iter :: once ()");
}

#[test]
fn flat_map_puts_source_pattern_and_inner_in_place() {
    let out = flat_map(&tokens("xs"), &tokens("x"), &tokens("inner"));
    assert_eq!(out.to_string(), "(xs) . into_iter () . flat_map (move | x | inner)");
}

#[test]
fn scope_puts_pattern_value_and_inner_in_place() {
    let out = scope(&tokens("(a, b)"), &tokens("pair"), &tokens("inner"));
    assert_eq!(out.to_string(), "{ let (a , b) = pair ; inner }");
}

#[test]
fn filter_puts_predicate_and_inner_in_place() {
    let out = filter(&tokens("p"), &tokens("inner"));
    assert_eq!(
        out.to_string(),
        "std :: iter :: once (()) . take (if p { 1 } else { 0 }) . flat_map (move | _ | inner)"
    );
}

#[test]
fn collect_keeps_the_pipeline_in_front() {
    assert_eq!(collect(&tokens("it")).to_string(), "it . collect :: < Vec < _ >> ()");
}

#[test]
fn sum_of_declares_and_calls_its_helper() {
    assert_eq!(
        sum_of(&tokens("it")).to_string(),
        "{ fn sum_helper < T , I > (it : I) -> T where T : std :: iter :: Sum < T > , I : Iterator < Item = T > , { it . sum () } sum_helper (it) }"
    );
}

#[test]
fn product_of_declares_and_calls_its_helper() {
    assert_eq!(
        product_of(&tokens("it")).to_string(),
        "{ fn product_helper < T , I > (it : I) -> T where T : std :: iter :: Product < T > , I : Iterator < Item = T > , { it . product () } product_helper (it) }"
    );
}

#[test]
fn each_qualifier_wraps_in_its_own_way() {
    let inner = tokens("inner");
    assert_eq!(
        Qual::Generator(tokens("x"), tokens("xs")).wrap(&inner).to_string(),
        "(xs) . into_iter () . flat_map (move | x | inner)"
    );
    assert_eq!(
        Qual::LocalDecl(tokens("x"), tokens("v")).wrap(&inner).to_string(),
        "{ let x = v ; inner }"
    );
    assert_eq!(
        Qual::Guard(tokens("p")).wrap(&inner).to_string(),
        "std :: iter :: once (()) . take (if p { 1 } else { 0 }) . flat_map (move | _ | inner)"
    );
}

#[test]
fn lowering_folds_from_the_last_qualifier() {
    let comp = Comprehension {
        body: tokens("x"),
        quals: vec![Qual::Guard(tokens("p")), Qual::LocalDecl(tokens("y"), tokens("x"))],
    };
    assert_eq!(
        comp.lower().to_string(),
        "std :: iter :: once (()) . take (if p { 1 } else { 0 }) . flat_map (move | _ | { let y = x ; std :: iter :: once (x) })"
    );
    let bare = Comprehension { body: tokens("x"), quals: Vec::new() };
    assert_eq!(bare.lower().to_string(), "std :: iter :: once (x)");
}

#[test]
fn expanding_twice_gives_the_same_tokens() {
    let first = iter(tokens("(i, j); i <- 1.., j <- 1..i, gcd(i, j) == 1")).unwrap();
    let second = iter(tokens("(i, j); i <- 1.., j <- 1..i, gcd(i, j) == 1")).unwrap();
    assert_eq!(first.to_string(), second.to_string());
}
