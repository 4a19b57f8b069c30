use pts_kernel::parser::{parse, parse_tokens, ParseError, Token};
use std::collections::VecDeque;
use pts_kernel::term::{Bind, Sort, Term};

fn var(index: i32) -> Term {
    Term::Variable { index }
}

fn app(function: Term, argument: Term) -> Term {
    Term::Application { function: Box::new(function), argument: Box::new(argument) }
}

fn lam(annotation: Term, body: Term) -> Term {
    Term::Binder { bind: Bind::Term, type_annotation: Box::new(annotation), body: Box::new(body) }
}

fn pi(annotation: Term, body: Term) -> Term {
    Term::Binder { bind: Bind::Type, type_annotation: Box::new(annotation), body: Box::new(body) }
}

fn star() -> Term {
    Term::Constant(Sort::Type)
}

fn kind() -> Term {
    Term::Constant(Sort::Kind)
}

#[test]
fn constants() {
    assert_eq!(parse("*"), Ok(star()));
    assert_eq!(parse("#"), Ok(kind()));
    assert_eq!(parse("  *  "), Ok(star()));
}

#[test]
fn binders() {
    assert_eq!(parse("\\x:*.x"), Ok(lam(star(), var(0))));
    assert_eq!(parse("@x:*.*"), Ok(pi(star(), star())));
    assert_eq!(parse("@x:*.x"), Ok(pi(star(), var(0))));
    assert_eq!(parse("\\x:#.*"), Ok(lam(kind(), star())));
}

#[test]
fn white_space_separates_and_is_dropped() {
    assert_eq!(parse(" \\ x : * .\tx\n"), Ok(lam(star(), var(0))));
    assert_eq!(parse("\\x:*.\\y:*.x y"), Ok(lam(star(), lam(star(), app(var(0), var(1))))));
    assert_eq!(parse("\\x:*.\\y:*.xy"), Err(ParseError::UnboundIdentifier));
    assert_eq!(parse("\\x:*.\\y:*.x\u{2003}y"), Ok(lam(star(), lam(star(), app(var(0), var(1))))));
}

#[test]
fn variables_count_binders_from_the_innermost() {
    assert_eq!(parse("\\x:*.\\y:*.y"), Ok(lam(star(), lam(star(), var(0)))));
    assert_eq!(parse("\\x:*.\\y:*.x"), Ok(lam(star(), lam(star(), var(1)))));
    assert_eq!(parse("\\x:*.\\y:x.\\z:y.x"), Ok(lam(star(), lam(var(0), lam(var(0), var(2))))));
    assert_eq!(parse("\\x:*.\\x:*.x"), Ok(lam(star(), lam(star(), var(0)))));
}

#[test]
fn annotation_does_not_see_the_variable_being_bound() {
    assert_eq!(parse("\\x:x.*"), Err(ParseError::UnboundIdentifier));
    assert_eq!(parse("\\x:*.\\x:x.x"), Ok(lam(star(), lam(var(0), var(0)))));
}

#[test]
fn identifiers_are_compared_by_spelling() {
    assert_eq!(parse("\\long_name:*.long_name"), Ok(lam(star(), var(0))));
    assert_eq!(parse("\\ab:*.\\a:*.ab"), Ok(lam(star(), lam(star(), var(1)))));
    assert_eq!(parse("\\ab:*.a"), Err(ParseError::UnboundIdentifier));
    assert_eq!(parse("\\a:*.ab"), Err(ParseError::UnboundIdentifier));
    assert_eq!(parse("\\\u{3b1}\u{3b2}:*.\u{3b1}\u{3b2}"), Ok(lam(star(), var(0))));
    assert_eq!(parse("\\\u{3b1}:*.\u{3b2}"), Err(ParseError::UnboundIdentifier));
}

#[test]
fn the_last_item_of_a_run_is_applied_to_the_others() {
    assert_eq!(parse("\\f:*.\\x:*.f x"), Ok(lam(star(), lam(star(), app(var(0), var(1))))));
    assert_eq!(
        parse("\\a:*.\\b:*.\\c:*.a b c"),
        Ok(lam(star(), lam(star(), lam(star(), app(app(var(0), var(2)), var(1))))))
    );
}

#[test]
fn parentheses_group() {
    assert_eq!(parse("(*)"), Ok(star()));
    assert_eq!(parse("\\x:*.(x)"), Ok(lam(star(), var(0))));
    assert_eq!(
        parse("\\a:*.\\b:*.\\c:*.(a b) c"),
        Ok(lam(star(), lam(star(), lam(star(), app(var(0), app(var(1), var(2)))))))
    );
    assert_eq!(parse("(\\x:*.x) \\y:*.y"), Ok(app(lam(star(), var(0)), lam(star(), var(0)))));
}

#[test]
fn a_constant_ends_the_expression() {
    assert_eq!(parse("\\x:*.x *"), Ok(lam(star(), star())));
    assert_eq!(parse("* #"), Ok(star()));
    assert_eq!(parse("\\x:*.(x #)"), Ok(lam(star(), kind())));
}

#[test]
fn what_follows_the_first_expression_is_not_read() {
    assert_eq!(parse("\\x:*.x ) y"), Ok(lam(star(), var(0))));
    assert_eq!(parse("* unknown"), Ok(star()));
}

#[test]
fn errors() {
    assert_eq!(parse(""), Err(ParseError::EmptyApplication));
    assert_eq!(parse("   "), Err(ParseError::EmptyApplication));
    assert_eq!(parse("()"), Err(ParseError::EmptyApplication));
    assert_eq!(parse(")"), Err(ParseError::EmptyApplication));
    assert_eq!(parse("x"), Err(ParseError::UnboundIdentifier));
    assert_eq!(parse("\\*"), Err(ParseError::MissingBinderVariable));
    assert_eq!(parse("\\"), Err(ParseError::MissingBinderVariable));
    assert_eq!(parse("@(x:*.x"), Err(ParseError::MissingBinderVariable));
    assert_eq!(parse("\\x"), Err(ParseError::OutOfTokens));
    assert_eq!(parse("\\x:*"), Err(ParseError::OutOfTokens));
    assert_eq!(parse("\\x.*"), Err(ParseError::MissingToken(Token::Colon)));
    assert_eq!(parse("\\x:*:x"), Err(ParseError::MissingToken(Token::Dot)));
    assert_eq!(parse("\\x:*.(x"), Err(ParseError::OutOfTokens));
    assert_eq!(parse("\\x:*.(x."), Err(ParseError::MissingToken(Token::CloseP)));
}

#[test]
fn parse_error_messages() {
    assert_eq!(
        ParseError::MissingToken(Token::Colon).message(),
        "Parse Error: Missing required token Colon"
    );
    assert_eq!(
        ParseError::MissingToken(Token::Dot).message(),
        "Parse Error: Missing required token Dot"
    );
    assert_eq!(
        ParseError::MissingToken(Token::CloseP).message(),
        "Parse Error: Missing required token CloseP"
    );
    assert_eq!(ParseError::OutOfTokens.message(), "Parse Error: Out of tokens");
    assert_eq!(ParseError::UnboundIdentifier.message(), "Parse Error: Missing variable in context");
    assert_eq!(
        ParseError::MissingBinderVariable.message(),
        "Parse Error: Missing variable in binder"
    );
    assert_eq!(ParseError::EmptyApplication.message(), "Parse Error: No term in application");
    assert_eq!(ParseError::IndexOverflow.message(), "Parse Error: Variable index out of range");
}

#[test]
fn parse_tokens_reads_identifiers_from_the_text() {
    let text: Vec<char> = "\\x:*.x".chars().collect();
    let tokens = VecDeque::from(vec![
        Token::Lambda,
        Token::Var(1, 2),
        Token::Colon,
        Token::Star,
        Token::Dot,
        Token::Var(5, 6),
    ]);
    assert_eq!(parse_tokens(text.clone(), tokens), Ok(lam(star(), var(0))));
    let other = VecDeque::from(vec![
        Token::Lambda,
        Token::Var(1, 2),
        Token::Colon,
        Token::Star,
        Token::Dot,
        Token::Var(3, 4),
    ]);
    assert_eq!(parse_tokens(text, other), Err(ParseError::UnboundIdentifier));
}

#[test]
fn parse_tokens_on_short_runs() {
    assert_eq!(parse_tokens(vec![], VecDeque::from(vec![Token::Star])), Ok(star()));
    assert_eq!(parse_tokens(vec![], VecDeque::from(vec![Token::Hash])), Ok(kind()));
    assert_eq!(parse_tokens(vec![], VecDeque::new()), Err(ParseError::EmptyApplication));
    assert_eq!(
        parse_tokens(vec![], VecDeque::from(vec![Token::CloseP])),
        Err(ParseError::EmptyApplication)
    );
    assert_eq!(
        parse_tokens(vec![], VecDeque::from(vec![Token::OpenP, Token::Star])),
        Err(ParseError::OutOfTokens)
    );
    assert_eq!(
        parse_tokens(vec![], VecDeque::from(vec![Token::OpenP, Token::Star, Token::Dot])),
        Err(ParseError::MissingToken(Token::CloseP))
    );
}

#[test]
fn parse_tokens_ignores_ranges_outside_the_text() {
    let text: Vec<char> = "ab".chars().collect();
    let tokens = VecDeque::from(vec![
        Token::Lambda,
        Token::Var(0, 9),
        Token::Colon,
        Token::Star,
        Token::Dot,
        Token::Var(0, 9),
    ]);
    assert_eq!(parse_tokens(text, tokens), Err(ParseError::UnboundIdentifier));
}
