use lambda_rust::lambda::{Name, Term};
use lambda_rust::lexer::Token;
use lambda_rust::parser::parse;
use lambda_rust::runtime::{BindMode, Binding, Statement};

#[test]
fn test_parse_simple_lambda() {
    let lambda = "(Lx.x)";
    let tokens = Token::parse_all(lambda).unwrap();

    assert_eq!(
        Ok(Statement::Expression(Term::lambda(Term::variable(Name::bound(1))))),
        parse(&tokens),
    );
}

#[test]
fn test_parse_nested_lambda() {
    let lambda = "(Lf.(Lx.(Ly.(f x y))))";
    let tokens = Token::parse_all(lambda).unwrap();

    assert_eq!(
        Ok(Statement::Expression(Term::lambda(Term::lambda(Term::lambda(Term::apply(
            Term::apply(Term::variable(Name::bound(3)), Term::variable(Name::bound(2))),
            Term::variable(Name::bound(1)),
        )))))),
        parse(&tokens),
    );
}

#[test]
fn test_parse_free_variable() {
    let lambda = "a";
    let tokens = Token::parse_all(lambda).unwrap();

    assert_eq!(Ok(Statement::Expression(Term::variable(Name::free("a".into())))), parse(&tokens),);
}

#[test]
fn test_parse_let_statement_reducing() {
    let lambda = "let I = (Lx.x)";
    let tokens = Token::parse_all(lambda).unwrap();

    assert_eq!(
        Ok(Statement::LetStatement(Binding::new(
            "I",
            Term::lambda(Term::variable(Name::bound(1))),
            BindMode::CaptureAndReduce,
        ))),
        parse(&tokens),
    );
}

#[test]
fn test_parse_let_statement_capturing() {
    let lambda = "let I := (Lx.x)";
    let tokens = Token::parse_all(lambda).unwrap();

    assert_eq!(
        Ok(Statement::LetStatement(Binding::new(
            "I",
            Term::lambda(Term::variable(Name::bound(1))),
            BindMode::CaptureOnly,
        ))),
        parse(&tokens),
    );
}
