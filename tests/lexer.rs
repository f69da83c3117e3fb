use lambda_rust::lexer::ParseTokenError;
use lambda_rust::lexer::Token;
use lambda_rust::lexer::Token::{
    DefineReduce, DefineSuspend, Dot, Identifier, Lambda, Let, ParenClose, ParenOpen,
};

#[test]
fn test_parse_tokens_correct() {
    assert_eq!(
        Ok(vec![ParenOpen, Lambda, Identifier("x".into()), Dot, Identifier("x".into()), ParenClose]),
        Token::parse_all("  (Lx.  x  ) ")
    );
}

#[test]
fn test_parse_tokens_invalid() {
    assert_eq!(Err(ParseTokenError("Invalid token: [".into())), Token::parse_all("[Lx.x]"),);
}

#[test]
fn test_parse_tokens_empty() {
    assert_eq!(Ok(vec![]), Token::parse_all(" "),);
}

#[test]
fn test_parse_tokens_let_statement() {
    assert_eq!(
        Ok(vec![
            Let,
            Identifier("I".into()),
            DefineReduce,
            ParenOpen,
            Lambda,
            Identifier("x".into()),
            Dot,
            Identifier("x".into()),
            ParenClose
        ]),
        Token::parse_all("let I = (Lx.x)"),
    );

    assert_eq!(
        Ok(vec![
            Let,
            Identifier("I".into()),
            DefineSuspend,
            ParenOpen,
            Lambda,
            Identifier("x".into()),
            Dot,
            Identifier("x".into()),
            ParenClose
        ]),
        Token::parse_all("let I := (Lx.x)"),
    );
}

#[test]
fn test_parse_back_displayed() {
    let tokens = vec![
        ParenOpen,
        ParenClose,
        Lambda,
        Dot,
        Let,
        DefineReduce,
        DefineSuspend,
        Identifier("x".into()),
    ];

    let text = tokens.iter().map(|t| t.to_string()).collect::<Vec<_>>().join(" ");

    assert_eq!(Ok(tokens), Token::parse_all(&text));
}
