use lambda_rust::lambda::{EvalResult, Name, Strategy, Term};
use lambda_rust::lexer::{ParseTokenError, Token};
use lambda_rust::parser::{parse, ParseError};
use lambda_rust::runtime::{BindMode, Binding, Environment, EvaluationError, Statement, SymbolTable};

fn v(k: u32) -> Term {
    Term::variable(Name::bound(k))
}

fn parse_line(line: &str) -> Term {
    let tokens = Token::parse_all(line).unwrap();
    match parse(&tokens) {
        Ok(Statement::Expression(t)) => t,
        other => panic!("not an expression: {:?}", other),
    }
}

fn run(env: &mut Environment, line: &str) -> (Result<(), EvaluationError>, Vec<String>) {
    let mut log = Vec::new();
    let r = env.interpret(line, &mut log);
    (r, log)
}

#[test]
fn identity_parses_prints_and_is_normal() {
    let t = parse_line("(Lx.x)");
    assert_eq!(t, Term::lambda(v(1)));
    assert_eq!(t.to_string(), "(λx0.x0)");
    assert_eq!(t.clone().reduce(Strategy::NormalOrder), EvalResult::NormalForm(t));
}

#[test]
fn simple_beta_step() {
    let t = parse_line("((Lx.x) (Ly.y))");
    let r = t.reduce(Strategy::NormalOrder);
    assert_eq!(r, EvalResult::PossiblyReducible(Term::lambda(v(1))));
    assert_eq!(r.unwrap().to_string(), "(λx0.x0)");

    let mut env: Environment = Environment::new();
    let (r, log) = run(&mut env, "((Lx.x) (Ly.y))");
    assert_eq!(r, Ok(()));
    assert_eq!(
        log,
        vec![
            " : ((λx0.x0) (λx0.x0))".to_string(),
            "β: (λx0.x0)".to_string(),
            "β: (λx0.x0) [normal; 1 reductions]".to_string(),
        ]
    );
    assert_eq!(env.get("ans"), Some(&Term::lambda(v(1))));
}

#[test]
fn church_successor_of_zero() {
    let mut env: Environment = Environment::new();
    assert_eq!(run(&mut env, "let zero = (Lf.(Lx.x))").0, Ok(()));
    assert_eq!(run(&mut env, "let succ = (Ln.(Lf.(Lx.(f ((n f) x)))))").0, Ok(()));
    assert_eq!(run(&mut env, "(succ zero)").0, Ok(()));
    let ans = env.get("ans").unwrap();
    assert_eq!(ans.to_string(), "(λx0.(λx1.(x0 x1)))");
    assert_eq!(ans, &Term::lambda(Term::lambda(Term::apply(v(2), v(1)))));
}

#[test]
fn omega_is_non_terminating_and_not_bound() {
    let mut env: Environment = Environment::new();
    let (r, log) = run(&mut env, "let omega = ((Lx.(x x)) (Lx.(x x)))");
    assert_eq!(r, Err(EvaluationError::NonTerminating));
    assert_eq!(log.last().unwrap(), "[non-terminating]");
    assert_eq!(env.get("omega"), None);
    assert!(env.symbols().is_empty());
}

#[test]
fn recursive_binding_rejected() {
    let mut env: Environment = Environment::new();
    let (r, log) = run(&mut env, "let r = (Lx.(r x))");
    assert_eq!(r, Err(EvaluationError::RecursiveBinding));
    assert_eq!(log, vec!["Error: recursive binding".to_string()]);
    assert_eq!(env.get("r"), None);
}

#[test]
fn echo_off_logs_only_the_final_line() {
    let mut env: Environment = Environment::new();
    env.echo_enabled = false;
    let (r, log) = run(&mut env, "((Lx.x) (Ly.y))");
    assert_eq!(r, Ok(()));
    assert_eq!(log, vec!["β: (λx0.x0) [normal; 1 reductions]".to_string()]);
}

#[test]
fn lexing_rendered_tokens_gives_them_back() {
    let tokens = Token::parse_all("let a1 := ((Lx.(x b)) λy.Ly)").unwrap();
    let text = tokens.iter().map(|t| t.to_string()).collect::<Vec<_>>().join(" ");
    assert_eq!(text, "let a1 := ( ( λ x . ( x b ) ) λ y . λ y )");
    assert_eq!(Token::parse_all(&text), Ok(tokens));
}

#[test]
fn parsing_a_printed_closed_term_gives_it_back() {
    let t = Term::lambda(Term::apply(
        Term::lambda(Term::apply(v(1), v(2))),
        Term::lambda(Term::lambda(Term::apply(v(3), v(1)))),
    ));
    let text = t.to_string();
    assert_eq!(text, "(λx0.((λx1.(x1 x0)) (λx1.(λx2.(x0 x2)))))");
    assert_eq!(parse_line(&text), t);
}

#[test]
fn reduction_of_a_closed_term_stays_closed() {
    let mut t = parse_line("((Lx.(Ly.(x y))) (Lz.z))");
    for _ in 0..10 {
        assert!(!t.is_free_in("x") && !t.is_free_in("y") && !t.is_free_in("z"));
        match t.reduce(Strategy::NormalOrder) {
            EvalResult::PossiblyReducible(r) => t = r,
            EvalResult::NormalForm(r) => {
                t = r;
                break;
            }
        }
    }
    assert_eq!(t, Term::lambda(v(1)));
}

#[test]
fn normal_form_reduces_to_itself() {
    let t = Term::lambda(Term::apply(v(1), Term::lambda(v(2))));
    let r = t.clone().reduce(Strategy::NormalOrder);
    assert_eq!(r, EvalResult::NormalForm(t.clone()));
    assert_eq!(r.unwrap().reduce(Strategy::NormalOrder), EvalResult::NormalForm(t));
}

#[test]
fn budget_exhausted_after_max_plus_one_steps() {
    let mut env: Environment = Environment::new();
    env.max_reductions = 3;
    env.echo_enabled = false;
    let growing = parse_line("((Lx.(x x x)) (Lx.(x x x)))");
    let mut log = Vec::new();
    assert_eq!(env.evaluate(growing, &mut log), Err(EvaluationError::TooManyReductions));
    assert_eq!(log, vec!["[too many reductions: 4]".to_string()]);

    env.max_reductions = 0;
    let mut log = Vec::new();
    let one_step = parse_line("((Lx.x) (Ly.y))");
    assert_eq!(env.evaluate(one_step, &mut log), Err(EvaluationError::TooManyReductions));
    assert_eq!(log, vec!["[too many reductions: 1]".to_string()]);
}

#[test]
fn failed_binding_leaves_the_identifier_alone() {
    let mut env: Environment = Environment::new();
    assert_eq!(run(&mut env, "let a := (Lx.x)").0, Ok(()));
    let (r, _) = run(&mut env, "let a = ((Lx.(x x)) (Lx.(x x)))");
    assert_eq!(r, Err(EvaluationError::NonTerminating));
    assert_eq!(env.get("a"), Some(&Term::lambda(v(1))));
}

#[test]
fn capture_only_keeps_the_term_unreduced() {
    let mut env: Environment = Environment::new();
    assert_eq!(run(&mut env, "let i := ((Lx.x) (Ly.y))").0, Ok(()));
    assert_eq!(env.get("i").unwrap().to_string(), "((λx0.x0) (λx0.x0))");
    let mut log = Vec::new();
    let b = Binding::new("j", Term::variable(Name::free("i".into())), BindMode::CaptureOnly);
    assert_eq!(env.add_binding(b, &mut log), Ok(()));
    assert!(log.is_empty());
    assert_eq!(env.get("j").unwrap().to_string(), "((λx0.x0) (λx0.x0))");
}

#[test]
fn lexer_errors() {
    assert_eq!(Token::parse_all("a :b"), Err(ParseTokenError("Invalid token: ::".into())));
    assert_eq!(Token::parse_all("x ?"), Err(ParseTokenError("Invalid token: ?".into())));
    assert_eq!(Token::parse_all("xL Lx let lets"), Ok(vec![
        Token::Identifier("xL".into()),
        Token::Lambda,
        Token::Identifier("x".into()),
        Token::Let,
        Token::Identifier("lets".into()),
    ]));
    let mut env: Environment = Environment::new();
    let (r, log) = run(&mut env, "[x]");
    assert_eq!(r, Err(EvaluationError::ParseError));
    assert_eq!(log, vec!["Invalid token: [".to_string()]);
}

#[test]
fn parser_errors() {
    let tokens = Token::parse_all("").unwrap();
    assert_eq!(parse(&tokens), Err(ParseError::EmptyExpression));
    let tokens = Token::parse_all("()").unwrap();
    assert_eq!(parse(&tokens), Err(ParseError::EmptyExpression));
    let tokens = Token::parse_all("(").unwrap();
    assert_eq!(parse(&tokens), Err(ParseError::EOF(vec!["Lambda"])));
    let tokens = Token::parse_all("(x").unwrap();
    assert_eq!(parse(&tokens), Err(ParseError::EOF(vec!["Identifier(name)", "ParenOpen"])));
    let tokens = Token::parse_all("(Lx x)").unwrap();
    assert_eq!(
        parse(&tokens),
        Err(ParseError::ExpectedToken(vec!["Dot"], &Token::Identifier("x".into())))
    );
    let tokens = Token::parse_all(")").unwrap();
    assert_eq!(parse(&tokens), Err(ParseError::NotStartOfExpression(&Token::ParenClose)));
    let tokens = Token::parse_all("x y").unwrap();
    assert_eq!(parse(&tokens), Err(ParseError::TrailingTokens(&[Token::Identifier("y".into())])));
    let tokens = Token::parse_all("let").unwrap();
    assert_eq!(parse(&tokens), Err(ParseError::EOF(vec!["Identifier(name)"])));
    let tokens = Token::parse_all("let x (").unwrap();
    assert_eq!(
        parse(&tokens),
        Err(ParseError::ExpectedToken(vec!["DefineReduce", "DefineSuspend"], &Token::ParenOpen))
    );
}

#[test]
fn parse_error_texts() {
    let tokens = Token::parse_all("(Lx x)").unwrap();
    assert_eq!(
        parse(&tokens).unwrap_err().to_string(),
        "Expected any of: Dot but got token 'x'"
    );
    let tokens = Token::parse_all("(x").unwrap();
    assert_eq!(
        parse(&tokens).unwrap_err().to_string(),
        "Got EOF while expecting any of: Identifier(name), ParenOpen"
    );
    let tokens = Token::parse_all("x y (Lz.z)").unwrap();
    assert_eq!(parse(&tokens).unwrap_err().to_string(), "Trailing tokens: 'y ( λ z . z )'");
    assert_eq!(ParseError::UnboundVariable("q".into()).to_string(), "Unbound variable: 'q'");
    assert_eq!(
        ParseError::NotStartOfExpression(&Token::Dot).to_string(),
        "Invalid token at start of expression: '.'"
    );

    let mut env: Environment = Environment::new();
    let (r, log) = run(&mut env, "(x");
    assert_eq!(r, Ok(()));
    assert_eq!(log, vec!["Got EOF while expecting any of: Identifier(name), ParenOpen".to_string()]);
}

#[test]
fn shadowing_and_free_names_in_parse() {
    let t = parse_line("(Lx.((Lx.x) x))");
    assert_eq!(t, Term::lambda(Term::apply(Term::lambda(v(1)), v(1))));
    let t = parse_line("((Lx.x) x)");
    assert_eq!(t, Term::apply(Term::lambda(v(1)), Term::variable(Name::free("x".into()))));
}

#[test]
fn printing_names_and_free_indices() {
    assert_eq!(Name::bound(3).to_string(), "↑3");
    assert_eq!(Name::free("abc".into()).to_string(), "abc");
    assert_eq!(Term::lambda(v(2)).to_string(), "(λx0.↑2)");
    let mut deep = v(1);
    for _ in 0..11 {
        deep = Term::lambda(deep);
    }
    let text = deep.to_string();
    assert!(text.starts_with("(λx0.(λx1."));
    assert!(text.contains("(λx10.x10)"));
}

#[test]
fn substitution_shifts_free_indices() {
    // (λ.λ.2) applied to a term with a free index keeps it pointing outward.
    let t = Term::lambda(Term::apply(Term::lambda(Term::lambda(v(2))), v(1)));
    let r = t.reduce(Strategy::NormalOrder).unwrap();
    assert_eq!(r, Term::lambda(Term::lambda(v(2))));
}

#[test]
fn eval_result_map_keeps_the_tag() {
    let r = EvalResult::PossiblyReducible(v(1)).map(Term::lambda);
    assert_eq!(r, EvalResult::PossiblyReducible(Term::lambda(v(1))));
    let r = EvalResult::NormalForm(v(1)).map(Term::lambda);
    assert_eq!(r, EvalResult::NormalForm(Term::lambda(v(1))));
}

#[test]
fn tables_list_and_replace() {
    let mut env: Environment = Environment::new();
    assert_eq!(env.max_reductions, 5000);
    assert!(env.echo_enabled);
    SymbolTable::insert(&mut env, Binding::new("a", v(1), BindMode::CaptureOnly));
    SymbolTable::insert(&mut env, Binding::new("b", v(2), BindMode::CaptureOnly));
    SymbolTable::insert(&mut env, Binding::new("a", v(3), BindMode::CaptureOnly));
    let mut names = env.symbols();
    names.sort();
    assert_eq!(names, vec!["a".to_string(), "b".to_string()]);
    let mut pairs = env.bindings();
    pairs.sort_by(|x, y| x.0.cmp(&y.0));
    assert_eq!(pairs, vec![("a".to_string(), v(3)), ("b".to_string(), v(2))]);
    assert_eq!(env.symbol_table().get("b"), Some(&v(2)));
}

#[test]
fn null_table_holds_nothing() {
    let mut null = ();
    SymbolTable::insert(&mut null, Binding::new("a", v(1), BindMode::CaptureOnly));
    assert_eq!(null.get("a"), None);
    assert!(null.symbols().is_empty());
    assert!(null.bindings().is_empty());
    let env: Environment<()> = Environment::new();
    let mut log = Vec::new();
    let t = Term::apply(Term::lambda(v(1)), Term::variable(Name::free("a".into())));
    assert_eq!(env.evaluate(t, &mut log), Ok(Term::variable(Name::free("a".into()))));
}

#[test]
fn same_term_compares_structure() {
    let a = parse_line("(Lx.(x y))");
    let b = parse_line("(Lz.(z y))");
    let c = parse_line("(Lz.(z w))");
    assert!(a.same_term(&b));
    assert!(!a.same_term(&c));
}
