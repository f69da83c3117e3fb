use lambda_rust::lambda::{EvalResult, Name, Strategy, Term};
use lambda_rust::runtime::{BindMode, Binding, Environment, SymbolTable};

#[test]
fn test_reduction_simple() {
    let term = Term::lambda(Term::apply(
        Term::lambda(Term::variable(Name::bound(1))),
        Term::variable(Name::bound(1)),
    ));

    let result = term.reduce(Strategy::NormalOrder);
    assert_eq!(
        EvalResult::PossiblyReducible(Term::lambda(Term::variable(Name::bound(1)))),
        result
    );

    let result = result.unwrap().reduce(Strategy::NormalOrder);
    assert_eq!(
        EvalResult::NormalForm(Term::lambda(Term::variable(Name::bound(1)))),
        result
    );
}

#[test]
fn test_reduction_complex() {
    let term = Term::apply(
        Term::lambda(Term::lambda(Term::lambda(Term::apply(
            Term::apply(Term::variable(Name::bound(3)), Term::variable(Name::bound(2))),
            Term::variable(Name::bound(1)),
        )))),
        Term::lambda(Term::lambda(Term::variable(Name::bound(2)))),
    );

    let result = term.reduce(Strategy::NormalOrder);
    assert_eq!(
        EvalResult::PossiblyReducible(Term::lambda(Term::lambda(Term::apply(
            Term::apply(
                Term::lambda(Term::lambda(Term::variable(Name::bound(2)))),
                Term::variable(Name::bound(2)),
            ),
            Term::variable(Name::bound(1)),
        )))),
        result
    );

    let result = result.unwrap().reduce(Strategy::NormalOrder);
    assert_eq!(
        EvalResult::PossiblyReducible(Term::lambda(Term::lambda(Term::apply(
            Term::lambda(Term::variable(Name::bound(3))),
            Term::variable(Name::bound(1)),
        )))),
        result
    );

    let result = result.unwrap().reduce(Strategy::NormalOrder);
    assert_eq!(
        EvalResult::PossiblyReducible(Term::lambda(Term::lambda(Term::variable(Name::bound(2))))),
        result
    );

    let result = result.unwrap().reduce(Strategy::NormalOrder);
    assert_eq!(
        EvalResult::NormalForm(Term::lambda(Term::lambda(Term::variable(Name::bound(2))))),
        result
    );
}

#[test]
fn test_bind_free_dummy() {
    let lambda = Term::lambda(Term::variable(Name::free("a".into())));

    assert_eq!(lambda.clone(), lambda.bind_free_from(&()));
}

#[test]
fn test_bind_free_real() {
    let lambda = Term::lambda(Term::variable(Name::free("a".into())));
    let symbols = {
        let mut map: Environment = Environment::new();
        SymbolTable::insert(
            &mut map,
            Binding::new(
                "a",
                Term::lambda(Term::variable(Name::bound(1))),
                BindMode::CaptureOnly,
            ),
        );
        SymbolTable::insert(
            &mut map,
            Binding::new("b", Term::variable(Name::free("x".into())), BindMode::CaptureOnly),
        );
        map
    };

    assert_eq!(
        Term::lambda(Term::lambda(Term::variable(Name::bound(1)))),
        lambda.bind_free_from(&symbols),
    );
}
