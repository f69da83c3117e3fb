use vstd::prelude::*;
use crate::lambda::{lam, app, Name, NameModel, Term, TermModel};
use crate::lexer::{render, tokens_model, Token, TokenModel};
use crate::text::{join, lemma_join_step, push_str};
use crate::runtime::{BindMode, Binding, Statement, StatementModel};

verus! {

/// Why a token sequence is not a statement.
#[derive(Debug, PartialEq)]
pub enum ParseError<'a> {
    ExpectedToken(Vec<&'static str>, &'a Token),
    EmptyExpression,
    NotStartOfExpression(&'a Token),
    EOF(Vec<&'static str>),
    UnboundVariable(String),
    TrailingTokens(&'a [Token]),
}

/// The mathematical value of a `ParseError`.
pub enum ParseErrorModel {
    ExpectedToken(Seq<Seq<char>>, TokenModel),
    EmptyExpression,
    NotStartOfExpression(TokenModel),
    EOF(Seq<Seq<char>>),
    UnboundVariable(Seq<char>),
    TrailingTokens(Seq<TokenModel>),
}

pub open spec fn names_model(v: Seq<&str>) -> Seq<Seq<char>> {
    v.map_values(|s: &str| s@)
}

impl<'a> View for ParseError<'a> {
    type V = ParseErrorModel;

    open spec fn view(&self) -> ParseErrorModel {
        match self {
            ParseError::ExpectedToken(v, t) => ParseErrorModel::ExpectedToken(names_model(v@), t@),
            ParseError::EmptyExpression => ParseErrorModel::EmptyExpression,
            ParseError::NotStartOfExpression(t) => ParseErrorModel::NotStartOfExpression(t@),
            ParseError::EOF(v) => ParseErrorModel::EOF(names_model(v@)),
            ParseError::UnboundVariable(n) => ParseErrorModel::UnboundVariable(n@),
            ParseError::TrailingTokens(ts) => ParseErrorModel::TrailingTokens(tokens_model(ts@)),
        }
    }
}


/// The diagnostic that a parse error prints.
pub open spec fn error_text(e: ParseErrorModel) -> Seq<char> {
    match e {
        ParseErrorModel::ExpectedToken(p, t) => "Expected any of: "@ + join(p, ", "@)
            + " but got token '"@ + render(t) + "'"@,
        ParseErrorModel::EmptyExpression => "Empty subexpression"@,
        ParseErrorModel::NotStartOfExpression(t) => "Invalid token at start of expression: '"@
            + render(t) + "'"@,
        ParseErrorModel::EOF(p) => "Got EOF while expecting any of: "@ + join(p, ", "@),
        ParseErrorModel::UnboundVariable(v) => "Unbound variable: '"@ + v + "'"@,
        ParseErrorModel::TrailingTokens(ts) => "Trailing tokens: '"@ + join(
            ts.map_values(|t: TokenModel| render(t)),
            " "@,
        ) + "'"@,
    }
}

fn push_names(out: &mut String, names: &Vec<&'static str>)
    ensures
        final(out)@ == old(out)@ + join(names_model(names@), ", "@),
{
    let ghost parts = names_model(names@);
    let mut i: usize = 0;
    assert(parts.subrange(0, 0) =~= Seq::<Seq<char>>::empty());
    while i < names.len()
        invariant
            i <= names@.len(),
            parts == names_model(names@),
            out@ == old(out)@ + join(parts.subrange(0, i as int), ", "@),
        decreases names@.len() - i,
    {
        proof {
            lemma_join_step(parts, ", "@, i as int);
        }
        if i > 0 {
            push_str(out, ", ");
        }
        push_str(out, names[i]);
        assert(out@ =~= old(out)@ + join(parts.subrange(0, i + 1), ", "@));
        i = i + 1;
    }
    assert(parts.subrange(0, i as int) =~= parts);
}

fn push_tokens(out: &mut String, tokens: &[Token])
    ensures
        final(out)@ == old(out)@ + join(
            tokens_model(tokens@).map_values(|t: TokenModel| render(t)),
            " "@,
        ),
{
    let ghost parts = tokens_model(tokens@).map_values(|t: TokenModel| render(t));
    let mut i: usize = 0;
    assert(parts.subrange(0, 0) =~= Seq::<Seq<char>>::empty());
    while i < tokens.len()
        invariant
            i <= tokens@.len(),
            parts == tokens_model(tokens@).map_values(|t: TokenModel| render(t)),
            out@ == old(out)@ + join(parts.subrange(0, i as int), " "@),
        decreases tokens@.len() - i,
    {
        proof {
            lemma_join_step(parts, " "@, i as int);
        }
        if i > 0 {
            push_str(out, " ");
        }
        push_str(out, tokens[i].to_string().as_str());
        assert(out@ =~= old(out)@ + join(parts.subrange(0, i + 1), " "@));
        i = i + 1;
    }
    assert(parts.subrange(0, i as int) =~= parts);
}

impl<'a> ParseError<'a> {
    /// The diagnostic for this error.
    pub fn to_string(&self) -> (r: String)
        ensures
            r@ == error_text(self@),
    {
        let mut r = String::new();
        match self {
            ParseError::ExpectedToken(names, t) => {
                push_str(&mut r, "Expected any of: ");
                push_names(&mut r, names);
                push_str(&mut r, " but got token '");
                push_str(&mut r, t.to_string().as_str());
                push_str(&mut r, "'");
            },
            ParseError::EmptyExpression => push_str(&mut r, "Empty subexpression"),
            ParseError::NotStartOfExpression(t) => {
                push_str(&mut r, "Invalid token at start of expression: '");
                push_str(&mut r, t.to_string().as_str());
                push_str(&mut r, "'");
            },
            ParseError::EOF(names) => {
                push_str(&mut r, "Got EOF while expecting any of: ");
                push_names(&mut r, names);
            },
            ParseError::UnboundVariable(v) => {
                push_str(&mut r, "Unbound variable: '");
                push_str(&mut r, v.as_str());
                push_str(&mut r, "'");
            },
            ParseError::TrailingTokens(ts) => {
                push_str(&mut r, "Trailing tokens: '");
                push_tokens(&mut r, ts);
                push_str(&mut r, "'");
            },
        }
        assert(r@ =~= error_text(self@));
        r
    }
}

pub type Parsed<T> = Result<(T, int), ParseErrorModel>;

pub open spec fn starts_expression() -> Seq<Seq<char>> {
    seq!["Identifier(name)"@, "ParenOpen"@]
}

pub open spec fn identifier_expected() -> Seq<Seq<char>> {
    seq!["Identifier(name)"@]
}

pub open spec fn define_expected() -> Seq<Seq<char>> {
    seq!["DefineReduce"@, "DefineSuspend"@]
}

/// The position of the innermost binder of `name`, or -1.
pub open spec fn last_index(scope: Seq<Seq<char>>, name: Seq<char>) -> int
    decreases scope.len(),
{
    if scope.len() == 0 {
        -1
    } else if scope.last() == name {
        scope.len() - 1
    } else {
        last_index(scope.drop_last(), name)
    }
}

/// An identifier read inside the binders `scope` (outermost first): the
/// distance to its innermost binder, or a free name.
pub open spec fn resolve(scope: Seq<Seq<char>>, name: Seq<char>) -> NameModel {
    let p = last_index(scope, name);
    if p < 0 {
        NameModel::Free(name)
    } else {
        NameModel::Bound((scope.len() - p) as u32)
    }
}

/// `expression := Identifier | '(' ('λ' lambda | application) ')'`, read
/// from position `pos`.
pub open spec fn parse_expr(ts: Seq<TokenModel>, pos: int, scope: Seq<Seq<char>>) -> Parsed<
    TermModel,
>
    decreases ts.len() - pos, 0int,
{
    if pos < 0 || pos >= ts.len() {
        Err(ParseErrorModel::EOF(starts_expression()))
    } else {
        match ts[pos] {
            TokenModel::Identifier(name) => Ok((TermModel::Variable(resolve(scope, name)), pos + 1)),
            TokenModel::ParenOpen => {
                if pos + 1 >= ts.len() {
                    Err(ParseErrorModel::EOF(seq!["Lambda"@]))
                } else {
                    let inner = if ts[pos + 1] is Lambda {
                        parse_lam(ts, pos + 1, scope)
                    } else {
                        parse_app(ts, pos + 1, scope, None)
                    };
                    match inner {
                        Err(e) => Err(e),
                        Ok((t, q)) => if q < 0 || q >= ts.len() {
                            Err(ParseErrorModel::EOF(seq!["ParenClose"@]))
                        } else if ts[q] is ParenClose {
                            Ok((t, q + 1))
                        } else {
                            Err(ParseErrorModel::ExpectedToken(seq!["ParenClose"@], ts[q]))
                        },
                    }
                }
            },
            t => Err(ParseErrorModel::NotStartOfExpression(t)),
        }
    }
}

/// `lambda := 'λ' Identifier '.' expression`, with `ts[pos]` the `λ`.
pub open spec fn parse_lam(ts: Seq<TokenModel>, pos: int, scope: Seq<Seq<char>>) -> Parsed<
    TermModel,
>
    decreases ts.len() - pos, 0int,
{
    if pos < 0 || pos + 1 >= ts.len() {
        Err(ParseErrorModel::EOF(identifier_expected()))
    } else {
        match ts[pos + 1] {
            TokenModel::Identifier(name) => if pos + 2 >= ts.len() {
                Err(ParseErrorModel::EOF(seq!["Dot"@]))
            } else if ts[pos + 2] is Dot {
                match parse_expr(ts, pos + 3, scope.push(name)) {
                    Ok((b, q)) => Ok((lam(b), q)),
                    Err(e) => Err(e),
                }
            } else {
                Err(ParseErrorModel::ExpectedToken(seq!["Dot"@], ts[pos + 2]))
            },
            t => Err(ParseErrorModel::ExpectedToken(identifier_expected(), t)),
        }
    }
}

/// `application := expression+`, associating to the left; `acc` is what
/// has been read so far. It stops before a token that starts no expression.
pub open spec fn parse_app(
    ts: Seq<TokenModel>,
    pos: int,
    scope: Seq<Seq<char>>,
    acc: Option<TermModel>,
) -> Parsed<TermModel>
    decreases ts.len() - pos, 1int,
{
    if pos < 0 || pos > ts.len() {
        Err(ParseErrorModel::EmptyExpression)
    } else {
        match parse_expr(ts, pos, scope) {
            Ok((t, q)) => {
                let next = match acc {
                    Some(a) => app(a, t),
                    None => t,
                };
                if pos < q <= ts.len() {
                    parse_app(ts, q, scope, Some(next))
                } else {
                    Err(ParseErrorModel::EmptyExpression)
                }
            },
            Err(ParseErrorModel::NotStartOfExpression(_)) => match acc {
                Some(a) => Ok((a, pos)),
                None => Err(ParseErrorModel::EmptyExpression),
            },
            Err(e) => Err(e),
        }
    }
}

/// `'let' Identifier ('=' | ':=') expression`, with `ts[0]` the `let`.
pub open spec fn parse_let(ts: Seq<TokenModel>) -> Parsed<StatementModel> {
    if 1 >= ts.len() {
        Err(ParseErrorModel::EOF(identifier_expected()))
    } else {
        match ts[1] {
            TokenModel::Identifier(name) => if 2 >= ts.len() {
                Err(ParseErrorModel::EOF(define_expected()))
            } else if ts[2] is DefineReduce || ts[2] is DefineSuspend {
                let mode = if ts[2] is DefineReduce {
                    BindMode::CaptureAndReduce
                } else {
                    BindMode::CaptureOnly
                };
                match parse_expr(ts, 3, Seq::empty()) {
                    Ok((t, q)) => Ok((StatementModel::Definition(name, t, mode), q)),
                    Err(e) => Err(e),
                }
            } else {
                Err(ParseErrorModel::ExpectedToken(define_expected(), ts[2]))
            },
            t => Err(ParseErrorModel::ExpectedToken(identifier_expected(), t)),
        }
    }
}

/// A whole line: a statement and nothing after it.
pub open spec fn parse_statement(ts: Seq<TokenModel>) -> Result<StatementModel, ParseErrorModel> {
    if ts.len() == 0 {
        Err(ParseErrorModel::EmptyExpression)
    } else {
        let r = if ts[0] is Let {
            parse_let(ts)
        } else {
            match parse_expr(ts, 0, Seq::empty()) {
                Ok((t, q)) => Ok((StatementModel::Expression(t), q)),
                Err(e) => Err(e),
            }
        };
        match r {
            Err(e) => Err(e),
            Ok((s, q)) => if q == ts.len() {
                Ok(s)
            } else {
                Err(ParseErrorModel::TrailingTokens(ts.subrange(q, ts.len() as int)))
            },
        }
    }
}

pub open spec fn scope_model(scope: Seq<String>) -> Seq<Seq<char>> {
    scope.map_values(|s: String| s@)
}

pub open spec fn parsed_as<T: View>(r: Result<(T, usize), ParseError>, s: Parsed<T::V>) -> bool {
    match r {
        Ok((t, q)) => s == Ok::<(T::V, int), ParseErrorModel>((t@, q as int)),
        Err(e) => s == Err::<(T::V, int), ParseErrorModel>(e@),
    }
}

fn names1(a: &'static str) -> (r: Vec<&'static str>)
    ensures
        names_model(r@) == seq![a@],
{
    let r = vec![a];
    assert(names_model(r@) =~= seq![a@]);
    r
}

fn names2(a: &'static str, b: &'static str) -> (r: Vec<&'static str>)
    ensures
        names_model(r@) == seq![a@, b@],
{
    let r = vec![a, b];
    assert(names_model(r@) =~= seq![a@, b@]);
    r
}

fn resolve_name(scope: &Vec<String>, name: &String) -> (r: Name)
    requires
        scope@.len() <= u32::MAX,
    ensures
        r@ == resolve(scope_model(scope@), name@),
{
    let ghost m = scope_model(scope@);
    let mut i: usize = scope.len();
    assert(m.subrange(0, i as int) =~= m);
    while i > 0
        invariant
            i <= scope@.len(),
            m == scope_model(scope@),
            last_index(m, name@) == last_index(m.subrange(0, i as int), name@),
        decreases i,
    {
        let ghost pre = m.subrange(0, i as int);
        if scope[i - 1] == *name {
            assert(pre.last() == name@);
            return Name::bound((scope.len() - (i - 1)) as u32);
        }
        assert(pre.drop_last() =~= m.subrange(0, i - 1));
        i = i - 1;
    }
    Name::free(name.clone())
}

fn parse_expression<'a>(tokens: &'a [Token], pos: usize, scope: &mut Vec<String>) -> (r: Result<
    (Term, usize),
    ParseError<'a>,
>)
    requires
        tokens@.len() <= u32::MAX,
        old(scope)@.len() <= pos,
    ensures
        final(scope)@ == old(scope)@,
        parsed_as(r, parse_expr(tokens_model(tokens@), pos as int, scope_model(old(scope)@))),
        r matches Ok((_, q)) ==> pos < q <= tokens@.len(),
    decreases tokens@.len() - pos, 0int,
{
    let ghost ts = tokens_model(tokens@);
    if pos >= tokens.len() {
        return Err(ParseError::EOF(names2("Identifier(name)", "ParenOpen")));
    }
    match &tokens[pos] {
        Token::Identifier(name) => {
            let n = resolve_name(scope, name);
            Ok((Term::variable(n), pos + 1))
        },
        Token::ParenOpen => {
            if pos + 1 >= tokens.len() {
                return Err(ParseError::EOF(names1("Lambda")));
            }
            let inner = if let Token::Lambda = &tokens[pos + 1] {
                parse_lambda(tokens, pos + 1, scope)
            } else {
                parse_application(tokens, pos + 1, scope, None)
            };
            match inner {
                Err(e) => Err(e),
                Ok((t, q)) => {
                    if q >= tokens.len() {
                        Err(ParseError::EOF(names1("ParenClose")))
                    } else if let Token::ParenClose = &tokens[q] {
                        Ok((t, q + 1))
                    } else {
                        Err(ParseError::ExpectedToken(names1("ParenClose"), &tokens[q]))
                    }
                },
            }
        },
        t => Err(ParseError::NotStartOfExpression(t)),
    }
}

fn parse_lambda<'a>(tokens: &'a [Token], pos: usize, scope: &mut Vec<String>) -> (r: Result<
    (Term, usize),
    ParseError<'a>,
>)
    requires
        tokens@.len() <= u32::MAX,
        old(scope)@.len() <= pos,
        pos < tokens@.len(),
    ensures
        final(scope)@ == old(scope)@,
        parsed_as(r, parse_lam(tokens_model(tokens@), pos as int, scope_model(old(scope)@))),
        r matches Ok((_, q)) ==> pos < q <= tokens@.len(),
    decreases tokens@.len() - pos, 0int,
{
    let ghost ts = tokens_model(tokens@);
    if pos + 1 >= tokens.len() {
        return Err(ParseError::EOF(names1("Identifier(name)")));
    }
    match &tokens[pos + 1] {
        Token::Identifier(name) => {
            if pos + 2 >= tokens.len() {
                return Err(ParseError::EOF(names1("Dot")));
            }
            if let Token::Dot = &tokens[pos + 2] {
                let ghost before = scope@;
                scope.push(name.clone());
                assert(scope_model(scope@) =~= scope_model(before).push(name@));
                let body = parse_expression(tokens, pos + 3, scope);
                scope.pop();
                assert(scope@ =~= before);
                match body {
                    Ok((b, q)) => Ok((Term::lambda(b), q)),
                    Err(e) => Err(e),
                }
            } else {
                Err(ParseError::ExpectedToken(names1("Dot"), &tokens[pos + 2]))
            }
        },
        t => Err(ParseError::ExpectedToken(names1("Identifier(name)"), t)),
    }
}

fn parse_application<'a>(
    tokens: &'a [Token],
    pos: usize,
    scope: &mut Vec<String>,
    acc: Option<Term>,
) -> (r: Result<(Term, usize), ParseError<'a>>)
    requires
        tokens@.len() <= u32::MAX,
        old(scope)@.len() <= pos,
        pos <= tokens@.len(),
    ensures
        final(scope)@ == old(scope)@,
        parsed_as(
            r,
            parse_app(
                tokens_model(tokens@),
                pos as int,
                scope_model(old(scope)@),
                match acc {
                    Some(a) => Some(a@),
                    None => None,
                },
            ),
        ),
        r matches Ok((_, q)) ==> pos <= q <= tokens@.len(),
        acc is None ==> (r matches Ok((_, q)) ==> pos < q),
    decreases tokens@.len() - pos, 1int,
{
    match parse_expression(tokens, pos, scope) {
        Ok((t, q)) => {
            let next = match acc {
                Some(a) => Term::apply(a, t),
                None => t,
            };
            parse_application(tokens, q, scope, Some(next))
        },
        Err(ParseError::NotStartOfExpression(t)) => match acc {
            Some(a) => Ok((a, pos)),
            None => Err(ParseError::EmptyExpression),
        },
        Err(e) => Err(e),
    }
}

fn parse_let_statement<'a>(tokens: &'a [Token], scope: &mut Vec<String>) -> (r: Result<
    (Statement, usize),
    ParseError<'a>,
>)
    requires
        tokens@.len() <= u32::MAX,
        old(scope)@.len() == 0,
    ensures
        final(scope)@ == old(scope)@,
        parsed_as(r, parse_let(tokens_model(tokens@))),
        r matches Ok((_, q)) ==> q <= tokens@.len(),
{
    if 1 >= tokens.len() {
        return Err(ParseError::EOF(names1("Identifier(name)")));
    }
    match &tokens[1] {
        Token::Identifier(name) => {
            if 2 >= tokens.len() {
                return Err(ParseError::EOF(names2("DefineReduce", "DefineSuspend")));
            }
            let mode = match &tokens[2] {
                Token::DefineReduce => BindMode::CaptureAndReduce,
                Token::DefineSuspend => BindMode::CaptureOnly,
                t => {
                    return Err(
                        ParseError::ExpectedToken(names2("DefineReduce", "DefineSuspend"), t),
                    );
                },
            };
            assert(scope_model(scope@) =~= Seq::<Seq<char>>::empty());
            match parse_expression(tokens, 3, scope) {
                Ok((t, q)) => Ok((Statement::LetStatement(Binding::new(name.as_str(), t, mode)), q)),
                Err(e) => Err(e),
            }
        },
        t => Err(ParseError::ExpectedToken(names1("Identifier(name)"), t)),
    }
}

fn parse_toplevel<'a>(tokens: &'a [Token], scope: &mut Vec<String>) -> (r: Result<
    (Statement, usize),
    ParseError<'a>,
>)
    requires
        tokens@.len() <= u32::MAX,
        old(scope)@.len() == 0,
        tokens@.len() > 0,
    ensures
        final(scope)@ == old(scope)@,
        parsed_as(
            r,
            if tokens_model(tokens@)[0] is Let {
                parse_let(tokens_model(tokens@))
            } else {
                match parse_expr(tokens_model(tokens@), 0, Seq::empty()) {
                    Ok((t, q)) => Ok((StatementModel::Expression(t), q)),
                    Err(e) => Err(e),
                }
            },
        ),
        r matches Ok((_, q)) ==> q <= tokens@.len(),
{
    if let Token::Let = &tokens[0] {
        parse_let_statement(tokens, scope)
    } else {
        assert(scope_model(scope@) =~= Seq::<Seq<char>>::empty());
        match parse_expression(tokens, 0, scope) {
            Ok((t, q)) => Ok((Statement::Expression(t), q)),
            Err(e) => Err(e),
        }
    }
}

/// Parses a whole line of tokens into a statement.
pub fn parse<'a>(tokens: &'a [Token]) -> (r: Result<Statement, ParseError<'a>>)
    requires
        tokens@.len() <= u32::MAX,
    ensures
        match r {
            Ok(s) => parse_statement(tokens_model(tokens@)) == Ok::<
                StatementModel,
                ParseErrorModel,
            >(s@),
            Err(e) => parse_statement(tokens_model(tokens@)) == Err::<
                StatementModel,
                ParseErrorModel,
            >(e@),
        },
{
    if tokens.len() == 0 {
        return Err(ParseError::EmptyExpression);
    }
    let mut scope: Vec<String> = Vec::new();
    match parse_toplevel(tokens, &mut scope) {
        Err(e) => Err(e),
        Ok((s, q)) => {
            if q == tokens.len() {
                Ok(s)
            } else {
                let (_, rest) = tokens.split_at(q);
                proof {
                    assert(tokens_model(rest@) =~= tokens_model(tokens@).subrange(
                        q as int,
                        tokens@.len() as int,
                    ));
                }
                Err(ParseError::TrailingTokens(rest))
            }
        },
    }
}

} // verus!
