use vstd::prelude::*;
use crate::lambda::{binder_name, deeper_wide, display, lam, app, show, NameModel, TermModel};
use crate::lexer::{
    cons_all, cons_token, is_word_char, lemma_lex_one, lemma_lex_suffix, let_word, lex, lex_from,
    lexable, TokenModel,
};
use crate::parser::{last_index, parse_app, parse_expr, parse_lam, parse_statement, resolve, ParseErrorModel};
use crate::runtime::StatementModel;
use crate::text::{decimal, lemma_decimal_digits, lemma_decimal_injective};

verus! {

/// Whether every index in `t` refers to a binder inside it (its root sitting
/// `depth` binders deep) and no free identifier occurs.
pub open spec fn closed_at(t: TermModel, depth: nat) -> bool
    decreases t,
{
    match t {
        TermModel::Variable(n) => match n {
            NameModel::Bound(k) => 1 <= k <= depth,
            NameModel::Free(_) => false,
        },
        TermModel::Lambda(b) => closed_at(*b, depth + 1),
        TermModel::Application(f, x) => closed_at(*f, depth) && closed_at(*x, depth),
    }
}

/// The tokens of the printed form of `t` at `depth`.
pub open spec fn printed_tokens(t: TermModel, depth: nat) -> Seq<TokenModel>
    decreases t,
{
    match t {
        TermModel::Variable(n) => match n {
            NameModel::Bound(k) => seq![TokenModel::Identifier(binder_name((depth - k) as nat))],
            NameModel::Free(id) => seq![TokenModel::Identifier(id)],
        },
        TermModel::Lambda(b) => seq![
            TokenModel::ParenOpen,
            TokenModel::Lambda,
            TokenModel::Identifier(binder_name(depth)),
            TokenModel::Dot,
        ] + printed_tokens(*b, depth + 1) + seq![TokenModel::ParenClose],
        TermModel::Application(f, x) => seq![TokenModel::ParenOpen] + printed_tokens(*f, depth)
            + printed_tokens(*x, depth) + seq![TokenModel::ParenClose],
    }
}

/// The generated binder names for depths `0..depth`.
pub open spec fn binder_names(depth: nat) -> Seq<Seq<char>>
    decreases depth,
{
    if depth == 0 {
        Seq::empty()
    } else {
        binder_names((depth - 1) as nat).push(binder_name((depth - 1) as nat))
    }
}

proof fn lemma_binder_name_lexable(n: nat)
    ensures
        lexable(TokenModel::Identifier(binder_name(n))),
{
    lemma_decimal_digits(n);
    let w = binder_name(n);
    assert(w[0] == 'x');
    assert(w != let_word()) by {
        assert(let_word()[0] == 'l');
    }
    assert forall|k: int| 0 <= k < w.len() implies is_word_char(#[trigger] w[k]) by {
        if k > 0 {
            assert(w[k] == decimal(n)[k - 1]);
        }
    }
}

proof fn lemma_binder_name_injective(a: nat, b: nat)
    requires
        binder_name(a) == binder_name(b),
    ensures
        a == b,
{
    assert(binder_name(a).subrange(1, binder_name(a).len() as int) =~= decimal(a));
    assert(binder_name(b).subrange(1, binder_name(b).len() as int) =~= decimal(b));
    lemma_decimal_injective(a, b);
}

proof fn lemma_names_len(depth: nat)
    ensures
        binder_names(depth).len() == depth,
    decreases depth,
{
    if depth > 0 {
        lemma_names_len((depth - 1) as nat);
    }
}

proof fn lemma_names_lookup(depth: nat, j: nat)
    requires
        j < depth,
    ensures
        last_index(binder_names(depth), binder_name(j)) == j,
    decreases depth,
{
    lemma_names_len(depth);
    let s = binder_names(depth);
    assert(s.last() == binder_name((depth - 1) as nat));
    assert(s.drop_last() =~= binder_names((depth - 1) as nat));
    if j != depth - 1 {
        if binder_name((depth - 1) as nat) == binder_name(j) {
            lemma_binder_name_injective((depth - 1) as nat, j);
        }
        lemma_names_lookup((depth - 1) as nat, j);
    }
}

proof fn lemma_cons_all_assoc(p: Seq<TokenModel>, q: Seq<TokenModel>, r: Result<Seq<TokenModel>, Seq<char>>)
    ensures
        cons_all(p, cons_all(q, r)) == cons_all(p + q, r),
{
    if let Ok(ts) = r {
        assert(p + (q + ts) =~= (p + q) + ts);
    }
}

proof fn lemma_cons_one(t: TokenModel, r: Result<Seq<TokenModel>, Seq<char>>)
    ensures
        cons_token(t, r) == cons_all(seq![t], r),
{
}

proof fn lemma_lex_lambda(name: Seq<char>, body: Seq<char>, tb: Seq<TokenModel>, rest: Seq<char>)
    requires
        lexable(TokenModel::Identifier(name)),
        rest.len() == 0 || !is_word_char(rest[0]),
        lex(body + (seq![')'] + rest)) == cons_all(tb, lex(seq![')'] + rest)),
    ensures
        lex(seq!['(', 'λ'] + name + seq!['.'] + body + seq![')'] + rest) == cons_all(
            seq![
                TokenModel::ParenOpen,
                TokenModel::Lambda,
                TokenModel::Identifier(name),
                TokenModel::Dot,
            ] + tb + seq![TokenModel::ParenClose],
            lex(rest),
        ),
{
    let r5 = seq![')'] + rest;
    let r4 = body + r5;
    let r3 = seq!['.'] + r4;
    let r2 = name + r3;
    let r1 = seq!['λ'] + r2;
    assert(seq!['(', 'λ'] + name + seq!['.'] + body + seq![')'] + rest =~= seq!['('] + r1);
    assert(r3[0] == '.');
    lemma_lex_one(TokenModel::ParenClose, rest);
    lemma_lex_one(TokenModel::Dot, r4);
    lemma_lex_one(TokenModel::Identifier(name), r3);
    lemma_lex_one(TokenModel::Lambda, r2);
    lemma_lex_one(TokenModel::ParenOpen, r1);
    let close = seq![TokenModel::ParenClose];
    lemma_cons_one(TokenModel::ParenClose, lex(rest));
    lemma_cons_all_assoc(tb, close, lex(rest));
    lemma_cons_one(TokenModel::Dot, lex(r4));
    lemma_cons_all_assoc(seq![TokenModel::Dot], tb + close, lex(rest));
    lemma_cons_one(TokenModel::Identifier(name), lex(r3));
    lemma_cons_all_assoc(
        seq![TokenModel::Identifier(name)],
        seq![TokenModel::Dot] + (tb + close),
        lex(rest),
    );
    lemma_cons_one(TokenModel::Lambda, lex(r2));
    lemma_cons_all_assoc(
        seq![TokenModel::Lambda],
        seq![TokenModel::Identifier(name)] + (seq![TokenModel::Dot] + (tb + close)),
        lex(rest),
    );
    lemma_cons_one(TokenModel::ParenOpen, lex(r1));
    lemma_cons_all_assoc(
        seq![TokenModel::ParenOpen],
        seq![TokenModel::Lambda] + (seq![TokenModel::Identifier(name)] + (seq![TokenModel::Dot] + (
        tb + close))),
        lex(rest),
    );
    assert(seq![TokenModel::ParenOpen] + (seq![TokenModel::Lambda] + (seq![
        TokenModel::Identifier(name),
    ] + (seq![TokenModel::Dot] + (tb + close)))) =~= seq![
        TokenModel::ParenOpen,
        TokenModel::Lambda,
        TokenModel::Identifier(name),
        TokenModel::Dot,
    ] + tb + close);
}

proof fn lemma_lex_application(
    sf: Seq<char>,
    sx: Seq<char>,
    tf: Seq<TokenModel>,
    tx: Seq<TokenModel>,
    rest: Seq<char>,
)
    requires
        rest.len() == 0 || !is_word_char(rest[0]),
        lex(sx + (seq![')'] + rest)) == cons_all(tx, lex(seq![')'] + rest)),
        lex(sf + (seq![' '] + (sx + (seq![')'] + rest)))) == cons_all(
            tf,
            lex(seq![' '] + (sx + (seq![')'] + rest))),
        ),
    ensures
        lex(seq!['('] + sf + seq![' '] + sx + seq![')'] + rest) == cons_all(
            seq![TokenModel::ParenOpen] + tf + tx + seq![TokenModel::ParenClose],
            lex(rest),
        ),
{
    let r3 = seq![')'] + rest;
    let r2 = sx + r3;
    let r1 = seq![' '] + r2;
    assert(seq!['('] + sf + seq![' '] + sx + seq![')'] + rest =~= seq!['('] + (sf + r1));
    let close = seq![TokenModel::ParenClose];
    lemma_lex_one(TokenModel::ParenClose, rest);
    assert(r1[0] == ' ');
    assert(lex_from(r1, 0) == lex_from(r1, 1));
    lemma_lex_suffix(seq![' '], r2, 0);
    assert(seq![' '] + r2 == r1);
    lemma_lex_one(TokenModel::ParenOpen, sf + r1);
    lemma_cons_one(TokenModel::ParenClose, lex(rest));
    lemma_cons_all_assoc(tx, close, lex(rest));
    lemma_cons_all_assoc(tf, tx + close, lex(rest));
    lemma_cons_one(TokenModel::ParenOpen, lex(sf + r1));
    lemma_cons_all_assoc(seq![TokenModel::ParenOpen], tf + (tx + close), lex(rest));
    assert(seq![TokenModel::ParenOpen] + (tf + (tx + close)) =~= seq![TokenModel::ParenOpen] + tf
        + tx + close);
}

/// The printed form of `t`, followed by text that cannot continue a word,
/// lexes to the printed tokens and then what that text lexes to.
proof fn lemma_lex_printed(t: TermModel, depth: nat, rest: Seq<char>)
    requires
        closed_at(t, depth),
        depth + printed_tokens(t, depth).len() <= u32::MAX,
        rest.len() == 0 || !is_word_char(rest[0]),
    ensures
        lex(show(t, depth as u64) + rest) == cons_all(printed_tokens(t, depth), lex(rest)),
    decreases t,
{
    match t {
        TermModel::Variable(n) => {
            if let NameModel::Bound(k) = n {
                let w = binder_name((depth - k) as nat);
                lemma_binder_name_lexable((depth - k) as nat);
                lemma_lex_one(TokenModel::Identifier(w), rest);
                lemma_cons_one(TokenModel::Identifier(w), lex(rest));
            }
        },
        TermModel::Lambda(b) => {
            assert(deeper_wide(depth as u64) == (depth + 1) as u64);
            lemma_lex_printed(*b, depth + 1, seq![')'] + rest);
            lemma_binder_name_lexable(depth);
            lemma_lex_lambda(
                binder_name(depth),
                show(*b, (depth + 1) as u64),
                printed_tokens(*b, depth + 1),
                rest,
            );
        },
        TermModel::Application(f, x) => {
            let sx = show(*x, depth as u64);
            lemma_lex_printed(*x, depth, seq![')'] + rest);
            lemma_lex_printed(*f, depth, seq![' '] + (sx + (seq![')'] + rest)));
            lemma_lex_application(
                show(*f, depth as u64),
                sx,
                printed_tokens(*f, depth),
                printed_tokens(*x, depth),
                rest,
            );
        },
    }
}

proof fn lemma_printed_shape(t: TermModel, depth: nat)
    ensures
        printed_tokens(t, depth).len() > 0,
        printed_tokens(t, depth)[0] is ParenOpen || printed_tokens(t, depth)[0] is Identifier,
{
    match t {
        TermModel::Variable(n) => {},
        TermModel::Lambda(b) => {},
        TermModel::Application(f, x) => {},
    }
}

/// The printed tokens of `t`, found at `pos` inside the binders of depths
/// `0..depth`, parse back to `t`.
proof fn lemma_parse_printed(ts: Seq<TokenModel>, pos: int, t: TermModel, depth: nat)
    requires
        closed_at(t, depth),
        0 <= pos,
        pos + printed_tokens(t, depth).len() <= ts.len(),
        ts.subrange(pos, pos + printed_tokens(t, depth).len()) == printed_tokens(t, depth),
    ensures
        parse_expr(ts, pos, binder_names(depth)) == Ok::<(TermModel, int), ParseErrorModel>(
            (t, pos + printed_tokens(t, depth).len()),
        ),
    decreases t,
{
    let tt = printed_tokens(t, depth);
    let n = tt.len() as int;
    assert forall|i: int| 0 <= i < n implies ts[pos + i] == tt[i] by {
        assert(ts.subrange(pos, pos + n)[i] == ts[pos + i]);
    }
    let names = binder_names(depth);
    lemma_names_len(depth);
    match t {
        TermModel::Variable(nm) => {
            if let NameModel::Bound(k) = nm {
                assert(ts[pos] == tt[0]);
                lemma_names_lookup(depth, (depth - k) as nat);
                assert(resolve(names, binder_name((depth - k) as nat)) == NameModel::Bound(k));
            }
        },
        TermModel::Lambda(b) => {
            let tb = printed_tokens(*b, depth + 1);
            let m = tb.len() as int;
            assert(ts[pos] == tt[0]);
            assert(ts[pos + 1] == tt[1]);
            assert(ts[pos + 2] == tt[2]);
            assert(ts[pos + 3] == tt[3]);
            assert(ts[pos + 4 + m] == tt[4 + m]);
            assert(ts.subrange(pos + 4, pos + 4 + m) =~= tb) by {
                assert forall|i: int| 0 <= i < m implies ts.subrange(pos + 4, pos + 4 + m)[i]
                    == tb[i] by {
                    assert(ts[pos + 4 + i] == tt[4 + i]);
                }
            }
            assert(names.push(binder_name(depth)) == binder_names(depth + 1));
            lemma_parse_printed(ts, pos + 4, *b, depth + 1);
            assert(parse_lam(ts, pos + 1, names) == Ok::<(TermModel, int), ParseErrorModel>(
                (lam(*b), pos + 4 + m),
            ));
        },
        TermModel::Application(f, x) => {
            let tf = printed_tokens(*f, depth);
            let tx = printed_tokens(*x, depth);
            let a = tf.len() as int;
            let c = tx.len() as int;
            lemma_printed_shape(*f, depth);
            assert(ts[pos] == tt[0]);
            assert(ts[pos + 1] == tt[1]);
            assert(tt[1] == tf[0]);
            assert(ts[pos + 1 + a + c] == tt[1 + a + c]);
            assert(ts.subrange(pos + 1, pos + 1 + a) =~= tf) by {
                assert forall|i: int| 0 <= i < a implies ts.subrange(pos + 1, pos + 1 + a)[i]
                    == tf[i] by {
                    assert(ts[pos + 1 + i] == tt[1 + i]);
                }
            }
            assert(ts.subrange(pos + 1 + a, pos + 1 + a + c) =~= tx) by {
                assert forall|i: int| 0 <= i < c implies ts.subrange(pos + 1 + a, pos + 1 + a + c)[i]
                    == tx[i] by {
                    assert(ts[pos + 1 + a + i] == tt[1 + a + i]);
                }
            }
            lemma_parse_printed(ts, pos + 1, *f, depth);
            lemma_parse_printed(ts, pos + 1 + a, *x, depth);
            let q2 = pos + 1 + a + c;
            assert(parse_expr(ts, q2, names) == Err::<(TermModel, int), ParseErrorModel>(
                ParseErrorModel::NotStartOfExpression(TokenModel::ParenClose),
            ));
            assert(parse_app(ts, q2, names, Some(app(*f, *x))) == Ok::<
                (TermModel, int),
                ParseErrorModel,
            >((app(*f, *x), q2)));
            assert(parse_app(ts, pos + 1 + a, names, Some(*f)) == Ok::<
                (TermModel, int),
                ParseErrorModel,
            >((app(*f, *x), q2)));
            assert(parse_app(ts, pos + 1, names, None) == Ok::<(TermModel, int), ParseErrorModel>(
                (app(*f, *x), q2),
            ));
        },
    }
}

/// Printing a closed term and parsing the text gives the same term: the text
/// lexes to the printed tokens, and they parse to the term as an expression.
pub proof fn lemma_parse_printed_term(t: TermModel)
    requires
        closed_at(t, 0),
        printed_tokens(t, 0).len() <= u32::MAX,
    ensures
        lex(display(t)) == Ok::<Seq<TokenModel>, Seq<char>>(printed_tokens(t, 0)),
        parse_statement(printed_tokens(t, 0)) == Ok::<StatementModel, ParseErrorModel>(
            StatementModel::Expression(t),
        ),
{
    let tt = printed_tokens(t, 0);
    lemma_lex_printed(t, 0, Seq::empty());
    assert(show(t, 0) + Seq::<char>::empty() =~= display(t));
    assert(lex(Seq::<char>::empty()) == Ok::<Seq<TokenModel>, Seq<char>>(Seq::empty()));
    assert(tt + Seq::<TokenModel>::empty() =~= tt);
    lemma_printed_shape(t, 0);
    assert(tt.subrange(0, tt.len() as int) =~= tt);
    assert(binder_names(0) =~= Seq::<Seq<char>>::empty());
    lemma_parse_printed(tt, 0, t, 0);
}

} // verus!
