use vstd::prelude::*;
use crate::text::{join, push_char, push_str};

verus! {

/// A lexical token of the surface language.
#[derive(Debug, PartialEq, Eq)]
pub enum Token {
    ParenOpen,
    ParenClose,
    Lambda,
    Dot,
    Identifier(String),
    Let,
    DefineReduce,
    DefineSuspend,
}

/// The mathematical value of a `Token`.
pub enum TokenModel {
    ParenOpen,
    ParenClose,
    Lambda,
    Dot,
    Identifier(Seq<char>),
    Let,
    DefineReduce,
    DefineSuspend,
}

impl View for Token {
    type V = TokenModel;

    open spec fn view(&self) -> TokenModel {
        match self {
            Token::ParenOpen => TokenModel::ParenOpen,
            Token::ParenClose => TokenModel::ParenClose,
            Token::Lambda => TokenModel::Lambda,
            Token::Dot => TokenModel::Dot,
            Token::Identifier(name) => TokenModel::Identifier(name@),
            Token::Let => TokenModel::Let,
            Token::DefineReduce => TokenModel::DefineReduce,
            Token::DefineSuspend => TokenModel::DefineSuspend,
        }
    }
}

/// The models of a sequence of tokens.
pub open spec fn tokens_model(ts: Seq<Token>) -> Seq<TokenModel> {
    ts.map_values(|t: Token| t@)
}

/// A lexical error; it holds the diagnostic.
#[derive(Debug, PartialEq, Eq)]
pub struct ParseTokenError(pub String);

/// An ASCII letter or digit.
pub open spec fn is_word_char(c: char) -> bool {
    ('a' <= c && c <= 'z') || ('A' <= c && c <= 'Z') || ('0' <= c && c <= '9')
}

/// A character with the Unicode White_Space property.
pub open spec fn is_space(c: char) -> bool {
    ('\u{9}' <= c && c <= '\u{d}') || c == ' ' || c == '\u{85}' || c == '\u{a0}' || c
        == '\u{1680}' || ('\u{2000}' <= c && c <= '\u{200a}') || c == '\u{2028}' || c
        == '\u{2029}' || c == '\u{202f}' || c == '\u{205f}' || c == '\u{3000}'
}

/// The end of the run of word characters that starts at `i`.
pub open spec fn word_end(s: Seq<char>, i: int) -> int
    decreases s.len() - i,
{
    if 0 <= i < s.len() && is_word_char(s[i]) {
        word_end(s, i + 1)
    } else {
        i
    }
}

pub open spec fn let_word() -> Seq<char> {
    seq!['l', 'e', 't']
}

pub open spec fn invalid_token_prefix() -> Seq<char> {
    seq!['I', 'n', 'v', 'a', 'l', 'i', 'd', ' ', 't', 'o', 'k', 'e', 'n', ':', ' ']
}

/// `t` put in front of a lexing outcome.
pub open spec fn cons_token(t: TokenModel, r: Result<Seq<TokenModel>, Seq<char>>) -> Result<
    Seq<TokenModel>,
    Seq<char>,
> {
    match r {
        Ok(ts) => Ok(seq![t] + ts),
        Err(e) => Err(e),
    }
}

/// The tokens of `s` from position `i` on, or the diagnostic of the first
/// character that starts no token.
pub open spec fn lex_from(s: Seq<char>, i: int) -> Result<Seq<TokenModel>, Seq<char>>
    decreases s.len() - i,
    via lex_from_decreases
{
    if i < 0 || i >= s.len() {
        Ok(Seq::empty())
    } else {
        let c = s[i];
        if is_space(c) {
            lex_from(s, i + 1)
        } else if c == '(' {
            cons_token(TokenModel::ParenOpen, lex_from(s, i + 1))
        } else if c == ')' {
            cons_token(TokenModel::ParenClose, lex_from(s, i + 1))
        } else if c == 'λ' || c == 'L' {
            cons_token(TokenModel::Lambda, lex_from(s, i + 1))
        } else if c == '.' {
            cons_token(TokenModel::Dot, lex_from(s, i + 1))
        } else if c == '=' {
            cons_token(TokenModel::DefineReduce, lex_from(s, i + 1))
        } else if c == ':' {
            if i + 1 < s.len() && s[i + 1] == '=' {
                cons_token(TokenModel::DefineSuspend, lex_from(s, i + 2))
            } else {
                Err(invalid_token_prefix() + seq![':', ':'])
            }
        } else if is_word_char(c) {
            let w = s.subrange(i, word_end(s, i));
            let t = if w == let_word() {
                TokenModel::Let
            } else {
                TokenModel::Identifier(w)
            };
            cons_token(t, lex_from(s, word_end(s, i)))
        } else {
            Err(invalid_token_prefix() + seq![c])
        }
    }
}

proof fn lemma_word_end_bounds(s: Seq<char>, i: int)
    requires
        0 <= i <= s.len(),
    ensures
        i <= word_end(s, i) <= s.len(),
        forall|j: int| i <= j < word_end(s, i) ==> is_word_char(#[trigger] s[j]),
        word_end(s, i) < s.len() ==> !is_word_char(s[word_end(s, i)]),
    decreases s.len() - i,
{
    if i < s.len() && is_word_char(s[i]) {
        lemma_word_end_bounds(s, i + 1);
    }
}

#[via_fn]
proof fn lex_from_decreases(s: Seq<char>, i: int) {
    if 0 <= i < s.len() && is_word_char(s[i]) {
        lemma_word_end_bounds(s, i);
    }
}

/// The lexer's outcome on a whole string.
pub open spec fn lex(s: Seq<char>) -> Result<Seq<TokenModel>, Seq<char>> {
    lex_from(s, 0)
}

/// How a token is written.
pub open spec fn render(t: TokenModel) -> Seq<char> {
    match t {
        TokenModel::ParenOpen => seq!['('],
        TokenModel::ParenClose => seq![')'],
        TokenModel::Lambda => seq!['λ'],
        TokenModel::Dot => seq!['.'],
        TokenModel::Identifier(name) => name,
        TokenModel::Let => let_word(),
        TokenModel::DefineReduce => seq!['='],
        TokenModel::DefineSuspend => seq![':', '='],
    }
}

/// A token as the lexer can produce it: an identifier is a nonempty run of
/// word characters that neither starts with `L` nor spells `let`.
pub open spec fn lexable(t: TokenModel) -> bool {
    match t {
        TokenModel::Identifier(w) => w.len() > 0 && w[0] != 'L' && w != let_word() && forall|k: int|
            0 <= k < w.len() ==> is_word_char(#[trigger] w[k]),
        _ => true,
    }
}

proof fn lemma_word_end_at(s: Seq<char>, i: int, j: int)
    requires
        0 <= i <= j <= s.len(),
        forall|k: int| i <= k < j ==> is_word_char(#[trigger] s[k]),
        j == s.len() || !is_word_char(s[j]),
    ensures
        word_end(s, i) == j,
    decreases j - i,
{
    if i < j {
        lemma_word_end_at(s, i + 1, j);
    }
}

proof fn lemma_word_end_suffix(p: Seq<char>, b: Seq<char>, j: int)
    requires
        0 <= j <= b.len(),
    ensures
        word_end(p + b, p.len() + j) == p.len() + word_end(b, j),
    decreases b.len() - j,
{
    let s = p + b;
    assert(s.len() == p.len() + b.len());
    if j < b.len() {
        assert(s[p.len() + j] == b[j]);
        if is_word_char(b[j]) {
            lemma_word_end_suffix(p, b, j + 1);
        }
    }
}

/// Lexing looks only forward: what stands before position `p.len()` does
/// not change what is read from there on.
pub proof fn lemma_lex_suffix(p: Seq<char>, b: Seq<char>, j: int)
    requires
        0 <= j <= b.len(),
    ensures
        lex_from(p + b, p.len() + j) == lex_from(b, j),
    decreases b.len() - j,
{
    let s = p + b;
    let i = p.len() + j;
    assert(s.len() == p.len() + b.len());
    if j < b.len() {
        let c = b[j];
        assert(s[i] == c);
        if is_space(c) || c == '(' || c == ')' || c == 'λ' || c == 'L' || c == '.' || c == '=' {
            lemma_lex_suffix(p, b, j + 1);
        } else if c == ':' {
            if j + 1 < b.len() {
                assert(s[i + 1] == b[j + 1]);
                if b[j + 1] == '=' {
                    lemma_lex_suffix(p, b, j + 2);
                }
            }
        } else if is_word_char(c) {
            lemma_word_end_suffix(p, b, j);
            lemma_word_end_bounds(b, j);
            assert(s.subrange(i, word_end(s, i)) =~= b.subrange(j, word_end(b, j)));
            lemma_lex_suffix(p, b, word_end(b, j));
        }
    }
}

/// A lexable token, written out, is read back as itself; after a word it
/// takes nothing or a character that cannot continue the word.
pub proof fn lemma_lex_one(t: TokenModel, q: Seq<char>)
    requires
        lexable(t),
        (t is Identifier || t is Let) ==> (q.len() == 0 || !is_word_char(q[0])),
    ensures
        lex(render(t) + q) == cons_token(t, lex(q)),
{
    let w = render(t);
    let s = w + q;
    assert(s.len() == w.len() + q.len());
    lemma_lex_suffix(w, q, 0);
    assert(w + q =~= s);
    match t {
        TokenModel::Identifier(name) => {
            assert forall|k: int| 0 <= k < name.len() implies is_word_char(#[trigger] s[k]) by {
                assert(s[k] == name[k]);
            }
            assert(s[0] == name[0]);
            lemma_word_end_at(s, 0, name.len() as int);
            assert(s.subrange(0, name.len() as int) =~= name);
        },
        TokenModel::Let => {
            assert(s[0] == 'l' && s[1] == 'e' && s[2] == 't');
            lemma_word_end_at(s, 0, 3);
            assert(s.subrange(0, 3) =~= let_word());
        },
        TokenModel::DefineSuspend => {
            assert(s[0] == ':' && s[1] == '=');
        },
        _ => {
            assert(s[0] == w[0]);
        },
    }
}

proof fn lemma_join_front(parts: Seq<Seq<char>>, sep: Seq<char>)
    requires
        parts.len() >= 2,
    ensures
        join(parts, sep) == parts[0] + sep + join(parts.subrange(1, parts.len() as int), sep),
    decreases parts.len(),
{
    let rest = parts.subrange(1, parts.len() as int);
    let d = parts.drop_last();
    assert(join(parts, sep) == join(d, sep) + sep + parts.last());
    if parts.len() == 2 {
        assert(join(d, sep) == d[0]);
        assert(join(rest, sep) == rest[0]);
        assert(d[0] == parts[0]);
        assert(rest[0] == parts.last());
    } else {
        lemma_join_front(d, sep);
        assert(d.subrange(1, d.len() as int) =~= rest.drop_last());
        assert(rest.last() == parts.last());
        assert(d[0] == parts[0]);
        assert(join(rest, sep) == join(rest.drop_last(), sep) + sep + rest.last());
        assert(parts[0] + sep + (join(rest.drop_last(), sep) + sep + rest.last()) =~= parts[0] + sep
            + join(rest.drop_last(), sep) + sep + parts.last());
    }
}

/// The text of lexable tokens, one space between each two.
pub open spec fn spaced(ts: Seq<TokenModel>) -> Seq<char> {
    join(ts.map_values(|t: TokenModel| render(t)), seq![' '])
}

proof fn lemma_lex_spaced(ts: Seq<TokenModel>)
    requires
        forall|k: int| 0 <= k < ts.len() ==> lexable(#[trigger] ts[k]),
    ensures
        lex(spaced(ts)) == Ok::<Seq<TokenModel>, Seq<char>>(ts),
    decreases ts.len(),
{
    let parts = ts.map_values(|t: TokenModel| render(t));
    if ts.len() == 0 {
        assert(parts.len() == 0);
        assert(spaced(ts) == Seq::<char>::empty());
        assert(ts =~= Seq::<TokenModel>::empty());
    } else if ts.len() == 1 {
        assert(parts.len() == 1);
        assert(spaced(ts) == render(ts[0]));
        lemma_lex_one(ts[0], Seq::empty());
        assert(render(ts[0]) + Seq::<char>::empty() =~= render(ts[0]));
        assert(lex(Seq::<char>::empty()) == Ok::<Seq<TokenModel>, Seq<char>>(Seq::empty()));
        assert(seq![ts[0]] + Seq::<TokenModel>::empty() =~= ts);
    } else {
        let rest = ts.subrange(1, ts.len() as int);
        lemma_join_front(parts, seq![' ']);
        assert(parts.subrange(1, parts.len() as int) =~= rest.map_values(|t: TokenModel| render(t)));
        assert forall|k: int| 0 <= k < rest.len() implies lexable(#[trigger] rest[k]) by {
            assert(rest[k] == ts[k + 1]);
        }
        lemma_lex_spaced(rest);
        let q = seq![' '] + spaced(rest);
        assert(q[0] == ' ');
        lemma_lex_one(ts[0], q);
        assert(render(ts[0]) + q =~= spaced(ts));
        assert(lex_from(q, 0) == lex_from(q, 1));
        lemma_lex_suffix(seq![' '], spaced(rest), 0);
        assert(seq![' '] + spaced(rest) == q);
        assert(lex(q) == lex(spaced(rest)));
        assert(seq![ts[0]] + rest =~= ts);
    }
}

proof fn lemma_lex_lexable(s: Seq<char>, i: int)
    requires
        0 <= i <= s.len(),
        lex_from(s, i) is Ok,
    ensures
        forall|k: int|
            0 <= k < lex_from(s, i)->Ok_0.len() ==> lexable(#[trigger] lex_from(s, i)->Ok_0[k]),
    decreases s.len() - i,
{
    if i < s.len() {
        let c = s[i];
        if is_space(c) || c == '(' || c == ')' || c == 'λ' || c == 'L' || c == '.' || c == '=' {
            lemma_lex_lexable(s, i + 1);
        } else if c == ':' {
            if i + 1 < s.len() && s[i + 1] == '=' {
                lemma_lex_lexable(s, i + 2);
            }
        } else if is_word_char(c) {
            lemma_word_end_bounds(s, i);
            lemma_lex_lexable(s, word_end(s, i));
            let w = s.subrange(i, word_end(s, i));
            assert(w[0] == c);
            assert forall|k: int| 0 <= k < w.len() implies is_word_char(#[trigger] w[k]) by {
                assert(w[k] == s[i + k]);
            }
        }
    }
}

/// Lexing, then writing each token out with one space between each two,
/// then lexing again, gives the same tokens.
pub proof fn lemma_lex_round_trip(s: Seq<char>)
    requires
        lex(s) is Ok,
    ensures
        lex(spaced(lex(s)->Ok_0)) == lex(s),
{
    lemma_lex_lexable(s, 0);
    lemma_lex_spaced(lex(s)->Ok_0);
}

fn is_space_char(c: char) -> (r: bool)
    ensures
        r == is_space(c),
{
    ('\u{9}' <= c && c <= '\u{d}') || c == ' ' || c == '\u{85}' || c == '\u{a0}' || c
        == '\u{1680}' || ('\u{2000}' <= c && c <= '\u{200a}') || c == '\u{2028}' || c
        == '\u{2029}' || c == '\u{202f}' || c == '\u{205f}' || c == '\u{3000}'
}

fn is_word(c: char) -> (r: bool)
    ensures
        r == is_word_char(c),
{
    ('a' <= c && c <= 'z') || ('A' <= c && c <= 'Z') || ('0' <= c && c <= '9')
}

proof fn lemma_cons_token(p: Seq<TokenModel>, t: TokenModel, r: Result<Seq<TokenModel>, Seq<char>>)
    ensures
        cons_all(p, cons_token(t, r)) == cons_all(p.push(t), r),
{
    if let Ok(ts) = r {
        assert(p + (seq![t] + ts) =~= p.push(t) + ts);
    }
}

/// `p` put in front of a lexing outcome.
pub open spec fn cons_all(p: Seq<TokenModel>, r: Result<Seq<TokenModel>, Seq<char>>) -> Result<
    Seq<TokenModel>,
    Seq<char>,
> {
    match r {
        Ok(ts) => Ok(p + ts),
        Err(e) => Err(e),
    }
}

fn invalid_token(c: char, doubled: bool) -> (r: ParseTokenError)
    ensures
        r.0@ == invalid_token_prefix() + if doubled {
            seq![c, c]
        } else {
            seq![c]
        },
{
    let mut m = String::new();
    push_str(&mut m, "Invalid token: ");
    push_char(&mut m, c);
    if doubled {
        push_char(&mut m, c);
    }
    proof {
        reveal_strlit("Invalid token: ");
        if doubled {
            assert(m@ =~= invalid_token_prefix() + seq![c, c]);
        } else {
            assert(m@ =~= invalid_token_prefix() + seq![c]);
        }
    }
    ParseTokenError(m)
}

impl Token {
    /// Splits `s` into tokens; whitespace separates them and is dropped.
    pub fn parse_all(s: &str) -> (r: Result<Vec<Token>, ParseTokenError>)
        ensures
            match r {
                Ok(ts) => lex(s@) == Ok::<Seq<TokenModel>, Seq<char>>(tokens_model(ts@)),
                Err(e) => lex(s@) == Err::<Seq<TokenModel>, Seq<char>>(e.0@),
            },
    {
        let n = s.unicode_len();
        let mut tokens: Vec<Token> = Vec::new();
        let mut i: usize = 0;
        while i < n
            invariant
                n == s@.len(),
                i <= n,
                lex(s@) == cons_all(tokens_model(tokens@), lex_from(s@, i as int)),
            decreases n - i,
        {
            let c = s.get_char(i);
            let ghost p = tokens_model(tokens@);
            if is_space_char(c) {
                i = i + 1;
            } else if c == '(' || c == ')' || c == 'λ' || c == 'L' || c == '.' || c == '=' {
                let t = if c == '(' {
                    Token::ParenOpen
                } else if c == ')' {
                    Token::ParenClose
                } else if c == '.' {
                    Token::Dot
                } else if c == '=' {
                    Token::DefineReduce
                } else {
                    Token::Lambda
                };
                proof {
                    lemma_cons_token(p, t@, lex_from(s@, i + 1));
                }
                tokens.push(t);
                assert(tokens_model(tokens@) =~= p.push(t@));
                i = i + 1;
            } else if c == ':' {
                if i + 1 < n && s.get_char(i + 1) == '=' {
                    proof {
                        lemma_cons_token(p, TokenModel::DefineSuspend, lex_from(s@, i + 2));
                    }
                    tokens.push(Token::DefineSuspend);
                    assert(tokens_model(tokens@) =~= p.push(TokenModel::DefineSuspend));
                    i = i + 2;
                } else {
                    return Err(invalid_token(c, true));
                }
            } else if is_word(c) {
                let mut word = String::new();
                let mut j: usize = i;
                proof {
                    lemma_word_end_bounds(s@, i as int);
                }
                while j < n && is_word(s.get_char(j))
                    invariant
                        n == s@.len(),
                        i <= j <= n,
                        word@ == s@.subrange(i as int, j as int),
                        word_end(s@, i as int) == word_end(s@, j as int),
                    decreases n - j,
                {
                    push_char(&mut word, s.get_char(j));
                    assert(word@ =~= s@.subrange(i as int, j + 1));
                    j = j + 1;
                }
                let t = if word.as_str().unicode_len() == 3 && word.as_str().get_char(0) == 'l'
                    && word.as_str().get_char(1) == 'e' && word.as_str().get_char(2) == 't' {
                    assert(word@ =~= let_word());
                    Token::Let
                } else {
                    assert(word@ != let_word());
                    Token::Identifier(word)
                };
                proof {
                    lemma_cons_token(p, t@, lex_from(s@, j as int));
                }
                tokens.push(t);
                assert(tokens_model(tokens@) =~= p.push(t@));
                i = j;
            } else {
                return Err(invalid_token(c, false));
            }
        }
        assert(tokens_model(tokens@) + Seq::empty() =~= tokens_model(tokens@));
        Ok(tokens)
    }

    /// How the token is written; lexing the text gives the token back.
    pub fn to_string(&self) -> (r: String)
        ensures
            r@ == render(self@),
    {
        let mut r = String::new();
        match self {
            Token::ParenOpen => push_char(&mut r, '('),
            Token::ParenClose => push_char(&mut r, ')'),
            Token::Lambda => push_char(&mut r, 'λ'),
            Token::Dot => push_char(&mut r, '.'),
            Token::Identifier(name) => push_str(&mut r, name.as_str()),
            Token::Let => {
                push_char(&mut r, 'l');
                push_char(&mut r, 'e');
                push_char(&mut r, 't');
            },
            Token::DefineReduce => push_char(&mut r, '='),
            Token::DefineSuspend => {
                push_char(&mut r, ':');
                push_char(&mut r, '=');
            },
        }
        assert(r@ =~= render(self@));
        r
    }
}

} // verus!
