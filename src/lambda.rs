use vstd::prelude::*;
use crate::runtime::SymbolTable;
use crate::text::{decimal, push_char, push_decimal, push_str, same_text};

verus! {

/// A variable occurrence: a de Bruijn index counted outward from the
/// occurrence, or a global identifier not yet resolved.
#[derive(Debug, PartialEq, Eq)]
pub enum Name {
    Bound { depth: u32 },
    Free { name: String },
}

/// The mathematical value of a `Name`.
pub enum NameModel {
    Bound(u32),
    Free(Seq<char>),
}

impl View for Name {
    type V = NameModel;

    open spec fn view(&self) -> NameModel {
        match self {
            Name::Bound { depth } => NameModel::Bound(*depth),
            Name::Free { name } => NameModel::Free(name@),
        }
    }
}

/// An untyped lambda term in de Bruijn form.
#[derive(Debug, PartialEq, Eq)]
pub enum Term {
    Lambda { body: Box<Term> },
    Application { applicand: Box<Term>, argument: Box<Term> },
    Variable { name: Name },
}

/// The mathematical value of a `Term`.
pub enum TermModel {
    Lambda(Box<TermModel>),
    Application(Box<TermModel>, Box<TermModel>),
    Variable(NameModel),
}

impl View for Term {
    type V = TermModel;

    open spec fn view(&self) -> TermModel
        decreases self,
    {
        match self {
            Term::Lambda { body } => TermModel::Lambda(Box::new((**body).view())),
            Term::Application { applicand, argument } => TermModel::Application(
                Box::new((**applicand).view()),
                Box::new((**argument).view()),
            ),
            Term::Variable { name } => TermModel::Variable(name@),
        }
    }
}

pub open spec fn lam(body: TermModel) -> TermModel {
    TermModel::Lambda(Box::new(body))
}

pub open spec fn app(f: TermModel, x: TermModel) -> TermModel {
    TermModel::Application(Box::new(f), Box::new(x))
}

/// Index `k` shifted by `by`: signed addition, read back as a `u32`.
pub open spec fn shift_index(k: u32, by: i32) -> u32 {
    ((k as int + by as int) % 0x1_0000_0000) as u32
}

/// One binder deeper. A depth at the top of `u32` already exceeds every
/// index, so it stays there.
pub open spec fn deeper(depth: u32) -> u32 {
    if depth == u32::MAX { depth } else { (depth + 1) as u32 }
}

/// One binder deeper, for the depth at which a substitution looks. At the
/// top of `u64` no `u32` index can be equal to it any more.
pub open spec fn deeper_wide(depth: u64) -> u64 {
    if depth == u64::MAX { depth } else { (depth + 1) as u64 }
}

/// The shift handed to a substitution one binder deeper.
pub open spec fn next_shift(by: i32) -> i32 {
    if by == i32::MAX { i32::MIN } else { (by + 1) as i32 }
}

/// A name that refers to no binder inside a subtree whose root sits `depth`
/// binders deep.
pub open spec fn free_for(n: NameModel, depth: u32) -> bool {
    match n {
        NameModel::Bound(k) => k > depth,
        NameModel::Free(_) => true,
    }
}

/// Every bound index that is free for `depth` shifted by `by`.
pub open spec fn shift_free(t: TermModel, by: i32, depth: u32) -> TermModel
    decreases t,
{
    match t {
        TermModel::Variable(n) => match n {
            NameModel::Bound(k) => if k > depth {
                TermModel::Variable(NameModel::Bound(shift_index(k, by)))
            } else {
                t
            },
            NameModel::Free(_) => t,
        },
        TermModel::Application(f, x) => app(shift_free(*f, by, depth), shift_free(*x, by, depth)),
        TermModel::Lambda(b) => lam(shift_free(*b, by, deeper(depth))),
    }
}

/// Each occurrence of `Bound(depth)` replaced by `with`, whose free indices
/// are first shifted by `by`; both grow by one under each binder.
pub open spec fn subst(t: TermModel, depth: u64, by: i32, with: TermModel) -> TermModel
    decreases t,
{
    match t {
        TermModel::Variable(n) => match n {
            NameModel::Bound(k) => if k as u64 == depth {
                shift_free(with, by, 0)
            } else {
                t
            },
            NameModel::Free(_) => t,
        },
        TermModel::Application(f, x) => app(subst(*f, depth, by, with), subst(*x, depth, by, with)),
        TermModel::Lambda(b) => lam(subst(*b, deeper_wide(depth), next_shift(by), with)),
    }
}


/// Reduction strategies. Only normal order is implemented.
#[derive(Debug, PartialEq, Eq, Clone, Copy)]
pub enum Strategy {
    NormalOrder,
    ApplicativeOrder,
}

/// The outcome of one reduction step.
#[derive(Debug, PartialEq)]
pub enum EvalResult {
    NormalForm(Term),
    PossiblyReducible(Term),
}

/// The mathematical value of an `EvalResult`.
pub enum StepModel {
    Normal(TermModel),
    Reducible(TermModel),
}

impl View for EvalResult {
    type V = StepModel;

    open spec fn view(&self) -> StepModel {
        match self {
            EvalResult::NormalForm(t) => StepModel::Normal(t@),
            EvalResult::PossiblyReducible(t) => StepModel::Reducible(t@),
        }
    }
}

impl StepModel {
    pub open spec fn term(self) -> TermModel {
        match self {
            StepModel::Normal(t) => t,
            StepModel::Reducible(t) => t,
        }
    }

    pub open spec fn is_normal(self) -> bool {
        self is Normal
    }
}

/// One step of normal-order reduction: the leftmost-outermost redex is
/// contracted; a term without a redex is normal.
pub open spec fn step(t: TermModel) -> StepModel
    decreases t,
{
    match t {
        TermModel::Variable(_) => StepModel::Normal(t),
        TermModel::Lambda(b) => match step(*b) {
            StepModel::Normal(r) => StepModel::Normal(lam(r)),
            StepModel::Reducible(r) => StepModel::Reducible(lam(r)),
        },
        TermModel::Application(f, x) => match *f {
            TermModel::Lambda(body) => StepModel::Reducible(
                shift_free(subst(*body, 1, 1, *x), -1i32, 0),
            ),
            _ => match step(*f) {
                StepModel::Reducible(r) => StepModel::Reducible(app(r, *x)),
                StepModel::Normal(h) => match step(*x) {
                    StepModel::Normal(r) => StepModel::Normal(app(h, r)),
                    StepModel::Reducible(r) => StepModel::Reducible(app(h, r)),
                },
            },
        },
    }
}

/// A step that finds no redex hands the term back unchanged.
pub proof fn lemma_normal_step_unchanged(t: TermModel)
    ensures
        step(t) is Normal ==> step(t) == StepModel::Normal(t),
    decreases t,
{
    match t {
        TermModel::Variable(_) => {},
        TermModel::Lambda(b) => {
            lemma_normal_step_unchanged(*b);
        },
        TermModel::Application(f, x) => {
            lemma_normal_step_unchanged(*f);
            lemma_normal_step_unchanged(*x);
        },
    }
}

/// A normal form reduces to itself: a step on `t` that finds no redex
/// returns `t`, and a step on that result is again normal with the same term.
pub proof fn lemma_normal_form_is_fixed(t: TermModel)
    requires
        step(t) is Normal,
    ensures
        step(t).term() == t,
        step(step(t).term()) == step(t),
{
    lemma_normal_step_unchanged(t);
}

/// Whether a free identifier occurs in `t`.
pub open spec fn has_free_name(t: TermModel) -> bool
    decreases t,
{
    match t {
        TermModel::Variable(n) => n is Free,
        TermModel::Lambda(b) => has_free_name(*b),
        TermModel::Application(f, x) => has_free_name(*f) || has_free_name(*x),
    }
}

proof fn lemma_shift_keeps_closed(t: TermModel, by: i32, depth: u32)
    requires
        !has_free_name(t),
    ensures
        !has_free_name(shift_free(t, by, depth)),
    decreases t,
{
    match t {
        TermModel::Variable(_) => {},
        TermModel::Lambda(b) => lemma_shift_keeps_closed(*b, by, deeper(depth)),
        TermModel::Application(f, x) => {
            lemma_shift_keeps_closed(*f, by, depth);
            lemma_shift_keeps_closed(*x, by, depth);
        },
    }
}

proof fn lemma_subst_keeps_closed(t: TermModel, depth: u64, by: i32, with: TermModel)
    requires
        !has_free_name(t),
        !has_free_name(with),
    ensures
        !has_free_name(subst(t, depth, by, with)),
    decreases t,
{
    match t {
        TermModel::Variable(_) => lemma_shift_keeps_closed(with, by, 0),
        TermModel::Lambda(b) => lemma_subst_keeps_closed(*b, deeper_wide(depth), next_shift(by), with),
        TermModel::Application(f, x) => {
            lemma_subst_keeps_closed(*f, depth, by, with);
            lemma_subst_keeps_closed(*x, depth, by, with);
        },
    }
}

/// One reduction step brings in no free identifier.
pub proof fn lemma_step_keeps_closed(t: TermModel)
    requires
        !has_free_name(t),
    ensures
        !has_free_name(step(t).term()),
    decreases t,
{
    match t {
        TermModel::Variable(_) => {},
        TermModel::Lambda(b) => lemma_step_keeps_closed(*b),
        TermModel::Application(f, x) => {
            match *f {
                TermModel::Lambda(body) => {
                    assert(!has_free_name(*f));
                    assert(!has_free_name(*body));
                    lemma_subst_keeps_closed(*body, 1, 1, *x);
                    lemma_shift_keeps_closed(subst(*body, 1, 1, *x), -1i32, 0);
                },
                _ => {
                    lemma_step_keeps_closed(*f);
                    lemma_step_keeps_closed(*x);
                },
            }
        },
    }
}

/// Each free identifier that `table` defines replaced by its term, once.
pub open spec fn bind_free(t: TermModel, table: Map<Seq<char>, TermModel>) -> TermModel
    decreases t,
{
    match t {
        TermModel::Variable(n) => match n {
            NameModel::Free(id) => if table.contains_key(id) {
                table[id]
            } else {
                t
            },
            NameModel::Bound(_) => t,
        },
        TermModel::Lambda(b) => lam(bind_free(*b, table)),
        TermModel::Application(f, x) => app(bind_free(*f, table), bind_free(*x, table)),
    }
}

/// Whether the free identifier `id` occurs in `t`.
pub open spec fn free_in(t: TermModel, id: Seq<char>) -> bool
    decreases t,
{
    match t {
        TermModel::Variable(n) => n == NameModel::Free(id),
        TermModel::Lambda(b) => free_in(*b, id),
        TermModel::Application(f, x) => free_in(*f, id) || free_in(*x, id),
    }
}

impl EvalResult {
    /// The term carried, whatever the tag.
    pub fn unwrap(self) -> (r: Term)
        ensures
            r@ == self@.term(),
    {
        match self {
            EvalResult::NormalForm(t) => t,
            EvalResult::PossiblyReducible(t) => t,
        }
    }

    /// The carried term passed through `f`, the tag kept.
    pub fn map<F: FnOnce(Term) -> Term>(self, f: F) -> (r: EvalResult)
        requires
            f.requires((self.into_term(),)),
        ensures
            f.ensures((self.into_term(),), r.into_term()),
            r@.is_normal() == self@.is_normal(),
    {
        match self {
            EvalResult::NormalForm(t) => EvalResult::NormalForm(f(t)),
            EvalResult::PossiblyReducible(t) => EvalResult::PossiblyReducible(f(t)),
        }
    }

    pub open spec fn into_term(self) -> Term {
        match self {
            EvalResult::NormalForm(t) => t,
            EvalResult::PossiblyReducible(t) => t,
        }
    }
}

/// How a name prints on its own: a free index after an up arrow, an
/// identifier as itself.
pub open spec fn name_text(n: NameModel) -> Seq<char> {
    match n {
        NameModel::Bound(k) => seq!['↑'] + decimal(k as nat),
        NameModel::Free(id) => id,
    }
}

/// The generated name of the binder at `depth`.
pub open spec fn binder_name(depth: nat) -> Seq<char> {
    seq!['x'] + decimal(depth)
}

/// How a term prints when its root sits `depth` binders deep. An index that
/// refers to an enclosing binder prints as that binder's name.
pub open spec fn show(t: TermModel, depth: u64) -> Seq<char>
    decreases t,
{
    match t {
        TermModel::Variable(n) => match n {
            NameModel::Bound(k) => if 1 <= k && k as u64 <= depth {
                binder_name((depth - k) as nat)
            } else {
                name_text(n)
            },
            NameModel::Free(_) => name_text(n),
        },
        TermModel::Lambda(b) => seq!['(', 'λ'] + binder_name(depth as nat) + seq!['.'] + show(
            *b,
            deeper_wide(depth),
        ) + seq![')'],
        TermModel::Application(f, x) => seq!['('] + show(*f, depth) + seq![' '] + show(*x, depth)
            + seq![')'],
    }
}

/// How a whole term prints.
pub open spec fn display(t: TermModel) -> Seq<char> {
    show(t, 0)
}

impl Name {
    pub fn bound(depth: u32) -> (r: Name)
        ensures
            r@ == NameModel::Bound(depth),
    {
        Name::Bound { depth }
    }

    pub fn free(name: String) -> (r: Name)
        ensures
            r@ == NameModel::Free(name@),
    {
        Name::Free { name }
    }

    /// How the name prints on its own.
    pub fn to_string(&self) -> (r: String)
        ensures
            r@ == name_text(self@),
    {
        let mut r = String::new();
        match self {
            Name::Bound { depth } => {
                push_char(&mut r, '↑');
                push_decimal(&mut r, *depth as u128);
            },
            Name::Free { name } => push_str(&mut r, name.as_str()),
        }
        assert(r@ =~= name_text(self@));
        r
    }

    fn rebind(&mut self, deepen_by: i32)
        ensures
            final(self)@ == match old(self)@ {
                NameModel::Bound(k) => NameModel::Bound(shift_index(k, deepen_by)),
                NameModel::Free(n) => NameModel::Free(n),
            },
    {
        if let Name::Bound { depth } = self {
            let v: i64 = *depth as i64 + deepen_by as i64;
            let w: i64 = if v < 0 {
                v + 0x1_0000_0000
            } else if v > u32::MAX as i64 {
                v - 0x1_0000_0000
            } else {
                v
            };
            *depth = w as u32;
        }
    }

    fn depth(&self) -> (r: Option<u32>)
        ensures
            r == match self@ {
                NameModel::Bound(k) => Some(k),
                NameModel::Free(_) => None::<u32>,
            },
    {
        match self {
            Name::Bound { depth } => Some(*depth),
            _ => None,
        }
    }

    fn free_for(&self, depth: u32) -> (r: bool)
        ensures
            r == free_for(self@, depth),
    {
        let d = self.depth();
        match d {
            None => true,
            Some(k) => k > depth,
        }
    }

    fn bound_at(&self, depth: u64) -> (r: bool)
        ensures
            r == (self@ matches NameModel::Bound(k) && k as u64 == depth),
    {
        match self.depth() {
            Some(k) => k as u64 == depth,
            None => false,
        }
    }
}

impl Clone for Name {
    fn clone(&self) -> (r: Self)
        ensures
            r == *self,
    {
        match self {
            Name::Bound { depth } => Name::Bound { depth: *depth },
            Name::Free { name } => Name::Free { name: name.clone() },
        }
    }
}

impl Clone for Term {
    fn clone(&self) -> (r: Self)
        ensures
            r == *self,
        decreases self,
    {
        match self {
            Term::Lambda { body } => Term::Lambda { body: Box::new((**body).clone()) },
            Term::Application { applicand, argument } => Term::Application {
                applicand: Box::new((**applicand).clone()),
                argument: Box::new((**argument).clone()),
            },
            Term::Variable { name } => Term::Variable { name: name.clone() },
        }
    }
}

impl Term {
    pub fn variable(name: Name) -> (r: Term)
        ensures
            r@ == TermModel::Variable(name@),
    {
        Term::Variable { name }
    }

    pub fn lambda(body: Term) -> (r: Term)
        ensures
            r@ == lam(body@),
    {
        Term::Lambda { body: Box::new(body) }
    }

    pub fn apply(applicand: Term, argument: Term) -> (r: Term)
        ensures
            r@ == app(applicand@, argument@),
    {
        Term::Application { applicand: Box::new(applicand), argument: Box::new(argument) }
    }

    fn write_to(&self, out: &mut String, depth: u64)
        ensures
            final(out)@ == old(out)@ + show(self@, depth),
        decreases self,
    {
        match self {
            Term::Variable { name } => {
                match name.depth() {
                    Some(k) => if 1 <= k && k as u64 <= depth {
                        push_char(out, 'x');
                        push_decimal(out, (depth - k as u64) as u128);
                    } else {
                        push_str(out, name.to_string().as_str());
                    },
                    None => push_str(out, name.to_string().as_str()),
                }
            },
            Term::Application { applicand, argument } => {
                push_char(out, '(');
                (**applicand).write_to(out, depth);
                push_char(out, ' ');
                (**argument).write_to(out, depth);
                push_char(out, ')');
            },
            Term::Lambda { body } => {
                push_char(out, '(');
                push_char(out, 'λ');
                push_char(out, 'x');
                push_decimal(out, depth as u128);
                push_char(out, '.');
                let d = if depth == u64::MAX { depth } else { depth + 1 };
                (**body).write_to(out, d);
                push_char(out, ')');
            },
        }
        assert(final(out)@ =~= old(out)@ + show(self@, depth));
    }

    /// How the term prints: binders named `x0`, `x1`, ... by depth.
    pub fn to_string(&self) -> (r: String)
        ensures
            r@ == display(self@),
    {
        let mut r = String::new();
        self.write_to(&mut r, 0);
        assert(r@ =~= display(self@));
        r
    }

    /// Whether two terms are the same tree.
    pub fn same_term(&self, other: &Term) -> (r: bool)
        ensures
            r == (self@ == other@),
        decreases self,
    {
        match (self, other) {
            (Term::Variable { name: a }, Term::Variable { name: b }) => match (a, b) {
                (Name::Bound { depth: x }, Name::Bound { depth: y }) => *x == *y,
                (Name::Free { name: x }, Name::Free { name: y }) => *x == *y,
                _ => false,
            },
            (Term::Lambda { body: a }, Term::Lambda { body: b }) => (**a).same_term(&**b),
            (
                Term::Application { applicand: f, argument: x },
                Term::Application { applicand: g, argument: y },
            ) => (**f).same_term(&**g) && (**x).same_term(&**y),
            _ => false,
        }
    }

    fn rebind_free(self, deepen_by: i32, depth: u32) -> (r: Term)
        ensures
            r@ == shift_free(self@, deepen_by, depth),
        decreases self,
    {
        match self {
            Term::Variable { mut name } => {
                if name.free_for(depth) {
                    name.rebind(deepen_by);
                }
                Term::variable(name)
            },
            Term::Application { applicand, argument } => {
                let f = (*applicand).rebind_free(deepen_by, depth);
                let x = (*argument).rebind_free(deepen_by, depth);
                Term::apply(f, x)
            },
            Term::Lambda { body } => {
                let d = if depth == u32::MAX { depth } else { depth + 1 };
                Term::lambda((*body).rebind_free(deepen_by, d))
            },
        }
    }

    fn substitute(self, depth: u64, deepen_by: i32, with: Term) -> (r: Term)
        ensures
            r@ == subst(self@, depth, deepen_by, with@),
        decreases self,
    {
        match self {
            Term::Variable { name } => {
                if name.bound_at(depth) {
                    with.rebind_free(deepen_by, 0)
                } else {
                    Term::variable(name)
                }
            },
            Term::Application { applicand, argument } => {
                let f = (*applicand).substitute(depth, deepen_by, with.clone());
                let x = (*argument).substitute(depth, deepen_by, with);
                Term::apply(f, x)
            },
            Term::Lambda { body } => {
                let d = if depth == u64::MAX { depth } else { depth + 1 };
                let by = if deepen_by == i32::MAX { i32::MIN } else { deepen_by + 1 };
                Term::lambda((*body).substitute(d, by, with))
            },
        }
    }

    /// Replaces each free identifier that `symbols` defines by a copy of
    /// its term. A copied term is not searched again.
    pub fn bind_free_from<S: SymbolTable>(self, symbols: &S) -> (r: Term)
        requires
            symbols.wf(),
        ensures
            r@ == bind_free(self@, symbols.table()),
        decreases self,
    {
        match self {
            Term::Variable { name } => match name {
                Name::Free { name: identifier } => match symbols.get(identifier.as_str()) {
                    Some(t) => t.clone(),
                    None => Term::variable(Name::free(identifier)),
                },
                Name::Bound { depth } => Term::variable(Name::bound(depth)),
            },
            Term::Lambda { body } => Term::lambda((*body).bind_free_from(symbols)),
            Term::Application { applicand, argument } => {
                let f = (*applicand).bind_free_from(symbols);
                let x = (*argument).bind_free_from(symbols);
                Term::apply(f, x)
            },
        }
    }

    /// Whether `Free(identifier)` occurs anywhere in the term.
    pub fn is_free_in(&self, identifier: &str) -> (r: bool)
        ensures
            r == free_in(self@, identifier@),
        decreases self,
    {
        match self {
            Term::Variable { name } => match name {
                Name::Free { name } => same_text(name.as_str(), identifier),
                Name::Bound { .. } => false,
            },
            Term::Lambda { body } => (**body).is_free_in(identifier),
            Term::Application { applicand, argument } => {
                (**applicand).is_free_in(identifier) || (**argument).is_free_in(identifier)
            },
        }
    }

    /// One step of normal-order reduction.
    pub fn reduce(self, strategy: Strategy) -> (r: EvalResult)
        requires
            strategy == Strategy::NormalOrder,
        ensures
            r@ == step(self@),
        decreases self,
    {
        match self {
            Term::Variable { name } => EvalResult::NormalForm(Term::variable(name)),
            Term::Lambda { body } => match (*body).reduce(strategy) {
                EvalResult::NormalForm(t) => EvalResult::NormalForm(Term::lambda(t)),
                EvalResult::PossiblyReducible(t) => EvalResult::PossiblyReducible(Term::lambda(t)),
            },
            Term::Application { applicand, argument } => {
                let applicand = *applicand;
                let argument = *argument;
                assert(self@ == app(applicand@, argument@));
                match applicand {
                    Term::Lambda { body } => {
                        assert(self@ == app(lam((*body)@), argument@));
                        let body = (*body).substitute(1, 1, argument);
                        EvalResult::PossiblyReducible(body.rebind_free(-1, 0))
                    },
                    head => match head.reduce(strategy) {
                        EvalResult::PossiblyReducible(t) => EvalResult::PossiblyReducible(
                            Term::apply(t, argument),
                        ),
                        EvalResult::NormalForm(h) => match argument.reduce(strategy) {
                            EvalResult::NormalForm(t) => EvalResult::NormalForm(Term::apply(h, t)),
                            EvalResult::PossiblyReducible(t) => EvalResult::PossiblyReducible(
                                Term::apply(h, t),
                            ),
                        },
                    },
                }
            },
        }
    }
}

} // verus!
