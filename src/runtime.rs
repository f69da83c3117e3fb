use vstd::prelude::*;
use crate::lambda::{
    bind_free, display, free_in, has_free_name, lemma_step_keeps_closed, step, EvalResult, StepModel,
    Strategy, Term, TermModel,
};
use crate::lexer::{lex, Token};
use crate::parser::{error_text, parse, parse_statement};
use crate::text::{decimal, push_decimal, push_str, same_text};

verus! {

/// Whether a bound term is reduced when the binding is made.
#[derive(Debug, PartialEq, Eq, Clone, Copy)]
pub enum BindMode {
    CaptureAndReduce,
    CaptureOnly,
}

/// A definition: an identifier, its term, and how the term is taken.
#[derive(Debug, PartialEq)]
pub struct Binding {
    pub identifier: String,
    pub value: Term,
    pub mode: BindMode,
}

impl Binding {
    pub fn new(identifier: &str, value: Term, mode: BindMode) -> (r: Binding)
        ensures
            r.identifier@ == identifier@,
            r.value == value,
            r.mode == mode,
    {
        Binding { identifier: identifier.to_owned(), value, mode }
    }
}

/// A parsed line: a definition or an expression to evaluate.
#[derive(Debug, PartialEq)]
pub enum Statement {
    LetStatement(Binding),
    Expression(Term),
}

/// The mathematical value of a `Statement`.
pub enum StatementModel {
    Definition(Seq<char>, TermModel, BindMode),
    Expression(TermModel),
}

impl View for Statement {
    type V = StatementModel;

    open spec fn view(&self) -> StatementModel {
        match self {
            Statement::LetStatement(b) => StatementModel::Definition(b.identifier@, b.value@, b.mode),
            Statement::Expression(t) => StatementModel::Expression(t@),
        }
    }
}

/// A table from identifiers to terms.
pub trait SymbolTable: Sized {
    /// What the table holds.
    spec fn table(&self) -> Map<Seq<char>, TermModel>;

    /// Whether `insert` stores what it is given (the null table does not).
    spec fn retains(&self) -> bool;

    /// The table's own invariant.
    spec fn wf(&self) -> bool;

    fn empty() -> (r: Self)
        ensures
            r.wf(),
            r.table() == Map::<Seq<char>, TermModel>::empty(),
    ;

    /// Stores the binding's term under its identifier, replacing an earlier
    /// one; a table that does not retain stays as it is.
    fn insert(&mut self, binding: Binding)
        requires
            old(self).wf(),
        ensures
            final(self).wf(),
            final(self).retains() == old(self).retains(),
            final(self).table() == if old(self).retains() {
                old(self).table().insert(binding.identifier@, binding.value@)
            } else {
                old(self).table()
            },
    ;

    fn get(&self, identifier: &str) -> (r: Option<&Term>)
        requires
            self.wf(),
        ensures
            match r {
                Some(t) => self.table().contains_key(identifier@) && t@ == self.table()[identifier@],
                None => !self.table().contains_key(identifier@),
            },
    ;

    /// Every identifier that the table defines, each once.
    fn symbols(&self) -> (r: Vec<String>)
        requires
            self.wf(),
        ensures
            forall|k: Seq<char>|
                self.table().contains_key(k) <==> exists|i: int|
                    0 <= i < r@.len() && (#[trigger] r@[i])@ == k,
            forall|i: int, j: int| 0 <= i < j < r@.len() ==> r@[i]@ != r@[j]@,
    ;

    /// Every identifier with its term.
    fn bindings(&self) -> (r: Vec<(String, Term)>)
        requires
            self.wf(),
        ensures
            forall|k: Seq<char>|
                self.table().contains_key(k) <==> exists|i: int|
                    0 <= i < r@.len() && (#[trigger] r@[i]).0@ == k,
            forall|i: int|
                0 <= i < r@.len() ==> (#[trigger] r@[i]).1@ == self.table()[r@[i].0@],
    ;
}

/// A table held as a list of entries with distinct identifiers.
pub struct SymbolMap {
    entries: Vec<(String, Term)>,
}

impl SymbolMap {
    closed spec fn keys_distinct(&self) -> bool {
        forall|i: int, j: int|
            0 <= i < j < self.entries@.len() ==> (#[trigger] self.entries@[i]).0@
                != (#[trigger] self.entries@[j]).0@
    }

    closed spec fn has_at(&self, i: int, k: Seq<char>) -> bool {
        0 <= i < self.entries@.len() && self.entries@[i].0@ == k
    }

    proof fn lemma_lookup(&self, i: int)
        requires
            self.keys_distinct(),
            0 <= i < self.entries@.len(),
        ensures
            self.table().contains_key(self.entries@[i].0@),
            self.table()[self.entries@[i].0@] == self.entries@[i].1@,
    {
        let k = self.entries@[i].0@;
        assert(self.has_at(i, k));
        let j = choose|j: int| self.has_at(j, k);
        assert(j == i);
    }
}

impl SymbolTable for SymbolMap {
    closed spec fn table(&self) -> Map<Seq<char>, TermModel> {
        Map::new(
            |k: Seq<char>| exists|i: int| self.has_at(i, k),
            |k: Seq<char>| self.entries@[choose|i: int| self.has_at(i, k)].1@,
        )
    }

    closed spec fn retains(&self) -> bool {
        true
    }

    closed spec fn wf(&self) -> bool {
        self.keys_distinct()
    }

    fn empty() -> (r: Self) {
        let r = SymbolMap { entries: Vec::new() };
        assert(r.table() =~= Map::<Seq<char>, TermModel>::empty());
        r
    }

    fn insert(&mut self, binding: Binding) {
        let ghost before = *self;
        let ghost k = binding.identifier@;
        let ghost v = binding.value@;
        let mut i: usize = 0;
        while i < self.entries.len()
            invariant
                *self == before,
                before == *old(self),
                before.keys_distinct(),
                k == binding.identifier@,
                v == binding.value@,
                i <= self.entries@.len(),
                forall|j: int| 0 <= j < i ==> (#[trigger] self.entries@[j]).0@ != k,
            decreases self.entries@.len() - i,
        {
            if same_text(self.entries[i].0.as_str(), binding.identifier.as_str()) {
                let ghost old_entries = self.entries@;
                self.entries.set(i, (binding.identifier, binding.value));
                proof {
                    assert forall|a: int, b: int|
                        0 <= a < b < self.entries@.len() implies (#[trigger] self.entries@[a]).0@
                            != (#[trigger] self.entries@[b]).0@ by {
                        assert(old_entries[a].0@ != old_entries[b].0@);
                    }
                    assert forall|kk: Seq<char>| #[trigger] self.table().contains_key(kk)
                        == before.table().insert(k, v).contains_key(kk) by {
                        if kk != k {
                            if exists|a: int| before.has_at(a, kk) {
                                let a = choose|a: int| before.has_at(a, kk);
                                assert(self.has_at(a, kk));
                            }
                            if exists|a: int| self.has_at(a, kk) {
                                let a = choose|a: int| self.has_at(a, kk);
                                assert(before.has_at(a, kk));
                            }
                        } else {
                            assert(self.has_at(i as int, kk));
                        }
                    }
                    assert forall|kk: Seq<char>| #[trigger] self.table().contains_key(kk) implies
                        self.table()[kk] == before.table().insert(k, v)[kk] by {
                        assert(self.keys_distinct());
                        let a = choose|a: int| self.has_at(a, kk);
                        self.lemma_lookup(a);
                        if kk != k {
                            assert(self.entries@[a] == before.entries@[a]);
                            before.lemma_lookup(a);
                        } else {
                            assert(self.has_at(i as int, kk));
                            assert(a == i as int);
                        }
                    }
                    assert(self.table() =~= before.table().insert(k, v));
                }
                return;
            }
            i = i + 1;
        }
        self.entries.push((binding.identifier, binding.value));
        proof {
            assert forall|a: int, b: int|
                0 <= a < b < self.entries@.len() implies (#[trigger] self.entries@[a]).0@
                    != (#[trigger] self.entries@[b]).0@ by {
                if b < before.entries@.len() {
                    assert(before.entries@[a].0@ != before.entries@[b].0@);
                }
            }
            let n = before.entries@.len() as int;
            assert forall|kk: Seq<char>| #[trigger] self.table().contains_key(kk)
                == before.table().insert(k, v).contains_key(kk) by {
                if kk != k {
                    if exists|a: int| before.has_at(a, kk) {
                        let a = choose|a: int| before.has_at(a, kk);
                        assert(self.has_at(a, kk));
                    }
                    if exists|a: int| self.has_at(a, kk) {
                        let a = choose|a: int| self.has_at(a, kk);
                        assert(before.has_at(a, kk));
                    }
                } else {
                    assert(self.has_at(n, kk));
                }
            }
            assert forall|kk: Seq<char>| #[trigger] self.table().contains_key(kk) implies
                self.table()[kk] == before.table().insert(k, v)[kk] by {
                let a = choose|a: int| self.has_at(a, kk);
                self.lemma_lookup(a);
                if kk != k {
                    assert(self.entries@[a] == before.entries@[a]);
                    before.lemma_lookup(a);
                } else {
                    assert(a == n);
                }
            }
            assert(self.table() =~= before.table().insert(k, v));
        }
    }

    fn get(&self, identifier: &str) -> (r: Option<&Term>) {
        let mut i: usize = 0;
        while i < self.entries.len()
            invariant
                self.wf(),
                i <= self.entries@.len(),
                forall|j: int| 0 <= j < i ==> (#[trigger] self.entries@[j]).0@ != identifier@,
            decreases self.entries@.len() - i,
        {
            if same_text(self.entries[i].0.as_str(), identifier) {
                proof {
                    self.lemma_lookup(i as int);
                }
                return Some(&self.entries[i].1);
            }
            i = i + 1;
        }
        None
    }

    fn symbols(&self) -> (r: Vec<String>) {
        let mut r: Vec<String> = Vec::new();
        let mut i: usize = 0;
        while i < self.entries.len()
            invariant
                self.wf(),
                i <= self.entries@.len(),
                r@.len() == i,
                forall|j: int| 0 <= j < i ==> (#[trigger] r@[j])@ == self.entries@[j].0@,
                forall|a: int, b: int|
                    0 <= a < b < self.entries@.len() ==> (#[trigger] self.entries@[a]).0@
                        != (#[trigger] self.entries@[b]).0@,
            decreases self.entries@.len() - i,
        {
            r.push(self.entries[i].0.clone());
            i = i + 1;
        }
        proof {
            assert forall|k: Seq<char>|
                self.table().contains_key(k) <==> exists|j: int|
                    0 <= j < r@.len() && (#[trigger] r@[j])@ == k by {
                if self.table().contains_key(k) {
                    let a = choose|a: int| self.has_at(a, k);
                    assert(r@[a]@ == k);
                }
                if exists|j: int| 0 <= j < r@.len() && (#[trigger] r@[j])@ == k {
                    let j = choose|j: int| 0 <= j < r@.len() && (#[trigger] r@[j])@ == k;
                    assert(self.has_at(j, k));
                }
            }
            assert forall|a: int, b: int| 0 <= a < b < r@.len() implies r@[a]@ != r@[b]@ by {
                assert(self.entries@[a].0@ != self.entries@[b].0@);
            }
        }
        r
    }

    fn bindings(&self) -> (r: Vec<(String, Term)>) {
        let mut r: Vec<(String, Term)> = Vec::new();
        let mut i: usize = 0;
        while i < self.entries.len()
            invariant
                self.wf(),
                i <= self.entries@.len(),
                r@.len() == i,
                forall|j: int|
                    0 <= j < i ==> (#[trigger] r@[j]).0@ == self.entries@[j].0@ && r@[j].1@
                        == self.entries@[j].1@,
            decreases self.entries@.len() - i,
        {
            r.push((self.entries[i].0.clone(), self.entries[i].1.clone()));
            i = i + 1;
        }
        proof {
            assert forall|k: Seq<char>|
                self.table().contains_key(k) <==> exists|j: int|
                    0 <= j < r@.len() && (#[trigger] r@[j]).0@ == k by {
                if self.table().contains_key(k) {
                    let a = choose|a: int| self.has_at(a, k);
                    assert(r@[a].0@ == k);
                }
                if exists|j: int| 0 <= j < r@.len() && (#[trigger] r@[j]).0@ == k {
                    let j = choose|j: int| 0 <= j < r@.len() && (#[trigger] r@[j]).0@ == k;
                    assert(self.has_at(j, k));
                }
            }
            assert forall|j: int| 0 <= j < r@.len() implies (#[trigger] r@[j]).1@
                == self.table()[r@[j].0@] by {
                self.lemma_lookup(j);
            }
        }
        r
    }
}

/// The null table: it holds nothing and ignores insertions.
impl SymbolTable for () {
    open spec fn table(&self) -> Map<Seq<char>, TermModel> {
        Map::empty()
    }

    open spec fn retains(&self) -> bool {
        false
    }

    open spec fn wf(&self) -> bool {
        true
    }

    fn empty() -> (r: Self) {
    }

    fn insert(&mut self, binding: Binding) {
    }

    fn get(&self, identifier: &str) -> (r: Option<&Term>) {
        None
    }

    fn symbols(&self) -> (r: Vec<String>) {
        Vec::new()
    }

    fn bindings(&self) -> (r: Vec<(String, Term)>) {
        Vec::new()
    }
}

/// Why an evaluation or a definition failed.
#[derive(Debug, PartialEq, Eq, Clone, Copy)]
pub enum EvaluationError {
    TooManyReductions,
    NonTerminating,
    RecursiveBinding,
    ParseError,
}

pub type EvaluationResult<T> = Result<T, EvaluationError>;

/// The term after `k` reduction steps.
pub open spec fn iterate(t: TermModel, k: nat) -> TermModel
    decreases k,
{
    if k == 0 {
        t
    } else {
        step(iterate(t, (k - 1) as nat)).term()
    }
}

/// Whether `r` was one of the terms reached by steps `1..=n`.
pub open spec fn seen_within(t: TermModel, n: nat, r: TermModel) -> bool {
    exists|j: int| 1 <= j <= n && #[trigger] iterate(t, j as nat) == r
}

/// The evaluation of `t` from step `n` on, with at most `max` steps that
/// reduce: its outcome, and how many steps had reduced when it ended.
#[verifier::opaque]
pub open spec fn run(t: TermModel, n: nat, max: nat) -> (EvaluationResult<TermModel>, nat)
    decreases max + 1 - n,
{
    if n > max {
        (Err(EvaluationError::TooManyReductions), n)
    } else {
        match step(iterate(t, n)) {
            StepModel::Normal(r) => (Ok(r), n),
            StepModel::Reducible(r) => if seen_within(t, n, r) {
                (Err(EvaluationError::NonTerminating), n)
            } else {
                run(t, n + 1, max)
            },
        }
    }
}

proof fn lemma_run_normal(t: TermModel, n: nat, max: nat)
    requires
        n <= max,
        step(iterate(t, n)) is Normal,
    ensures
        run(t, n, max) == (Ok::<TermModel, EvaluationError>(step(iterate(t, n)).term()), n),
{
    reveal(run);
}

proof fn lemma_run_repeat(t: TermModel, n: nat, max: nat)
    requires
        n <= max,
        step(iterate(t, n)) is Reducible,
        seen_within(t, n, step(iterate(t, n)).term()),
    ensures
        run(t, n, max) == (Err::<TermModel, EvaluationError>(EvaluationError::NonTerminating), n),
{
    reveal(run);
}

proof fn lemma_run_next(t: TermModel, n: nat, max: nat)
    requires
        n <= max,
        step(iterate(t, n)) is Reducible,
        !seen_within(t, n, step(iterate(t, n)).term()),
    ensures
        run(t, n, max) == run(t, n + 1, max),
{
    reveal(run);
}

proof fn lemma_run_over(t: TermModel, n: nat, max: nat)
    requires
        n > max,
    ensures
        run(t, n, max) == (Err::<TermModel, EvaluationError>(EvaluationError::TooManyReductions), n),
{
    reveal(run);
}

/// A term without free identifiers has none after any number of steps.
pub proof fn lemma_reduction_keeps_closed(t: TermModel, n: nat)
    requires
        !has_free_name(t),
    ensures
        !has_free_name(iterate(t, n)),
    decreases n,
{
    if n > 0 {
        lemma_reduction_keeps_closed(t, (n - 1) as nat);
        lemma_step_keeps_closed(iterate(t, (n - 1) as nat));
    }
}

/// Whether evaluating `t` from step `k` on, with budget `max`, ends as
/// evaluation promises: in a normal form reached by some step `n <= max`, in a
/// step `n <= max` that gives back a term already seen, or with the budget
/// spent after `max + 1` reducing steps.
pub open spec fn concludes_within_budget(t: TermModel, k: nat, max: nat) -> bool {
    let (r, n) = run(t, k, max);
    &&& k <= n <= max + 1
    &&& match r {
        Ok(v) => n <= max && step(iterate(t, n)) == StepModel::Normal(v),
        Err(EvaluationError::NonTerminating) => n <= max && step(iterate(t, n)) is Reducible
            && seen_within(t, n, step(iterate(t, n)).term()),
        Err(EvaluationError::TooManyReductions) => n == max + 1,
        Err(_) => false,
    }
}

/// Evaluation ends within `max + 1` reducing steps, in a normal form, in a
/// detected cycle, or with too many reductions.
pub proof fn lemma_evaluation_concludes(t: TermModel, max: nat)
    ensures
        concludes_within_budget(t, 0, max),
{
    lemma_run_concludes(t, 0, max);
}

proof fn lemma_run_concludes(t: TermModel, k: nat, max: nat)
    requires
        k <= max + 1,
    ensures
        concludes_within_budget(t, k, max),
    decreases max + 1 - k,
{
    if k > max {
        lemma_run_over(t, k, max);
    } else {
        match step(iterate(t, k)) {
            StepModel::Normal(_) => lemma_run_normal(t, k, max),
            StepModel::Reducible(r) => {
                if seen_within(t, k, r) {
                    lemma_run_repeat(t, k, max);
                } else {
                    lemma_run_next(t, k, max);
                    lemma_run_concludes(t, k + 1, max);
                }
            },
        }
    }
}

pub open spec fn beta_line(t: TermModel) -> Seq<char> {
    "β: "@ + display(t)
}

/// The lines echoed for steps `1..=n`.
pub open spec fn echo_lines(t: TermModel, n: nat, echo: bool) -> Seq<Seq<char>>
    decreases n,
{
    if n == 0 || !echo {
        Seq::empty()
    } else {
        echo_lines(t, (n - 1) as nat, echo).push(beta_line(iterate(t, n)))
    }
}

/// The line that ends an evaluation.
pub open spec fn final_line(r: EvaluationResult<TermModel>, n: nat) -> Seq<char> {
    match r {
        Ok(v) => beta_line(v) + " [normal; "@ + decimal(n) + " reductions]"@,
        Err(EvaluationError::NonTerminating) => "[non-terminating]"@,
        Err(_) => "[too many reductions: "@ + decimal(n) + "]"@,
    }
}

/// What evaluating `t` logs.
pub open spec fn evaluation_log(t: TermModel, max: nat, echo: bool) -> Seq<Seq<char>> {
    let (r, n) = run(t, 0, max);
    echo_lines(t, n, echo).push(final_line(r, n))
}

/// What a definition of `id` as `value` comes to against `table`: the
/// term stored, or the error.
pub open spec fn binding_outcome(
    table: Map<Seq<char>, TermModel>,
    max: nat,
    id: Seq<char>,
    value: TermModel,
    mode: BindMode,
) -> EvaluationResult<TermModel> {
    let v = bind_free(value, table);
    if free_in(v, id) {
        Err(EvaluationError::RecursiveBinding)
    } else if mode == BindMode::CaptureAndReduce {
        run(bind_free(v, table), 0, max).0
    } else {
        Ok(v)
    }
}

/// What a definition logs.
pub open spec fn binding_log(
    table: Map<Seq<char>, TermModel>,
    max: nat,
    echo: bool,
    id: Seq<char>,
    value: TermModel,
    mode: BindMode,
) -> Seq<Seq<char>> {
    let v = bind_free(value, table);
    if free_in(v, id) {
        seq!["Error: recursive binding"@]
    } else if mode == BindMode::CaptureAndReduce {
        evaluation_log(bind_free(v, table), max, echo)
    } else {
        Seq::empty()
    }
}

pub open spec fn lines(log: Seq<String>) -> Seq<Seq<char>> {
    log.map_values(|s: String| s@)
}

proof fn lemma_lines_push(log: Seq<String>, s: String)
    ensures
        lines(log.push(s)) == lines(log).push(s@),
{
    assert(lines(log.push(s)) =~= lines(log).push(s@));
}

fn log_line(log: &mut Vec<String>, s: String)
    ensures
        lines(final(log)@) == lines(old(log)@).push(s@),
{
    proof {
        lemma_lines_push(log@, s);
    }
    log.push(s);
}

fn contains_term(seen: &Vec<Term>, t: &Term) -> (r: bool)
    ensures
        r == exists|j: int| 0 <= j < seen@.len() && (#[trigger] seen@[j])@ == t@,
{
    let mut i: usize = 0;
    while i < seen.len()
        invariant
            i <= seen@.len(),
            forall|j: int| 0 <= j < i ==> (#[trigger] seen@[j])@ != t@,
        decreases seen@.len() - i,
    {
        if seen[i].same_term(t) {
            return true;
        }
        i = i + 1;
    }
    false
}

/// The interpreter's state: the definitions, and two settings.
pub struct Environment<T: SymbolTable = SymbolMap> {
    pub symbols: T,
    pub max_reductions: usize,
    pub echo_enabled: bool,
}

impl<T: SymbolTable> Environment<T> {
    pub fn new() -> (r: Self)
        ensures
            r.wf(),
            r.table() == Map::<Seq<char>, TermModel>::empty(),
            r.max_reductions == 5000,
            r.echo_enabled,
    {
        Environment { symbols: T::empty(), max_reductions: 5000, echo_enabled: true }
    }

    /// The definitions, read only.
    pub fn symbol_table(&self) -> (r: &T)
        ensures
            r.wf() == self.wf(),
            r.table() == self.table(),
    {
        &self.symbols
    }

    /// Reduces `term`, with its free identifiers first bound from the
    /// definitions, in normal order until it is normal, a step gives back a
    /// term seen before, or more than `max_reductions` steps would be needed.
    pub fn evaluate(&self, term: Term, log: &mut Vec<String>) -> (r: EvaluationResult<Term>)
        requires
            self.wf(),
        ensures
            ({
                let t0 = bind_free(term@, self.table());
                &&& match r {
                    Ok(v) => run(t0, 0, self.max_reductions as nat).0 == Ok::<
                        TermModel,
                        EvaluationError,
                    >(v@),
                    Err(e) => run(t0, 0, self.max_reductions as nat).0 == Err::<
                        TermModel,
                        EvaluationError,
                    >(e),
                }
                &&& lines(final(log)@) == lines(old(log)@) + evaluation_log(
                    t0,
                    self.max_reductions as nat,
                    self.echo_enabled,
                )
            }),
    {
        let mut current = term.bind_free_from(&self.symbols);
        let ghost t0 = current@;
        let ghost max = self.max_reductions as nat;
        let ghost echo = self.echo_enabled;
        let ghost start = lines(log@);
        let mut seen: Vec<Term> = Vec::new();
        let mut n: usize = 0;
        loop
            invariant
                n <= self.max_reductions,
                t0 == bind_free(term@, self.table()),
                start == lines(old(log)@),
                max == self.max_reductions as nat,
                echo == self.echo_enabled,
                current@ == iterate(t0, n as nat),
                seen@.len() == n,
                forall|j: int| 0 <= j < n ==> (#[trigger] seen@[j])@ == iterate(t0, (j + 1) as nat),
                run(t0, 0, max) == run(t0, n as nat, max),
                lines(log@) == start + echo_lines(t0, n as nat, echo),
            decreases self.max_reductions - n,
        {
            let reduct = current.reduce(Strategy::NormalOrder);
            match reduct {
                EvalResult::NormalForm(r) => {
                    proof {
                        lemma_run_normal(t0, n as nat, max);
                    }
                    let mut line = String::new();
                    push_str(&mut line, "β: ");
                    push_str(&mut line, r.to_string().as_str());
                    push_str(&mut line, " [normal; ");
                    push_decimal(&mut line, n as u128);
                    push_str(&mut line, " reductions]");
                    log_line(log, line);
                    proof {
                        assert(lines(log@) =~= start + evaluation_log(t0, max, echo));
                    }
                    return Ok(r);
                },
                EvalResult::PossiblyReducible(r) => {
                    assert(iterate(t0, (n + 1) as nat) == r@);
                    if contains_term(&seen, &r) {
                        proof {
                            let j = choose|j: int| 0 <= j < seen@.len() && (#[trigger] seen@[j])@
                                == r@;
                            assert(iterate(t0, (j + 1) as nat) == r@);
                            assert(seen_within(t0, n as nat, r@));
                            lemma_run_repeat(t0, n as nat, max);
                        }
                        let mut line = String::new();
                        push_str(&mut line, "[non-terminating]");
                        log_line(log, line);
                        proof {
                            assert(lines(log@) =~= start + evaluation_log(t0, max, echo));
                        }
                        return Err(EvaluationError::NonTerminating);
                    }
                    proof {
                        if seen_within(t0, n as nat, r@) {
                            let j = choose|j: int| 1 <= j <= n && #[trigger] iterate(t0, j as nat) == r@;
                            assert(seen@[j - 1]@ == r@);
                        }
                        lemma_run_next(t0, n as nat, max);
                    }
                    if self.echo_enabled {
                        let mut line = String::new();
                        push_str(&mut line, "β: ");
                        push_str(&mut line, r.to_string().as_str());
                        log_line(log, line);
                    }
                    proof {
                        assert(lines(log@) =~= start + echo_lines(t0, (n + 1) as nat, echo));
                    }
                    if n == self.max_reductions {
                        let mut line = String::new();
                        push_str(&mut line, "[too many reductions: ");
                        push_decimal(&mut line, n as u128 + 1);
                        push_str(&mut line, "]");
                        log_line(log, line);
                        proof {
                            lemma_run_over(t0, (n + 1) as nat, max);
                            assert(lines(log@) =~= start + evaluation_log(t0, max, echo));
                        }
                        return Err(EvaluationError::TooManyReductions);
                    }
                    seen.push(r.clone());
                    current = r;
                    n = n + 1;
                },
            }
        }
    }

    /// Defines the binding's identifier: free identifiers of its term are
    /// bound from the definitions; a term that still names the identifier
    /// itself is refused; in `CaptureAndReduce` mode the term is evaluated
    /// first. On an error nothing changes.
    pub fn add_binding(&mut self, binding: Binding, log: &mut Vec<String>) -> (r: EvaluationResult<()>)
        requires
            old(self).wf(),
        ensures
            final(self).wf(),
            final(self).max_reductions == old(self).max_reductions,
            final(self).echo_enabled == old(self).echo_enabled,
            match binding_outcome(
                old(self).table(),
                old(self).max_reductions as nat,
                binding.identifier@,
                binding.value@,
                binding.mode,
            ) {
                Ok(v) => r is Ok && final(self).table() == if old(self).retains() {
                    old(self).table().insert(binding.identifier@, v)
                } else {
                    old(self).table()
                },
                Err(e) => r == Err::<(), EvaluationError>(e) && final(self).table() == old(
                    self,
                ).table(),
            },
            lines(final(log)@) == lines(old(log)@) + binding_log(
                old(self).table(),
                old(self).max_reductions as nat,
                old(self).echo_enabled,
                binding.identifier@,
                binding.value@,
                binding.mode,
            ),
    {
        let Binding { identifier, value, mode } = binding;
        let value = value.bind_free_from(&self.symbols);
        if value.is_free_in(identifier.as_str()) {
            let mut line = String::new();
            push_str(&mut line, "Error: recursive binding");
            log_line(log, line);
            proof {
                assert(lines(log@) =~= lines(old(log)@) + seq!["Error: recursive binding"@]);
            }
            return Err(EvaluationError::RecursiveBinding);
        }
        let value = if let BindMode::CaptureAndReduce = mode {
            match self.evaluate(value, log) {
                Ok(v) => v,
                Err(e) => {
                    return Err(e);
                },
            }
        } else {
            assert(lines(log@) =~= lines(old(log)@) + Seq::<Seq<char>>::empty());
            value
        };
        self.symbols.insert(Binding { identifier, value, mode });
        Ok(())
    }

    /// Reads one line: lexes and parses it, then makes the definition, or
    /// evaluates the expression and defines `ans` as its normal form. A line
    /// that does not lex is an error; one that does not parse is reported
    /// and is no error.
    pub fn interpret(&mut self, input: &str, log: &mut Vec<String>) -> (r: EvaluationResult<()>)
        requires
            old(self).wf(),
        ensures
            final(self).wf(),
            final(self).max_reductions == old(self).max_reductions,
            final(self).echo_enabled == old(self).echo_enabled,
            match lex(input@) {
                Err(msg) => r == Err::<(), EvaluationError>(EvaluationError::ParseError)
                    && final(self).table() == old(self).table() && lines(final(log)@) == lines(
                    old(log)@,
                ).push(msg),
                Ok(ts) => if ts.len() > u32::MAX {
                    r == Err::<(), EvaluationError>(EvaluationError::ParseError)
                        && final(self).table() == old(self).table()
                } else {
                    match parse_statement(ts) {
                    Err(e) => r is Ok && final(self).table() == old(self).table() && lines(
                        final(log)@,
                    ) == lines(old(log)@).push(error_text(e)),
                    Ok(StatementModel::Definition(id, t, mode)) => interpreted(
                        *old(self),
                        *final(self),
                        r,
                        id,
                        t,
                        mode,
                        lines(final(log)@),
                        lines(old(log)@),
                    ),
                    Ok(StatementModel::Expression(t)) => interpreted(
                        *old(self),
                        *final(self),
                        r,
                        "ans"@,
                        t,
                        BindMode::CaptureAndReduce,
                        lines(final(log)@),
                        lines(old(log)@) + if old(self).echo_enabled {
                            seq![" : "@ + display(t)]
                        } else {
                            Seq::empty()
                        },
                    ),
                    }
                },
            },
    {
        let tokens = match Token::parse_all(input) {
            Ok(tokens) => tokens,
            Err(e) => {
                log_line(log, e.0);
                return Err(EvaluationError::ParseError);
            },
        };
        if tokens.len() > u32::MAX as usize {
            let mut line = String::new();
            push_str(&mut line, "Error: input too long");
            log_line(log, line);
            return Err(EvaluationError::ParseError);
        }
        let statement = match parse(tokens.as_slice()) {
            Ok(s) => s,
            Err(e) => {
                log_line(log, e.to_string());
                return Ok(());
            },
        };
        match statement {
            Statement::LetStatement(binding) => self.add_binding(binding, log),
            Statement::Expression(term) => {
                if self.echo_enabled {
                    let mut line = String::new();
                    push_str(&mut line, " : ");
                    push_str(&mut line, term.to_string().as_str());
                    log_line(log, line);
                }
                assert(lines(log@) =~= lines(old(log)@) + if old(self).echo_enabled {
                    seq![" : "@ + display(term@)]
                } else {
                    Seq::<Seq<char>>::empty()
                });
                let ans = Binding::new("ans", term, BindMode::CaptureAndReduce);
                self.add_binding(ans, log)
            },
        }
    }
}

/// How a definition of `id` as `t` left the environment and the log.
pub open spec fn interpreted<T: SymbolTable>(
    before: Environment<T>,
    after: Environment<T>,
    r: EvaluationResult<()>,
    id: Seq<char>,
    t: TermModel,
    mode: BindMode,
    log_after: Seq<Seq<char>>,
    log_before: Seq<Seq<char>>,
) -> bool {
    &&& match binding_outcome(before.table(), before.max_reductions as nat, id, t, mode) {
        Ok(v) => r is Ok && after.table() == if before.retains() {
            before.table().insert(id, v)
        } else {
            before.table()
        },
        Err(e) => r == Err::<(), EvaluationError>(e) && after.table() == before.table(),
    }
    &&& log_after == log_before + binding_log(
        before.table(),
        before.max_reductions as nat,
        before.echo_enabled,
        id,
        t,
        mode,
    )
}

/// An environment is itself a table of its definitions.
impl<T: SymbolTable> SymbolTable for Environment<T> {
    closed spec fn table(&self) -> Map<Seq<char>, TermModel> {
        self.symbols.table()
    }

    closed spec fn retains(&self) -> bool {
        self.symbols.retains()
    }

    closed spec fn wf(&self) -> bool {
        self.symbols.wf()
    }

    fn empty() -> (r: Self) {
        Environment::new()
    }

    fn insert(&mut self, binding: Binding) {
        self.symbols.insert(binding)
    }

    fn get(&self, identifier: &str) -> (r: Option<&Term>) {
        self.symbols.get(identifier)
    }

    fn symbols(&self) -> (r: Vec<String>) {
        self.symbols.symbols()
    }

    fn bindings(&self) -> (r: Vec<(String, Term)>) {
        self.symbols.bindings()
    }
}

} // verus!
