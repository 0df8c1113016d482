//! The evaluator: statements run against an environment of variables, and
//! the lines that `print` emits.
use vstd::prelude::*;
use crate::syntax::{CmpOp, Statement, Stmt, block_view, stmt_view};

verus! {

/// How many times one `while` statement may run its body. A loop that would
/// go on past it stops the run with `RunError::StepLimit`.
pub const STEP_LIMIT: u64 = 0xffff_ffff_ffff_ffff;

/// Why a run stops before its end.
#[derive(Clone, Copy, Debug, PartialEq, Eq, Structural)]
pub enum RunError {
    /// A call names a function other than `print`.
    UnknownFunction,
    /// An update takes a variable out of the `i64` range.
    Overflow,
    /// A `while` statement ran its body `STEP_LIMIT` times and would go on.
    StepLimit,
}

/// What a run has done: the variables and the printed lines.
pub struct State {
    pub env: Map<Seq<char>, i64>,
    pub out: Seq<Seq<i64>>,
}

pub open spec fn compare(x: i64, op: CmpOp, y: i64) -> bool {
    match op {
        CmpOp::Eq => x == y,
        CmpOp::Ne => x != y,
        CmpOp::Lt => x < y,
        CmpOp::Gt => x > y,
        CmpOp::Le => x <= y,
        CmpOp::Ge => x >= y,
    }
}

/// A loop condition: false when the variable is not declared.
pub open spec fn holds(env: Map<Seq<char>, i64>, var: Seq<char>, op: CmpOp, value: i64) -> bool {
    env.contains_key(var) && compare(env[var], op, value)
}

/// Runs statements in order until one fails.
pub open spec fn run_block(b: Seq<Stmt>, st: State, fuel: nat) -> (State, Result<(), RunError>)
    decreases b, 0nat,
{
    if b.len() == 0 {
        (st, Ok(()))
    } else {
        let (st1, r) = run_stmt(b[0], st, fuel);
        if r is Err {
            (st1, r)
        } else {
            run_block(b.subrange(1, b.len() as int), st1, fuel)
        }
    }
}

/// Runs one statement; each `while` may run its body `fuel` times.
pub open spec fn run_stmt(s: Stmt, st: State, fuel: nat) -> (State, Result<(), RunError>)
    decreases s, 0nat,
{
    match s {
        Stmt::Assign { var, value } => (State { env: st.env.insert(var, value), ..st }, Ok(())),
        Stmt::Update { var, value } => {
            if !st.env.contains_key(var) {
                (st, Ok(()))
            } else if st.env[var] + value < i64::MIN || st.env[var] + value > i64::MAX {
                (st, Err(RunError::Overflow))
            } else {
                (State { env: st.env.insert(var, (st.env[var] + value) as i64), ..st }, Ok(()))
            }
        },
        Stmt::If { var, value, then_b, else_b } => {
            if !st.env.contains_key(var) {
                (st, Ok(()))
            } else if st.env[var] == value {
                run_block(then_b, st, fuel)
            } else {
                run_block(else_b, st, fuel)
            }
        },
        Stmt::While { var, op, value, body } => run_loop(var, op, value, body, st, fuel, fuel),
        Stmt::Call { name, args } => {
            if name == "print"@ {
                (State { out: st.out.push(args), ..st }, Ok(()))
            } else {
                (st, Err(RunError::UnknownFunction))
            }
        },
    }
}

/// A `while` statement that may still run its body `k` times.
pub open spec fn run_loop(
    var: Seq<char>,
    op: CmpOp,
    value: i64,
    body: Seq<Stmt>,
    st: State,
    fuel: nat,
    k: nat,
) -> (State, Result<(), RunError>)
    decreases body, k,
{
    if !holds(st.env, var, op, value) {
        (st, Ok(()))
    } else if k == 0 {
        (st, Err(RunError::StepLimit))
    } else {
        let (st1, r) = run_block(body, st, fuel);
        if r is Err {
            (st1, r)
        } else {
            run_loop(var, op, value, body, st1, fuel, (k - 1) as nat)
        }
    }
}

/// One program run: its variables, and the lines printed so far.
pub struct Interpreter {
    variables: Vec<(String, i64)>,
    output: Vec<Vec<i64>>,
}

/// The environment that a list of bindings stands for; a later binding of a
/// name hides an earlier one.
pub open spec fn env_of(v: Seq<(String, i64)>) -> Map<Seq<char>, i64>
    decreases v.len(),
{
    if v.len() == 0 {
        Map::empty()
    } else {
        env_of(v.drop_last()).insert(v.last().0@, v.last().1)
    }
}

/// No name is bound twice.
pub open spec fn unique_names(v: Seq<(String, i64)>) -> bool {
    forall|i: int, j: int| 0 <= i < j < v.len() ==> (#[trigger] v[i]).0@ != (#[trigger] v[j]).0@
}

impl Interpreter {
    pub closed spec fn env(&self) -> Map<Seq<char>, i64> {
        env_of(self.variables@)
    }

    /// The printed lines, each as the values of one `print` call.
    pub closed spec fn out(&self) -> Seq<Seq<i64>> {
        self.output@.map_values(|l: Vec<i64>| l@)
    }

    pub closed spec fn wf(&self) -> bool {
        unique_names(self.variables@)
    }

    pub closed spec fn state(&self) -> State {
        State { env: self.env(), out: self.out() }
    }

    /// A fresh run: no variables, nothing printed.
    pub fn new() -> (r: Self)
        ensures
            r.wf(),
            r.env() == Map::<Seq<char>, i64>::empty(),
            r.out() == Seq::<Seq<i64>>::empty(),
    {
        let r = Interpreter { variables: Vec::new(), output: Vec::new() };
        assert(r.out() =~= Seq::<Seq<i64>>::empty());
        r
    }
}


proof fn lemma_env_contains(v: Seq<(String, i64)>, k: Seq<char>)
    ensures
        env_of(v).contains_key(k) <==> exists|i: int| 0 <= i < v.len() && (#[trigger] v[i]).0@ == k,
    decreases v.len(),
{
    if v.len() > 0 {
        lemma_env_contains(v.drop_last(), k);
        if env_of(v.drop_last()).contains_key(k) {
            let i = choose|i: int| 0 <= i < v.drop_last().len() && (#[trigger] v.drop_last()[i]).0@ == k;
            assert(v[i].0@ == k);
        }
        if exists|i: int| 0 <= i < v.len() && (#[trigger] v[i]).0@ == k {
            let i = choose|i: int| 0 <= i < v.len() && (#[trigger] v[i]).0@ == k;
            if i < v.len() - 1 {
                assert(v.drop_last()[i].0@ == k);
            }
        }
    }
}

proof fn lemma_env_at(v: Seq<(String, i64)>, i: int)
    requires
        unique_names(v),
        0 <= i < v.len(),
    ensures
        env_of(v).contains_key(v[i].0@),
        env_of(v)[v[i].0@] == v[i].1,
    decreases v.len(),
{
    if i < v.len() - 1 {
        assert(v.drop_last()[i] == v[i]);
        lemma_env_at(v.drop_last(), i);
        assert(v[i].0@ != v[v.len() - 1].0@);
    }
}

proof fn lemma_env_set(v: Seq<(String, i64)>, i: int, x: i64)
    requires
        unique_names(v),
        0 <= i < v.len(),
    ensures
        env_of(v.update(i, (v[i].0, x))) == env_of(v).insert(v[i].0@, x),
        unique_names(v.update(i, (v[i].0, x))),
    decreases v.len(),
{
    let w = v.update(i, (v[i].0, x));
    if i == v.len() - 1 {
        assert(w.drop_last() =~= v.drop_last());
        assert(env_of(w) =~= env_of(v).insert(v[i].0@, x));
    } else {
        assert(w.drop_last() =~= v.drop_last().update(i, (v[i].0, x)));
        lemma_env_set(v.drop_last(), i, x);
        assert(v[i].0@ != v.last().0@);
        assert(env_of(w) =~= env_of(v).insert(v[i].0@, x));
    }
    assert forall|a: int, b: int| 0 <= a < b < w.len() implies (#[trigger] w[a]).0@ != (#[trigger] w[b]).0@ by {
        assert(v[a].0@ != v[b].0@);
    }
}

proof fn lemma_block_view_index(v: Seq<Statement>)
    ensures
        block_view(v).len() == v.len(),
        forall|i: int| 0 <= i < v.len() ==> block_view(v)[i] == stmt_view(#[trigger] v[i]),
    decreases v.len(),
{
    if v.len() > 0 {
        lemma_block_view_index(v.drop_last());
        assert forall|i: int| 0 <= i < v.len() - 1 implies v.drop_last()[i] == v[i] by {}
    }
}

impl Interpreter {
    fn find(&self, name: &String) -> (r: Option<usize>)
        requires
            self.wf(),
        ensures
            match r {
                Some(i) => i < self.variables@.len() && self.variables@[i as int].0@ == name@,
                None => !self.env().contains_key(name@),
            },
    {
        let mut i: usize = 0;
        while i < self.variables.len()
            invariant
                i <= self.variables@.len(),
                forall|j: int| 0 <= j < i ==> (#[trigger] self.variables@[j]).0@ != name@,
            decreases self.variables@.len() - i,
        {
            if self.variables[i].0 == *name {
                return Some(i);
            }
            i = i + 1;
        }
        proof {
            lemma_env_contains(self.variables@, name@);
        }
        None
    }

    /// The value of a variable, if it is declared.
    pub fn lookup(&self, name: &String) -> (r: Option<i64>)
        requires
            self.wf(),
        ensures
            r == (if self.env().contains_key(name@) { Some(self.env()[name@]) } else { None::<i64> }),
    {
        match self.find(name) {
            Some(i) => {
                proof {
                    lemma_env_at(self.variables@, i as int);
                }
                Some(self.variables[i].1)
            },
            None => None,
        }
    }

    /// Declares `name` with `value`, or overwrites its value.
    fn assign(&mut self, name: &String, value: i64)
        requires
            old(self).wf(),
        ensures
            final(self).wf(),
            final(self).env() == old(self).env().insert(name@, value),
            final(self).out() == old(self).out(),
    {
        match self.find(name) {
            Some(i) => {
                let key = self.variables[i].0.clone();
                proof {
                    lemma_env_set(self.variables@, i as int, value);
                }
                self.variables.set(i, (key, value));
            },
            None => {
                proof {
                    lemma_env_contains(self.variables@, name@);
                }
                let ghost v = self.variables@;
                self.variables.push((name.clone(), value));
                proof {
                    assert(self.variables@.drop_last() =~= v);
                    assert forall|a: int, b: int| 0 <= a < b < self.variables@.len() implies (#[trigger] self.variables@[a]).0@ != (#[trigger] self.variables@[b]).0@ by {
                        if b == v.len() {
                            assert(v[a].0@ != name@);
                        }
                    }
                }
            },
        }
    }

    /// Whether `var <op> value` holds; false when `var` is not declared.
    pub fn evaluate_condition(&self, var: &String, op: CmpOp, value: i64) -> (r: bool)
        requires
            self.wf(),
        ensures
            r == holds(self.env(), var@, op, value),
    {
        match self.lookup(var) {
            Some(x) => match op {
                CmpOp::Eq => x == value,
                CmpOp::Ne => x != value,
                CmpOp::Lt => x < value,
                CmpOp::Gt => x > value,
                CmpOp::Le => x <= value,
                CmpOp::Ge => x >= value,
            },
            None => false,
        }
    }

    fn run_statements(&mut self, b: &Vec<Statement>, fuel: u64) -> (r: Result<(), RunError>)
        requires
            old(self).wf(),
        ensures
            final(self).wf(),
            (final(self).state(), r) == run_block(block_view(b@), old(self).state(), fuel as nat),
        decreases b, 0nat,
    {
        let ghost bv = block_view(b@);
        proof {
            lemma_block_view_index(b@);
            assert(bv.subrange(0, bv.len() as int) =~= bv);
        }
        let mut i: usize = 0;
        while i < b.len()
            invariant
                self.wf(),
                i <= b@.len(),
                bv == block_view(b@),
                bv.len() == b@.len(),
                forall|j: int| 0 <= j < b@.len() ==> bv[j] == stmt_view(#[trigger] b@[j]),
                run_block(bv, old(self).state(), fuel as nat)
                    == run_block(bv.subrange(i as int, bv.len() as int), self.state(), fuel as nat),
            decreases b@.len() - i,
        {
            let ghost rest = bv.subrange(i as int, bv.len() as int);
            assert(rest[0] == stmt_view(b@[i as int]));
            assert(rest.subrange(1, rest.len() as int) =~= bv.subrange(i + 1, bv.len() as int));
            let r = self.run_statement(&b[i], fuel);
            if r.is_err() {
                return r;
            }
            i = i + 1;
        }
        Ok(())
    }

    fn run_statement(&mut self, s: &Statement, fuel: u64) -> (r: Result<(), RunError>)
        requires
            old(self).wf(),
        ensures
            final(self).wf(),
            (final(self).state(), r) == run_stmt(stmt_view(*s), old(self).state(), fuel as nat),
        decreases s, 0nat,
    {
        match s {
            Statement::VarAssign { var, value } => {
                self.assign(var, *value);
                Ok(())
            },
            Statement::VarUpdate { var, value } => {
                match self.lookup(var) {
                    Some(x) => match x.checked_add(*value) {
                        Some(y) => {
                            self.assign(var, y);
                            Ok(())
                        },
                        None => Err(RunError::Overflow),
                    },
                    None => Ok(()),
                }
            },
            Statement::IfCondition { var, value, true_branch, false_branch } => {
                match self.lookup(var) {
                    Some(x) => if x == *value {
                        self.run_statements(true_branch, fuel)
                    } else {
                        self.run_statements(false_branch, fuel)
                    },
                    None => Ok(()),
                }
            },
            Statement::WhileLoop { var, op, value, body } => {
                let ghost bv = block_view(body@);
                let mut k: u64 = fuel;
                loop
                    invariant
                        self.wf(),
                        bv == block_view(body@),
                        *s == (Statement::WhileLoop { var: *var, op: *op, value: *value, body: *body }),
                        run_stmt(stmt_view(*s), old(self).state(), fuel as nat)
                            == run_loop(var@, *op, *value, bv, self.state(), fuel as nat, k as nat),
                    decreases k,
                {
                    if !self.evaluate_condition(var, *op, *value) {
                        return Ok(());
                    }
                    if k == 0 {
                        return Err(RunError::StepLimit);
                    }
                    let r = self.run_statements(body, fuel);
                    if r.is_err() {
                        return r;
                    }
                    k = k - 1;
                }
            },
            Statement::FunctionCall { name, args } => {
                if is_print(name) {
                    let line = copy_values(args);
                    let ghost before = self.output@;
                    self.output.push(line);
                    proof {
                        assert(self.output@ == before.push(line));
                        assert(self.out() =~= before.map_values(|l: Vec<i64>| l@).push(args@));
                    }
                    Ok(())
                } else {
                    Err(RunError::UnknownFunction)
                }
            },
        }
    }

    /// Runs a program's statements in order. It stops at the first failure,
    /// with what had been done up to it kept.
    pub fn evaluate(&mut self, statements: Vec<Statement>) -> (r: Result<(), RunError>)
        requires
            old(self).wf(),
        ensures
            final(self).wf(),
            (final(self).state(), r) == run_block(block_view(statements@), old(self).state(), STEP_LIMIT as nat),
    {
        self.run_statements(&statements, STEP_LIMIT)
    }

    /// The lines printed so far, each as the values of one `print` call.
    pub fn output(&self) -> (r: &Vec<Vec<i64>>)
        ensures
            r@.map_values(|l: Vec<i64>| l@) == self.out(),
    {
        &self.output
    }
}

fn is_print(name: &String) -> (r: bool)
    ensures
        r == (name@ == "print"@),
{
    let t = crate::text::chars_of(name.as_str());
    crate::syntax::is_text(&t, "print")
}

fn copy_values(v: &Vec<i64>) -> (r: Vec<i64>)
    ensures
        r@ == v@,
{
    let mut r: Vec<i64> = Vec::new();
    let mut i: usize = 0;
    while i < v.len()
        invariant
            i <= v@.len(),
            r@ == v@.subrange(0, i as int),
        decreases v@.len() - i,
    {
        r.push(v[i]);
        i = i + 1;
        assert(r@ =~= v@.subrange(0, i as int));
    }
    assert(r@ =~= v@);
    r
}

} // verus!
