//! Properties of the language that hold of every program, proved from the
//! definitions of parsing and evaluation.
use vstd::prelude::*;
use crate::interp::{RunError, State, run_block, run_loop, run_stmt};
use crate::syntax::{
    Block, CmpOp, ParseError, Stmt, assign_form, call_form, has_at, if_form, nested_stmt, parse_lines,
    simple_stmt, while_form,
};
use crate::text::{int_value, trim};

verus! {

/// A declaration binds the variable to the value, whatever was bound before.
pub proof fn law_assign(x: Seq<char>, n: i64, st: State, fuel: nat)
    ensures
        run_block(seq![Stmt::Assign { var: x, value: n }], st, fuel).1 == Ok::<(), RunError>(()),
        run_block(seq![Stmt::Assign { var: x, value: n }], st, fuel).0.env[x] == n,
        run_block(seq![Stmt::Assign { var: x, value: n }], st, fuel).0.env
            == st.env.insert(x, n),
{
    let b = seq![Stmt::Assign { var: x, value: n }];
    lemma_single(b[0], st, fuel);
}

/// A block of one statement runs as that statement.
proof fn lemma_single(s: Stmt, st: State, fuel: nat)
    ensures
        run_block(seq![s], st, fuel) == run_stmt(s, st, fuel),
{
    let b = seq![s];
    assert(b[0] == s);
    assert(b.subrange(1, 1) =~= Seq::<Stmt>::empty());
    let res = run_stmt(s, st, fuel);
    assert(run_block(Seq::<Stmt>::empty(), res.0, fuel) == (res.0, Ok::<(), RunError>(())));
    match res.1 {
        Ok(u) => {
            assert(u == ());
            assert(res == (res.0, Ok::<(), RunError>(())));
        },
        Err(_) => {},
    }
}

/// A program of one declaration line parses to that declaration, and
/// running it binds the variable to the literal's value.
pub proof fn law_declaration_line(line: Seq<char>, x: Seq<char>, lit: Seq<char>, n: i64, st: State, fuel: nat)
    requires
        assign_form(trim(line)) == Some((x, lit)),
        int_value(lit) == Some(n),
    ensures
        parse_lines(seq![line], 0, seq![], Block::Top)
            == Ok::<Seq<Stmt>, ParseError>(seq![Stmt::Assign { var: x, value: n }]),
        run_block(seq![Stmt::Assign { var: x, value: n }], st, fuel).0.env[x] == n,
{
    let ls = seq![line];
    assert(ls[0] == line);
    let done = Seq::<Stmt>::empty().push(Stmt::Assign { var: x, value: n });
    assert(parse_lines(ls, 1, done, Block::Top) == Ok::<Seq<Stmt>, ParseError>(done + seq![]));
    assert(done + seq![] =~= seq![Stmt::Assign { var: x, value: n }]);
    law_assign(x, n, st, fuel);
}

/// An update adds to a declared variable, and leaves everything as it was
/// when the variable is not declared.
pub proof fn law_update(x: Seq<char>, d: i64, st: State, fuel: nat)
    requires
        st.env.contains_key(x) ==> i64::MIN <= st.env[x] + d <= i64::MAX,
    ensures
        st.env.contains_key(x) ==> run_block(seq![Stmt::Update { var: x, value: d }], st, fuel)
            == (State { env: st.env.insert(x, (st.env[x] + d) as i64), out: st.out }, Ok::<(), RunError>(())),
        !st.env.contains_key(x) ==> run_block(seq![Stmt::Update { var: x, value: d }], st, fuel)
            == (st, Ok::<(), RunError>(())),
{
    lemma_single(Stmt::Update { var: x, value: d }, st, fuel);
}

/// A conditional runs exactly its `then` block when the variable equals the
/// value, exactly its `else` block when it does not, and nothing when the
/// variable is not declared.
pub proof fn law_if(x: Seq<char>, v: i64, a: Seq<Stmt>, b: Seq<Stmt>, st: State, fuel: nat)
    ensures
        st.env.contains_key(x) && st.env[x] == v ==> run_stmt(
            Stmt::If { var: x, value: v, then_b: a, else_b: b },
            st,
            fuel,
        ) == run_block(a, st, fuel),
        st.env.contains_key(x) && st.env[x] != v ==> run_stmt(
            Stmt::If { var: x, value: v, then_b: a, else_b: b },
            st,
            fuel,
        ) == run_block(b, st, fuel),
        !st.env.contains_key(x) ==> run_stmt(
            Stmt::If { var: x, value: v, then_b: a, else_b: b },
            st,
            fuel,
        ) == (st, Ok::<(), RunError>(())),
{
}

/// The body that counts `x` up by one.
pub open spec fn count_up(x: Seq<char>) -> Seq<Stmt> {
    seq![Stmt::Update { var: x, value: 1 }]
}

proof fn lemma_count_up(x: Seq<char>, n: i64, st: State, fuel: nat, k: nat)
    requires
        st.env.contains_key(x),
        k >= n - st.env[x],
    ensures
        st.env[x] < n ==> run_loop(x, CmpOp::Lt, n, count_up(x), st, fuel, k)
            == (State { env: st.env.insert(x, n), out: st.out }, Ok::<(), RunError>(())),
        st.env[x] >= n ==> run_loop(x, CmpOp::Lt, n, count_up(x), st, fuel, k)
            == (st, Ok::<(), RunError>(())),
    decreases n - st.env[x],
{
    if st.env[x] < n {
        let b = count_up(x);
        lemma_single(Stmt::Update { var: x, value: 1 }, st, fuel);
        let st1 = State { env: st.env.insert(x, (st.env[x] + 1) as i64), out: st.out };
        assert(run_block(b, st, fuel) == (st1, Ok::<(), RunError>(())));
        lemma_count_up(x, n, st1, fuel, (k - 1) as nat);
        if st1.env[x] >= n {
            assert(st1.env.insert(x, n) =~= st1.env);
        }
        assert(st1.env.insert(x, n) =~= st.env.insert(x, n));
    }
}

/// `while x < n { x = x + 1; }` runs its body exactly `n - x` times when `x`
/// starts below `n`, leaving `x` at `n`, and not at all otherwise.
pub proof fn law_while_count(x: Seq<char>, n: i64, st: State, fuel: nat)
    requires
        st.env.contains_key(x),
        fuel >= n - st.env[x],
    ensures
        st.env[x] < n ==> run_stmt(
            Stmt::While { var: x, op: CmpOp::Lt, value: n, body: count_up(x) },
            st,
            fuel,
        ) == (State { env: st.env.insert(x, n), out: st.out }, Ok::<(), RunError>(())),
        st.env[x] >= n ==> run_stmt(
            Stmt::While { var: x, op: CmpOp::Lt, value: n, body: count_up(x) },
            st,
            fuel,
        ) == (st, Ok::<(), RunError>(())),
{
    lemma_count_up(x, n, st, fuel, fuel);
}

/// A call of any function but `print` stops the run at once, with the
/// error, whatever follows it.
pub proof fn law_unknown_function(f: Seq<char>, args: Seq<i64>, rest: Seq<Stmt>, st: State, fuel: nat)
    requires
        f != "print"@,
    ensures
        run_block(seq![Stmt::Call { name: f, args }] + rest, st, fuel)
            == (st, Err::<(), RunError>(RunError::UnknownFunction)),
{
    let b = seq![Stmt::Call { name: f, args }] + rest;
    assert(b[0] == Stmt::Call { name: f, args });
    assert(b.len() > 0);
    assert(run_stmt(b[0], st, fuel) == (st, Err::<(), RunError>(RunError::UnknownFunction)));
}

proof fn lemma_brace_line_not_simple(t: Seq<char>)
    requires
        t.len() >= 2,
        has_at(t, t.len() - 2, " {"@),
    ensures
        simple_stmt(t) is None,
{
    reveal_strlit(" {");
    reveal_strlit(");");
    assert(t.subrange(t.len() - 2, t.len() as int)[1] == t.last());
    assert(t.last() == '{');
    if call_form(t) is Some {
        assert(t.subrange(t.len() - 2, t.len() as int)[1] == ';');
    }
}

/// Inside an open block, a line that opens an `if` or a `while` is refused:
/// blocks do not nest.
pub proof fn law_no_nesting(ls: Seq<Seq<char>>, i: int, done: Seq<Stmt>, c: Block)
    requires
        !(c is Top),
        0 <= i < ls.len(),
        if_form(trim(ls[i])) is Some || while_form(trim(ls[i])) is Some,
    ensures
        parse_lines(ls, i, done, c) == Err::<Seq<Stmt>, _>(ParseError::InvalidStatement),
{
    let t = trim(ls[i]);
    reveal_strlit("if ");
    reveal_strlit("while ");
    reveal_strlit("}");
    reveal_strlit("} else {");
    lemma_brace_line_not_simple(t);
    assert(nested_stmt(t) == Err::<Stmt, _>(ParseError::InvalidStatement));
    assert(t[0] == 'i' || t[0] == 'w') by {
        if if_form(t) is Some {
            assert(t.subrange(0, 3)[0] == t[0]);
        } else {
            assert(t.subrange(0, 6)[0] == t[0]);
        }
    }
    assert(t != "}"@);
    assert(t != "} else {"@);
}

/// The body that counts `x` up by one and prints `args`.
pub open spec fn count_up_printing(x: Seq<char>, args: Seq<i64>) -> Seq<Stmt> {
    seq![Stmt::Update { var: x, value: 1 }, Stmt::Call { name: "print"@, args }]
}

proof fn lemma_count_up_printing(x: Seq<char>, n: i64, args: Seq<i64>, st: State, fuel: nat, k: nat)
    requires
        st.env.contains_key(x),
        st.env[x] <= n,
        k >= n - st.env[x],
    ensures
        run_loop(x, CmpOp::Lt, n, count_up_printing(x, args), st, fuel, k) == (
            State {
                env: st.env.insert(x, n),
                out: st.out + Seq::new((n - st.env[x]) as nat, |i: int| args),
            },
            Ok::<(), RunError>(()),
        ),
    decreases n - st.env[x],
{
    let b = count_up_printing(x, args);
    if st.env[x] < n {
        let st1 = State { env: st.env.insert(x, (st.env[x] + 1) as i64), out: st.out };
        let st2 = State { env: st1.env, out: st1.out.push(args) };
        assert(b[0] == Stmt::Update { var: x, value: 1 });
        assert(run_stmt(b[0], st, fuel) == (st1, Ok::<(), RunError>(())));
        let rest = b.subrange(1, 2);
        assert(rest =~= seq![Stmt::Call { name: "print"@, args }]);
        lemma_single(Stmt::Call { name: "print"@, args }, st1, fuel);
        assert(run_block(b, st, fuel) == (st2, Ok::<(), RunError>(())));
        lemma_count_up_printing(x, n, args, st2, fuel, (k - 1) as nat);
        assert(st2.env.insert(x, n) =~= st.env.insert(x, n));
        assert(st2.out + Seq::new((n - st2.env[x]) as nat, |i: int| args)
            =~= st.out + Seq::new((n - st.env[x]) as nat, |i: int| args));
    } else {
        assert(st.env.insert(x, n) =~= st.env);
        assert(st.out + Seq::new(0, |i: int| args) =~= st.out);
    }
}

/// `while x < n { x = x + 1; print(args); }` with `x` at most `n` prints
/// `args` exactly `n - x` times, once per run of the body, and leaves `x` at `n`.
pub proof fn law_while_iterations(x: Seq<char>, n: i64, args: Seq<i64>, st: State, fuel: nat)
    requires
        st.env.contains_key(x),
        st.env[x] <= n,
        fuel >= n - st.env[x],
    ensures
        run_stmt(
            Stmt::While { var: x, op: CmpOp::Lt, value: n, body: count_up_printing(x, args) },
            st,
            fuel,
        ) == (
            State {
                env: st.env.insert(x, n),
                out: st.out + Seq::new((n - st.env[x]) as nat, |i: int| args),
            },
            Ok::<(), RunError>(()),
        ),
{
    lemma_count_up_printing(x, n, args, st, fuel, fuel);
}

} // verus!
