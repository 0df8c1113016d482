//! Statements, the forms a source line can take, and their recognizers.
use vstd::prelude::*;
use crate::interp::Interpreter;
use crate::text::{
    chars_of, digit_char, int_value, is_digit, is_word, parse_int, piece_spans, slice_chars,
    trim, trim_span, comma_parts, lines_of, word_char,
};

verus! {

/// The comparison of a `while` condition.
#[derive(Clone, Copy, Debug, PartialEq, Eq, Structural)]
pub enum CmpOp {
    Eq,
    Ne,
    Lt,
    Gt,
    Le,
    Ge,
}

/// One executable unit of a program.
#[derive(Debug)]
pub enum Statement {
    /// Declares `var`, or overwrites its value.
    VarAssign { var: String, value: i64 },
    /// Adds `value` to `var`; does nothing when `var` is not declared.
    VarUpdate { var: String, value: i64 },
    /// Runs `true_branch` when `var` equals `value`, else `false_branch`;
    /// neither when `var` is not declared.
    IfCondition {
        var: String,
        value: i64,
        true_branch: Vec<Statement>,
        false_branch: Vec<Statement>,
    },
    /// Runs `body` for as long as `var <op> value` holds; not at all when
    /// `var` is not declared.
    WhileLoop { var: String, op: CmpOp, value: i64, body: Vec<Statement> },
    /// Calls a built-in; `print` is the only one.
    FunctionCall { name: String, args: Vec<i64> },
}

/// The mathematical value of a `Statement`: names as character sequences,
/// bodies as sequences.
pub enum Stmt {
    Assign { var: Seq<char>, value: i64 },
    Update { var: Seq<char>, value: i64 },
    If { var: Seq<char>, value: i64, then_b: Seq<Stmt>, else_b: Seq<Stmt> },
    While { var: Seq<char>, op: CmpOp, value: i64, body: Seq<Stmt> },
    Call { name: Seq<char>, args: Seq<i64> },
}

/// Why a source text is refused.
#[derive(Clone, Copy, Debug, PartialEq, Eq, Structural)]
pub enum ParseError {
    /// A line inside a block is not a declaration, an update or a call.
    InvalidStatement,
    /// An integer literal does not fit in an `i64`, or has a digit outside ASCII.
    BadInteger,
}

pub open spec fn stmt_view(s: Statement) -> Stmt
    decreases s, 0nat,
{
    match s {
        Statement::VarAssign { var, value } => Stmt::Assign { var: var@, value },
        Statement::VarUpdate { var, value } => Stmt::Update { var: var@, value },
        Statement::IfCondition { var, value, true_branch, false_branch } => Stmt::If {
            var: var@,
            value,
            then_b: block_view(true_branch@),
            else_b: block_view(false_branch@),
        },
        Statement::WhileLoop { var, op, value, body } => Stmt::While {
            var: var@,
            op,
            value,
            body: block_view(body@),
        },
        Statement::FunctionCall { name, args } => Stmt::Call { name: name@, args: args@ },
    }
}

pub open spec fn block_view(b: Seq<Statement>) -> Seq<Stmt>
    decreases b, b.len(),
{
    if b.len() == 0 {
        seq![]
    } else {
        block_view(b.drop_last()).push(stmt_view(b.last()))
    }
}

} // verus!

verus! {

/// The end of the run of word characters in `t` that starts at `i`.
pub open spec fn word_end(t: Seq<char>, i: int) -> int
    decreases t.len() - i,
{
    if 0 <= i < t.len() && word_char(t[i]) {
        word_end(t, i + 1)
    } else {
        i
    }
}

/// `w` occurs in `t` at position `p`.
pub open spec fn has_at(t: Seq<char>, p: int, w: Seq<char>) -> bool {
    0 <= p && p + w.len() <= t.len() && t.subrange(p, p + w.len()) == w
}

/// An integer literal of the grammar: an optional `-`, then one or more digits.
pub open spec fn int_lit(s: Seq<char>) -> bool {
    let b = unsigned_part(s);
    b.len() > 0 && all_digits(b)
}

/// `s` without a leading `-`.
pub open spec fn unsigned_part(s: Seq<char>) -> Seq<char> {
    if s.len() > 0 && s[0] == '-' { s.drop_first() } else { s }
}

pub open spec fn all_digits(b: Seq<char>) -> bool {
    forall|i: int| 0 <= i < b.len() ==> digit_char(#[trigger] b[i])
}

/// `let <ident> = <int>;`: the name and the literal.
pub open spec fn assign_form(t: Seq<char>) -> Option<(Seq<char>, Seq<char>)> {
    let k = word_end(t, 4);
    if has_at(t, 0, "let "@) && k > 4 && has_at(t, k, " = "@) && k + 3 <= t.len() - 1
        && t.last() == ';' && int_lit(t.subrange(k + 3, t.len() - 1)) {
        Some((t.subrange(4, k), t.subrange(k + 3, t.len() - 1)))
    } else {
        None
    }
}

/// `<ident> = <ident> + <int>;`: the first name and the literal.
pub open spec fn update_form(t: Seq<char>) -> Option<(Seq<char>, Seq<char>)> {
    let k = word_end(t, 0);
    let j = word_end(t, k + 3);
    if k > 0 && has_at(t, k, " = "@) && j > k + 3 && has_at(t, j, " + "@) && j + 3 <= t.len() - 1
        && t.last() == ';' && int_lit(t.subrange(j + 3, t.len() - 1)) {
        Some((t.subrange(0, k), t.subrange(j + 3, t.len() - 1)))
    } else {
        None
    }
}

/// `if <ident> == <int> {`: the name and the literal.
pub open spec fn if_form(t: Seq<char>) -> Option<(Seq<char>, Seq<char>)> {
    let k = word_end(t, 3);
    if has_at(t, 0, "if "@) && k > 3 && has_at(t, k, " == "@) && k + 4 <= t.len() - 2
        && has_at(t, t.len() - 2, " {"@) && int_lit(t.subrange(k + 4, t.len() - 2)) {
        Some((t.subrange(3, k), t.subrange(k + 4, t.len() - 2)))
    } else {
        None
    }
}

/// The comparison at `p`, followed by a space, and its length.
pub open spec fn op_at(t: Seq<char>, p: int) -> Option<(CmpOp, int)> {
    if has_at(t, p, "== "@) {
        Some((CmpOp::Eq, 2))
    } else if has_at(t, p, "!= "@) {
        Some((CmpOp::Ne, 2))
    } else if has_at(t, p, "<= "@) {
        Some((CmpOp::Le, 2))
    } else if has_at(t, p, ">= "@) {
        Some((CmpOp::Ge, 2))
    } else if has_at(t, p, "< "@) {
        Some((CmpOp::Lt, 1))
    } else if has_at(t, p, "> "@) {
        Some((CmpOp::Gt, 1))
    } else {
        None
    }
}

/// `while <ident> <op> <int> {`: the name, the comparison and the literal.
pub open spec fn while_form(t: Seq<char>) -> Option<(Seq<char>, CmpOp, Seq<char>)> {
    let k = word_end(t, 6);
    if has_at(t, 0, "while "@) && k > 6 && has_at(t, k, " "@) && op_at(t, k + 1) is Some {
        let (op, w) = op_at(t, k + 1).unwrap();
        let q = k + 1 + w + 1;
        if q <= t.len() - 2 && has_at(t, t.len() - 2, " {"@) && int_lit(t.subrange(q, t.len() - 2)) {
            Some((t.subrange(6, k), op, t.subrange(q, t.len() - 2)))
        } else {
            None
        }
    } else {
        None
    }
}

/// `<ident>(<args>);` with no `)` in the arguments: the name and the arguments.
pub open spec fn call_form(t: Seq<char>) -> Option<(Seq<char>, Seq<char>)> {
    let k = word_end(t, 0);
    if k > 0 && has_at(t, k, "("@) && k + 1 <= t.len() - 2 && has_at(t, t.len() - 2, ");"@)
        && !t.subrange(k + 1, t.len() - 2).contains(')') {
        Some((t.subrange(0, k), t.subrange(k + 1, t.len() - 2)))
    } else {
        None
    }
}

fn word_end_exec(t: &Vec<char>, i: usize) -> (r: usize)
    requires
        i <= t@.len(),
    ensures
        r == word_end(t@, i as int),
        i <= r <= t@.len(),
{
    let mut j = i;
    while j < t.len() && is_word(t[j])
        invariant
            i <= j <= t@.len(),
            word_end(t@, i as int) == word_end(t@, j as int),
        decreases t@.len() - j,
    {
        j = j + 1;
    }
    j
}

fn has_at_exec(t: &Vec<char>, p: usize, w: &str) -> (r: bool)
    ensures
        r == has_at(t@, p as int, w@),
{
    let n = w.unicode_len();
    if p > t.len() || n > t.len() - p {
        return false;
    }
    let mut k: usize = 0;
    while k < n
        invariant
            k <= n,
            n == w@.len(),
            p + n <= t.len(),
            t.len() == t@.len(),
            t@.subrange(p as int, p + k) == w@.subrange(0, k as int),
        decreases n - k,
    {
        if t[p + k] != w.get_char(k) {
            assert(t@.subrange(p as int, p + n)[k as int] != w@[k as int]);
            return false;
        }
        k = k + 1;
        assert(t@.subrange(p as int, p + k) =~= w@.subrange(0, k as int));
    }
    assert(w@.subrange(0, n as int) =~= w@);
    true
}

fn is_int_lit(t: &Vec<char>, lo: usize, hi: usize) -> (r: bool)
    requires
        lo <= hi <= t@.len(),
    ensures
        r == int_lit(t@.subrange(lo as int, hi as int)),
{
    let ghost s = t@.subrange(lo as int, hi as int);
    let start = if lo < hi && t[lo] == '-' { lo + 1 } else { lo };
    let ghost b = unsigned_part(s);
    assert(b =~= t@.subrange(start as int, hi as int));
    if start == hi {
        assert(b.len() == 0);
        return false;
    }
    let mut i = start;
    while i < hi
        invariant
            start <= i <= hi <= t@.len(),
            s == t@.subrange(lo as int, hi as int),
            b == unsigned_part(s),
            b == t@.subrange(start as int, hi as int),
            forall|j: int| 0 <= j < i - start ==> digit_char(#[trigger] b[j]),
        decreases hi - i,
    {
        if !is_digit(t[i]) {
            let ghost bad = i - start;
            assert(0 <= bad < b.len() && !digit_char(b[bad as int]));
            assert(!all_digits(b));
            return false;
        }
        i = i + 1;
    }
    true
}

fn name_of(ls: &str, t: &Vec<char>, lo: usize, hi: usize) -> (r: String)
    requires
        ls@ == t@,
        lo <= hi <= t@.len(),
    ensures
        r@ == t@.subrange(lo as int, hi as int),
{
    ls.substring_char(lo, hi).to_owned()
}

fn match_assign(ls: &str, t: &Vec<char>) -> (r: Option<(String, Vec<char>)>)
    requires
        ls@ == t@,
    ensures
        match (r, assign_form(t@)) {
            (Some((v, l)), Some((sv, sl))) => v@ == sv && l@ == sl,
            (None, None) => true,
            _ => false,
        },
{
    proof {
        reveal_strlit("let ");
        reveal_strlit(" = ");
    }
    if !has_at_exec(t, 0, "let ") {
        return None;
    }
    let k = word_end_exec(t, 4);
    let n = t.len();
    if k > 4 && has_at_exec(t, k, " = ") && n - k >= 4 && t[n - 1] == ';' && is_int_lit(t, k + 3, n - 1) {
        Some((name_of(ls, t, 4, k), slice_chars(t, k + 3, n - 1)))
    } else {
        None
    }
}

fn match_update(ls: &str, t: &Vec<char>) -> (r: Option<(String, Vec<char>)>)
    requires
        ls@ == t@,
    ensures
        match (r, update_form(t@)) {
            (Some((v, l)), Some((sv, sl))) => v@ == sv && l@ == sl,
            (None, None) => true,
            _ => false,
        },
{
    proof {
        reveal_strlit(" = ");
        reveal_strlit(" + ");
    }
    let n = t.len();
    let k = word_end_exec(t, 0);
    if k == 0 || !has_at_exec(t, k, " = ") {
        return None;
    }
    let j = word_end_exec(t, k + 3);
    if j > k + 3 && has_at_exec(t, j, " + ") && n - j >= 4 && t[n - 1] == ';' && is_int_lit(t, j + 3, n - 1) {
        Some((name_of(ls, t, 0, k), slice_chars(t, j + 3, n - 1)))
    } else {
        None
    }
}

fn match_if(ls: &str, t: &Vec<char>) -> (r: Option<(String, Vec<char>)>)
    requires
        ls@ == t@,
    ensures
        match (r, if_form(t@)) {
            (Some((v, l)), Some((sv, sl))) => v@ == sv && l@ == sl,
            (None, None) => true,
            _ => false,
        },
{
    proof {
        reveal_strlit("if ");
        reveal_strlit(" == ");
        reveal_strlit(" {");
    }
    if !has_at_exec(t, 0, "if ") {
        return None;
    }
    let n = t.len();
    let k = word_end_exec(t, 3);
    if k > 3 && has_at_exec(t, k, " == ") && n - k >= 6 && has_at_exec(t, n - 2, " {") && is_int_lit(t, k + 4, n - 2) {
        Some((name_of(ls, t, 3, k), slice_chars(t, k + 4, n - 2)))
    } else {
        None
    }
}

fn op_at_exec(t: &Vec<char>, p: usize) -> (r: Option<(CmpOp, usize)>)
    ensures
        match (r, op_at(t@, p as int)) {
            (Some((o, w)), Some((so, sw))) => o == so && w == sw,
            (None, None) => true,
            _ => false,
        },
{
    proof {
        reveal_strlit("== ");
        reveal_strlit("!= ");
        reveal_strlit("<= ");
        reveal_strlit(">= ");
        reveal_strlit("< ");
        reveal_strlit("> ");
    }
    if has_at_exec(t, p, "== ") {
        Some((CmpOp::Eq, 2))
    } else if has_at_exec(t, p, "!= ") {
        Some((CmpOp::Ne, 2))
    } else if has_at_exec(t, p, "<= ") {
        Some((CmpOp::Le, 2))
    } else if has_at_exec(t, p, ">= ") {
        Some((CmpOp::Ge, 2))
    } else if has_at_exec(t, p, "< ") {
        Some((CmpOp::Lt, 1))
    } else if has_at_exec(t, p, "> ") {
        Some((CmpOp::Gt, 1))
    } else {
        None
    }
}

fn match_while(ls: &str, t: &Vec<char>) -> (r: Option<(String, CmpOp, Vec<char>)>)
    requires
        ls@ == t@,
    ensures
        match (r, while_form(t@)) {
            (Some((v, o, l)), Some((sv, so, sl))) => v@ == sv && o == so && l@ == sl,
            (None, None) => true,
            _ => false,
        },
{
    proof {
        reveal_strlit("while ");
        reveal_strlit(" ");
        reveal_strlit(" {");
        reveal_strlit("== ");
        reveal_strlit("!= ");
        reveal_strlit("<= ");
        reveal_strlit(">= ");
        reveal_strlit("< ");
        reveal_strlit("> ");
    }
    if !has_at_exec(t, 0, "while ") {
        return None;
    }
    let n = t.len();
    let k = word_end_exec(t, 6);
    if k <= 6 || !has_at_exec(t, k, " ") {
        return None;
    }
    match op_at_exec(t, k + 1) {
        Some((op, w)) => {
            let q = k + 1 + w + 1;
            if q <= n && n - q >= 2 && has_at_exec(t, n - 2, " {") && is_int_lit(t, q, n - 2) {
                Some((name_of(ls, t, 6, k), op, slice_chars(t, q, n - 2)))
            } else {
                None
            }
        },
        None => None,
    }
}

fn match_call(ls: &str, t: &Vec<char>) -> (r: Option<(String, Vec<char>)>)
    requires
        ls@ == t@,
    ensures
        match (r, call_form(t@)) {
            (Some((v, a)), Some((sv, sa))) => v@ == sv && a@ == sa,
            (None, None) => true,
            _ => false,
        },
{
    proof {
        reveal_strlit("(");
        reveal_strlit(");");
    }
    let n = t.len();
    let k = word_end_exec(t, 0);
    if k == 0 || !has_at_exec(t, k, "(") || n - k < 3 || !has_at_exec(t, n - 2, ");") {
        return None;
    }
    let mut i = k + 1;
    while i < n - 2
        invariant
            k + 1 <= i <= n - 2,
            n == t@.len(),
            k == word_end(t@, 0),
            forall|j: int| k + 1 <= j < i ==> t@[j] != ')',
        decreases n - 2 - i,
    {
        if t[i] == ')' {
            assert(t@.subrange(k + 1, n - 2)[i - (k + 1)] == ')');
            return None;
        }
        i = i + 1;
    }
    assert(!t@.subrange(k + 1, n - 2).contains(')'));
    Some((name_of(ls, t, 0, k), slice_chars(t, k + 1, n - 2)))
}

} // verus!

verus! {

/// The values of the comma-separated arguments of a call, each trimmed and
/// read as an `i64`; `None` if any of them is not one.
pub open spec fn args_value(ps: Seq<Seq<char>>) -> Option<Seq<i64>>
    decreases ps.len(),
{
    if ps.len() == 0 {
        Some(seq![])
    } else {
        match (args_value(ps.drop_last()), int_value(trim(ps.last()))) {
            (Some(vs), Some(v)) => Some(vs.push(v)),
            _ => None,
        }
    }
}

/// A declaration, an update or a call, if the line has one of those forms.
pub open spec fn simple_stmt(t: Seq<char>) -> Option<Result<Stmt, ParseError>> {
    if let Some((v, l)) = assign_form(t) {
        Some(
            match int_value(l) {
                Some(n) => Ok(Stmt::Assign { var: v, value: n }),
                None => Err(ParseError::BadInteger),
            },
        )
    } else if let Some((v, l)) = update_form(t) {
        Some(
            match int_value(l) {
                Some(n) => Ok(Stmt::Update { var: v, value: n }),
                None => Err(ParseError::BadInteger),
            },
        )
    } else if let Some((f, a)) = call_form(t) {
        Some(
            match args_value(comma_parts(a)) {
                Some(vs) => Ok(Stmt::Call { name: f, args: vs }),
                None => Err(ParseError::BadInteger),
            },
        )
    } else {
        None
    }
}

/// A line inside a block: only a declaration, an update or a call is allowed.
pub open spec fn nested_stmt(t: Seq<char>) -> Result<Stmt, ParseError> {
    match simple_stmt(t) {
        Some(r) => r,
        None => Err(ParseError::InvalidStatement),
    }
}

/// Where the parser stands: at the top level, or inside a block that is
/// still open, with the statements collected for it so far.
pub enum Block {
    Top,
    Then { var: Seq<char>, value: i64, acc: Seq<Stmt> },
    Else { var: Seq<char>, value: i64, then_b: Seq<Stmt>, acc: Seq<Stmt> },
    Body { var: Seq<char>, op: CmpOp, value: i64, acc: Seq<Stmt> },
}

/// The statement that an open block makes when it is closed.
pub open spec fn closed(c: Block) -> Seq<Stmt> {
    match c {
        Block::Top => seq![],
        Block::Then { var, value, acc } => seq![
            Stmt::If { var, value, then_b: acc, else_b: seq![] },
        ],
        Block::Else { var, value, then_b, acc } => seq![
            Stmt::If { var, value, then_b, else_b: acc },
        ],
        Block::Body { var, op, value, acc } => seq![Stmt::While { var, op, value, body: acc }],
    }
}

/// A block that ends at the end of the text is closed there.
pub open spec fn parse_lines(ls: Seq<Seq<char>>, i: int, done: Seq<Stmt>, c: Block) -> Result<
    Seq<Stmt>,
    ParseError,
>
    decreases ls.len() - i,
{
    if i < 0 || i >= ls.len() {
        Ok(done + closed(c))
    } else {
        let t = trim(ls[i]);
        match c {
            Block::Top => {
                if let Some((v, l)) = assign_form(t) {
                    match int_value(l) {
                        Some(n) => parse_lines(ls, i + 1, done.push(Stmt::Assign { var: v, value: n }), Block::Top),
                        None => Err(ParseError::BadInteger),
                    }
                } else if let Some((v, l)) = update_form(t) {
                    match int_value(l) {
                        Some(n) => parse_lines(ls, i + 1, done.push(Stmt::Update { var: v, value: n }), Block::Top),
                        None => Err(ParseError::BadInteger),
                    }
                } else if let Some((v, l)) = if_form(t) {
                    match int_value(l) {
                        Some(n) => parse_lines(ls, i + 1, done, Block::Then { var: v, value: n, acc: seq![] }),
                        None => Err(ParseError::BadInteger),
                    }
                } else if let Some((v, op, l)) = while_form(t) {
                    match int_value(l) {
                        Some(n) => parse_lines(ls, i + 1, done, Block::Body { var: v, op, value: n, acc: seq![] }),
                        None => Err(ParseError::BadInteger),
                    }
                } else if let Some((f, a)) = call_form(t) {
                    match args_value(comma_parts(a)) {
                        Some(vs) => parse_lines(ls, i + 1, done.push(Stmt::Call { name: f, args: vs }), Block::Top),
                        None => Err(ParseError::BadInteger),
                    }
                } else {
                    parse_lines(ls, i + 1, done, Block::Top)
                }
            },
            Block::Then { var, value, acc } => {
                if t == "} else {"@ {
                    parse_lines(ls, i + 1, done, Block::Else { var, value, then_b: acc, acc: seq![] })
                } else if t == "}"@ {
                    parse_lines(ls, i + 1, done + closed(c), Block::Top)
                } else {
                    match nested_stmt(t) {
                        Ok(s) => parse_lines(ls, i + 1, done, Block::Then { var, value, acc: acc.push(s) }),
                        Err(e) => Err(e),
                    }
                }
            },
            Block::Else { var, value, then_b, acc } => {
                if t == "}"@ {
                    parse_lines(ls, i + 1, done + closed(c), Block::Top)
                } else {
                    match nested_stmt(t) {
                        Ok(s) => parse_lines(ls, i + 1, done, Block::Else { var, value, then_b, acc: acc.push(s) }),
                        Err(e) => Err(e),
                    }
                }
            },
            Block::Body { var, op, value, acc } => {
                if t == "}"@ {
                    parse_lines(ls, i + 1, done + closed(c), Block::Top)
                } else {
                    match nested_stmt(t) {
                        Ok(s) => parse_lines(ls, i + 1, done, Block::Body { var, op, value, acc: acc.push(s) }),
                        Err(e) => Err(e),
                    }
                }
            },
        }
    }
}

/// What a source text parses to.
pub open spec fn parse_program(src: Seq<char>) -> Result<Seq<Stmt>, ParseError> {
    parse_lines(lines_of(src), 0, seq![], Block::Top)
}

pub proof fn lemma_block_view_push(v: Seq<Statement>, s: Statement)
    ensures
        block_view(v.push(s)) == block_view(v).push(stmt_view(s)),
{
    assert(v.push(s).drop_last() =~= v);
}

fn parse_args(a: &Vec<char>) -> (r: Option<Vec<i64>>)
    ensures
        match (r, args_value(comma_parts(a@))) {
            (Some(v), Some(sv)) => v@ == sv,
            (None, None) => true,
            _ => false,
        },
{
    let spans = piece_spans(a, ',', true);
    let ghost ps = comma_parts(a@);
    let mut out: Vec<i64> = Vec::new();
    let mut k: usize = 0;
    while k < spans.len()
        invariant
            k <= spans@.len(),
            ps == comma_parts(a@),
            spans@.len() == ps.len(),
            forall|j: int|
                0 <= j < spans@.len() ==> {
                    &&& (#[trigger] spans@[j]).0 <= spans@[j].1 <= a@.len()
                    &&& a@.subrange(spans@[j].0 as int, spans@[j].1 as int) == ps[j]
                },
            args_value(ps.subrange(0, k as int)) == Some(out@),
        decreases spans@.len() - k,
    {
        let (lo, hi) = spans[k];
        let (x, y) = trim_span(a, lo, hi);
        let piece = slice_chars(a, x, y);
        let ghost pre = ps.subrange(0, k as int);
        let ghost next = ps.subrange(0, k + 1);
        assert(next.drop_last() =~= pre);
        match parse_int(&piece) {
            Some(v) => {
                out.push(v);
            },
            None => {
                proof {
                    lemma_args_prefix_none(ps, k + 1);
                }
                return None;
            },
        }
        k = k + 1;
    }
    assert(ps.subrange(0, k as int) =~= ps);
    Some(out)
}

proof fn lemma_args_prefix_none(ps: Seq<Seq<char>>, j: int)
    requires
        0 <= j <= ps.len(),
        args_value(ps.subrange(0, j)) is None,
    ensures
        args_value(ps) is None,
    decreases ps.len() - j,
{
    if j < ps.len() {
        let next = ps.subrange(0, j + 1);
        assert(next.drop_last() =~= ps.subrange(0, j));
        lemma_args_prefix_none(ps, j + 1);
    } else {
        assert(ps.subrange(0, j) =~= ps);
    }
}

fn parse_simple(ls: &str, t: &Vec<char>) -> (r: Option<Result<Statement, ParseError>>)
    requires
        ls@ == t@,
    ensures
        match (r, simple_stmt(t@)) {
            (Some(Ok(s)), Some(Ok(ss))) => stmt_view(s) == ss,
            (Some(Err(e)), Some(Err(se))) => e == se,
            (None, None) => true,
            _ => false,
        },
{
    if let Some((var, lit)) = match_assign(ls, t) {
        return Some(
            match parse_int(&lit) {
                Some(value) => Ok(Statement::VarAssign { var, value }),
                None => Err(ParseError::BadInteger),
            },
        );
    }
    if let Some((var, lit)) = match_update(ls, t) {
        return Some(
            match parse_int(&lit) {
                Some(value) => Ok(Statement::VarUpdate { var, value }),
                None => Err(ParseError::BadInteger),
            },
        );
    }
    if let Some((name, a)) = match_call(ls, t) {
        return Some(
            match parse_args(&a) {
                Some(args) => Ok(Statement::FunctionCall { name, args }),
                None => Err(ParseError::BadInteger),
            },
        );
    }
    None
}

} // verus!

verus! {

/// An open block of the parser, with what it has collected.
enum Open {
    Top,
    Then { var: String, value: i64, acc: Vec<Statement> },
    Else { var: String, value: i64, then_b: Vec<Statement>, acc: Vec<Statement> },
    Body { var: String, op: CmpOp, value: i64, acc: Vec<Statement> },
}

spec fn open_view(o: Open) -> Block {
    match o {
        Open::Top => Block::Top,
        Open::Then { var, value, acc } => Block::Then { var: var@, value, acc: block_view(acc@) },
        Open::Else { var, value, then_b, acc } => Block::Else {
            var: var@,
            value,
            then_b: block_view(then_b@),
            acc: block_view(acc@),
        },
        Open::Body { var, op, value, acc } => Block::Body {
            var: var@,
            op,
            value,
            acc: block_view(acc@),
        },
    }
}

fn close_open(o: Open, done: &mut Vec<Statement>)
    ensures
        block_view(final(done)@) == block_view(old(done)@) + closed(open_view(o)),
{
    proof {
        assert(block_view(Seq::<Statement>::empty()) == Seq::<Stmt>::empty());
    }
    let ghost before = done@;
    match o {
        Open::Top => {
            assert(block_view(before) + closed(open_view(o)) =~= block_view(before));
            return;
        },
        Open::Then { var, value, acc } => {
            done.push(Statement::IfCondition { var, value, true_branch: acc, false_branch: Vec::new() });
        },
        Open::Else { var, value, then_b, acc } => {
            done.push(Statement::IfCondition { var, value, true_branch: then_b, false_branch: acc });
        },
        Open::Body { var, op, value, acc } => {
            done.push(Statement::WhileLoop { var, op, value, body: acc });
        },
    }
    proof {
        lemma_block_view_push(before, done@.last());
        assert(done@ == before.push(done@.last()));
        assert(block_view(done@) =~= block_view(before) + closed(open_view(o)));
    }
}

pub(crate) fn is_text(t: &Vec<char>, w: &str) -> (r: bool)
    ensures
        r == (t@ == w@),
{
    if t.len() != w.unicode_len() {
        return false;
    }
    let r = has_at_exec(t, 0, w);
    assert(t@.subrange(0, t@.len() as int) =~= t@);
    r
}

impl Interpreter {
    /// Parses one line inside a block: a declaration, an update or a call.
    pub fn parse_statement(&self, line: &str) -> (r: Result<Statement, ParseError>)
        ensures
            match (r, nested_stmt(line@)) {
                (Ok(s), Ok(ss)) => stmt_view(s) == ss,
                (Err(e), Err(se)) => e == se,
                _ => false,
            },
    {
        let t = chars_of(line);
        match parse_simple(line, &t) {
            Some(r) => r,
            None => Err(ParseError::InvalidStatement),
        }
    }

    /// Parses a source text into its statements.
    pub fn parse(&self, code: &str) -> (r: Result<Vec<Statement>, ParseError>)
        ensures
            match (r, parse_program(code@)) {
                (Ok(v), Ok(sv)) => block_view(v@) == sv,
                (Err(e), Err(se)) => e == se,
                _ => false,
            },
    {
        let cs = chars_of(code);
        let spans = piece_spans(&cs, '\n', false);
        let ghost ls = lines_of(cs@);
        let mut done: Vec<Statement> = Vec::new();
        let mut open = Open::Top;
        let mut i: usize = 0;
        proof {
            assert(block_view(Seq::<Statement>::empty()) == Seq::<Stmt>::empty());
        }
        while i < spans.len()
            invariant
                i <= spans@.len(),
                cs@ == code@,
                ls == lines_of(cs@),
                spans@.len() == ls.len(),
                forall|j: int|
                    0 <= j < spans@.len() ==> {
                        &&& (#[trigger] spans@[j]).0 <= spans@[j].1 <= cs@.len()
                        &&& cs@.subrange(spans@[j].0 as int, spans@[j].1 as int) == ls[j]
                    },
                parse_program(code@) == parse_lines(ls, i as int, block_view(done@), open_view(open)),
            decreases spans@.len() - i,
        {
            let (lo, hi) = spans[i];
            let (a, b) = trim_span(&cs, lo, hi);
            let t = slice_chars(&cs, a, b);
            let line = code.substring_char(a, b);
            let ghost before = done@;
            assert(t@ == trim(ls[i as int]));
            open = match open {
                Open::Top => {
                    if let Some((var, lit)) = match_assign(line, &t) {
                        match parse_int(&lit) {
                            Some(value) => {
                                done.push(Statement::VarAssign { var, value });
                                proof {
                                    lemma_block_view_push(before, done@.last());
                                    assert(done@ == before.push(done@.last()));
                                }
                                Open::Top
                            },
                            None => return Err(ParseError::BadInteger),
                        }
                    } else if let Some((var, lit)) = match_update(line, &t) {
                        match parse_int(&lit) {
                            Some(value) => {
                                done.push(Statement::VarUpdate { var, value });
                                proof {
                                    lemma_block_view_push(before, done@.last());
                                    assert(done@ == before.push(done@.last()));
                                }
                                Open::Top
                            },
                            None => return Err(ParseError::BadInteger),
                        }
                    } else if let Some((var, lit)) = match_if(line, &t) {
                        match parse_int(&lit) {
                            Some(value) => Open::Then { var, value, acc: Vec::new() },
                            None => return Err(ParseError::BadInteger),
                        }
                    } else if let Some((var, op, lit)) = match_while(line, &t) {
                        match parse_int(&lit) {
                            Some(value) => Open::Body { var, op, value, acc: Vec::new() },
                            None => return Err(ParseError::BadInteger),
                        }
                    } else if let Some((name, a)) = match_call(line, &t) {
                        match parse_args(&a) {
                            Some(args) => {
                                done.push(Statement::FunctionCall { name, args });
                                proof {
                                    lemma_block_view_push(before, done@.last());
                                    assert(done@ == before.push(done@.last()));
                                }
                                Open::Top
                            },
                            None => return Err(ParseError::BadInteger),
                        }
                    } else {
                        Open::Top
                    }
                },
                Open::Then { var, value, acc } => {
                    if is_text(&t, "} else {") {
                        Open::Else { var, value, then_b: acc, acc: Vec::new() }
                    } else if is_text(&t, "}") {
                        close_open(Open::Then { var, value, acc }, &mut done);
                        Open::Top
                    } else {
                        let mut acc = acc;
                        let ghost acc0 = acc@;
                        match self.parse_statement(line) {
                            Ok(s) => {
                                acc.push(s);
                                proof {
                                    lemma_block_view_push(acc0, acc@.last());
                                    assert(acc@ == acc0.push(acc@.last()));
                                }
                                Open::Then { var, value, acc }
                            },
                            Err(e) => return Err(e),
                        }
                    }
                },
                Open::Else { var, value, then_b, acc } => {
                    if is_text(&t, "}") {
                        close_open(Open::Else { var, value, then_b, acc }, &mut done);
                        Open::Top
                    } else {
                        let mut acc = acc;
                        let ghost acc0 = acc@;
                        match self.parse_statement(line) {
                            Ok(s) => {
                                acc.push(s);
                                proof {
                                    lemma_block_view_push(acc0, acc@.last());
                                    assert(acc@ == acc0.push(acc@.last()));
                                }
                                Open::Else { var, value, then_b, acc }
                            },
                            Err(e) => return Err(e),
                        }
                    }
                },
                Open::Body { var, op, value, acc } => {
                    if is_text(&t, "}") {
                        close_open(Open::Body { var, op, value, acc }, &mut done);
                        Open::Top
                    } else {
                        let mut acc = acc;
                        let ghost acc0 = acc@;
                        match self.parse_statement(line) {
                            Ok(s) => {
                                acc.push(s);
                                proof {
                                    lemma_block_view_push(acc0, acc@.last());
                                    assert(acc@ == acc0.push(acc@.last()));
                                }
                                Open::Body { var, op, value, acc }
                            },
                            Err(e) => return Err(e),
                        }
                    }
                },
            };
            i = i + 1;
        }
        close_open(open, &mut done);
        Ok(done)
    }
}

} // verus!
