use tiny_interp::{render_line, CmpOp, Interpreter, ParseError, RunError, Statement};

fn run(code: &str) -> (Result<(), RunError>, Interpreter) {
    let mut it = Interpreter::new();
    let stmts = it.parse(code).expect("program parses");
    let r = it.evaluate(stmts);
    (r, it)
}

fn printed(it: &Interpreter) -> String {
    it.output().iter().map(render_line).collect()
}

#[test]
fn scenario_if_else_prints_true_branch() {
    let code = r#"
        let x = 10;
        let y = 20;
        x = x + 5;
        if x == 15 {
            print(1, 2, 3);
        } else {
            print(4, 5, 6);
        }
    "#;
    let (r, it) = run(code);
    assert_eq!(r, Ok(()));
    assert_eq!(it.output(), &vec![vec![1, 2, 3]]);
    assert_eq!(printed(&it), "1 2 3 \n");
    assert_eq!(it.lookup(&"x".to_string()), Some(15));
    assert_eq!(it.lookup(&"y".to_string()), Some(20));
}

#[test]
fn scenario_else_branch_when_not_equal() {
    let code = "let x = 3;\nif x == 15 {\nprint(1, 2, 3);\n} else {\nprint(4, 5, 6);\n}\n";
    let (r, it) = run(code);
    assert_eq!(r, Ok(()));
    assert_eq!(printed(&it), "4 5 6 \n");
}

#[test]
fn scenario_loop_printing_variable_is_refused() {
    // `print(x);` names a variable where the grammar wants integer literals.
    let code = "let x = 0;\nwhile x < 5 {\n    x = x + 1;\n    print(x);\n}\n";
    let it = Interpreter::new();
    assert_eq!(it.parse(code).err(), Some(ParseError::BadInteger));
}

#[test]
fn scenario_loop_runs_five_times() {
    let code = "let x = 0;\nwhile x < 5 {\n    x = x + 1;\n    print(7);\n}\n";
    let (r, it) = run(code);
    assert_eq!(r, Ok(()));
    assert_eq!(printed(&it), "7 \n7 \n7 \n7 \n7 \n");
    assert_eq!(it.lookup(&"x".to_string()), Some(5));
}

#[test]
fn print_line_has_trailing_space() {
    assert_eq!(render_line(&vec![1, 2, 3]), "1 2 3 \n");
    assert_eq!(render_line(&vec![0, -7, 120]), "0 -7 120 \n");
    assert_eq!(render_line(&vec![i64::MIN, i64::MAX]), "-9223372036854775808 9223372036854775807 \n");
    assert_eq!(render_line(&vec![]), "\n");
}

#[test]
fn declaration_binds_value() {
    let (r, it) = run("let counter_1 = -42;");
    assert_eq!(r, Ok(()));
    assert_eq!(it.lookup(&"counter_1".to_string()), Some(-42));
    let (_, it) = run("let a = 1;\nlet a = 9;");
    assert_eq!(it.lookup(&"a".to_string()), Some(9));
}

#[test]
fn update_adds_or_skips() {
    let (r, it) = run("let x = 4;\nx = x + -10;");
    assert_eq!(r, Ok(()));
    assert_eq!(it.lookup(&"x".to_string()), Some(-6));
    let (r, it) = run("z = z + 3;");
    assert_eq!(r, Ok(()));
    assert_eq!(it.lookup(&"z".to_string()), None);
    // the name after `=` is not checked against the one before
    let (_, it) = run("let x = 1;\nx = y + 2;");
    assert_eq!(it.lookup(&"x".to_string()), Some(3));
}

#[test]
fn update_overflow_is_an_error() {
    let (r, _) = run("let x = 9223372036854775807;\nx = x + 1;");
    assert_eq!(r, Err(RunError::Overflow));
}

#[test]
fn if_on_undeclared_runs_neither_branch() {
    let (r, it) = run("if q == 0 {\nprint(1);\n} else {\nprint(2);\n}");
    assert_eq!(r, Ok(()));
    assert!(it.output().is_empty());
}

#[test]
fn while_counts_up_to_bound() {
    let (r, it) = run("let x = 2;\nwhile x < 7 {\nx = x + 1;\n}");
    assert_eq!(r, Ok(()));
    assert_eq!(it.lookup(&"x".to_string()), Some(7));
    let (r, it) = run("let x = 9;\nwhile x < 7 {\nx = x + 1;\nprint(1);\n}");
    assert_eq!(r, Ok(()));
    assert_eq!(it.lookup(&"x".to_string()), Some(9));
    assert!(it.output().is_empty());
    let (r, it) = run("while w < 7 {\nprint(1);\n}");
    assert_eq!(r, Ok(()));
    assert!(it.output().is_empty());
}

#[test]
fn unknown_function_is_fatal() {
    let mut it = Interpreter::new();
    let stmts = it.parse("print(1);\nfoo(1);\nprint(2);").unwrap();
    assert_eq!(stmts.len(), 3);
    assert_eq!(it.evaluate(stmts), Err(RunError::UnknownFunction));
    assert_eq!(it.output(), &vec![vec![1]]);
}

#[test]
fn nested_block_is_a_parse_error() {
    let it = Interpreter::new();
    let nested_if = "let x = 1;\nwhile x < 3 {\nif x == 1 {\nprint(1);\n}\n}";
    assert_eq!(it.parse(nested_if).err(), Some(ParseError::InvalidStatement));
    let nested_while = "let x = 1;\nif x == 1 {\nwhile x < 3 {\nx = x + 1;\n}\n}";
    assert_eq!(it.parse(nested_while).err(), Some(ParseError::InvalidStatement));
    let in_else = "let x = 1;\nif x == 2 {\n} else {\nif x == 1 {\n}\n}";
    assert_eq!(it.parse(in_else).err(), Some(ParseError::InvalidStatement));
}

#[test]
fn unknown_top_level_lines_are_skipped() {
    let it = Interpreter::new();
    let stmts = it.parse("hello world\n}\n} else {\nlet x = 1;\n# note").unwrap();
    assert_eq!(stmts.len(), 1);
    assert!(matches!(&stmts[0], Statement::VarAssign { var, value: 1 } if var == "x"));
}

#[test]
fn bad_lines_inside_blocks_are_fatal() {
    let it = Interpreter::new();
    assert_eq!(it.parse("if x == 1 {\n\n}").err(), Some(ParseError::InvalidStatement));
    assert_eq!(it.parse("while x < 1 {\nnonsense\n}").err(), Some(ParseError::InvalidStatement));
    assert_eq!(it.parse("while x < 1 {\n} else {\n}").err(), Some(ParseError::InvalidStatement));
}

#[test]
fn integer_literal_errors() {
    let it = Interpreter::new();
    assert_eq!(it.parse("let x = 9223372036854775808;").err(), Some(ParseError::BadInteger));
    assert_eq!(it.parse("print();").err(), Some(ParseError::BadInteger));
    assert_eq!(it.parse("print(1, );").err(), Some(ParseError::BadInteger));
    // a Unicode decimal digit matches the grammar but is not an i64 literal
    assert_eq!(it.parse("let x = \u{663};").err(), Some(ParseError::BadInteger));
    let stmts = it.parse("let m = -9223372036854775808;").unwrap();
    assert!(matches!(&stmts[0], Statement::VarAssign { value: i64::MIN, .. }));
}

#[test]
fn call_arguments_are_trimmed_and_may_carry_a_sign() {
    let (r, it) = run("print( 4 ,+5,-6 );");
    assert_eq!(r, Ok(()));
    assert_eq!(it.output(), &vec![vec![4, 5, -6]]);
}

#[test]
fn lines_are_trimmed_and_crlf_is_accepted() {
    let (r, it) = run("\t let x = 3;  \r\n  while x != 0 {\r\n x = x + -1;\r\n print(0);\r\n }\r\n");
    assert_eq!(r, Ok(()));
    assert_eq!(it.output().len(), 3);
    assert_eq!(it.lookup(&"x".to_string()), Some(0));
}

#[test]
fn unicode_word_characters_in_names() {
    let (r, it) = run("let café = 2;\ncafé = café + 1;");
    assert_eq!(r, Ok(()));
    assert_eq!(it.lookup(&"café".to_string()), Some(3));
}

#[test]
fn unclosed_block_ends_with_the_text() {
    let it = Interpreter::new();
    let stmts = it.parse("let x = 1;\nif x == 1 {\nprint(1);").unwrap();
    assert_eq!(stmts.len(), 2);
    match &stmts[1] {
        Statement::IfCondition { true_branch, false_branch, .. } => {
            assert_eq!(true_branch.len(), 1);
            assert!(false_branch.is_empty());
        }
        _ => panic!("expected a conditional"),
    }
}

#[test]
fn while_header_forms() {
    let it = Interpreter::new();
    let cases = [
        ("==", CmpOp::Eq),
        ("!=", CmpOp::Ne),
        ("<", CmpOp::Lt),
        (">", CmpOp::Gt),
        ("<=", CmpOp::Le),
        (">=", CmpOp::Ge),
    ];
    for (text, op) in cases {
        let code = format!("while n {} -3 {{\nprint(1);\n}}", text);
        let stmts = it.parse(&code).unwrap();
        assert!(matches!(&stmts[0], Statement::WhileLoop { op: o, value: -3, .. } if *o == op));
    }
}

#[test]
fn condition_compares_declared_variable() {
    let (_, it) = run("let v = 5;");
    let v = "v".to_string();
    assert!(it.evaluate_condition(&v, CmpOp::Eq, 5));
    assert!(!it.evaluate_condition(&v, CmpOp::Ne, 5));
    assert!(it.evaluate_condition(&v, CmpOp::Lt, 6));
    assert!(!it.evaluate_condition(&v, CmpOp::Gt, 5));
    assert!(it.evaluate_condition(&v, CmpOp::Le, 5));
    assert!(it.evaluate_condition(&v, CmpOp::Ge, 5));
    assert!(!it.evaluate_condition(&"u".to_string(), CmpOp::Ne, 5));
}

#[test]
fn parse_statement_accepts_only_simple_forms() {
    let it = Interpreter::new();
    assert!(matches!(it.parse_statement("x = x + 2;"), Ok(Statement::VarUpdate { value: 2, .. })));
    assert!(matches!(it.parse_statement("print(1, 2);"), Ok(Statement::FunctionCall { .. })));
    assert_eq!(it.parse_statement("if x == 1 {").err(), Some(ParseError::InvalidStatement));
    assert_eq!(it.parse_statement("let x = 1").err(), Some(ParseError::InvalidStatement));
}
