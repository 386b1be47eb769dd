use tinycalc::{
    apply_op, combine_values, evaluate_expr, generate_code, interpret, parse_expression,
    parse_program, parse_statement, precedence, split_lines, tokenize, Env, ErrorKind, Expr,
    LineError, Op, Pending, Stmt, Token,
};

fn value_of(text: &str) -> Result<i64, ErrorKind> {
    let e = parse_expression(text)?;
    evaluate_expr(&e, &Env::new())
}

#[test]
fn sums_and_mixed_arithmetic() {
    assert_eq!(value_of("3 + 4 + 6"), Ok(13));
    assert_eq!(value_of("3 + (4 * 2) / (1 - 5)"), Ok(1));
    assert_eq!(value_of("((7))"), Ok(7));
    assert_eq!(value_of("2 * (3 + 4) - 10 / 3"), Ok(11));
}

#[test]
fn subtraction_is_left_associative() {
    assert_eq!(value_of("10 - 2 - 3"), Ok(5));
    assert_eq!(value_of("100 / 10 / 5"), Ok(2));
}

#[test]
fn multiplication_binds_tighter() {
    assert_eq!(value_of("2 + 3 * 4"), Ok(14));
    assert_eq!(value_of("2 * 3 + 4"), Ok(10));
}

#[test]
fn unmatched_parentheses_fail() {
    assert_eq!(parse_expression("(1 + 2").unwrap_err(), ErrorKind::MismatchedParentheses);
    assert_eq!(parse_expression("1 + 2)").unwrap_err(), ErrorKind::MismatchedParentheses);
    assert_eq!(parse_expression("((3)").unwrap_err(), ErrorKind::MismatchedParentheses);
    assert_eq!(parse_expression(")").unwrap_err(), ErrorKind::MismatchedParentheses);
    // an operator without operands is met before the stray parenthesis
    assert_eq!(parse_expression("+ )").unwrap_err(), ErrorKind::InvalidExpression);
}

#[test]
fn declared_variable_is_visible_to_later_lines() {
    assert_eq!(interpret("var x = 5\nx + 1"), Ok(vec![5, 6]));
}

#[test]
fn undeclared_variable_fails() {
    assert_eq!(value_of("y + 1"), Err(ErrorKind::UndefinedVariable));
    assert_eq!(
        interpret("y + 1"),
        Err(LineError { line: 1, kind: ErrorKind::UndefinedVariable })
    );
}

#[test]
fn division_by_zero_fails() {
    assert_eq!(value_of("4 / 0"), Err(ErrorKind::DivisionByZero));
    assert_eq!(value_of("4 / (2 - 2)"), Err(ErrorKind::DivisionByZero));
}

#[test]
fn flat_code_reads_back_as_the_same_tree() {
    for text in ["1 + 2 + 3", "a - b - 7", "8 * x / 2", "42", "n"] {
        let e = parse_expression(text).unwrap();
        let code = generate_code(&e);
        assert_eq!(code, text);
        let again = parse_expression(&code).unwrap();
        assert_eq!(generate_code(&again), code);
        assert_eq!(format!("{:?}", again), format!("{:?}", e));
    }
}

#[test]
fn nested_precedence_is_lost_in_code() {
    let e = parse_expression("(1 + 2) * 3").unwrap();
    let code = generate_code(&e);
    assert_eq!(code, "1 + 2 * 3");
    assert_eq!(value_of(&code), Ok(7));
    assert_eq!(evaluate_expr(&e, &Env::new()), Ok(9));
}

#[test]
fn code_of_negative_number() {
    let e = Expr::Sub(Box::new(Expr::Number(-5)), Box::new(Expr::Variable("v".to_string())));
    assert_eq!(generate_code(&e), "-5 - v");
    assert_eq!(generate_code(&Expr::Number(i64::MIN)), "-9223372036854775808");
}

#[test]
fn tokens_of_a_line() {
    assert_eq!(
        tokenize("12ab+(x_1) $ 7"),
        vec![
            Token::Number(12),
            Token::Word("ab".to_string()),
            Token::Operator(Op::Add),
            Token::Open,
            Token::Word("x_1".to_string()),
            Token::Close,
            Token::Number(7),
        ]
    );
    assert_eq!(tokenize("  "), vec![]);
    assert_eq!(tokenize("a-b"), tokenize("a - b"));
}

#[test]
fn too_large_number_is_a_word() {
    assert_eq!(
        tokenize("99999999999999999999"),
        vec![Token::Word("99999999999999999999".to_string())]
    );
    assert_eq!(tokenize("9223372036854775807"), vec![Token::Number(i64::MAX)]);
    assert_eq!(value_of("99999999999999999999"), Err(ErrorKind::UndefinedVariable));
}

#[test]
fn malformed_expressions_fail() {
    assert_eq!(parse_expression("1 2").unwrap_err(), ErrorKind::InvalidExpression);
    assert_eq!(parse_expression("1 +").unwrap_err(), ErrorKind::InvalidExpression);
    assert_eq!(parse_expression("* 1").unwrap_err(), ErrorKind::InvalidExpression);
    assert_eq!(parse_expression("").unwrap_err(), ErrorKind::InvalidExpression);
    assert_eq!(parse_expression("()").unwrap_err(), ErrorKind::InvalidExpression);
}

#[test]
fn overflow_is_reported() {
    assert_eq!(value_of("9223372036854775807 + 1"), Err(ErrorKind::Overflow));
    assert_eq!(value_of("9223372036854775807 * 2"), Err(ErrorKind::Overflow));
    assert_eq!(value_of("0 - 9223372036854775807 - 1"), Ok(i64::MIN));
    assert_eq!(combine_values(Op::Div, i64::MIN, -1), Err(ErrorKind::Overflow));
}

#[test]
fn division_truncates_toward_zero() {
    assert_eq!(value_of("(0 - 7) / 2"), Ok(-3));
    assert_eq!(combine_values(Op::Div, 7, -2), Ok(-3));
    assert_eq!(combine_values(Op::Div, -7, -2), Ok(3));
    assert_eq!(combine_values(Op::Div, 0, 5), Ok(0));
    assert_eq!(combine_values(Op::Div, 1, 0), Err(ErrorKind::DivisionByZero));
}

#[test]
fn operator_precedence_values() {
    assert_eq!(precedence(Pending::Operator(Op::Add)), 1);
    assert_eq!(precedence(Pending::Operator(Op::Sub)), 1);
    assert_eq!(precedence(Pending::Operator(Op::Mul)), 2);
    assert_eq!(precedence(Pending::Operator(Op::Div)), 2);
    assert_eq!(precedence(Pending::Open), 0);
}

#[test]
fn apply_op_needs_two_operands() {
    let mut stack = vec![Expr::Number(1)];
    assert_eq!(apply_op(Op::Mul, &mut stack), Err(ErrorKind::InvalidExpression));
    assert_eq!(stack.len(), 1);
    stack.push(Expr::Variable("k".to_string()));
    assert_eq!(apply_op(Op::Mul, &mut stack), Ok(()));
    assert_eq!(stack.len(), 1);
    assert_eq!(generate_code(&stack[0]), "1 * k");
}

#[test]
fn environment_get_and_set() {
    let mut env = Env::new();
    assert_eq!(env.get(&"a".to_string()), None);
    env.set("a".to_string(), 3);
    env.set("b".to_string(), 4);
    env.set("a".to_string(), 5);
    assert_eq!(env.get(&"a".to_string()), Some(5));
    assert_eq!(env.get(&"b".to_string()), Some(4));
    let e = parse_expression("a * b").unwrap();
    assert_eq!(evaluate_expr(&e, &env), Ok(20));
}

#[test]
fn lines_of_a_text() {
    assert_eq!(split_lines("a\r\nb\n"), vec!["a".to_string(), "b".to_string()]);
    assert_eq!(split_lines(""), Vec::<String>::new());
    assert_eq!(split_lines("\n\nc"), vec!["".to_string(), "".to_string(), "c".to_string()]);
}

#[test]
fn statement_kinds() {
    match parse_statement("  var  total = 12 ").unwrap() {
        Stmt::Declaration(name, v) => {
            assert_eq!(name, "total");
            assert_eq!(v, 12);
        }
        other => panic!("not a declaration: {:?}", other),
    }
    match parse_statement("x = 2 + 3").unwrap() {
        Stmt::Assignment(name, e) => {
            assert_eq!(name, "x");
            assert_eq!(generate_code(&e), "2 + 3");
        }
        other => panic!("not an assignment: {:?}", other),
    }
    match parse_statement("varx = 1").unwrap() {
        Stmt::Assignment(name, _) => assert_eq!(name, "varx"),
        other => panic!("not an assignment: {:?}", other),
    }
    match parse_statement("x * 2").unwrap() {
        Stmt::Expression(e) => assert_eq!(generate_code(&e), "x * 2"),
        other => panic!("not an expression: {:?}", other),
    }
    assert_eq!(parse_statement("x = (1").unwrap_err(), ErrorKind::MismatchedParentheses);
}

#[test]
fn program_runs_in_order() {
    assert_eq!(interpret("x = 2 + 3\nx * 2"), Ok(vec![5, 10]));
    assert_eq!(interpret("var x = 1\nx = x + 1\nx"), Ok(vec![1, 2, 2]));
    // declarations are registered while parsing, before any line runs
    assert_eq!(interpret("x + 1\nvar x = 5"), Ok(vec![6, 5]));
    assert_eq!(interpret("3 + (4 * 2) / (1 - 5)"), Ok(vec![1]));
}

#[test]
fn errors_name_their_line() {
    assert_eq!(
        interpret("1\n(2"),
        Err(LineError { line: 2, kind: ErrorKind::MismatchedParentheses })
    );
    assert_eq!(
        interpret("1\n\n2"),
        Err(LineError { line: 2, kind: ErrorKind::InvalidExpression })
    );
    assert_eq!(
        interpret("var a = 1\na / (a - 1)"),
        Err(LineError { line: 2, kind: ErrorKind::DivisionByZero })
    );
}

#[test]
fn parsed_program_holds_variables_and_statements() {
    let mut p = parse_program("var a = 2\nb = a * 3\nb").unwrap();
    assert_eq!(p.statements.len(), 3);
    assert_eq!(p.variables.get(&"a".to_string()), Some(2));
    assert_eq!(p.variables.get(&"b".to_string()), None);
    assert_eq!(p.run(), Ok(vec![2, 6, 6]));
    assert_eq!(p.variables.get(&"b".to_string()), Some(6));
}
