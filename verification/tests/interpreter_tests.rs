use plcourse::interpreter::EvalError;
use plcourse::interpreter::Interpreter;
use plcourse::parser::ASTNode;
use plcourse::parser::ParseError;
use plcourse::token::TokenType;

fn unary_op(op: &str, value: i32) -> ASTNode {
    ASTNode::UnaryOp { op: op.to_string(), value: Box::new(ASTNode::Number(value)) }
}

fn bin_op(left: i32, op: &str, right: i32) -> ASTNode {
    ASTNode::BinOp { left: Box::new(ASTNode::Number(left)), op: op.to_string(), right: Box::new(ASTNode::Number(right)) }
}

#[test]
fn visit_number() {
    let mut interpreter = Interpreter::new();
    assert_eq!(interpreter.visit(&ASTNode::Number(2)), 2)
}

#[test]
fn visit_ast_empty() {
    let mut interpreter = Interpreter::new();
    assert_eq!(interpreter.visit(&ASTNode::Empty), 0);
}

#[test]
fn visit_stmt_list() {
    let mut interpreter = Interpreter::new();
    assert_eq!(
        interpreter.visit(&ASTNode::StmtList { stmt: Box::new(ASTNode::Number(1)), rest: Box::new(ASTNode::Number(2)) }),
        2
    );
}

#[test]
fn visit_variable() {
    let mut interpreter = Interpreter::new();
    interpreter.eval("BEGIN x := 2 END.");
    assert_eq!(interpreter.visit(&ASTNode::Variable("x".to_string())), 2);
}

#[test]
fn reassign_variable() {
    let mut interpreter = Interpreter::new();
    interpreter.eval("BEGIN x := 2; x := 3 END.");
    assert_eq!(interpreter.visit(&ASTNode::Variable("x".to_string())), 3);
}

#[test]
fn visit_unary_op_negative() {
    let mut interpreter = Interpreter::new();
    let ast = unary_op("-", 2);
    assert_eq!(interpreter.visit(&ast), -2);
}

#[test]
fn visit_unary_op_positive() {
    let mut interpreter = Interpreter::new();
    let ast = unary_op("+", 2);
    assert_eq!(interpreter.visit(&ast), 2);
}

#[test]
fn visit_bin_op_sum() {
    let mut interpreter = Interpreter::new();
    assert_eq!(interpreter.visit(&bin_op(2, "+", 3)), 5);
}

#[test]
fn visit_bin_op_sub() {
    let mut interpreter = Interpreter::new();
    assert_eq!(interpreter.visit(&bin_op(2, "-", 3)), -1);
}

#[test]
fn visit_bin_op_div() {
    let mut interpreter = Interpreter::new();
    assert_eq!(interpreter.visit(&bin_op(10, "/", 5)), 2);
}

#[test]
fn visit_bin_op_mul() {
    let mut interpreter = Interpreter::new();
    assert_eq!(interpreter.visit(&bin_op(6, "*", 2)), 12);
}

#[test]
fn eval_complex_expression() {
    let mut interpreter = Interpreter::new();
    interpreter.eval("BEGIN x:=2 * (3 + 4) - 5 END.");
    assert_eq!(*interpreter.variables.get(&"x".to_string()).unwrap(), 9);
}

#[test]
fn division_rounds_toward_zero() {
    let mut interpreter = Interpreter::new();
    assert_eq!(interpreter.visit(&bin_op(-7, "/", 2)), -3);
    assert_eq!(interpreter.visit(&bin_op(7, "/", -2)), -3);
    assert_eq!(interpreter.visit(&bin_op(-7, "/", -2)), 3);
}

#[test]
fn division_by_zero_is_refused() {
    let mut interpreter = Interpreter::new();
    assert_eq!(interpreter.try_visit(&bin_op(1, "/", 0)), Err(EvalError::DivisionByZero));
}

#[test]
fn overflow_is_refused() {
    let mut interpreter = Interpreter::new();
    assert_eq!(interpreter.try_visit(&bin_op(i32::MAX, "+", 1)), Err(EvalError::Overflow));
    assert_eq!(interpreter.try_visit(&bin_op(i32::MIN, "/", -1)), Err(EvalError::Overflow));
    assert_eq!(interpreter.try_visit(&unary_op("-", i32::MIN)), Err(EvalError::Overflow));
    assert_eq!(interpreter.try_visit(&bin_op(65536, "*", 65536)), Err(EvalError::Overflow));
}

#[test]
fn unknown_variable_is_refused() {
    let mut interpreter = Interpreter::new();
    assert_eq!(
        interpreter.try_visit(&ASTNode::Variable("y".to_string())),
        Err(EvalError::UnknownVariable { name: "y".to_string() })
    );
}

#[test]
fn unknown_operator_is_refused() {
    let mut interpreter = Interpreter::new();
    assert_eq!(interpreter.try_visit(&bin_op(1, "%", 1)), Err(EvalError::UnknownOperator { op: "%".to_string() }));
}

#[test]
fn nested_blocks_and_variables() {
    let mut interpreter = Interpreter::new();
    let r = interpreter.eval("BEGIN y := 2; BEGIN a := 3; b := 10 + a + 10 * y / 4; c := a - b END.; x := 11 END.");
    assert_eq!(r, 11);
    // `*` and `/` group to the right: 10 * (y / 4) == 0
    assert_eq!(*interpreter.variables.get(&"b".to_string()).unwrap(), 13);
    assert_eq!(*interpreter.variables.get(&"c".to_string()).unwrap(), -10);
}

#[test]
fn parse_fault_is_reported() {
    let mut interpreter = Interpreter::new();
    assert_eq!(
        interpreter.try_eval("BEGIN x := END."),
        Err(EvalError::Parse(ParseError::UnexpectedToken { kind: TokenType::End, value: "END.".to_string() }))
    );
}

#[test]
fn unassigned_variables_keep_their_values() {
    let mut interpreter = Interpreter::new();
    interpreter.eval("BEGIN y := 5; z := 7 END.");
    assert_eq!(interpreter.eval("BEGIN x := y + 1 END."), 6);
    assert_eq!(*interpreter.variables.get(&"y".to_string()).unwrap(), 5);
    assert_eq!(*interpreter.variables.get(&"z".to_string()).unwrap(), 7);
    assert_eq!(*interpreter.variables.get(&"x".to_string()).unwrap(), 6);
}

#[test]
fn expression_without_assignment_leaves_variables() {
    let mut interpreter = Interpreter::new();
    interpreter.eval("BEGIN y := 5 END.");
    assert_eq!(interpreter.visit(&bin_op(2, "*", 3)), 6);
    assert_eq!(interpreter.variables.len(), 1);
    assert_eq!(*interpreter.variables.get(&"y".to_string()).unwrap(), 5);
}

#[test]
fn parsed_programs_fail_only_at_run_time() {
    let mut interpreter = Interpreter::new();
    assert_eq!(
        interpreter.try_eval("BEGIN x := q END."),
        Err(EvalError::UnknownVariable { name: "q".to_string() })
    );
    assert_eq!(interpreter.try_eval("BEGIN x := 4 / (2 - 2) END."), Err(EvalError::DivisionByZero));
    assert_eq!(interpreter.try_eval("BEGIN x := 2147483647 + 1 END."), Err(EvalError::Overflow));
    assert_eq!(interpreter.try_eval("BEGIN x := 4 / (3 - 2) END."), Ok(4));
}
