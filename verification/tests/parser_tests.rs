use plcourse::parser::ASTNode;
use plcourse::parser::ParseError;
use plcourse::parser::Parser;
use plcourse::lexer::LexError;
use plcourse::token::TokenType;

fn num(n: i32) -> Box<ASTNode> {
    Box::new(ASTNode::Number(n))
}

#[test]
fn program_empty_is_valid() {
    let mut parser = Parser::new(&"BEGIN END.");
    assert_eq!(parser.parse().unwrap(), ASTNode::Empty)
}

#[test]
fn stmts() {
    let mut parser = Parser::new(&"BEGIN a := 1; b := 2 END.");
    assert_eq!(
        parser.stmts().unwrap(),
        ASTNode::StmtList {
            stmt: Box::new(ASTNode::Assignment { variable: "a".to_string(), expr: Box::new(ASTNode::Number(1)) }),
            rest: Box::new(ASTNode::Assignment { variable: "b".to_string(), expr: Box::new(ASTNode::Number(2)) })
        }
    );
}

#[test]
fn stmt_token_end() {
    let mut parser = Parser::new(&"END");
    assert_eq!(parser.stmt().unwrap(), ASTNode::Empty);
}

#[test]
fn check_token_empty_is_valid() {
    let mut parser = Parser::new(&"");
    parser.check_token(TokenType::Number);
}

#[test]
fn expr_plus() {
    let mut parser = Parser::new(&"2+2");
    assert_eq!(parser.expr().unwrap(), ASTNode::BinOp { left: num(2), op: "+".to_string(), right: num(2) });
}

#[test]
fn fact_number() {
    let mut parser = Parser::new(&"2");
    assert_eq!(parser.fact().unwrap(), ASTNode::Number(2))
}

#[test]
fn fact_variable() {
    let mut parser = Parser::new(&"x");
    assert_eq!(parser.fact().unwrap(), ASTNode::Variable("x".to_string()));
}

#[test]
fn fact_unary_op_negative() {
    let mut parser = Parser::new(&"-(2)");
    assert_eq!(parser.fact().unwrap(), ASTNode::UnaryOp { op: "-".to_string(), value: num(2) })
}

#[test]
fn fact_unary_op_positive() {
    let mut parser = Parser::new(&"+(2)");
    assert_eq!(parser.fact().unwrap(), ASTNode::UnaryOp { op: "+".to_string(), value: num(2) })
}

#[test]
fn term_mul_binary_op() {
    let mut parser = Parser::new(&"2*2");
    assert_eq!(parser.term().unwrap(), ASTNode::BinOp { left: num(2), op: "*".to_string(), right: num(2) })
}

#[test]
fn expr_plus_binary_op() {
    let mut parser = Parser::new(&"2+2");
    assert_eq!(parser.expr().unwrap(), ASTNode::BinOp { left: num(2), op: "+".to_string(), right: num(2) })
}

#[test]
fn expr_empty_is_valid() {
    let mut parser = Parser::new(&"");
    assert_eq!(None, parser.expr());
}

#[test]
fn stmt_number_is_unexpected() {
    let mut parser = Parser::new(&"0");
    assert_eq!(
        parser.try_stmt(),
        Err(ParseError::UnexpectedToken { kind: TokenType::Number, value: "0".to_string() })
    );
}

#[test]
fn check_token_mismatch() {
    let mut parser = Parser::new(&"+");
    assert_eq!(
        parser.try_check_token(TokenType::Number),
        Err(ParseError::TokenMismatch { expected: TokenType::Number, found: TokenType::Operator })
    );
}

#[test]
fn expr_missing_operand() {
    assert_eq!(Parser::new("2+").try_expr(), Err(ParseError::MissingNode));
}

#[test]
fn term_missing_operand() {
    assert_eq!(Parser::new("2*").try_term(), Err(ParseError::MissingNode));
}

#[test]
fn unary_operator_must_be_sign() {
    let mut parser = Parser::new(&"*(2)");
    assert_eq!(parser.try_fact(), Err(ParseError::UnexpectedOperator { value: "*".to_string() }));
}

#[test]
fn rparen_cannot_start_expr() {
    let mut parser = Parser::new(&")");
    assert_eq!(
        parser.try_expr(),
        Err(ParseError::UnexpectedToken { kind: TokenType::RParen, value: ")".to_string() })
    );
}

#[test]
fn multiplication_binds_tighter() {
    let mut parser = Parser::new(&"1+2*3");
    assert_eq!(
        parser.expr().unwrap(),
        ASTNode::BinOp {
            left: num(1),
            op: "+".to_string(),
            right: Box::new(ASTNode::BinOp { left: num(2), op: "*".to_string(), right: num(3) })
        }
    );
}

#[test]
fn operators_group_to_the_right() {
    let mut parser = Parser::new(&"8-2-1");
    assert_eq!(
        parser.expr().unwrap(),
        ASTNode::BinOp {
            left: num(8),
            op: "-".to_string(),
            right: Box::new(ASTNode::BinOp { left: num(2), op: "-".to_string(), right: num(1) })
        }
    );
}

#[test]
fn number_too_large() {
    let mut parser = Parser::new(&"88888888888");
    assert_eq!(parser.try_fact(), Err(ParseError::BadNumber { value: "88888888888".to_string() }));
}

#[test]
fn lexer_fault_reaches_parser() {
    assert_eq!(Parser::try_new("@").err(), Some(ParseError::Lex(LexError::UnknownChar { ch: '@', pos: 0 })));
}

#[test]
fn text_after_program_is_refused() {
    let mut parser = Parser::new(&"BEGIN END. x");
    assert_eq!(
        parser.try_parse(),
        Err(ParseError::TokenMismatch { expected: TokenType::Dot, found: TokenType::ID })
    );
}
