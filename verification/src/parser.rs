use vstd::prelude::*;
use crate::lexer::lex_at;
use crate::lexer::LexError;
use crate::lexer::Lexed;
use crate::lexer::Lexer;
use crate::text::is_single_char;
use crate::text::all_digits;
use crate::text::decimal_value;
use crate::text::parse_decimal_i32;
use crate::token::Token;
use crate::token::TokenType;

verus! {

/// A node of the syntax tree of a program.
#[derive(Debug, PartialEq)]
pub enum ASTNode {
    Number(i32),
    BinOp { left: Box<ASTNode>, op: String, right: Box<ASTNode> },
    UnaryOp { op: String, value: Box<ASTNode> },
    Assignment { variable: String, expr: Box<ASTNode> },
    StmtList { stmt: Box<ASTNode>, rest: Box<ASTNode> },
    Variable(String),
    Empty,
}

/// The mathematical form of a syntax tree: strings become character sequences.
pub enum Ast {
    Number(i32),
    BinOp { left: Box<Ast>, op: Seq<char>, right: Box<Ast> },
    UnaryOp { op: Seq<char>, value: Box<Ast> },
    Assignment { variable: Seq<char>, expr: Box<Ast> },
    StmtList { stmt: Box<Ast>, rest: Box<Ast> },
    Variable(Seq<char>),
    Empty,
}

impl ASTNode {
    pub open spec fn to_ast(&self) -> Ast
        decreases self,
    {
        match self {
            ASTNode::Number(n) => Ast::Number(*n),
            ASTNode::BinOp { left, op, right } => Ast::BinOp {
                left: Box::new(left.to_ast()),
                op: op@,
                right: Box::new(right.to_ast()),
            },
            ASTNode::UnaryOp { op, value } => Ast::UnaryOp { op: op@, value: Box::new(value.to_ast()) },
            ASTNode::Assignment { variable, expr } => Ast::Assignment {
                variable: variable@,
                expr: Box::new(expr.to_ast()),
            },
            ASTNode::StmtList { stmt, rest } => Ast::StmtList {
                stmt: Box::new(stmt.to_ast()),
                rest: Box::new(rest.to_ast()),
            },
            ASTNode::Variable(v) => Ast::Variable(v@),
            ASTNode::Empty => Ast::Empty,
        }
    }
}

impl View for ASTNode {
    type V = Ast;

    open spec fn view(&self) -> Ast {
        self.to_ast()
    }
}

/// Why the parser stops on a program.
#[derive(Debug, PartialEq)]
pub enum ParseError {
    /// The lexer found no token.
    Lex(LexError),
    /// A token of kind `found` stood where one of kind `expected` was due.
    TokenMismatch { expected: TokenType, found: TokenType },
    /// A token that cannot start the construct being read.
    UnexpectedToken { kind: TokenType, value: String },
    /// An operator other than `+` or `-` in front of a parenthesis.
    UnexpectedOperator { value: String },
    /// The program ended where a construct was due.
    MissingNode,
    /// A number token that does not read as an `i32` (it is too large).
    BadNumber { value: String },
}

/// The mathematical form of a `ParseError`.
pub enum ParseFault {
    Lex(LexError),
    TokenMismatch { expected: TokenType, found: TokenType },
    UnexpectedToken { kind: TokenType, value: Seq<char> },
    UnexpectedOperator { value: Seq<char> },
    MissingNode,
    BadNumber { value: Seq<char> },
}

impl View for ParseError {
    type V = ParseFault;

    open spec fn view(&self) -> ParseFault {
        match self {
            ParseError::Lex(e) => ParseFault::Lex(*e),
            ParseError::TokenMismatch { expected, found } => ParseFault::TokenMismatch {
                expected: *expected,
                found: *found,
            },
            ParseError::UnexpectedToken { kind, value } => ParseFault::UnexpectedToken {
                kind: *kind,
                value: value@,
            },
            ParseError::UnexpectedOperator { value } => ParseFault::UnexpectedOperator { value: value@ },
            ParseError::MissingNode => ParseFault::MissingNode,
            ParseError::BadNumber { value } => ParseFault::BadNumber { value: value@ },
        }
    }
}

/// Where the parser stands: the lexer's position and the current token.
pub struct PState {
    pub pos: nat,
    pub cur: Option<(TokenType, Seq<char>)>,
}

/// What a parsing step gives: a tree (or none) and the state after it, or a fault.
pub type PRes = Result<(Option<Ast>, PState), ParseFault>;

/// A measure of the input left, which each consumed token lowers. The models below
/// test it before each recursive call; those tests always pass (see `lemma_fact_left`).
pub open spec fn left(s: Seq<char>, st: PState) -> nat {
    (if st.pos <= s.len() { (s.len() - st.pos) as nat } else { 0nat }) + (if st.cur is Some { 1nat } else { 0nat })
}

/// Reads the next token into the current one.
pub open spec fn sp_step(s: Seq<char>, st: PState) -> Result<PState, ParseFault> {
    match lex_at(s, st.pos) {
        Lexed::Done(p) => Ok(PState { pos: p, cur: None }),
        Lexed::Token(kind, text, p) => Ok(PState { pos: p, cur: Some((kind, text)) }),
        Lexed::Failed(e) => Err(ParseFault::Lex(e)),
    }
}

/// Checks the kind of the current token, if there is one, and moves past it.
pub open spec fn sp_check(s: Seq<char>, st: PState, expected: TokenType) -> Result<PState, ParseFault> {
    match st.cur {
        None => Ok(st),
        Some((kind, _)) => if kind != expected {
            Err(ParseFault::TokenMismatch { expected, found: kind })
        } else {
            sp_step(s, st)
        },
    }
}

pub open spec fn cur_is(st: PState, c: char) -> bool {
    st.cur matches Some((_, v)) && v == seq![c]
}

/// `<fact> ::= <number> | <id> | ( <expr> ) | - ( <expr> ) | + ( <expr> )`
pub open spec fn sp_fact(s: Seq<char>, st: PState) -> PRes
    decreases left(s, st), 0nat,
{
    match st.cur {
        None => Ok((None, st)),
        Some((kind, v)) => {
            if kind == TokenType::Number {
                match sp_step(s, st) {
                    Err(e) => Err(e),
                    Ok(st1) => if v.len() > 0 && all_digits(v) && decimal_value(v) <= i32::MAX {
                        Ok((Some(Ast::Number(decimal_value(v) as i32)), st1))
                    } else {
                        Err(ParseFault::BadNumber { value: v })
                    },
                }
            } else if kind == TokenType::LParen {
                match sp_check(s, st, TokenType::LParen) {
                    Err(e) => Err(e),
                    Ok(st1) => if left(s, st1) < left(s, st) {
                        match sp_expr(s, st1) {
                            Err(e) => Err(e),
                            Ok((None, _)) => Err(ParseFault::MissingNode),
                            Ok((Some(e), st2)) => match sp_check(s, st2, TokenType::RParen) {
                                Err(f) => Err(f),
                                Ok(st3) => Ok((Some(e), st3)),
                            },
                        }
                    } else {
                        Err(ParseFault::MissingNode)
                    },
                }
            } else if kind == TokenType::Operator {
                if v != seq!['-'] && v != seq!['+'] {
                    Err(ParseFault::UnexpectedOperator { value: v })
                } else {
                    match sp_check(s, st, TokenType::Operator) {
                        Err(e) => Err(e),
                        Ok(st1) => match sp_check(s, st1, TokenType::LParen) {
                            Err(e) => Err(e),
                            Ok(st2) => if left(s, st2) < left(s, st) {
                                match sp_expr(s, st2) {
                                    Err(e) => Err(e),
                                    Ok((None, _)) => Err(ParseFault::MissingNode),
                                    Ok((Some(e), st3)) => match sp_check(s, st3, TokenType::RParen) {
                                        Err(f) => Err(f),
                                        Ok(st4) => Ok((Some(Ast::UnaryOp { op: v, value: Box::new(e) }), st4)),
                                    },
                                }
                            } else {
                                Err(ParseFault::MissingNode)
                            },
                        },
                    }
                }
            } else if kind == TokenType::ID {
                match sp_step(s, st) {
                    Err(e) => Err(e),
                    Ok(st1) => Ok((Some(Ast::Variable(v)), st1)),
                }
            } else {
                Err(ParseFault::UnexpectedToken { kind, value: v })
            }
        },
    }
}

/// The loop of `<term>`: while the current token is `*` or `/`, reads it and a `<term>`.
pub open spec fn sp_term_loop(s: Seq<char>, acc: Ast, st: PState) -> PRes
    decreases left(s, st), 1nat,
{
    match st.cur {
        Some((_, v)) => if v == seq!['*'] || v == seq!['/'] {
            match sp_check(s, st, TokenType::Operator) {
                Err(e) => Err(e),
                Ok(st1) => if left(s, st1) < left(s, st) {
                    match sp_term(s, st1) {
                        Err(e) => Err(e),
                        Ok((None, _)) => Err(ParseFault::MissingNode),
                        Ok((Some(r), st2)) => if left(s, st2) <= left(s, st1) {
                            sp_term_loop(s, Ast::BinOp { left: Box::new(acc), op: v, right: Box::new(r) }, st2)
                        } else {
                            Err(ParseFault::MissingNode)
                        },
                    }
                } else {
                    Err(ParseFault::MissingNode)
                },
            }
        } else {
            Ok((Some(acc), st))
        },
        None => Ok((Some(acc), st)),
    }
}

/// `<term> ::= <fact> | <fact> * <term> | <fact> / <term>`
pub open spec fn sp_term(s: Seq<char>, st: PState) -> PRes
    decreases left(s, st), 2nat,
{
    match sp_fact(s, st) {
        Err(e) => Err(e),
        Ok((None, st1)) => Ok((None, st1)),
        Ok((Some(f), st1)) => if left(s, st1) <= left(s, st) {
            sp_term_loop(s, f, st1)
        } else {
            Err(ParseFault::MissingNode)
        },
    }
}

/// The loop of `<expr>`: while the current token is `+` or `-`, reads it and an `<expr>`.
pub open spec fn sp_expr_loop(s: Seq<char>, acc: Ast, st: PState) -> PRes
    decreases left(s, st), 3nat,
{
    match st.cur {
        Some((_, v)) => if v == seq!['+'] || v == seq!['-'] {
            match sp_check(s, st, TokenType::Operator) {
                Err(e) => Err(e),
                Ok(st1) => if left(s, st1) < left(s, st) {
                    match sp_expr(s, st1) {
                        Err(e) => Err(e),
                        Ok((None, _)) => Err(ParseFault::MissingNode),
                        Ok((Some(r), st2)) => if left(s, st2) <= left(s, st1) {
                            sp_expr_loop(s, Ast::BinOp { left: Box::new(acc), op: v, right: Box::new(r) }, st2)
                        } else {
                            Err(ParseFault::MissingNode)
                        },
                    }
                } else {
                    Err(ParseFault::MissingNode)
                },
            }
        } else {
            Ok((Some(acc), st))
        },
        None => Ok((Some(acc), st)),
    }
}

/// `<expr> ::= <term> | <term> + <expr> | <term> - <expr>`
pub open spec fn sp_expr(s: Seq<char>, st: PState) -> PRes
    decreases left(s, st), 4nat,
{
    match sp_term(s, st) {
        Err(e) => Err(e),
        Ok((None, st1)) => Ok((None, st1)),
        Ok((Some(t), st1)) => if left(s, st1) <= left(s, st) {
            sp_expr_loop(s, t, st1)
        } else {
            Err(ParseFault::MissingNode)
        },
    }
}

/// `<assignment> ::= <id> := <expr>`
pub open spec fn sp_assignment(s: Seq<char>, st: PState) -> PRes {
    match st.cur {
        None => Err(ParseFault::MissingNode),
        Some((_, v)) => match sp_check(s, st, TokenType::ID) {
            Err(e) => Err(e),
            Ok(st1) => match sp_check(s, st1, TokenType::Assign) {
                Err(e) => Err(e),
                Ok(st2) => match sp_expr(s, st2) {
                    Err(e) => Err(e),
                    Ok((None, _)) => Err(ParseFault::MissingNode),
                    Ok((Some(e), st3)) => Ok((Some(Ast::Assignment { variable: v, expr: Box::new(e) }), st3)),
                },
            },
        },
    }
}

/// `<stmt> ::= <assignment> | <complex_stmt> | <empty>` (the empty statement stands before `END`).
pub open spec fn sp_stmt(s: Seq<char>, st: PState) -> PRes
    decreases left(s, st), 1nat,
{
    match st.cur {
        None => Err(ParseFault::MissingNode),
        Some((kind, v)) => if kind == TokenType::ID {
            sp_assignment(s, st)
        } else if kind == TokenType::Begin {
            sp_complex_stmt(s, st)
        } else if kind == TokenType::End {
            Ok((Some(Ast::Empty), st))
        } else {
            Err(ParseFault::UnexpectedToken { kind, value: v })
        },
    }
}

/// `<stmts> ::= <stmt> | <stmt> ; <stmts>`
pub open spec fn sp_stmts(s: Seq<char>, st: PState) -> PRes
    decreases left(s, st), 2nat,
{
    match sp_stmt(s, st) {
        Err(e) => Err(e),
        Ok((None, _)) => Err(ParseFault::MissingNode),
        Ok((Some(first), st1)) => match st1.cur {
            Some((kind, _)) => if kind == TokenType::SEMI {
                match sp_step(s, st1) {
                    Err(e) => Err(e),
                    Ok(st2) => if left(s, st2) < left(s, st) {
                        match sp_stmts(s, st2) {
                            Err(e) => Err(e),
                            Ok((None, _)) => Err(ParseFault::MissingNode),
                            Ok((Some(rest), st3)) => Ok((
                                Some(Ast::StmtList { stmt: Box::new(first), rest: Box::new(rest) }),
                                st3,
                            )),
                        }
                    } else {
                        Err(ParseFault::MissingNode)
                    },
                }
            } else {
                Ok((Some(first), st1))
            },
            None => Ok((Some(first), st1)),
        },
    }
}

/// `<complex_stmt> ::= BEGIN <stmts> END`
pub open spec fn sp_complex_stmt(s: Seq<char>, st: PState) -> PRes
    decreases left(s, st), 0nat,
{
    match sp_check(s, st, TokenType::Begin) {
        Err(e) => Err(e),
        Ok(st1) => if st1.cur is None {
            Err(ParseFault::MissingNode)
        } else if left(s, st1) < left(s, st) {
            match sp_stmts(s, st1) {
                Err(e) => Err(e),
                Ok((None, _)) => Err(ParseFault::MissingNode),
                Ok((Some(body), st2)) => match sp_check(s, st2, TokenType::End) {
                    Err(e) => Err(e),
                    Ok(st3) => Ok((Some(body), st3)),
                },
            }
        } else {
            Err(ParseFault::MissingNode)
        },
    }
}

/// `<program> ::= <complex_stmt>`, after which only a `Dot` token may stand.
pub open spec fn sp_program(s: Seq<char>, st: PState) -> PRes {
    match sp_complex_stmt(s, st) {
        Err(e) => Err(e),
        Ok((None, _)) => Err(ParseFault::MissingNode),
        Ok((Some(body), st1)) => match sp_check(s, st1, TokenType::Dot) {
            Err(e) => Err(e),
            Ok(st2) => Ok((Some(body), st2)),
        },
    }
}

proof fn lemma_step_left(s: Seq<char>, st: PState)
    ensures
        sp_step(s, st) matches Ok(st1) ==> left(s, st1) <= left(s, st)
            && (st.cur is Some ==> left(s, st1) < left(s, st)),
{
    crate::lexer::lemma_lex_progress(s, st.pos);
}

proof fn lemma_check_left(s: Seq<char>, st: PState, expected: TokenType)
    ensures
        sp_check(s, st, expected) matches Ok(st1) ==> (st.cur is None ==> st1 == st)
            && (st.cur is Some ==> left(s, st1) < left(s, st)),
{
    lemma_step_left(s, st);
}

/// Reading a `<fact>` leaves no more input than it found. With the lemmas below, this
/// shows that the guards `left(..) <= left(..)` and `left(..) < left(..)` in the models
/// always hold where they are tested, so their `MissingNode` branches are never taken:
/// they only make the measure of the recursion visible.
pub proof fn lemma_fact_left(s: Seq<char>, st: PState)
    ensures
        sp_fact(s, st) matches Ok((_, st1)) ==> left(s, st1) <= left(s, st),
    decreases left(s, st), 0nat,
{
    lemma_step_left(s, st);
    lemma_check_left(s, st, TokenType::LParen);
    lemma_check_left(s, st, TokenType::Operator);
    match st.cur {
        Some((kind, v)) => {
            if kind == TokenType::LParen {
                match sp_check(s, st, TokenType::LParen) {
                    Ok(st1) => {
                        lemma_expr_left(s, st1);
                        match sp_expr(s, st1) {
                            Ok((Some(_), st2)) => lemma_check_left(s, st2, TokenType::RParen),
                            _ => {},
                        }
                    },
                    Err(_) => {},
                }
            } else if kind == TokenType::Operator {
                match sp_check(s, st, TokenType::Operator) {
                    Ok(st1) => {
                        lemma_check_left(s, st1, TokenType::LParen);
                        match sp_check(s, st1, TokenType::LParen) {
                            Ok(st2) => {
                                lemma_expr_left(s, st2);
                                match sp_expr(s, st2) {
                                    Ok((Some(_), st3)) => lemma_check_left(s, st3, TokenType::RParen),
                                    _ => {},
                                }
                            },
                            Err(_) => {},
                        }
                    },
                    Err(_) => {},
                }
            }
        },
        None => {},
    }
}

/// Reading the rest of a `<term>` leaves no more input than it found.
pub proof fn lemma_term_loop_left(s: Seq<char>, acc: Ast, st: PState)
    ensures
        sp_term_loop(s, acc, st) matches Ok((_, st1)) ==> left(s, st1) <= left(s, st),
    decreases left(s, st), 1nat,
{
    lemma_check_left(s, st, TokenType::Operator);
    match st.cur {
        Some((_, v)) => if v == seq!['*'] || v == seq!['/'] {
            match sp_check(s, st, TokenType::Operator) {
                Ok(st1) => {
                    lemma_term_left(s, st1);
                    match sp_term(s, st1) {
                        Ok((Some(r), st2)) => {
                            lemma_term_loop_left(s, Ast::BinOp { left: Box::new(acc), op: v, right: Box::new(r) }, st2);
                        },
                        _ => {},
                    }
                },
                Err(_) => {},
            }
        },
        None => {},
    }
}

/// Reading a `<term>` leaves no more input than it found.
pub proof fn lemma_term_left(s: Seq<char>, st: PState)
    ensures
        sp_term(s, st) matches Ok((_, st1)) ==> left(s, st1) <= left(s, st),
    decreases left(s, st), 2nat,
{
    lemma_fact_left(s, st);
    match sp_fact(s, st) {
        Ok((Some(f), st1)) => lemma_term_loop_left(s, f, st1),
        _ => {},
    }
}

/// Reading the rest of an `<expr>` leaves no more input than it found.
pub proof fn lemma_expr_loop_left(s: Seq<char>, acc: Ast, st: PState)
    ensures
        sp_expr_loop(s, acc, st) matches Ok((_, st1)) ==> left(s, st1) <= left(s, st),
    decreases left(s, st), 3nat,
{
    lemma_check_left(s, st, TokenType::Operator);
    match st.cur {
        Some((_, v)) => if v == seq!['+'] || v == seq!['-'] {
            match sp_check(s, st, TokenType::Operator) {
                Ok(st1) => {
                    lemma_expr_left(s, st1);
                    match sp_expr(s, st1) {
                        Ok((Some(r), st2)) => {
                            lemma_expr_loop_left(s, Ast::BinOp { left: Box::new(acc), op: v, right: Box::new(r) }, st2);
                        },
                        _ => {},
                    }
                },
                Err(_) => {},
            }
        },
        None => {},
    }
}

/// Reading an `<expr>` leaves no more input than it found.
pub proof fn lemma_expr_left(s: Seq<char>, st: PState)
    ensures
        sp_expr(s, st) matches Ok((_, st1)) ==> left(s, st1) <= left(s, st),
    decreases left(s, st), 4nat,
{
    lemma_term_left(s, st);
    match sp_term(s, st) {
        Ok((Some(t), st1)) => lemma_expr_loop_left(s, t, st1),
        _ => {},
    }
}

/// Reading a `<stmt>` leaves no more input than it found.
pub proof fn lemma_stmt_left(s: Seq<char>, st: PState)
    ensures
        sp_stmt(s, st) matches Ok((_, st1)) ==> left(s, st1) <= left(s, st),
    decreases left(s, st), 1nat,
{
    match st.cur {
        Some((kind, _)) => if kind == TokenType::ID {
            lemma_check_left(s, st, TokenType::ID);
            match sp_check(s, st, TokenType::ID) {
                Ok(st1) => {
                    lemma_check_left(s, st1, TokenType::Assign);
                    match sp_check(s, st1, TokenType::Assign) {
                        Ok(st2) => lemma_expr_left(s, st2),
                        Err(_) => {},
                    }
                },
                Err(_) => {},
            }
        } else if kind == TokenType::Begin {
            lemma_complex_left(s, st);
        },
        None => {},
    }
}

/// Reading `<stmts>` leaves no more input than it found.
pub proof fn lemma_stmts_left(s: Seq<char>, st: PState)
    ensures
        sp_stmts(s, st) matches Ok((_, st1)) ==> left(s, st1) <= left(s, st),
    decreases left(s, st), 2nat,
{
    lemma_stmt_left(s, st);
    match sp_stmt(s, st) {
        Ok((Some(_), st1)) => {
            lemma_step_left(s, st1);
            match sp_step(s, st1) {
                Ok(st2) => if st1.cur is Some && left(s, st2) < left(s, st) {
                    lemma_stmts_left(s, st2);
                },
                Err(_) => {},
            }
        },
        _ => {},
    }
}

/// Reading a `<complex_stmt>` leaves no more input than it found.
pub proof fn lemma_complex_left(s: Seq<char>, st: PState)
    ensures
        sp_complex_stmt(s, st) matches Ok((_, st1)) ==> left(s, st1) <= left(s, st),
    decreases left(s, st), 0nat,
{
    lemma_check_left(s, st, TokenType::Begin);
    match sp_check(s, st, TokenType::Begin) {
        Ok(st1) => if st1.cur is Some && left(s, st1) < left(s, st) {
            lemma_stmts_left(s, st1);
            match sp_stmts(s, st1) {
                Ok((Some(_), st2)) => lemma_check_left(s, st2, TokenType::End),
                _ => {},
            }
        },
        Err(_) => {},
    }
}

/// A statement that starts with a name followed by `:=` and an expression is the
/// assignment of that expression to that name, whatever the name: the statement ends
/// where the expression ends.
pub proof fn law_assignment_of_any_name(
    s: Seq<char>,
    st: PState,
    v: Seq<char>,
    st1: PState,
    w: Seq<char>,
    st2: PState,
    e: Ast,
    st3: PState,
)
    requires
        st.cur == Some((TokenType::ID, v)),
        sp_step(s, st) == Ok::<PState, ParseFault>(st1),
        st1.cur == Some((TokenType::Assign, w)),
        sp_step(s, st1) == Ok::<PState, ParseFault>(st2),
        sp_expr(s, st2) == Ok::<(Option<Ast>, PState), ParseFault>((Some(e), st3)),
    ensures
        sp_stmt(s, st) == Ok::<(Option<Ast>, PState), ParseFault>(
            (Some(Ast::Assignment { variable: v, expr: Box::new(e) }), st3),
        ),
{
}

/// A program that parses gives a tree.
pub proof fn law_program_gives_tree(s: Seq<char>, st: PState)
    requires
        sp_program(s, st) is Ok,
    ensures
        sp_program(s, st)->Ok_0.0 is Some,
{
}

/// The state of a parser that has just been made for `s`.
pub open spec fn sp_start(s: Seq<char>) -> Result<PState, ParseFault> {
    sp_step(s, PState { pos: 0, cur: None })
}

pub open spec fn token_view(t: Option<Token>) -> Option<(TokenType, Seq<char>)> {
    match t {
        Some(t) => Some(t@),
        None => None,
    }
}

pub open spec fn node_view(n: Option<ASTNode>) -> Option<Ast> {
    match n {
        Some(n) => Some(n@),
        None => None,
    }
}

/// A parsing result in the form of `PRes`, with the parser's state after it.
pub open spec fn outcome(res: Result<Option<ASTNode>, ParseError>, st: PState) -> PRes {
    match res {
        Ok(n) => Ok((node_view(n), st)),
        Err(e) => Err(e@),
    }
}

/// The result of a move in the form of `sp_step` and `sp_check`.
pub open spec fn moved(res: Result<(), ParseError>, st: PState) -> Result<PState, ParseFault> {
    match res {
        Ok(()) => Ok(st),
        Err(e) => Err(e@),
    }
}

/// A recursive-descent parser over the tokens of a program.
pub struct Parser {
    lexer: Lexer,
    current_token: Option<Token>,
}

impl Parser {
    /// The characters of the program.
    pub closed spec fn input(&self) -> Seq<char> {
        self.lexer.input()
    }

    /// The lexer's position and the current token.
    pub closed spec fn state(&self) -> PState {
        PState { pos: self.lexer.position(), cur: token_view(self.current_token) }
    }

    pub open spec fn remaining(&self) -> nat {
        left(self.input(), self.state())
    }

    /// A parser for `code`, with its first token read, or the lexer's fault on it.
    pub fn try_new(code: &str) -> (res: Result<Parser, ParseError>)
        ensures
            match sp_start(code@) {
                Ok(st) => res matches Ok(p) && p.input() == code@ && p.state() == st,
                Err(e) => res matches Err(f) && f@ == e,
            },
    {
        let mut lexer = Lexer::new(code);
        match lexer.try_next_token() {
            Ok(current_token) => Ok(Parser { lexer, current_token }),
            Err(e) => Err(ParseError::Lex(e)),
        }
    }

    /// A parser for `code`, with its first token read.
    pub fn new(code: &str) -> (p: Parser)
        requires
            sp_start(code@) is Ok,
        ensures
            p.input() == code@,
            sp_start(code@) == Ok::<PState, ParseFault>(p.state()),
    {
        let mut lexer = Lexer::new(code);
        let current_token = lexer.next_token();
        Parser { lexer, current_token }
    }

    fn try_step(&mut self) -> (res: Result<(), ParseError>)
        ensures
            final(self).input() == old(self).input(),
            moved(res, final(self).state()) == sp_step(old(self).input(), old(self).state()),
    {
        match self.lexer.try_next_token() {
            Ok(t) => {
                self.current_token = t;
                Ok(())
            },
            Err(e) => Err(ParseError::Lex(e)),
        }
    }

    /// Checks that the current token, if any, is of kind `expected`, and reads the next one.
    pub fn try_check_token(&mut self, expected: TokenType) -> (res: Result<(), ParseError>)
        ensures
            final(self).input() == old(self).input(),
            moved(res, final(self).state()) == sp_check(old(self).input(), old(self).state(), expected),
    {
        match &self.current_token {
            None => Ok(()),
            Some(token) => {
                if token._type != expected {
                    Err(ParseError::TokenMismatch { expected, found: token._type })
                } else {
                    self.try_step()
                }
            },
        }
    }

    /// Checks that the current token, if any, is of kind `expected`, and reads the next one.
    pub fn check_token(&mut self, expected: TokenType)
        requires
            sp_check(old(self).input(), old(self).state(), expected) is Ok,
        ensures
            final(self).input() == old(self).input(),
            sp_check(old(self).input(), old(self).state(), expected) == Ok::<PState, ParseFault>(final(self).state()),
    {
        let _ = self.try_check_token(expected);
    }

    /// Whether the current token's text is the character `a` or the character `b`.
    fn current_is(&self, a: char, b: char) -> (r: bool)
        ensures
            r == (cur_is(self.state(), a) || cur_is(self.state(), b)),
    {
        match &self.current_token {
            Some(t) => is_single_char(&t.value, a) || is_single_char(&t.value, b),
            None => false,
        }
    }

    /// Reads a `<fact>`; `None` where no token is left.
    pub fn try_fact(&mut self) -> (res: Result<Option<ASTNode>, ParseError>)
        ensures
            final(self).input() == old(self).input(),
            outcome(res, final(self).state()) == sp_fact(old(self).input(), old(self).state()),
            res is Ok ==> final(self).remaining() <= old(self).remaining(),
        decreases old(self).remaining(), 0nat,
    {
        let ghost s = self.input();
        let ghost st0 = self.state();
        let tok = match &self.current_token {
            None => {
                return Ok(None);
            },
            Some(t) => t.duplicate(),
        };
        if tok._type == TokenType::Number {
            match self.try_step() {
                Err(e) => {
                    return Err(e);
                },
                Ok(()) => {},
            }
            proof {
                lemma_step_left(s, st0);
            }
            match parse_decimal_i32(&tok.value) {
                Some(n) => Ok(Some(ASTNode::Number(n))),
                None => Err(ParseError::BadNumber { value: tok.value }),
            }
        } else if tok._type == TokenType::LParen {
            match self.try_check_token(TokenType::LParen) {
                Err(e) => {
                    return Err(e);
                },
                Ok(()) => {},
            }
            proof {
                lemma_check_left(s, st0, TokenType::LParen);
            }
            let e = match self.try_expr() {
                Err(e) => {
                    return Err(e);
                },
                Ok(None) => {
                    return Err(ParseError::MissingNode);
                },
                Ok(Some(e)) => e,
            };
            let ghost st2 = self.state();
            match self.try_check_token(TokenType::RParen) {
                Err(f) => {
                    return Err(f);
                },
                Ok(()) => {},
            }
            proof {
                lemma_check_left(s, st2, TokenType::RParen);
            }
            Ok(Some(e))
        } else if tok._type == TokenType::Operator {
            if !is_single_char(&tok.value, '-') && !is_single_char(&tok.value, '+') {
                return Err(ParseError::UnexpectedOperator { value: tok.value });
            }
            match self.try_check_token(TokenType::Operator) {
                Err(e) => {
                    return Err(e);
                },
                Ok(()) => {},
            }
            let ghost st1 = self.state();
            match self.try_check_token(TokenType::LParen) {
                Err(e) => {
                    return Err(e);
                },
                Ok(()) => {},
            }
            proof {
                lemma_check_left(s, st0, TokenType::Operator);
                lemma_check_left(s, st1, TokenType::LParen);
            }
            let e = match self.try_expr() {
                Err(e) => {
                    return Err(e);
                },
                Ok(None) => {
                    return Err(ParseError::MissingNode);
                },
                Ok(Some(e)) => e,
            };
            let ghost st3 = self.state();
            match self.try_check_token(TokenType::RParen) {
                Err(f) => {
                    return Err(f);
                },
                Ok(()) => {},
            }
            proof {
                lemma_check_left(s, st3, TokenType::RParen);
            }
            Ok(Some(ASTNode::UnaryOp { op: tok.value, value: Box::new(e) }))
        } else if tok._type == TokenType::ID {
            match self.try_step() {
                Err(e) => {
                    return Err(e);
                },
                Ok(()) => {},
            }
            proof {
                lemma_step_left(s, st0);
            }
            Ok(Some(ASTNode::Variable(tok.value)))
        } else {
            Err(ParseError::UnexpectedToken { kind: tok._type, value: tok.value })
        }
    }

    fn try_term_loop(&mut self, acc: ASTNode) -> (res: Result<Option<ASTNode>, ParseError>)
        ensures
            final(self).input() == old(self).input(),
            outcome(res, final(self).state()) == sp_term_loop(old(self).input(), acc@, old(self).state()),
            res is Ok ==> final(self).remaining() <= old(self).remaining(),
        decreases old(self).remaining(), 1nat,
    {
        let ghost s = self.input();
        let ghost st0 = self.state();
        if !self.current_is('*', '/') {
            return Ok(Some(acc));
        }
        let op = match &self.current_token {
            Some(t) => t.value.clone(),
            None => String::new(),
        };
        match self.try_check_token(TokenType::Operator) {
            Err(e) => {
                return Err(e);
            },
            Ok(()) => {},
        }
        proof {
            lemma_check_left(s, st0, TokenType::Operator);
        }
        let r = match self.try_term() {
            Err(e) => {
                return Err(e);
            },
            Ok(None) => {
                return Err(ParseError::MissingNode);
            },
            Ok(Some(r)) => r,
        };
        self.try_term_loop(ASTNode::BinOp { left: Box::new(acc), op, right: Box::new(r) })
    }

    /// Reads a `<term>`; `None` where no token is left.
    pub fn try_term(&mut self) -> (res: Result<Option<ASTNode>, ParseError>)
        ensures
            final(self).input() == old(self).input(),
            outcome(res, final(self).state()) == sp_term(old(self).input(), old(self).state()),
            res is Ok ==> final(self).remaining() <= old(self).remaining(),
        decreases old(self).remaining(), 2nat,
    {
        let f = match self.try_fact() {
            Err(e) => {
                return Err(e);
            },
            Ok(None) => {
                return Ok(None);
            },
            Ok(Some(f)) => f,
        };
        self.try_term_loop(f)
    }

    fn try_expr_loop(&mut self, acc: ASTNode) -> (res: Result<Option<ASTNode>, ParseError>)
        ensures
            final(self).input() == old(self).input(),
            outcome(res, final(self).state()) == sp_expr_loop(old(self).input(), acc@, old(self).state()),
            res is Ok ==> final(self).remaining() <= old(self).remaining(),
        decreases old(self).remaining(), 3nat,
    {
        let ghost s = self.input();
        let ghost st0 = self.state();
        if !self.current_is('+', '-') {
            return Ok(Some(acc));
        }
        let op = match &self.current_token {
            Some(t) => t.value.clone(),
            None => String::new(),
        };
        match self.try_check_token(TokenType::Operator) {
            Err(e) => {
                return Err(e);
            },
            Ok(()) => {},
        }
        proof {
            lemma_check_left(s, st0, TokenType::Operator);
        }
        let r = match self.try_expr() {
            Err(e) => {
                return Err(e);
            },
            Ok(None) => {
                return Err(ParseError::MissingNode);
            },
            Ok(Some(r)) => r,
        };
        self.try_expr_loop(ASTNode::BinOp { left: Box::new(acc), op, right: Box::new(r) })
    }

    /// Reads an `<expr>`; `None` where no token is left.
    pub fn try_expr(&mut self) -> (res: Result<Option<ASTNode>, ParseError>)
        ensures
            final(self).input() == old(self).input(),
            outcome(res, final(self).state()) == sp_expr(old(self).input(), old(self).state()),
            res is Ok ==> final(self).remaining() <= old(self).remaining(),
        decreases old(self).remaining(), 4nat,
    {
        let t = match self.try_term() {
            Err(e) => {
                return Err(e);
            },
            Ok(None) => {
                return Ok(None);
            },
            Ok(Some(t)) => t,
        };
        self.try_expr_loop(t)
    }

    fn try_assignment(&mut self) -> (res: Result<Option<ASTNode>, ParseError>)
        ensures
            final(self).input() == old(self).input(),
            outcome(res, final(self).state()) == sp_assignment(old(self).input(), old(self).state()),
            res is Ok ==> final(self).remaining() <= old(self).remaining(),
    {
        let ghost s = self.input();
        let ghost st0 = self.state();
        let v = match &self.current_token {
            None => {
                return Err(ParseError::MissingNode);
            },
            Some(t) => t.value.clone(),
        };
        match self.try_check_token(TokenType::ID) {
            Err(e) => {
                return Err(e);
            },
            Ok(()) => {},
        }
        let ghost st1 = self.state();
        match self.try_check_token(TokenType::Assign) {
            Err(e) => {
                return Err(e);
            },
            Ok(()) => {},
        }
        proof {
            lemma_check_left(s, st0, TokenType::ID);
            lemma_check_left(s, st1, TokenType::Assign);
        }
        let e = match self.try_expr() {
            Err(e) => {
                return Err(e);
            },
            Ok(None) => {
                return Err(ParseError::MissingNode);
            },
            Ok(Some(e)) => e,
        };
        Ok(Some(ASTNode::Assignment { variable: v, expr: Box::new(e) }))
    }

    /// Reads a `<stmt>`.
    pub fn try_stmt(&mut self) -> (res: Result<Option<ASTNode>, ParseError>)
        ensures
            final(self).input() == old(self).input(),
            outcome(res, final(self).state()) == sp_stmt(old(self).input(), old(self).state()),
            res is Ok ==> final(self).remaining() <= old(self).remaining(),
        decreases old(self).remaining(), 1nat,
    {
        let (kind, value) = match &self.current_token {
            None => {
                return Err(ParseError::MissingNode);
            },
            Some(t) => (t._type, t.value.clone()),
        };
        if kind == TokenType::ID {
            self.try_assignment()
        } else if kind == TokenType::Begin {
            self.try_complex_stmt()
        } else if kind == TokenType::End {
            Ok(Some(ASTNode::Empty))
        } else {
            Err(ParseError::UnexpectedToken { kind, value })
        }
    }

    /// Reads `<stmts>`.
    pub fn try_stmts(&mut self) -> (res: Result<Option<ASTNode>, ParseError>)
        ensures
            final(self).input() == old(self).input(),
            outcome(res, final(self).state()) == sp_stmts(old(self).input(), old(self).state()),
            res is Ok ==> final(self).remaining() <= old(self).remaining(),
        decreases old(self).remaining(), 2nat,
    {
        let ghost s = self.input();
        let first = match self.try_stmt() {
            Err(e) => {
                return Err(e);
            },
            Ok(None) => {
                return Err(ParseError::MissingNode);
            },
            Ok(Some(f)) => f,
        };
        let semi = match &self.current_token {
            Some(t) => t._type == TokenType::SEMI,
            None => false,
        };
        if !semi {
            return Ok(Some(first));
        }
        let ghost st1 = self.state();
        match self.try_step() {
            Err(e) => {
                return Err(e);
            },
            Ok(()) => {},
        }
        proof {
            lemma_step_left(s, st1);
        }
        let rest = match self.try_stmts() {
            Err(e) => {
                return Err(e);
            },
            Ok(None) => {
                return Err(ParseError::MissingNode);
            },
            Ok(Some(r)) => r,
        };
        Ok(Some(ASTNode::StmtList { stmt: Box::new(first), rest: Box::new(rest) }))
    }

    fn try_complex_stmt(&mut self) -> (res: Result<Option<ASTNode>, ParseError>)
        ensures
            final(self).input() == old(self).input(),
            outcome(res, final(self).state()) == sp_complex_stmt(old(self).input(), old(self).state()),
            res is Ok ==> final(self).remaining() <= old(self).remaining(),
        decreases old(self).remaining(), 0nat,
    {
        let ghost s = self.input();
        let ghost st0 = self.state();
        match self.try_check_token(TokenType::Begin) {
            Err(e) => {
                return Err(e);
            },
            Ok(()) => {},
        }
        proof {
            lemma_check_left(s, st0, TokenType::Begin);
        }
        if self.current_token.is_none() {
            return Err(ParseError::MissingNode);
        }
        let body = match self.try_stmts() {
            Err(e) => {
                return Err(e);
            },
            Ok(None) => {
                return Err(ParseError::MissingNode);
            },
            Ok(Some(b)) => b,
        };
        let ghost st2 = self.state();
        match self.try_check_token(TokenType::End) {
            Err(e) => {
                return Err(e);
            },
            Ok(()) => {},
        }
        proof {
            lemma_check_left(s, st2, TokenType::End);
        }
        Ok(Some(body))
    }

    fn try_program(&mut self) -> (res: Result<Option<ASTNode>, ParseError>)
        ensures
            final(self).input() == old(self).input(),
            outcome(res, final(self).state()) == sp_program(old(self).input(), old(self).state()),
    {
        let body = match self.try_complex_stmt() {
            Err(e) => {
                return Err(e);
            },
            Ok(None) => {
                return Err(ParseError::MissingNode);
            },
            Ok(Some(b)) => b,
        };
        match self.try_check_token(TokenType::Dot) {
            Err(e) => {
                return Err(e);
            },
            Ok(()) => {},
        }
        Ok(Some(body))
    }

    /// Reads a whole program: `BEGIN <stmts> END.`
    pub fn try_parse(&mut self) -> (res: Result<Option<ASTNode>, ParseError>)
        ensures
            final(self).input() == old(self).input(),
            outcome(res, final(self).state()) == sp_program(old(self).input(), old(self).state()),
    {
        self.try_program()
    }

    /// Reads a `<fact>`; `None` where no token is left.
    pub fn fact(&mut self) -> (res: Option<ASTNode>)
        requires
            sp_fact(old(self).input(), old(self).state()) is Ok,
        ensures
            final(self).input() == old(self).input(),
            sp_fact(old(self).input(), old(self).state()) == Ok::<(Option<Ast>, PState), ParseFault>((node_view(res), final(self).state())),
    {
        match self.try_fact() {
            Ok(n) => n,
            Err(_) => None,
        }
    }

    /// Reads a `<term>`; `None` where no token is left.
    pub fn term(&mut self) -> (res: Option<ASTNode>)
        requires
            sp_term(old(self).input(), old(self).state()) is Ok,
        ensures
            final(self).input() == old(self).input(),
            sp_term(old(self).input(), old(self).state()) == Ok::<(Option<Ast>, PState), ParseFault>((node_view(res), final(self).state())),
    {
        match self.try_term() {
            Ok(n) => n,
            Err(_) => None,
        }
    }

    /// Reads an `<expr>`; `None` where no token is left.
    pub fn expr(&mut self) -> (res: Option<ASTNode>)
        requires
            sp_expr(old(self).input(), old(self).state()) is Ok,
        ensures
            final(self).input() == old(self).input(),
            sp_expr(old(self).input(), old(self).state()) == Ok::<(Option<Ast>, PState), ParseFault>((node_view(res), final(self).state())),
    {
        match self.try_expr() {
            Ok(n) => n,
            Err(_) => None,
        }
    }

    /// Reads a `<stmt>`.
    pub fn stmt(&mut self) -> (res: Option<ASTNode>)
        requires
            sp_stmt(old(self).input(), old(self).state()) is Ok,
        ensures
            final(self).input() == old(self).input(),
            sp_stmt(old(self).input(), old(self).state()) == Ok::<(Option<Ast>, PState), ParseFault>((node_view(res), final(self).state())),
    {
        match self.try_stmt() {
            Ok(n) => n,
            Err(_) => None,
        }
    }

    /// Reads `<stmts>`.
    pub fn stmts(&mut self) -> (res: Option<ASTNode>)
        requires
            sp_stmts(old(self).input(), old(self).state()) is Ok,
        ensures
            final(self).input() == old(self).input(),
            sp_stmts(old(self).input(), old(self).state()) == Ok::<(Option<Ast>, PState), ParseFault>((node_view(res), final(self).state())),
    {
        match self.try_stmts() {
            Ok(n) => n,
            Err(_) => None,
        }
    }

    /// Reads a whole program: `BEGIN <stmts> END.`
    pub fn parse(&mut self) -> (res: Option<ASTNode>)
        requires
            sp_program(old(self).input(), old(self).state()) is Ok,
        ensures
            final(self).input() == old(self).input(),
            sp_program(old(self).input(), old(self).state()) == Ok::<(Option<Ast>, PState), ParseFault>((node_view(res), final(self).state())),
    {
        match self.try_parse() {
            Ok(n) => n,
            Err(_) => None,
        }
    }
}

} // verus!
