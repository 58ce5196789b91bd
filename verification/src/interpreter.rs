use vstd::prelude::*;
use crate::ordered_map::OrderedMap;
use crate::parser::Ast;
use crate::parser::ASTNode;
use crate::parser::ParseError;
use crate::parser::ParseFault;
use crate::parser::Parser;
use crate::parser::sp_start;
use crate::parser::sp_program;
use crate::parser::sp_fact;
use crate::parser::sp_term;
use crate::parser::sp_term_loop;
use crate::parser::sp_expr;
use crate::parser::sp_expr_loop;
use crate::parser::sp_stmt;
use crate::parser::sp_stmts;
use crate::parser::sp_complex_stmt;
use crate::parser::sp_check;
use crate::parser::sp_step;
use crate::parser::left;
use crate::parser::PState;
use crate::token::TokenType;
use crate::text::is_single_char;

verus! {

/// Why evaluation stops.
#[derive(Debug, PartialEq)]
pub enum EvalError {
    /// The program does not parse.
    Parse(ParseError),
    /// An operator other than `+ - * /` (or other than `+ -` in front of one operand).
    UnknownOperator { op: String },
    /// A result outside the range of `i32`.
    Overflow,
    /// A division by zero.
    DivisionByZero,
    /// A variable that was never assigned.
    UnknownVariable { name: String },
}

/// The mathematical form of an `EvalError`.
pub enum EvalFault {
    Parse(ParseFault),
    UnknownOperator { op: Seq<char> },
    Overflow,
    DivisionByZero,
    UnknownVariable { name: Seq<char> },
}

impl View for EvalError {
    type V = EvalFault;

    open spec fn view(&self) -> EvalFault {
        match self {
            EvalError::Parse(e) => EvalFault::Parse(e@),
            EvalError::UnknownOperator { op } => EvalFault::UnknownOperator { op: op@ },
            EvalError::Overflow => EvalFault::Overflow,
            EvalError::DivisionByZero => EvalFault::DivisionByZero,
            EvalError::UnknownVariable { name } => EvalFault::UnknownVariable { name: name@ },
        }
    }
}

pub type Env = Map<Seq<char>, i32>;

pub open spec fn fits_i32(x: int) -> bool {
    i32::MIN <= x <= i32::MAX
}

/// Division that rounds toward zero, as `/` on `i32` does.
pub open spec fn trunc_div(a: int, b: int) -> int {
    let q = (if a < 0 { -a } else { a }) / (if b < 0 { -b } else { b });
    if (a < 0) != (b < 0) { -q } else { q }
}

pub open spec fn is_op(op: Seq<char>, c: char) -> bool {
    op == seq![c]
}

/// The value of `a op b` on `i32`, or why it has none.
pub open spec fn apply_binary(op: Seq<char>, a: i32, b: i32) -> Result<i32, EvalFault> {
    if is_op(op, '*') {
        if fits_i32(a * b) { Ok((a * b) as i32) } else { Err(EvalFault::Overflow) }
    } else if is_op(op, '/') {
        if b == 0 {
            Err(EvalFault::DivisionByZero)
        } else if fits_i32(trunc_div(a as int, b as int)) {
            Ok(trunc_div(a as int, b as int) as i32)
        } else {
            Err(EvalFault::Overflow)
        }
    } else if is_op(op, '+') {
        if fits_i32(a + b) { Ok((a + b) as i32) } else { Err(EvalFault::Overflow) }
    } else {
        if fits_i32(a - b) { Ok((a - b) as i32) } else { Err(EvalFault::Overflow) }
    }
}

/// The value of a syntax tree and the variables after it, starting from `env`.
pub open spec fn sp_visit(node: Ast, env: Env) -> Result<(i32, Env), EvalFault>
    decreases node,
{
    match node {
        Ast::Number(v) => Ok((v, env)),
        Ast::BinOp { left, op, right } => {
            if !(is_op(op, '*') || is_op(op, '/') || is_op(op, '+') || is_op(op, '-')) {
                Err(EvalFault::UnknownOperator { op })
            } else {
                match sp_visit(*left, env) {
                    Err(e) => Err(e),
                    Ok((a, env1)) => match sp_visit(*right, env1) {
                        Err(e) => Err(e),
                        Ok((b, env2)) => match apply_binary(op, a, b) {
                            Err(e) => Err(e),
                            Ok(r) => Ok((r, env2)),
                        },
                    },
                }
            }
        },
        Ast::UnaryOp { op, value } => {
            if is_op(op, '+') {
                sp_visit(*value, env)
            } else if is_op(op, '-') {
                match sp_visit(*value, env) {
                    Err(e) => Err(e),
                    Ok((a, env1)) => if fits_i32(-a) { Ok(((-a) as i32, env1)) } else { Err(EvalFault::Overflow) },
                }
            } else {
                Err(EvalFault::UnknownOperator { op })
            }
        },
        Ast::StmtList { stmt, rest } => match sp_visit(*stmt, env) {
            Err(e) => Err(e),
            Ok((_, env1)) => sp_visit(*rest, env1),
        },
        Ast::Assignment { variable, expr } => match sp_visit(*expr, env) {
            Err(e) => Err(e),
            Ok((r, env1)) => Ok((r, env1.insert(variable, r))),
        },
        Ast::Variable(name) => if env.dom().contains(name) {
            Ok((env[name], env))
        } else {
            Err(EvalFault::UnknownVariable { name })
        },
        Ast::Empty => Ok((0, env)),
    }
}

/// Parses `code` as a program and evaluates it, starting from `env`.
pub open spec fn sp_eval(code: Seq<char>, env: Env) -> Result<(i32, Env), EvalFault> {
    match sp_start(code) {
        Err(e) => Err(EvalFault::Parse(e)),
        Ok(st) => match sp_program(code, st) {
            Err(e) => Err(EvalFault::Parse(e)),
            Ok((None, _)) => Err(EvalFault::Parse(ParseFault::MissingNode)),
            Ok((Some(ast), _)) => sp_visit(ast, env),
        },
    }
}

/// A result of evaluation in the form of `sp_visit`, with the variables after it.
pub open spec fn evaluated(res: Result<i32, EvalError>, env: Env) -> Result<(i32, Env), EvalFault> {
    match res {
        Ok(v) => Ok((v, env)),
        Err(e) => Err(e@),
    }
}

/// Evaluates programs, keeping the values of their variables.
#[derive(Debug)]
pub struct Interpreter {
    pub variables: OrderedMap<i32>,
}

impl Interpreter {
    /// An interpreter with no variables.
    pub fn new() -> (r: Interpreter)
        ensures
            r.variables.wf(),
            r.variables.view() == Map::<Seq<char>, i32>::empty(),
    {
        Interpreter { variables: OrderedMap::new() }
    }

    fn binary(op: &String, a: i32, b: i32) -> (r: Result<i32, EvalError>)
        requires
            is_op(op@, '*') || is_op(op@, '/') || is_op(op@, '+') || is_op(op@, '-'),
        ensures
            match apply_binary(op@, a, b) {
                Ok(v) => r == Ok::<i32, EvalError>(v),
                Err(f) => r matches Err(e) && e@ == f,
            },
    {
        if is_single_char(op, '*') {
            assert(-0x4000_0000_0000_0000 <= (a as int) * (b as int) <= 0x4000_0000_0000_0000) by (nonlinear_arith)
                requires
                    i32::MIN <= a <= i32::MAX,
                    i32::MIN <= b <= i32::MAX,
            ;
            let p = a as i64 * b as i64;
            if p < i32::MIN as i64 || p > i32::MAX as i64 {
                Err(EvalError::Overflow)
            } else {
                Ok(p as i32)
            }
        } else if is_single_char(op, '/') {
            if b == 0 {
                Err(EvalError::DivisionByZero)
            } else {
                let x: i64 = if a < 0 { -(a as i64) } else { a as i64 };
                let y: i64 = if b < 0 { -(b as i64) } else { b as i64 };
                let q0 = x / y;
                assert(0 <= q0 <= x) by (nonlinear_arith)
                    requires
                        x >= 0,
                        y >= 1,
                        q0 == x / y,
                ;
                let q = if (a < 0) != (b < 0) { -q0 } else { q0 };
                assert(q == trunc_div(a as int, b as int));
                if q < i32::MIN as i64 || q > i32::MAX as i64 {
                    Err(EvalError::Overflow)
                } else {
                    Ok(q as i32)
                }
            }
        } else if is_single_char(op, '+') {
            let s = a as i64 + b as i64;
            if s < i32::MIN as i64 || s > i32::MAX as i64 {
                Err(EvalError::Overflow)
            } else {
                Ok(s as i32)
            }
        } else {
            let d = a as i64 - b as i64;
            if d < i32::MIN as i64 || d > i32::MAX as i64 {
                Err(EvalError::Overflow)
            } else {
                Ok(d as i32)
            }
        }
    }

    /// Evaluates a syntax tree, or says why it has no value.
    pub fn try_visit(&mut self, node: &ASTNode) -> (res: Result<i32, EvalError>)
        requires
            old(self).variables.wf(),
        ensures
            final(self).variables.wf(),
            evaluated(res, final(self).variables.view()) == sp_visit(node@, old(self).variables.view()),
        decreases node,
    {
        match node {
            ASTNode::Number(v) => Ok(*v),
            ASTNode::BinOp { left, op, right } => {
                if !(is_single_char(op, '*') || is_single_char(op, '/') || is_single_char(op, '+')
                    || is_single_char(op, '-')) {
                    return Err(EvalError::UnknownOperator { op: op.clone() });
                }
                let a = match self.try_visit(left) {
                    Ok(a) => a,
                    Err(e) => {
                        return Err(e);
                    },
                };
                let b = match self.try_visit(right) {
                    Ok(b) => b,
                    Err(e) => {
                        return Err(e);
                    },
                };
                Self::binary(op, a, b)
            },
            ASTNode::UnaryOp { op, value } => {
                if is_single_char(op, '+') {
                    self.try_visit(value)
                } else if is_single_char(op, '-') {
                    let a = match self.try_visit(value) {
                        Ok(a) => a,
                        Err(e) => {
                            return Err(e);
                        },
                    };
                    if a == i32::MIN {
                        Err(EvalError::Overflow)
                    } else {
                        Ok(-a)
                    }
                } else {
                    Err(EvalError::UnknownOperator { op: op.clone() })
                }
            },
            ASTNode::StmtList { stmt, rest } => {
                match self.try_visit(stmt) {
                    Ok(_) => {},
                    Err(e) => {
                        return Err(e);
                    },
                }
                self.try_visit(rest)
            },
            ASTNode::Assignment { variable, expr } => {
                let rvalue = match self.try_visit(expr) {
                    Ok(r) => r,
                    Err(e) => {
                        return Err(e);
                    },
                };
                self.variables.insert(variable.clone(), rvalue);
                match self.variables.get(variable) {
                    Some(v) => Ok(*v),
                    None => Ok(rvalue),
                }
            },
            ASTNode::Variable(name) => match self.variables.get(name) {
                Some(v) => Ok(*v),
                None => Err(EvalError::UnknownVariable { name: name.clone() }),
            },
            ASTNode::Empty => Ok(0),
        }
    }

    /// Evaluates a syntax tree.
    pub fn visit(&mut self, node: &ASTNode) -> (r: i32)
        requires
            old(self).variables.wf(),
            sp_visit(node@, old(self).variables.view()) is Ok,
        ensures
            final(self).variables.wf(),
            sp_visit(node@, old(self).variables.view()) == Ok::<(i32, Env), EvalFault>((r, final(self).variables.view())),
    {
        match self.try_visit(node) {
            Ok(v) => v,
            Err(_) => 0,
        }
    }

    /// Parses `code` as a program and evaluates it, or says why it cannot.
    pub fn try_eval(&mut self, code: &str) -> (res: Result<i32, EvalError>)
        requires
            old(self).variables.wf(),
        ensures
            final(self).variables.wf(),
            evaluated(res, final(self).variables.view()) == sp_eval(code@, old(self).variables.view()),
    {
        let mut parser = match Parser::try_new(code) {
            Ok(p) => p,
            Err(e) => {
                return Err(EvalError::Parse(e));
            },
        };
        let ast = match parser.try_parse() {
            Ok(Some(a)) => a,
            Ok(None) => {
                return Err(EvalError::Parse(ParseError::MissingNode));
            },
            Err(e) => {
                return Err(EvalError::Parse(e));
            },
        };
        self.try_visit(&ast)
    }

    /// Parses `code` as a program and evaluates it.
    pub fn eval(&mut self, code: &str) -> (r: i32)
        requires
            old(self).variables.wf(),
            sp_eval(code@, old(self).variables.view()) is Ok,
        ensures
            final(self).variables.wf(),
            sp_eval(code@, old(self).variables.view()) == Ok::<(i32, Env), EvalFault>((r, final(self).variables.view())),
    {
        match self.try_eval(code) {
            Ok(v) => v,
            Err(_) => 0,
        }
    }
}

/// After an assignment, reading the variable gives the value assigned.
pub proof fn law_read_after_assignment(variable: Seq<char>, expr: Ast, env: Env)
    requires
        sp_visit(Ast::Assignment { variable, expr: Box::new(expr) }, env) is Ok,
    ensures
        ({
            let (r, env1) = sp_visit(Ast::Assignment { variable, expr: Box::new(expr) }, env)->Ok_0;
            sp_visit(Ast::Variable(variable), env1) == Ok::<(i32, Env), EvalFault>((r, env1))
        }),
{
}

/// Of two assignments to one variable in a row, the second decides its value.
pub proof fn law_last_assignment_wins(variable: Seq<char>, first: Ast, second: Ast, env: Env)
    requires
        sp_visit(
            Ast::StmtList {
                stmt: Box::new(Ast::Assignment { variable, expr: Box::new(first) }),
                rest: Box::new(Ast::Assignment { variable, expr: Box::new(second) }),
            },
            env,
        ) is Ok,
    ensures
        ({
            let (r, env2) = sp_visit(
                Ast::StmtList {
                    stmt: Box::new(Ast::Assignment { variable, expr: Box::new(first) }),
                    rest: Box::new(Ast::Assignment { variable, expr: Box::new(second) }),
                },
                env,
            )->Ok_0;
            env2.dom().contains(variable) && env2[variable] == r
        }),
{
    let a1 = Ast::Assignment { variable, expr: Box::new(first) };
    let a2 = Ast::Assignment { variable, expr: Box::new(second) };
    let (_, env1) = sp_visit(a1, env)->Ok_0;
    let (r, env2) = sp_visit(a2, env1)->Ok_0;
    let (r2, env3) = sp_visit(second, env1)->Ok_0;
    assert(env2 == env3.insert(variable, r2));
}

/// Whether `node` holds an assignment to `name`.
pub open spec fn assigns(node: Ast, name: Seq<char>) -> bool
    decreases node,
{
    match node {
        Ast::BinOp { left, op: _, right } => assigns(*left, name) || assigns(*right, name),
        Ast::UnaryOp { op: _, value } => assigns(*value, name),
        Ast::StmtList { stmt, rest } => assigns(*stmt, name) || assigns(*rest, name),
        Ast::Assignment { variable, expr } => variable == name || assigns(*expr, name),
        _ => false,
    }
}

/// Whether `node` holds an assignment at all.
pub open spec fn has_assignment(node: Ast) -> bool
    decreases node,
{
    match node {
        Ast::BinOp { left, op: _, right } => has_assignment(*left) || has_assignment(*right),
        Ast::UnaryOp { op: _, value } => has_assignment(*value),
        Ast::StmtList { stmt, rest } => has_assignment(*stmt) || has_assignment(*rest),
        Ast::Assignment { variable: _, expr: _ } => true,
        _ => false,
    }
}

/// The operators of `node` are those the parser builds: `+ - * /` between two operands,
/// `+ -` in front of one.
pub open spec fn parser_ops(node: Ast) -> bool
    decreases node,
{
    match node {
        Ast::BinOp { left, op, right } => (is_op(op, '*') || is_op(op, '/') || is_op(op, '+') || is_op(op, '-'))
            && parser_ops(*left) && parser_ops(*right),
        Ast::UnaryOp { op, value } => (is_op(op, '+') || is_op(op, '-')) && parser_ops(*value),
        Ast::StmtList { stmt, rest } => parser_ops(*stmt) && parser_ops(*rest),
        Ast::Assignment { variable: _, expr } => parser_ops(*expr),
        _ => true,
    }
}

/// Variables that `node` does not assign keep their presence and their values, and
/// no variable is lost; a node without assignments leaves the variables as they were.
pub proof fn law_unassigned_variables_kept(node: Ast, env: Env, name: Seq<char>)
    ensures
        sp_visit(node, env) matches Ok((_, env2)) ==> {
            &&& (env.dom().contains(name) ==> env2.dom().contains(name))
            &&& (!assigns(node, name) ==> (env2.dom().contains(name) == env.dom().contains(name)
                && (env.dom().contains(name) ==> env2[name] == env[name])))
            &&& (!has_assignment(node) ==> env2 == env)
        },
    decreases node,
{
    match node {
        Ast::BinOp { left, op: _, right } => {
            law_unassigned_variables_kept(*left, env, name);
            match sp_visit(*left, env) {
                Ok((_, env1)) => {
                    law_unassigned_variables_kept(*right, env1, name);
                },
                Err(_) => {},
            }
        },
        Ast::UnaryOp { op: _, value } => {
            law_unassigned_variables_kept(*value, env, name);
        },
        Ast::StmtList { stmt, rest } => {
            law_unassigned_variables_kept(*stmt, env, name);
            match sp_visit(*stmt, env) {
                Ok((_, env1)) => {
                    law_unassigned_variables_kept(*rest, env1, name);
                },
                Err(_) => {},
            }
        },
        Ast::Assignment { variable: _, expr } => {
            law_unassigned_variables_kept(*expr, env, name);
        },
        _ => {},
    }
}

/// On a tree with the parser's operators, evaluation fails only at run time: on a
/// variable that holds no value, on a division by zero, or on a result outside `i32`.
/// So a tree whose evaluation meets none of these has a value.
pub proof fn law_failures_at_run_time(node: Ast, env: Env)
    requires
        parser_ops(node),
    ensures
        sp_visit(node, env) matches Err(e) ==> (e is UnknownVariable || e is DivisionByZero || e is Overflow),
    decreases node,
{
    match node {
        Ast::BinOp { left, op: _, right } => {
            law_failures_at_run_time(*left, env);
            match sp_visit(*left, env) {
                Ok((_, env1)) => {
                    law_failures_at_run_time(*right, env1);
                },
                Err(_) => {},
            }
        },
        Ast::UnaryOp { op: _, value } => {
            law_failures_at_run_time(*value, env);
        },
        Ast::StmtList { stmt, rest } => {
            law_failures_at_run_time(*stmt, env);
            match sp_visit(*stmt, env) {
                Ok((_, env1)) => {
                    law_failures_at_run_time(*rest, env1);
                },
                Err(_) => {},
            }
        },
        Ast::Assignment { variable: _, expr } => {
            law_failures_at_run_time(*expr, env);
        },
        _ => {},
    }
}

/// Reading a variable that holds no value fails, naming the variable.
pub proof fn law_unbound_read_fails(name: Seq<char>, env: Env)
    requires
        !env.dom().contains(name),
    ensures
        sp_visit(Ast::Variable(name), env) == Err::<(i32, Env), EvalFault>(EvalFault::UnknownVariable { name }),
{
}

/// Dividing by an operand whose value is zero fails.
pub proof fn law_division_by_zero_fails(left: Ast, right: Ast, env: Env)
    requires
        sp_visit(left, env) is Ok,
        sp_visit(right, sp_visit(left, env)->Ok_0.1) matches Ok((b, _)) && b == 0,
    ensures
        sp_visit(Ast::BinOp { left: Box::new(left), op: seq!['/'], right: Box::new(right) }, env) == Err::<
            (i32, Env),
            EvalFault,
        >(EvalFault::DivisionByZero),
{
    let op = seq!['/'];
    assert(is_op(op, '/'));
    assert(!is_op(op, '*')) by {
        assert(op[0] != seq!['*'][0]);
    }
}

proof fn lemma_fact_ops(s: Seq<char>, st: PState)
    ensures
        sp_fact(s, st) matches Ok((Some(t), _)) ==> parser_ops(t),
    decreases left(s, st), 0nat,
{
    match st.cur {
        Some((kind, v)) => {
            if kind == TokenType::LParen {
                match sp_check(s, st, TokenType::LParen) {
                    Ok(st1) => if left(s, st1) < left(s, st) {
                        lemma_expr_ops(s, st1);
                    },
                    Err(_) => {},
                }
            } else if kind == TokenType::Operator && (v == seq!['-'] || v == seq!['+']) {
                match sp_check(s, st, TokenType::Operator) {
                    Ok(st1) => match sp_check(s, st1, TokenType::LParen) {
                        Ok(st2) => if left(s, st2) < left(s, st) {
                            lemma_expr_ops(s, st2);
                        },
                        Err(_) => {},
                    },
                    Err(_) => {},
                }
            }
        },
        None => {},
    }
}

proof fn lemma_term_loop_ops(s: Seq<char>, acc: Ast, st: PState)
    requires
        parser_ops(acc),
    ensures
        sp_term_loop(s, acc, st) matches Ok((Some(t), _)) ==> parser_ops(t),
    decreases left(s, st), 1nat,
{
    match st.cur {
        Some((_, v)) => if v == seq!['*'] || v == seq!['/'] {
            match sp_check(s, st, TokenType::Operator) {
                Ok(st1) => if left(s, st1) < left(s, st) {
                    lemma_term_ops(s, st1);
                    match sp_term(s, st1) {
                        Ok((Some(r), st2)) => if left(s, st2) <= left(s, st1) {
                            lemma_term_loop_ops(s, Ast::BinOp { left: Box::new(acc), op: v, right: Box::new(r) }, st2);
                        },
                        _ => {},
                    }
                },
                Err(_) => {},
            }
        },
        None => {},
    }
}

proof fn lemma_term_ops(s: Seq<char>, st: PState)
    ensures
        sp_term(s, st) matches Ok((Some(t), _)) ==> parser_ops(t),
    decreases left(s, st), 2nat,
{
    lemma_fact_ops(s, st);
    match sp_fact(s, st) {
        Ok((Some(f), st1)) => if left(s, st1) <= left(s, st) {
            lemma_term_loop_ops(s, f, st1);
        },
        _ => {},
    }
}

proof fn lemma_expr_loop_ops(s: Seq<char>, acc: Ast, st: PState)
    requires
        parser_ops(acc),
    ensures
        sp_expr_loop(s, acc, st) matches Ok((Some(t), _)) ==> parser_ops(t),
    decreases left(s, st), 3nat,
{
    match st.cur {
        Some((_, v)) => if v == seq!['+'] || v == seq!['-'] {
            match sp_check(s, st, TokenType::Operator) {
                Ok(st1) => if left(s, st1) < left(s, st) {
                    lemma_expr_ops(s, st1);
                    match sp_expr(s, st1) {
                        Ok((Some(r), st2)) => if left(s, st2) <= left(s, st1) {
                            lemma_expr_loop_ops(s, Ast::BinOp { left: Box::new(acc), op: v, right: Box::new(r) }, st2);
                        },
                        _ => {},
                    }
                },
                Err(_) => {},
            }
        },
        None => {},
    }
}

proof fn lemma_expr_ops(s: Seq<char>, st: PState)
    ensures
        sp_expr(s, st) matches Ok((Some(t), _)) ==> parser_ops(t),
    decreases left(s, st), 4nat,
{
    lemma_term_ops(s, st);
    match sp_term(s, st) {
        Ok((Some(t), st1)) => if left(s, st1) <= left(s, st) {
            lemma_expr_loop_ops(s, t, st1);
        },
        _ => {},
    }
}

proof fn lemma_stmt_ops(s: Seq<char>, st: PState)
    ensures
        sp_stmt(s, st) matches Ok((Some(t), _)) ==> parser_ops(t),
    decreases left(s, st), 1nat,
{
    match st.cur {
        Some((kind, _)) => if kind == TokenType::ID {
            match sp_check(s, st, TokenType::ID) {
                Ok(st1) => match sp_check(s, st1, TokenType::Assign) {
                    Ok(st2) => lemma_expr_ops(s, st2),
                    Err(_) => {},
                },
                Err(_) => {},
            }
        } else if kind == TokenType::Begin {
            lemma_complex_ops(s, st);
        },
        None => {},
    }
}

proof fn lemma_stmts_ops(s: Seq<char>, st: PState)
    ensures
        sp_stmts(s, st) matches Ok((Some(t), _)) ==> parser_ops(t),
    decreases left(s, st), 2nat,
{
    lemma_stmt_ops(s, st);
    match sp_stmt(s, st) {
        Ok((Some(_), st1)) => match sp_step(s, st1) {
            Ok(st2) => if left(s, st2) < left(s, st) {
                lemma_stmts_ops(s, st2);
            },
            Err(_) => {},
        },
        _ => {},
    }
}

proof fn lemma_complex_ops(s: Seq<char>, st: PState)
    ensures
        sp_complex_stmt(s, st) matches Ok((Some(t), _)) ==> parser_ops(t),
    decreases left(s, st), 0nat,
{
    match sp_check(s, st, TokenType::Begin) {
        Ok(st1) => if st1.cur is Some && left(s, st1) < left(s, st) {
            lemma_stmts_ops(s, st1);
        },
        Err(_) => {},
    }
}

/// The trees that the parser builds hold only its operators: `+ - * /` between two
/// operands, `+ -` in front of one.
pub proof fn law_parsed_trees_use_parser_ops(s: Seq<char>, st: PState)
    ensures
        sp_program(s, st) matches Ok((Some(t), _)) ==> parser_ops(t),
        sp_expr(s, st) matches Ok((Some(t), _)) ==> parser_ops(t),
{
    lemma_complex_ops(s, st);
    lemma_expr_ops(s, st);
}

/// Evaluating a program fails only where it does not parse, or at run time: on a
/// variable that holds no value, on a division by zero, or on a result outside `i32`.
/// So a program that parses and whose evaluation meets none of these has a value.
pub proof fn law_eval_failures(code: Seq<char>, env: Env)
    ensures
        sp_eval(code, env) matches Err(e) ==> (e is Parse || e is UnknownVariable || e is DivisionByZero
            || e is Overflow),
{
    match sp_start(code) {
        Ok(st) => {
            law_parsed_trees_use_parser_ops(code, st);
            match sp_program(code, st) {
                Ok((Some(ast), _)) => law_failures_at_run_time(ast, env),
                _ => {},
            }
        },
        Err(_) => {},
    }
}

/// The tree `a op b` of two numbers.
pub open spec fn number_op(a: i32, op: char, b: i32) -> Ast {
    Ast::BinOp { left: Box::new(Ast::Number(a)), op: seq![op], right: Box::new(Ast::Number(b)) }
}

proof fn lemma_ops_distinct()
    ensures
        !is_op(seq!['+'], '*') && !is_op(seq!['+'], '/') && is_op(seq!['+'], '+'),
        !is_op(seq!['-'], '*') && !is_op(seq!['-'], '/') && !is_op(seq!['-'], '+') && is_op(seq!['-'], '-'),
        is_op(seq!['*'], '*'),
        !is_op(seq!['/'], '*') && is_op(seq!['/'], '/'),
        !is_op(seq!['-'], '+') && !is_op(seq!['+'], '-'),
{
    assert(seq!['+'][0] != seq!['*'][0]);
    assert(seq!['+'][0] != seq!['/'][0]);
    assert(seq!['-'][0] != seq!['*'][0]);
    assert(seq!['-'][0] != seq!['/'][0]);
    assert(seq!['-'][0] != seq!['+'][0]);
    assert(seq!['/'][0] != seq!['*'][0]);
}

/// Sum, difference and product of two numbers are the mathematical ones, and fail with
/// `Overflow` exactly where they lie outside `i32`; the variables stay as they were.
pub proof fn law_arithmetic_of_numbers(a: i32, b: i32, env: Env)
    ensures
        sp_visit(number_op(a, '+', b), env) == (if i32::MIN <= a + b <= i32::MAX {
            Ok::<(i32, Env), EvalFault>(((a + b) as i32, env))
        } else {
            Err(EvalFault::Overflow)
        }),
        sp_visit(number_op(a, '-', b), env) == (if i32::MIN <= a - b <= i32::MAX {
            Ok::<(i32, Env), EvalFault>(((a - b) as i32, env))
        } else {
            Err(EvalFault::Overflow)
        }),
        sp_visit(number_op(a, '*', b), env) == (if i32::MIN <= a * b <= i32::MAX {
            Ok::<(i32, Env), EvalFault>(((a * b) as i32, env))
        } else {
            Err(EvalFault::Overflow)
        }),
{
    reveal_with_fuel(sp_visit, 2);
    lemma_ops_distinct();
}

/// Division of two numbers rounds toward zero: the quotient `q` leaves a remainder
/// `a - q * b` smaller than `b` in size and of the sign of `a`. It fails with
/// `DivisionByZero` on a zero divisor, and with `Overflow` only on `i32::MIN / -1`.
pub proof fn law_division_of_numbers(a: i32, b: i32, env: Env)
    ensures
        b == 0 ==> sp_visit(number_op(a, '/', b), env) == Err::<(i32, Env), EvalFault>(EvalFault::DivisionByZero),
        b != 0 && !(a == i32::MIN && b == -1) ==> (sp_visit(number_op(a, '/', b), env) matches Ok((q, env1))
            && env1 == env && ({
            let r = a - q * b;
            &&& (if r < 0 { -r } else { r }) < (if b < 0 { -(b as int) } else { b as int })
            &&& (a >= 0 ==> r >= 0)
            &&& (a <= 0 ==> r <= 0)
        })),
        a == i32::MIN && b == -1 ==> sp_visit(number_op(a, '/', b), env) == Err::<(i32, Env), EvalFault>(
            EvalFault::Overflow,
        ),
{
    reveal_with_fuel(sp_visit, 2);
    lemma_ops_distinct();
    if b != 0 {
        let aa: int = if a < 0 { -(a as int) } else { a as int };
        let bb: int = if b < 0 { -(b as int) } else { b as int };
        let qq = aa / bb;
        let rr = aa % bb;
        assert(aa == bb * qq + rr && 0 <= rr < bb && 0 <= qq <= aa) by (nonlinear_arith)
            requires
                aa >= 0,
                bb >= 1,
                qq == aa / bb,
                rr == aa % bb,
        ;
        let q = trunc_div(a as int, b as int);
        assert(q == (if (a < 0) != (b < 0) { -qq } else { qq }));
        assert(a - q * b == (if a < 0 { -rr } else { rr })) by (nonlinear_arith)
            requires
                aa == bb * qq + rr,
                aa == (if a < 0 { -(a as int) } else { a as int }),
                bb == (if b < 0 { -(b as int) } else { b as int }),
                q == (if (a < 0) != (b < 0) { -qq } else { qq }),
        ;
        if !(a == i32::MIN && b == -1) {
            assert(fits_i32(q)) by (nonlinear_arith)
                requires
                    0 <= qq <= aa,
                    aa == (if a < 0 { -(a as int) } else { a as int }),
                    bb == (if b < 0 { -(b as int) } else { b as int }),
                    bb >= 1,
                    aa == bb * qq + (aa % bb),
                    0 <= aa % bb < bb,
                    q == (if (a < 0) != (b < 0) { -qq } else { qq }),
                    !(a == i32::MIN && b == -1),
                    i32::MIN <= a <= i32::MAX,
                    i32::MIN <= b <= i32::MAX,
            ;
        } else {
            assert(qq == aa) by (nonlinear_arith)
                requires
                    bb == 1,
                    qq == aa / bb,
            ;
            assert(q == 0x8000_0000);
        }
    }
}

/// Negating the value of a tree gives minus that value where it fits in `i32`
/// (`Overflow` on `i32::MIN`), and a leading `+` gives the value unchanged; a failure
/// of the tree is the failure of both.
pub proof fn law_unary_operators(e: Ast, env: Env)
    ensures
        match sp_visit(e, env) {
            Ok((a, env1)) => sp_visit(Ast::UnaryOp { op: seq!['-'], value: Box::new(e) }, env) == (if a == i32::MIN {
                Err::<(i32, Env), EvalFault>(EvalFault::Overflow)
            } else {
                Ok(((-a) as i32, env1))
            }),
            Err(f) => sp_visit(Ast::UnaryOp { op: seq!['-'], value: Box::new(e) }, env) == Err::<(i32, Env), EvalFault>(
                f,
            ),
        },
        sp_visit(Ast::UnaryOp { op: seq!['+'], value: Box::new(e) }, env) == sp_visit(e, env),
        forall|x: i32|
            x != i32::MIN ==> (#[trigger] sp_visit(Ast::UnaryOp { op: seq!['-'], value: Box::new(Ast::Number(x)) }, env)
                matches Ok((y, env1)) && y + x == 0 && env1 == env),
{
    lemma_ops_distinct();
    assert forall|x: i32|
        x != i32::MIN implies (#[trigger] sp_visit(Ast::UnaryOp { op: seq!['-'], value: Box::new(Ast::Number(x)) }, env)
            matches Ok((y, env1)) && y + x == 0 && env1 == env) by {
        reveal_with_fuel(sp_visit, 2);
        lemma_ops_distinct();
    }
}

/// An operator between two trees acts on their values as between the two numbers,
/// the left tree evaluated first and the right one after it.
pub proof fn law_operators_on_values(left: Ast, op: char, right: Ast, env: Env)
    requires
        op == '+' || op == '-' || op == '*' || op == '/',
        sp_visit(left, env) is Ok,
        sp_visit(right, sp_visit(left, env)->Ok_0.1) is Ok,
    ensures
        ({
            let (a, env1) = sp_visit(left, env)->Ok_0;
            let (b, env2) = sp_visit(right, env1)->Ok_0;
            sp_visit(Ast::BinOp { left: Box::new(left), op: seq![op], right: Box::new(right) }, env) == sp_visit(
                number_op(a, op, b),
                env2,
            )
        }),
{
    reveal_with_fuel(sp_visit, 2);
    lemma_ops_distinct();
}

} // verus!
