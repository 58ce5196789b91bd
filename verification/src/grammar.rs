use vstd::prelude::*;
use crate::parser::Ast;
use crate::parser::PState;
use crate::parser::left;
use crate::parser::sp_step;
use crate::parser::sp_check;
use crate::parser::sp_fact;
use crate::parser::sp_term;
use crate::parser::sp_term_loop;
use crate::parser::sp_expr;
use crate::parser::sp_expr_loop;
use crate::parser::sp_stmt;
use crate::parser::sp_stmts;
use crate::parser::sp_complex_stmt;
use crate::parser::sp_program;
use crate::text::all_digits;
use crate::text::decimal_value;
use crate::token::TokenType;

verus! {

/// A token: its kind and its text.
pub type Tok = (TokenType, Seq<char>);

/// The parser goes from state `st` to state `st1` by reading the tokens `toks`, one
/// lexer step per token.
pub open spec fn reads(s: Seq<char>, st: PState, toks: Seq<Tok>, st1: PState) -> bool
    decreases toks.len(),
{
    if toks.len() == 0 {
        st1 == st
    } else {
        st.cur == Some(toks[0]) && match sp_step(s, st) {
            Ok(st2) => reads(s, st2, toks.drop_first(), st1),
            Err(_) => false,
        }
    }
}

pub open spec fn is_mul_op(cur: Option<Tok>) -> bool {
    cur matches Some((_, v)) && (v == seq!['*'] || v == seq!['/'])
}

pub open spec fn is_add_op(cur: Option<Tok>) -> bool {
    cur matches Some((_, v)) && (v == seq!['+'] || v == seq!['-'])
}

/// `<fact> ::= <number> | <id> | ( <expr> ) | - ( <expr> ) | + ( <expr> )`, with `t` its tree.
/// A closing parenthesis may be missing, as where the input ends the parser accepts it so.
pub open spec fn g_fact(toks: Seq<Tok>, t: Ast) -> bool
    decreases toks.len(), 0nat,
{
    let n = toks.len();
    if n == 0 {
        false
    } else if toks[0].0 == TokenType::Number {
        let v = toks[0].1;
        n == 1 && v.len() > 0 && all_digits(v) && decimal_value(v) <= i32::MAX && t == Ast::Number(
            decimal_value(v) as i32,
        )
    } else if toks[0].0 == TokenType::ID {
        n == 1 && t == Ast::Variable(toks[0].1)
    } else if toks[0].0 == TokenType::LParen {
        n >= 2 && ((toks[n - 1].0 == TokenType::RParen && g_expr(toks.subrange(1, n - 1), t)) || g_expr(
            toks.subrange(1, n as int),
            t,
        ))
    } else if toks[0].0 == TokenType::Operator {
        let o = toks[0].1;
        n >= 3 && (o == seq!['-'] || o == seq!['+']) && toks[1].0 == TokenType::LParen && match t {
            Ast::UnaryOp { op, value } => op == o && ((toks[n - 1].0 == TokenType::RParen && g_expr(
                toks.subrange(2, n - 1),
                *value,
            )) || g_expr(toks.subrange(2, n as int), *value)),
            _ => false,
        }
    } else {
        false
    }
}

/// `<term> ::= <fact> | <fact> * <term> | <fact> / <term>`, with `t` its tree.
pub open spec fn g_term(toks: Seq<Tok>, t: Ast) -> bool
    decreases toks.len(), 1nat,
{
    g_fact(toks, t) || match t {
        Ast::BinOp { left, op, right } => (op == seq!['*'] || op == seq!['/']) && exists|i: int|
            1 <= i < toks.len() && #[trigger] toks[i] == (TokenType::Operator, op) && g_fact(toks.subrange(0, i), *left)
                && g_term(toks.subrange(i + 1, toks.len() as int), *right),
        _ => false,
    }
}

/// `<expr> ::= <term> | <term> + <expr> | <term> - <expr>`, with `t` its tree.
pub open spec fn g_expr(toks: Seq<Tok>, t: Ast) -> bool
    decreases toks.len(), 2nat,
{
    g_term(toks, t) || match t {
        Ast::BinOp { left, op, right } => (op == seq!['+'] || op == seq!['-']) && exists|i: int|
            1 <= i < toks.len() && #[trigger] toks[i] == (TokenType::Operator, op) && g_term(toks.subrange(0, i), *left)
                && g_expr(toks.subrange(i + 1, toks.len() as int), *right),
        _ => false,
    }
}

/// `<stmt> ::= <id> := <expr> | <complex_stmt> | <empty>`, with `t` its tree.
pub open spec fn g_stmt(toks: Seq<Tok>, t: Ast) -> bool
    decreases toks.len(), 1nat,
{
    let n = toks.len();
    if n == 0 {
        t == Ast::Empty
    } else if toks[0].0 == TokenType::ID {
        n >= 3 && toks[1].0 == TokenType::Assign && match t {
            Ast::Assignment { variable, expr } => variable == toks[0].1 && g_expr(toks.subrange(2, n as int), *expr),
            _ => false,
        }
    } else {
        g_complex(toks, t)
    }
}

/// `<stmts> ::= <stmt> | <stmt> ; <stmts>`, with `t` its tree.
pub open spec fn g_stmts(toks: Seq<Tok>, t: Ast) -> bool
    decreases toks.len(), 2nat,
{
    g_stmt(toks, t) || match t {
        Ast::StmtList { stmt, rest } => exists|i: int|
            0 <= i < toks.len() && (#[trigger] toks[i]).0 == TokenType::SEMI && g_stmt(toks.subrange(0, i), *stmt)
                && g_stmts(toks.subrange(i + 1, toks.len() as int), *rest),
        _ => false,
    }
}

/// `<complex_stmt> ::= BEGIN <stmts> END`, with `t` its tree; `END` may be missing
/// where the input ends.
pub open spec fn g_complex(toks: Seq<Tok>, t: Ast) -> bool
    decreases toks.len(), 0nat,
{
    let n = toks.len();
    n >= 1 && toks[0].0 == TokenType::Begin && ((n >= 2 && toks[n - 1].0 == TokenType::End && g_stmts(
        toks.subrange(1, n - 1),
        t,
    )) || g_stmts(toks.subrange(1, n as int), t))
}

/// `<program> ::= <complex_stmt>`, which a `Dot` token may follow.
pub open spec fn g_program(toks: Seq<Tok>, t: Ast) -> bool {
    g_complex(toks, t) || (toks.len() >= 1 && toks[toks.len() - 1].0 == TokenType::Dot && g_complex(
        toks.subrange(0, toks.len() - 1),
        t,
    ))
}

proof fn lemma_reads_concat(s: Seq<char>, st: PState, a: Seq<Tok>, mid: PState, b: Seq<Tok>, st2: PState)
    requires
        reads(s, st, a, mid),
        reads(s, mid, b, st2),
    ensures
        reads(s, st, a + b, st2),
    decreases a.len(),
{
    if a.len() == 0 {
        assert(a + b =~= b);
    } else {
        let st1 = sp_step(s, st)->Ok_0;
        lemma_reads_concat(s, st1, a.drop_first(), mid, b, st2);
        assert((a + b).drop_first() =~= a.drop_first() + b);
        assert((a + b)[0] == a[0]);
    }
}

proof fn lemma_reads_check(s: Seq<char>, st: PState, k: TokenType)
    ensures
        sp_check(s, st, k) matches Ok(st1) ==> (st.cur is None && st1 == st) || (st.cur matches Some(tk) && tk.0 == k
            && reads(s, st, seq![tk], st1)),
{
    lemma_reads_step(s, st);
}

proof fn lemma_reads_step(s: Seq<char>, st: PState)
    ensures
        st.cur matches Some(tk) ==> (sp_step(s, st) matches Ok(st1) ==> reads(s, st, seq![tk], st1)),
{
    match st.cur {
        Some(tk) => {
            let one = seq![tk];
            assert(one.drop_first() =~= Seq::<Tok>::empty());
            assert(one[0] == tk);
            match sp_step(s, st) {
                Ok(st1) => {
                    assert(reads(s, st1, one.drop_first(), st1));
                    assert(reads(s, st, one, st1));
                },
                Err(_) => {},
            }
        },
        None => {},
    }
}

proof fn lemma_g_expr_nonempty(toks: Seq<Tok>, t: Ast)
    requires
        g_expr(toks, t),
    ensures
        toks.len() > 0,
{
    if toks.len() == 0 {
        assert(!g_fact(toks, t));
        assert(!g_term(toks, t));
    }
}

/// The state after an `<expr>` that holds no operand at all.
proof fn lemma_expr_at_end(s: Seq<char>, st: PState)
    requires
        st.cur is None,
    ensures
        sp_expr(s, st) == Ok::<(Option<Ast>, PState), crate::parser::ParseFault>((None, st)),
{
    assert(sp_fact(s, st) == Ok::<(Option<Ast>, PState), crate::parser::ParseFault>((None, st)));
    assert(sp_term(s, st) == Ok::<(Option<Ast>, PState), crate::parser::ParseFault>((None, st)));
}

/// The tokens that a `<fact>` reads form a `<fact>` of the grammar, with the tree built.
pub proof fn lemma_fact_grammar(s: Seq<char>, st: PState)
    ensures
        sp_fact(s, st) matches Ok((Some(t), st1)) ==> exists|toks: Seq<Tok>| reads(s, st, toks, st1) && g_fact(toks, t),
    decreases left(s, st), 0nat,
{
    match st.cur {
        None => {},
        Some((kind, v)) => {
            let tk = (kind, v);
            if kind == TokenType::Number || kind == TokenType::ID {
                lemma_reads_step(s, st);
                match sp_fact(s, st) {
                    Ok((Some(t), st1)) => {
                        assert(reads(s, st, seq![tk], st1));
                        assert(g_fact(seq![tk], t));
                    },
                    _ => {},
                }
            } else if kind == TokenType::LParen {
                lemma_reads_check(s, st, TokenType::LParen);
                match sp_check(s, st, TokenType::LParen) {
                    Ok(st1) => if left(s, st1) < left(s, st) {
                        lemma_expr_grammar(s, st1);
                        match sp_expr(s, st1) {
                            Ok((Some(e), st2)) => {
                                let te = choose|te: Seq<Tok>| reads(s, st1, te, st2) && g_expr(te, e);
                                lemma_g_expr_nonempty(te, e);
                                lemma_reads_check(s, st2, TokenType::RParen);
                                let head = seq![tk];
                                lemma_reads_concat(s, st, head, st1, te, st2);
                                match sp_check(s, st2, TokenType::RParen) {
                                    Ok(st3) => {
                                        if st2.cur is None {
                                            let toks = head + te;
                                            assert(toks.subrange(1, toks.len() as int) =~= te);
                                            assert(g_fact(toks, e));
                                            assert(reads(s, st, toks, st3));
                                        } else {
                                            let tr = seq![st2.cur->0];
                                            lemma_reads_concat(s, st, head + te, st2, tr, st3);
                                            let toks = head + te + tr;
                                            assert(toks.subrange(1, toks.len() - 1) =~= te);
                                            assert(toks[toks.len() - 1] == st2.cur->0);
                                            assert(g_fact(toks, e));
                                        }
                                    },
                                    Err(_) => {},
                                }
                            },
                            _ => {},
                        }
                    },
                    Err(_) => {},
                }
            } else if kind == TokenType::Operator && (v == seq!['-'] || v == seq!['+']) {
                lemma_reads_check(s, st, TokenType::Operator);
                match sp_check(s, st, TokenType::Operator) {
                    Ok(st1) => {
                        if st1.cur is None {
                            lemma_expr_at_end(s, st1);
                        }
                        lemma_reads_check(s, st1, TokenType::LParen);
                        match sp_check(s, st1, TokenType::LParen) {
                            Ok(st2) => if left(s, st2) < left(s, st) && st1.cur is Some {
                                let lp = st1.cur->0;
                                lemma_expr_grammar(s, st2);
                                match sp_expr(s, st2) {
                                    Ok((Some(e), st3)) => {
                                        let te = choose|te: Seq<Tok>| reads(s, st2, te, st3) && g_expr(te, e);
                                        lemma_g_expr_nonempty(te, e);
                                        lemma_reads_check(s, st3, TokenType::RParen);
                                        let head = seq![tk, lp];
                                        lemma_reads_concat(s, st, seq![tk], st1, seq![lp], st2);
                                        assert(seq![tk] + seq![lp] =~= head);
                                        lemma_reads_concat(s, st, head, st2, te, st3);
                                        let t = Ast::UnaryOp { op: v, value: Box::new(e) };
                                        match sp_check(s, st3, TokenType::RParen) {
                                            Ok(st4) => {
                                                if st3.cur is None {
                                                    let toks = head + te;
                                                    assert(toks.subrange(2, toks.len() as int) =~= te);
                                                    assert(g_fact(toks, t));
                                                    assert(reads(s, st, toks, st4));
                                                } else {
                                                    let tr = seq![st3.cur->0];
                                                    lemma_reads_concat(s, st, head + te, st3, tr, st4);
                                                    let toks = head + te + tr;
                                                    assert(toks.subrange(2, toks.len() - 1) =~= te);
                                                    assert(toks[toks.len() - 1] == st3.cur->0);
                                                    assert(g_fact(toks, t));
                                                }
                                            },
                                            Err(_) => {},
                                        }
                                    },
                                    _ => {},
                                }
                            },
                            Err(_) => {},
                        }
                    },
                    Err(_) => {},
                }
            }
        },
    }
}

/// The rest of a `<term>`: nothing, or a `*` or `/` and a `<term>` of the grammar.
pub proof fn lemma_term_loop_grammar(s: Seq<char>, acc: Ast, st: PState)
    ensures
        sp_term_loop(s, acc, st) matches Ok((Some(t), st1)) ==> !is_mul_op(st1.cur) && ((t == acc && st1 == st) || (
        t matches Ast::BinOp { left, op, right } && *left == acc && (op == seq!['*'] || op == seq!['/'])
            && exists|toks: Seq<Tok>| reads(s, st, seq![(TokenType::Operator, op)] + toks, st1) && g_term(toks, *right))),
    decreases left(s, st), 1nat,
{
    match st.cur {
        Some((k, v)) => if v == seq!['*'] || v == seq!['/'] {
            lemma_reads_check(s, st, TokenType::Operator);
            match sp_check(s, st, TokenType::Operator) {
                Ok(st1) => if left(s, st1) < left(s, st) {
                    lemma_term_grammar(s, st1);
                    match sp_term(s, st1) {
                        Ok((Some(r), st2)) => {
                            let tr = choose|tr: Seq<Tok>| reads(s, st1, tr, st2) && g_term(tr, r);
                            lemma_reads_concat(s, st, seq![(k, v)], st1, tr, st2);
                            let b = Ast::BinOp { left: Box::new(acc), op: v, right: Box::new(r) };
                            assert(sp_term_loop(s, b, st2) == Ok::<(Option<Ast>, PState), crate::parser::ParseFault>((Some(b), st2)));
                        },
                        _ => {},
                    }
                },
                Err(_) => {},
            }
        },
        None => {},
    }
}

/// The tokens that a `<term>` reads form a `<term>` of the grammar, with the tree built;
/// no `*` or `/` follows them.
pub proof fn lemma_term_grammar(s: Seq<char>, st: PState)
    ensures
        sp_term(s, st) matches Ok((Some(t), st1)) ==> !is_mul_op(st1.cur) && exists|toks: Seq<Tok>|
            reads(s, st, toks, st1) && g_term(toks, t),
    decreases left(s, st), 2nat,
{
    lemma_fact_grammar(s, st);
    match sp_fact(s, st) {
        Ok((Some(f), st1)) => if left(s, st1) <= left(s, st) {
            lemma_term_loop_grammar(s, f, st1);
            let tf = choose|tf: Seq<Tok>| reads(s, st, tf, st1) && g_fact(tf, f);
            match sp_term_loop(s, f, st1) {
                Ok((Some(t), st2)) => {
                    if t == f && st2 == st1 {
                        assert(g_term(tf, t));
                    } else {
                        let op = t->BinOp_op;
                        let right = *t->BinOp_right;
                        let ot = seq![(TokenType::Operator, op)];
                        let tr = choose|tr: Seq<Tok>| reads(s, st1, ot + tr, st2) && g_term(tr, right);
                        lemma_reads_concat(s, st, tf, st1, ot + tr, st2);
                        let toks = tf + (ot + tr);
                        let i = tf.len() as int;
                        assert(toks.subrange(0, i) =~= tf);
                        assert(toks.subrange(i + 1, toks.len() as int) =~= tr);
                        assert(toks[i] == (TokenType::Operator, op));
                        assert(g_fact(tf, f));
                        lemma_fact_nonempty(tf, f);
                        assert(g_term(toks, t));
                    }
                },
                _ => {},
            }
        },
        _ => {},
    }
}

proof fn lemma_fact_nonempty(toks: Seq<Tok>, t: Ast)
    requires
        g_fact(toks, t),
    ensures
        toks.len() > 0,
{
}

proof fn lemma_term_nonempty(toks: Seq<Tok>, t: Ast)
    requires
        g_term(toks, t),
    ensures
        toks.len() > 0,
{
    if toks.len() == 0 {
        assert(!g_fact(toks, t));
    }
}

/// The rest of an `<expr>`: nothing, or a `+` or `-` and an `<expr>` of the grammar.
pub proof fn lemma_expr_loop_grammar(s: Seq<char>, acc: Ast, st: PState)
    ensures
        sp_expr_loop(s, acc, st) matches Ok((Some(t), st1)) ==> !is_add_op(st1.cur) && ((t == acc && st1 == st) || (
        t matches Ast::BinOp { left, op, right } && *left == acc && (op == seq!['+'] || op == seq!['-'])
            && exists|toks: Seq<Tok>| reads(s, st, seq![(TokenType::Operator, op)] + toks, st1) && g_expr(toks, *right))),
    decreases left(s, st), 3nat,
{
    match st.cur {
        Some((k, v)) => if v == seq!['+'] || v == seq!['-'] {
            lemma_reads_check(s, st, TokenType::Operator);
            match sp_check(s, st, TokenType::Operator) {
                Ok(st1) => if left(s, st1) < left(s, st) {
                    lemma_expr_grammar(s, st1);
                    match sp_expr(s, st1) {
                        Ok((Some(r), st2)) => {
                            let tr = choose|tr: Seq<Tok>| reads(s, st1, tr, st2) && g_expr(tr, r);
                            lemma_reads_concat(s, st, seq![(k, v)], st1, tr, st2);
                            let b = Ast::BinOp { left: Box::new(acc), op: v, right: Box::new(r) };
                            assert(sp_expr_loop(s, b, st2) == Ok::<(Option<Ast>, PState), crate::parser::ParseFault>((Some(b), st2)));
                        },
                        _ => {},
                    }
                },
                Err(_) => {},
            }
        },
        None => {},
    }
}

/// The tokens that an `<expr>` reads form an `<expr>` of the grammar, with the tree built;
/// no `+` or `-` follows them.
pub proof fn lemma_expr_grammar(s: Seq<char>, st: PState)
    ensures
        sp_expr(s, st) matches Ok((Some(t), st1)) ==> !is_add_op(st1.cur) && exists|toks: Seq<Tok>|
            reads(s, st, toks, st1) && g_expr(toks, t),
    decreases left(s, st), 4nat,
{
    lemma_term_grammar(s, st);
    match sp_term(s, st) {
        Ok((Some(f), st1)) => if left(s, st1) <= left(s, st) {
            lemma_expr_loop_grammar(s, f, st1);
            let tf = choose|tf: Seq<Tok>| reads(s, st, tf, st1) && g_term(tf, f);
            match sp_expr_loop(s, f, st1) {
                Ok((Some(t), st2)) => {
                    if t == f && st2 == st1 {
                        assert(g_expr(tf, t));
                    } else {
                        let op = t->BinOp_op;
                        let right = *t->BinOp_right;
                        let ot = seq![(TokenType::Operator, op)];
                        let tr = choose|tr: Seq<Tok>| reads(s, st1, ot + tr, st2) && g_expr(tr, right);
                        lemma_reads_concat(s, st, tf, st1, ot + tr, st2);
                        let toks = tf + (ot + tr);
                        let i = tf.len() as int;
                        assert(toks.subrange(0, i) =~= tf);
                        assert(toks.subrange(i + 1, toks.len() as int) =~= tr);
                        assert(toks[i] == (TokenType::Operator, op));
                        lemma_term_nonempty(tf, f);
                        assert(g_expr(toks, t));
                    }
                },
                _ => {},
            }
        },
        _ => {},
    }
}

/// The tokens that a `<stmt>` reads form a `<stmt>` of the grammar, with the tree built.
pub proof fn lemma_stmt_grammar(s: Seq<char>, st: PState)
    ensures
        sp_stmt(s, st) matches Ok((Some(t), st1)) ==> exists|toks: Seq<Tok>| reads(s, st, toks, st1) && g_stmt(toks, t),
    decreases left(s, st), 1nat,
{
    match st.cur {
        Some((kind, v)) => {
            let tk = (kind, v);
            if kind == TokenType::ID {
                lemma_reads_check(s, st, TokenType::ID);
                match sp_check(s, st, TokenType::ID) {
                    Ok(st1) => {
                        if st1.cur is None {
                            lemma_expr_at_end(s, st1);
                        }
                        lemma_reads_check(s, st1, TokenType::Assign);
                        match sp_check(s, st1, TokenType::Assign) {
                            Ok(st2) => if st1.cur is Some {
                                let at = st1.cur->0;
                                lemma_expr_grammar(s, st2);
                                match sp_expr(s, st2) {
                                    Ok((Some(e), st3)) => {
                                        let te = choose|te: Seq<Tok>| reads(s, st2, te, st3) && g_expr(te, e);
                                        lemma_g_expr_nonempty(te, e);
                                        lemma_reads_concat(s, st, seq![tk], st1, seq![at], st2);
                                        let head = seq![tk] + seq![at];
                                        lemma_reads_concat(s, st, head, st2, te, st3);
                                        let toks = head + te;
                                        assert(toks.subrange(2, toks.len() as int) =~= te);
                                        let t = Ast::Assignment { variable: v, expr: Box::new(e) };
                                        assert(g_stmt(toks, t));
                                    },
                                    _ => {},
                                }
                            },
                            Err(_) => {},
                        }
                    },
                    Err(_) => {},
                }
            } else if kind == TokenType::Begin {
                lemma_complex_grammar(s, st);
                match sp_complex_stmt(s, st) {
                    Ok((Some(t), st1)) => {
                        let toks = choose|toks: Seq<Tok>| reads(s, st, toks, st1) && g_complex(toks, t);
                        assert(toks.len() >= 1 && toks[0].0 == TokenType::Begin);
                        assert(g_stmt(toks, t));
                    },
                    _ => {},
                }
            } else if kind == TokenType::End {
                assert(reads(s, st, Seq::<Tok>::empty(), st));
                assert(g_stmt(Seq::<Tok>::empty(), Ast::Empty));
            }
        },
        None => {},
    }
}

/// The tokens that `<stmts>` reads form `<stmts>` of the grammar, with the tree built.
pub proof fn lemma_stmts_grammar(s: Seq<char>, st: PState)
    ensures
        sp_stmts(s, st) matches Ok((Some(t), st1)) ==> exists|toks: Seq<Tok>| reads(s, st, toks, st1) && g_stmts(toks, t),
    decreases left(s, st), 2nat,
{
    lemma_stmt_grammar(s, st);
    match sp_stmt(s, st) {
        Ok((Some(first), st1)) => {
            let ts = choose|ts: Seq<Tok>| reads(s, st, ts, st1) && g_stmt(ts, first);
            match st1.cur {
                Some((kind, v)) => if kind == TokenType::SEMI {
                    lemma_reads_step(s, st1);
                    match sp_step(s, st1) {
                        Ok(st2) => if left(s, st2) < left(s, st) {
                            lemma_stmts_grammar(s, st2);
                            match sp_stmts(s, st2) {
                                Ok((Some(rest), st3)) => {
                                    let tr = choose|tr: Seq<Tok>| reads(s, st2, tr, st3) && g_stmts(tr, rest);
                                    let semi = seq![(kind, v)];
                                    lemma_reads_concat(s, st1, semi, st2, tr, st3);
                                    lemma_reads_concat(s, st, ts, st1, semi + tr, st3);
                                    let toks = ts + (semi + tr);
                                    let i = ts.len() as int;
                                    assert(toks.subrange(0, i) =~= ts);
                                    assert(toks.subrange(i + 1, toks.len() as int) =~= tr);
                                    assert(toks[i] == (kind, v));
                                    let t = Ast::StmtList { stmt: Box::new(first), rest: Box::new(rest) };
                                    assert(g_stmts(toks, t));
                                },
                                _ => {},
                            }
                        },
                        Err(_) => {},
                    }
                } else {
                    assert(g_stmts(ts, first));
                },
                None => {
                    assert(g_stmts(ts, first));
                },
            }
        },
        _ => {},
    }
}

/// The tokens that a `<complex_stmt>` reads form a `<complex_stmt>` of the grammar,
/// with the tree built.
pub proof fn lemma_complex_grammar(s: Seq<char>, st: PState)
    ensures
        sp_complex_stmt(s, st) matches Ok((Some(t), st1)) ==> exists|toks: Seq<Tok>|
            reads(s, st, toks, st1) && g_complex(toks, t),
    decreases left(s, st), 0nat,
{
    lemma_reads_check(s, st, TokenType::Begin);
    match sp_check(s, st, TokenType::Begin) {
        Ok(st1) => if st1.cur is Some && left(s, st1) < left(s, st) && st.cur is Some {
            let bt = st.cur->0;
            lemma_stmts_grammar(s, st1);
            match sp_stmts(s, st1) {
                Ok((Some(body), st2)) => {
                    let tb = choose|tb: Seq<Tok>| reads(s, st1, tb, st2) && g_stmts(tb, body);
                    let head = seq![bt];
                    lemma_reads_concat(s, st, head, st1, tb, st2);
                    lemma_reads_check(s, st2, TokenType::End);
                    match sp_check(s, st2, TokenType::End) {
                        Ok(st3) => {
                            if st2.cur is None {
                                let toks = head + tb;
                                assert(toks.subrange(1, toks.len() as int) =~= tb);
                                assert(g_complex(toks, body));
                                assert(reads(s, st, toks, st3));
                            } else {
                                let te = seq![st2.cur->0];
                                lemma_reads_concat(s, st, head + tb, st2, te, st3);
                                let toks = head + tb + te;
                                assert(toks.subrange(1, toks.len() - 1) =~= tb);
                                assert(toks[toks.len() - 1] == st2.cur->0);
                                assert(g_complex(toks, body));
                            }
                        },
                        Err(_) => {},
                    }
                },
                _ => {},
            }
        },
        Err(_) => {},
    }
}

/// The parser builds its trees by the grammar: the tokens that a program (or an
/// expression) reads form a program (an expression) of the grammar, of which the
/// tree built is the tree. `*` and `/` bind more tightly than `+` and `-`, and
/// operators of one level group to the right.
pub proof fn law_parser_follows_grammar(s: Seq<char>, st: PState)
    ensures
        sp_program(s, st) matches Ok((Some(t), st1)) ==> exists|toks: Seq<Tok>|
            reads(s, st, toks, st1) && g_program(toks, t),
        sp_expr(s, st) matches Ok((Some(t), st1)) ==> exists|toks: Seq<Tok>| reads(s, st, toks, st1) && g_expr(toks, t),
{
    lemma_expr_grammar(s, st);
    lemma_complex_grammar(s, st);
    match sp_complex_stmt(s, st) {
        Ok((Some(body), st1)) => {
            let tc = choose|tc: Seq<Tok>| reads(s, st, tc, st1) && g_complex(tc, body);
            lemma_reads_check(s, st1, TokenType::Dot);
            match sp_check(s, st1, TokenType::Dot) {
                Ok(st2) => {
                    if st1.cur is None {
                        assert(g_program(tc, body));
                    } else {
                        let td = seq![st1.cur->0];
                        lemma_reads_concat(s, st, tc, st1, td, st2);
                        let toks = tc + td;
                        assert(toks.subrange(0, toks.len() - 1) =~= tc);
                        assert(g_program(toks, body));
                    }
                },
                Err(_) => {},
            }
        },
        _ => {},
    }
}

} // verus!
