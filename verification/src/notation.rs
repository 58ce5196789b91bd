use vstd::prelude::*;
use crate::text::all_digits;
use crate::text::chars_of;
use crate::text::decimal_value;
use crate::text::is_digit;
use crate::text::lemma_decimal_prefix;
use crate::text::string_of;
use crate::text::split_on;
use crate::text::split_chars;
use crate::text::lemma_split_nonempty;
use crate::text::views;

verus! {

/// Why an expression in prefix notation cannot be converted.
#[derive(Debug, PartialEq)]
pub enum NotationError {
    /// An operator found fewer than two operands.
    MissingOperands,
    /// A token that is neither an operator nor a number from 0 to 255.
    UnknownToken { token: String },
    /// Numbers are left over once every operator has taken its operands.
    TooManyNumbers,
}

/// The mathematical form of a `NotationError`.
pub enum NotationFault {
    MissingOperands,
    UnknownToken { token: Seq<char> },
    TooManyNumbers,
}

impl View for NotationError {
    type V = NotationFault;

    open spec fn view(&self) -> NotationFault {
        match self {
            NotationError::MissingOperands => NotationFault::MissingOperands,
            NotationError::UnknownToken { token } => NotationFault::UnknownToken { token: token@ },
            NotationError::TooManyNumbers => NotationFault::TooManyNumbers,
        }
    }
}

/// The characters that `char::is_whitespace` accepts: those of the Unicode property `White_Space`.
pub open spec fn is_whitespace(c: char) -> bool {
    ('\u{9}' <= c && c <= '\u{d}') || c == ' ' || c == '\u{85}' || c == '\u{a0}' || c == '\u{1680}'
        || ('\u{2000}' <= c && c <= '\u{200a}') || c == '\u{2028}' || c == '\u{2029}' || c == '\u{202f}'
        || c == '\u{205f}' || c == '\u{3000}'
}

pub(crate) fn is_whitespace_char(c: char) -> (b: bool)
    ensures
        b == is_whitespace(c),
{
    ('\u{9}' <= c && c <= '\u{d}') || c == ' ' || c == '\u{85}' || c == '\u{a0}' || c == '\u{1680}'
        || ('\u{2000}' <= c && c <= '\u{200a}') || c == '\u{2028}' || c == '\u{2029}' || c == '\u{202f}'
        || c == '\u{205f}' || c == '\u{3000}'
}

/// `s` without its leading whitespace.
pub open spec fn trim_start(s: Seq<char>) -> Seq<char>
    decreases s.len(),
{
    if s.len() > 0 && is_whitespace(s[0]) {
        trim_start(s.drop_first())
    } else {
        s
    }
}

/// `s` without its trailing whitespace.
pub open spec fn trim_end(s: Seq<char>) -> Seq<char>
    decreases s.len(),
{
    if s.len() > 0 && is_whitespace(s.last()) {
        trim_end(s.drop_last())
    } else {
        s
    }
}

/// `str::trim`: `s` without whitespace at either end.
pub open spec fn trim(s: Seq<char>) -> Seq<char> {
    trim_end(trim_start(s))
}

pub open spec fn is_operator(t: Seq<char>) -> bool {
    t == seq!['+'] || t == seq!['-'] || t == seq!['*'] || t == seq!['/']
}

/// The digits of a `u8` literal: the text after an optional leading `+`.
pub open spec fn unsigned_digits(t: Seq<char>) -> Seq<char> {
    if t.len() > 0 && t[0] == '+' { t.drop_first() } else { t }
}

/// Whether `t.parse::<u8>()` succeeds: an optional `+`, then decimal digits worth at most 255.
pub open spec fn is_u8_literal(t: Seq<char>) -> bool {
    let d = unsigned_digits(t);
    d.len() > 0 && all_digits(d) && decimal_value(d) <= 255
}

/// `( a op b )`, with single spaces around the operator.
pub open spec fn infix(a: Seq<char>, op: Seq<char>, b: Seq<char>) -> Seq<char> {
    seq!['('] + a + seq![' '] + op + seq![' '] + b + seq![')']
}

/// Takes one token on the stack: an operator replaces the two topmost entries
/// (the topmost on its left) by their infix form; a number is pushed.
pub open spec fn take_token(stack: Seq<Seq<char>>, tok: Seq<char>) -> Result<Seq<Seq<char>>, NotationFault> {
    if is_operator(tok) {
        if stack.len() < 2 {
            Err(NotationFault::MissingOperands)
        } else {
            let a = stack[stack.len() - 1];
            let b = stack[stack.len() - 2];
            Ok(stack.take(stack.len() - 2).push(infix(a, tok, b)))
        }
    } else if is_u8_literal(tok) {
        Ok(stack.push(tok))
    } else {
        Err(NotationFault::UnknownToken { token: tok })
    }
}

/// The stack after taking the tokens from the last to the first, starting from `base`.
pub open spec fn run_tokens(toks: Seq<Seq<char>>, base: Seq<Seq<char>>) -> Result<Seq<Seq<char>>, NotationFault>
    decreases toks.len(),
{
    if toks.len() == 0 {
        Ok(base)
    } else {
        match run_tokens(toks.drop_first(), base) {
            Err(e) => Err(e),
            Ok(stack) => take_token(stack, toks[0]),
        }
    }
}

/// The stack after taking the tokens from the last to the first.
pub open spec fn take_tokens(toks: Seq<Seq<char>>) -> Result<Seq<Seq<char>>, NotationFault> {
    run_tokens(toks, Seq::empty())
}

/// The infix form of an expression in prefix notation, or why there is none.
pub open spec fn sp_prefix_to_infix(s: Seq<char>) -> Result<Seq<char>, NotationFault> {
    match take_tokens(split_on(trim(s), ' ')) {
        Err(e) => Err(e),
        Ok(stack) => if stack.len() > 1 {
            Err(NotationFault::TooManyNumbers)
        } else {
            Ok(stack.last())
        },
    }
}

/// Once a token has been taken without fault, the stack is not empty.
pub proof fn lemma_stack_nonempty(toks: Seq<Seq<char>>)
    requires
        toks.len() >= 1,
        take_tokens(toks) is Ok,
    ensures
        take_tokens(toks)->Ok_0.len() >= 1,
    decreases toks.len(),
{
    if toks.len() > 1 {
        lemma_stack_nonempty(toks.drop_first());
    }
}

/// A fault in the tokens from `k` on is the fault of the whole sequence.
proof fn lemma_take_tokens_err(toks: Seq<Seq<char>>, k: int)
    requires
        0 <= k <= toks.len(),
        take_tokens(toks.skip(k)) is Err,
    ensures
        take_tokens(toks) == take_tokens(toks.skip(k)),
    decreases k,
{
    if k > 0 {
        assert(toks.drop_first().skip(k - 1) =~= toks.skip(k));
        lemma_take_tokens_err(toks.drop_first(), k - 1);
    } else {
        assert(toks.skip(0) =~= toks);
    }
}

fn is_operator_token(t: &Vec<char>) -> (b: bool)
    ensures
        b == is_operator(t@),
{
    if t.len() != 1 {
        return false;
    }
    let c = t[0];
    proof {
        assert(t@ =~= seq![c]);
    }
    c == '+' || c == '-' || c == '*' || c == '/'
}

fn is_u8_token(t: &Vec<char>) -> (b: bool)
    ensures
        b == is_u8_literal(t@),
{
    let start: usize = if t.len() > 0 && t[0] == '+' { 1 } else { 0 };
    let ghost d = unsigned_digits(t@);
    assert(d =~= t@.skip(start as int));
    if start >= t.len() {
        return false;
    }
    let mut i = start;
    while i < t.len()
        invariant
            d == unsigned_digits(t@),
            d == t@.skip(start as int),
            start <= i <= t.len(),
            forall|j: int| 0 <= j < i - start ==> is_digit(#[trigger] d[j]),
        decreases t.len() - i,
    {
        if !('0' <= t[i] && t[i] <= '9') {
            assert(d[i - start] == t@[i as int]);
            assert(!is_digit(d[i - start]));
            return false;
        }
        assert(d[i - start] == t@[i as int]);
        i = i + 1;
    }
    let mut acc: u32 = 0;
    let mut i = start;
    while i < t.len()
        invariant
            d == unsigned_digits(t@),
            d == t@.skip(start as int),
            start <= i <= t.len(),
            all_digits(d),
            acc == decimal_value(d.take(i - start)),
            acc <= 255,
        decreases t.len() - i,
    {
        assert(d[i - start] == t@[i as int]);
        assert(is_digit(d[i - start]));
        assert(d.take(i - start + 1).drop_last() =~= d.take(i - start));
        let dv = t[i] as u32 - '0' as u32;
        assert(d.take(i - start + 1).last() == d[i - start]);
        assert(dv == crate::text::digit_value(d[i - start]));
        acc = acc * 10 + dv;
        proof {
            lemma_decimal_prefix(d, i - start + 1);
        }
        if acc > 255 {
            proof {
                lemma_decimal_prefix(d, d.len() as int);
                assert(d.take(d.len() as int) =~= d);
            }
            return false;
        }
        i = i + 1;
    }
    assert(d.take(t.len() - start) =~= d);
    true
}

/// The characters of `s` without whitespace at either end.
fn trimmed_chars(s: &str) -> (v: Vec<char>)
    ensures
        v@ == trim(s@),
{
    let c = chars_of(s);
    assert(c@.skip(0) =~= c@);
    let mut a: usize = 0;
    while a < c.len() && is_whitespace_char(c[a])
        invariant
            c@ == s@,
            a <= c.len(),
            trim_start(s@) == trim_start(c@.skip(a as int)),
        decreases c.len() - a,
    {
        assert(c@.skip(a as int).drop_first() =~= c@.skip(a + 1));
        a = a + 1;
    }
    assert(trim_start(s@) == c@.skip(a as int));
    let mut b: usize = c.len();
    while b > a && is_whitespace_char(c[b - 1])
        invariant
            c@ == s@,
            a <= b <= c.len(),
            trim(s@) == trim_end(c@.subrange(a as int, b as int)),
        decreases b,
    {
        assert(c@.subrange(a as int, b as int).drop_last() =~= c@.subrange(a as int, b - 1));
        b = b - 1;
    }
    let mut v: Vec<char> = Vec::new();
    let mut i = a;
    while i < b
        invariant
            a <= i <= b <= c.len(),
            v@ == c@.subrange(a as int, i as int),
        decreases b - i,
    {
        v.push(c[i]);
        assert(v@ =~= c@.subrange(a as int, i + 1));
        i = i + 1;
    }
    v
}

/// Converts an expression in prefix notation (tokens separated by single spaces)
/// to infix notation with every operation in parentheses, or says why it cannot.
pub fn try_prefix_to_infix(expression: &str) -> (res: Result<String, NotationError>)
    ensures
        match sp_prefix_to_infix(expression@) {
            Ok(text) => res matches Ok(r) && r@ == text,
            Err(f) => res matches Err(e) && e@ == f,
        },
{
    let trimmed = trimmed_chars(expression);
    let toks = split_chars(&trimmed, ' ');
    let ghost all = views(toks@);
    proof {
        lemma_split_nonempty(trimmed@, ' ');
    }
    let mut stack: Vec<Vec<char>> = Vec::new();
    let mut k: usize = toks.len();
    assert(all.skip(k as int) =~= Seq::<Seq<char>>::empty());
    assert(views(stack@) =~= Seq::<Seq<char>>::empty());
    while k > 0
        invariant
            k <= toks.len(),
            all == views(toks@),
            all == split_on(trim(expression@), ' '),
            take_tokens(all.skip(k as int)) == Ok::<Seq<Seq<char>>, NotationFault>(views(stack@)),
        decreases k,
    {
        k = k - 1;
        assert(all.skip(k as int).drop_first() =~= all.skip(k + 1));
        let tok = &toks[k];
        assert(all.skip(k as int)[0] == tok@);
        if is_operator_token(tok) {
            if stack.len() < 2 {
                proof {
                    assert(views(stack@).len() == stack.len());
                    assert(take_tokens(all.skip(k as int)) is Err);
                    lemma_take_tokens_err(all, k as int);
                }
                return Err(NotationError::MissingOperands);
            }
            let ghost old_stack = views(stack@);
            let a = stack.pop().unwrap();
            let b = stack.pop().unwrap();
            assert(a@ == old_stack[old_stack.len() - 1]);
            assert(b@ == old_stack[old_stack.len() - 2]);
            assert(views(stack@) =~= old_stack.take(old_stack.len() - 2));
            let mut e: Vec<char> = Vec::new();
            e.push('(');
            let mut j: usize = 0;
            while j < a.len()
                invariant
                    0 <= j <= a.len(),
                    e@ == seq!['('] + a@.take(j as int),
                decreases a.len() - j,
            {
                e.push(a[j]);
                assert(e@ =~= seq!['('] + a@.take(j + 1));
                j = j + 1;
            }
            e.push(' ');
            e.push(tok[0]);
            e.push(' ');
            let ghost mid = e@;
            let mut j: usize = 0;
            while j < b.len()
                invariant
                    0 <= j <= b.len(),
                    e@ == mid + b@.take(j as int),
                decreases b.len() - j,
            {
                e.push(b[j]);
                assert(e@ =~= mid + b@.take(j + 1));
                j = j + 1;
            }
            e.push(')');
            proof {
                assert(a@.take(a.len() as int) =~= a@);
                assert(b@.take(b.len() as int) =~= b@);
                assert(tok@ =~= seq![tok@[0]]);
                assert(e@ =~= infix(a@, tok@, b@));
            }
            let ghost before = views(stack@);
            stack.push(e);
            assert(views(stack@) =~= before.push(infix(a@, tok@, b@)));
        } else if is_u8_token(tok) {
            let mut copy: Vec<char> = Vec::new();
            let mut j: usize = 0;
            while j < tok.len()
                invariant
                    0 <= j <= tok.len(),
                    copy@ == tok@.take(j as int),
                decreases tok.len() - j,
            {
                copy.push(tok[j]);
                assert(copy@ =~= tok@.take(j + 1));
                j = j + 1;
            }
            assert(tok@.take(tok.len() as int) =~= tok@);
            let ghost before = views(stack@);
            stack.push(copy);
            assert(views(stack@) =~= before.push(tok@));
        } else {
            proof {
                assert(take_tokens(all.skip(k as int)) is Err);
                lemma_take_tokens_err(all, k as int);
            }
            return Err(NotationError::UnknownToken { token: string_of(tok) });
        }
    }
    assert(all.skip(0) =~= all);
    proof {
        lemma_stack_nonempty(all);
    }
    if stack.len() > 1 {
        return Err(NotationError::TooManyNumbers);
    }
    let last = stack.len() - 1;
    Ok(string_of(&stack[last]))
}

/// Converts an expression in prefix notation (tokens separated by single spaces)
/// to infix notation with every operation in parentheses.
pub fn prefix_to_infix(expression: &str) -> (r: String)
    requires
        sp_prefix_to_infix(expression@) is Ok,
    ensures
        sp_prefix_to_infix(expression@) == Ok::<Seq<char>, NotationFault>(r@),
{
    match try_prefix_to_infix(expression) {
        Ok(r) => r,
        Err(_) => String::new(),
    }
}

/// An arithmetic expression over numbers from 0 to 255.
pub enum Expr {
    /// A number, as it is written (optionally after a `+`).
    Num(Seq<char>),
    /// An operator applied to two operands.
    Op(Seq<char>, Box<Expr>, Box<Expr>),
}

pub open spec fn well_formed(e: Expr) -> bool
    decreases e,
{
    match e {
        Expr::Num(t) => is_u8_literal(t),
        Expr::Op(o, l, r) => is_operator(o) && well_formed(*l) && well_formed(*r),
    }
}

/// The tokens of the prefix form: the operator, then the left operand, then the right one.
pub open spec fn prefix_tokens(e: Expr) -> Seq<Seq<char>>
    decreases e,
{
    match e {
        Expr::Num(t) => seq![t],
        Expr::Op(o, l, r) => seq![o] + prefix_tokens(*l) + prefix_tokens(*r),
    }
}

/// The infix form, with every operation in parentheses.
pub open spec fn infix_form(e: Expr) -> Seq<char>
    decreases e,
{
    match e {
        Expr::Num(t) => t,
        Expr::Op(o, l, r) => infix(infix_form(*l), o, infix_form(*r)),
    }
}

/// The tokens joined by single spaces.
pub open spec fn join_spaces(toks: Seq<Seq<char>>) -> Seq<char>
    decreases toks.len(),
{
    if toks.len() == 0 {
        Seq::empty()
    } else if toks.len() == 1 {
        toks[0]
    } else {
        toks[0] + seq![' '] + join_spaces(toks.drop_first())
    }
}

/// The prefix form of an expression, as text.
pub open spec fn prefix_text(e: Expr) -> Seq<char> {
    join_spaces(prefix_tokens(e))
}

proof fn lemma_run_concat(a: Seq<Seq<char>>, b: Seq<Seq<char>>, base: Seq<Seq<char>>)
    ensures
        run_tokens(a + b, base) == match run_tokens(b, base) {
            Ok(st) => run_tokens(a, st),
            Err(e) => Err(e),
        },
    decreases a.len(),
{
    if a.len() == 0 {
        assert(a + b =~= b);
    } else {
        assert((a + b).drop_first() =~= a.drop_first() + b);
        lemma_run_concat(a.drop_first(), b, base);
    }
}

proof fn lemma_run_expr(e: Expr, st: Seq<Seq<char>>)
    requires
        well_formed(e),
    ensures
        run_tokens(prefix_tokens(e), st) == Ok::<Seq<Seq<char>>, NotationFault>(st.push(infix_form(e))),
    decreases e,
{
    match e {
        Expr::Num(t) => {
            assert(!is_operator(t)) by {
                if t == seq!['+'] {
                    assert(unsigned_digits(t) =~= Seq::<char>::empty());
                } else if t == seq!['-'] || t == seq!['*'] || t == seq!['/'] {
                    assert(!crate::text::is_digit(unsigned_digits(t)[0]));
                }
            }
            assert(seq![t].drop_first() =~= Seq::<Seq<char>>::empty());
            assert(run_tokens(Seq::<Seq<char>>::empty(), st) == Ok::<Seq<Seq<char>>, NotationFault>(st));
            assert(run_tokens(seq![t], st) == take_token(st, t));
        },
        Expr::Op(o, l, r) => {
            let lt = prefix_tokens(*l);
            let rt = prefix_tokens(*r);
            lemma_run_expr(*r, st);
            let st1 = st.push(infix_form(*r));
            lemma_run_expr(*l, st1);
            let st2 = st1.push(infix_form(*l));
            lemma_run_concat(seq![o] + lt, rt, st);
            lemma_run_concat(seq![o], lt, st1);
            assert(seq![o].drop_first() =~= Seq::<Seq<char>>::empty());
            assert(st2.take(st2.len() - 2) =~= st);
            assert(prefix_tokens(e) == (seq![o] + lt) + rt);
            assert(run_tokens(seq![o] + lt, st1) == run_tokens(seq![o], st2));
            assert(run_tokens(Seq::<Seq<char>>::empty(), st2) == Ok::<Seq<Seq<char>>, NotationFault>(st2));
            assert(run_tokens(seq![o], st2) == take_token(st2, o));
            assert(st2[st2.len() - 1] == infix_form(*l));
            assert(st2[st2.len() - 2] == infix_form(*r));
            assert(infix_form(e) == infix(infix_form(*l), o, infix_form(*r)));
        },
    }
}

/// The prefix tokens of a well-formed expression: operators and number literals,
/// the last one a number.
proof fn lemma_tokens_shape(e: Expr)
    requires
        well_formed(e),
    ensures
        prefix_tokens(e).len() >= 1,
        forall|i: int| 0 <= i < prefix_tokens(e).len() ==> is_operator(#[trigger] prefix_tokens(e)[i])
            || is_u8_literal(prefix_tokens(e)[i]),
        is_u8_literal(prefix_tokens(e).last()),
    decreases e,
{
    match e {
        Expr::Num(t) => {},
        Expr::Op(o, l, r) => {
            lemma_tokens_shape(*l);
            lemma_tokens_shape(*r);
            let toks = prefix_tokens(e);
            let lt = prefix_tokens(*l);
            let rt = prefix_tokens(*r);
            assert forall|i: int| 0 <= i < toks.len() implies is_operator(#[trigger] toks[i]) || is_u8_literal(toks[i]) by {
                if i == 0 {
                } else if i < 1 + lt.len() {
                    assert(toks[i] == lt[i - 1]);
                } else {
                    assert(toks[i] == rt[i - 1 - lt.len()]);
                }
            }
            assert(toks.last() == rt.last());
        },
    }
}

/// An operator or a number literal holds no space, and neither starts nor ends with whitespace.
proof fn lemma_token_chars(t: Seq<char>)
    requires
        is_operator(t) || is_u8_literal(t),
    ensures
        t.len() >= 1,
        !t.contains(' '),
        !is_whitespace(t[0]),
        is_u8_literal(t) ==> !is_whitespace(t.last()) && crate::text::is_digit(t.last()),
{
    if is_u8_literal(t) {
        let d = unsigned_digits(t);
        assert forall|i: int| 0 <= i < t.len() implies t[i] != ' ' by {
            if t.len() > 0 && t[0] == '+' {
                if i > 0 {
                    assert(t[i] == d[i - 1]);
                    assert(crate::text::is_digit(d[i - 1]));
                }
            } else {
                assert(t[i] == d[i]);
                assert(crate::text::is_digit(d[i]));
            }
        }
        if t[0] != '+' {
            assert(crate::text::is_digit(d[0]));
        }
        assert(t.last() == d.last());
        assert(crate::text::is_digit(d[d.len() - 1]));
    }
}

proof fn lemma_split_join(toks: Seq<Seq<char>>)
    requires
        toks.len() >= 1,
        forall|i: int| 0 <= i < toks.len() ==> !(#[trigger] toks[i]).contains(' '),
    ensures
        split_on(join_spaces(toks), ' ') == toks,
    decreases toks.len(),
{
    crate::text::lemma_split_single(toks[0], ' ');
    if toks.len() > 1 {
        let rest = toks.drop_first();
        assert forall|i: int| 0 <= i < rest.len() implies !(#[trigger] rest[i]).contains(' ') by {
            assert(rest[i] == toks[i + 1]);
        }
        lemma_split_join(rest);
        crate::text::lemma_split_concat(toks[0], join_spaces(rest), ' ');
        assert(seq![toks[0]] + rest =~= toks);
    }
}

proof fn lemma_join_ends(toks: Seq<Seq<char>>)
    requires
        toks.len() >= 1,
        forall|i: int| 0 <= i < toks.len() ==> (#[trigger] toks[i]).len() >= 1,
    ensures
        join_spaces(toks).len() >= 1,
        join_spaces(toks)[0] == toks[0][0],
        join_spaces(toks).last() == toks.last().last(),
    decreases toks.len(),
{
    if toks.len() > 1 {
        let rest = toks.drop_first();
        assert forall|i: int| 0 <= i < rest.len() implies (#[trigger] rest[i]).len() >= 1 by {
            assert(rest[i] == toks[i + 1]);
        }
        lemma_join_ends(rest);
        assert(rest.last() == toks.last());
    }
}

proof fn lemma_trim_unchanged(s: Seq<char>)
    requires
        s.len() >= 1,
        !is_whitespace(s[0]),
        !is_whitespace(s.last()),
    ensures
        trim(s) == s,
{
    assert(trim_start(s) == s);
}

/// Converting the prefix form of a well-formed expression gives its infix form.
pub proof fn law_prefix_to_infix(e: Expr)
    requires
        well_formed(e),
    ensures
        sp_prefix_to_infix(prefix_text(e)) == Ok::<Seq<char>, NotationFault>(infix_form(e)),
{
    let toks = prefix_tokens(e);
    lemma_tokens_shape(e);
    assert forall|i: int| 0 <= i < toks.len() implies !(#[trigger] toks[i]).contains(' ') && toks[i].len() >= 1 by {
        lemma_token_chars(toks[i]);
    }
    lemma_token_chars(toks[0]);
    lemma_token_chars(toks.last());
    lemma_join_ends(toks);
    lemma_trim_unchanged(prefix_text(e));
    lemma_split_join(toks);
    lemma_run_expr(e, Seq::empty());
    assert(Seq::<Seq<char>>::empty().push(infix_form(e)) =~= seq![infix_form(e)]);
}

/// The tokens of a stack of expressions in prefix form, the topmost expression first.
pub open spec fn stack_tokens(es: Seq<Expr>) -> Seq<Seq<char>>
    decreases es.len(),
{
    if es.len() == 0 {
        Seq::empty()
    } else {
        prefix_tokens(es.last()) + stack_tokens(es.drop_last())
    }
}

pub open spec fn all_well_formed(es: Seq<Expr>) -> bool {
    forall|i: int| 0 <= i < es.len() ==> well_formed(#[trigger] es[i])
}

/// A run of the tokens that does not fail leaves on the stack the infix forms of
/// well-formed expressions whose prefix forms, the topmost first, are the tokens.
proof fn lemma_run_builds_exprs(toks: Seq<Seq<char>>) -> (es: Seq<Expr>)
    requires
        run_tokens(toks, Seq::empty()) is Ok,
    ensures
        all_well_formed(es),
        run_tokens(toks, Seq::empty())->Ok_0 == es.map_values(|e: Expr| infix_form(e)),
        toks == stack_tokens(es),
    decreases toks.len(),
{
    let empty = Seq::<Seq<char>>::empty();
    if toks.len() == 0 {
        let es = Seq::<Expr>::empty();
        assert(es.map_values(|e: Expr| infix_form(e)) =~= empty);
        assert(toks =~= stack_tokens(es));
        es
    } else {
        let rest = toks.drop_first();
        let es1 = lemma_run_builds_exprs(rest);
        let st1 = run_tokens(rest, empty)->Ok_0;
        let tok = toks[0];
        assert(toks =~= seq![tok] + rest);
        if is_operator(tok) {
            let n = es1.len() as int;
            let l = es1[n - 1];
            let r = es1[n - 2];
            let e = Expr::Op(tok, Box::new(l), Box::new(r));
            let es = es1.take(n - 2).push(e);
            assert(st1[n - 1] == infix_form(l));
            assert(st1[n - 2] == infix_form(r));
            assert(es.map_values(|x: Expr| infix_form(x)) =~= st1.take(n - 2).push(infix(st1[n - 1], tok, st1[n - 2])));
            assert(es.drop_last() =~= es1.take(n - 2));
            assert(es1.drop_last().drop_last() =~= es1.take(n - 2));
            assert(es1.drop_last().last() == r);
            assert(stack_tokens(es1.drop_last()) == prefix_tokens(r) + stack_tokens(es1.take(n - 2)));
            assert(stack_tokens(es) == prefix_tokens(e) + stack_tokens(es1.take(n - 2)));
            assert(prefix_tokens(e) == seq![tok] + prefix_tokens(l) + prefix_tokens(r));
            assert(seq![tok] + (prefix_tokens(l) + (prefix_tokens(r) + stack_tokens(es1.take(n - 2)))) =~= (seq![tok]
                + prefix_tokens(l) + prefix_tokens(r)) + stack_tokens(es1.take(n - 2)));
            assert forall|i: int| 0 <= i < es.len() implies well_formed(#[trigger] es[i]) by {
                if i < n - 2 {
                    assert(es[i] == es1[i]);
                }
            }
            es
        } else {
            let e = Expr::Num(tok);
            let es = es1.push(e);
            assert(es.map_values(|x: Expr| infix_form(x)) =~= st1.push(tok));
            assert(es.drop_last() =~= es1);
            assert(prefix_tokens(e) =~= seq![tok]);
            assert forall|i: int| 0 <= i < es.len() implies well_formed(#[trigger] es[i]) by {
                if i < es1.len() {
                    assert(es[i] == es1[i]);
                }
            }
            es
        }
    }
}

/// `prefix_to_infix` succeeds exactly on the prefix forms of well-formed expressions:
/// the text, trimmed and split at single spaces, must be the prefix tokens of an
/// expression built from `+ - * /` and numbers from 0 to 255. Where it succeeds, the
/// result is that expression in infix form; otherwise some token is neither an
/// operator nor such a number, an operator lacks its operands, or more than one
/// expression is left.
pub proof fn law_prefix_to_infix_exact(s: Seq<char>)
    ensures
        (sp_prefix_to_infix(s) is Ok) <==> exists|e: Expr|
            well_formed(e) && split_on(trim(s), ' ') == #[trigger] prefix_tokens(e),
        forall|e: Expr|
            well_formed(e) && split_on(trim(s), ' ') == #[trigger] prefix_tokens(e) ==> sp_prefix_to_infix(s)
                == Ok::<Seq<char>, NotationFault>(infix_form(e)),
        sp_prefix_to_infix(s) matches Ok(r) ==> exists|e: Expr|
            well_formed(e) && split_on(trim(s), ' ') == #[trigger] prefix_tokens(e) && r == infix_form(e),
{
    let toks = split_on(trim(s), ' ');
    let empty = Seq::<Seq<char>>::empty();
    assert forall|e: Expr| well_formed(e) && toks == #[trigger] prefix_tokens(e) implies sp_prefix_to_infix(s)
        == Ok::<Seq<char>, NotationFault>(infix_form(e)) by {
        lemma_run_expr(e, empty);
        assert(empty.push(infix_form(e)) =~= seq![infix_form(e)]);
    }
    if sp_prefix_to_infix(s) is Ok {
        lemma_split_nonempty(trim(s), ' ');
        lemma_stack_nonempty(toks);
        let es = lemma_run_builds_exprs(toks);
        let st = take_tokens(toks)->Ok_0;
        assert(st.len() == 1);
        assert(es.len() == 1);
        let e = es[0];
        assert(es.drop_last() =~= Seq::<Expr>::empty());
        assert(es.last() == e);
        assert(stack_tokens(Seq::<Expr>::empty()) == empty);
        assert(stack_tokens(es) == prefix_tokens(e) + empty);
        assert(prefix_tokens(e) + empty =~= prefix_tokens(e));
        assert(well_formed(e));
        assert(st.last() == infix_form(e));
    }
}

/// Whether every character of `w` is whitespace.
pub open spec fn all_whitespace(w: Seq<char>) -> bool {
    forall|i: int| 0 <= i < w.len() ==> is_whitespace(#[trigger] w[i])
}

proof fn lemma_trim_start_ws(w: Seq<char>, x: Seq<char>)
    requires
        all_whitespace(w),
    ensures
        trim_start(w + x) == trim_start(x),
    decreases w.len(),
{
    if w.len() > 0 {
        assert((w + x).drop_first() =~= w.drop_first() + x);
        assert((w + x)[0] == w[0]);
        assert(all_whitespace(w.drop_first())) by {
            assert forall|i: int| 0 <= i < w.drop_first().len() implies is_whitespace(#[trigger] w.drop_first()[i]) by {
                assert(w.drop_first()[i] == w[i + 1]);
            }
        }
        lemma_trim_start_ws(w.drop_first(), x);
    } else {
        assert(w + x =~= x);
    }
}

proof fn lemma_trim_end_ws(x: Seq<char>, w: Seq<char>)
    requires
        all_whitespace(w),
    ensures
        trim_end(x + w) == trim_end(x),
    decreases w.len(),
{
    if w.len() > 0 {
        assert((x + w).drop_last() =~= x + w.drop_last());
        assert((x + w).last() == w.last());
        assert(all_whitespace(w.drop_last())) by {
            assert forall|i: int| 0 <= i < w.drop_last().len() implies is_whitespace(#[trigger] w.drop_last()[i]) by {
                assert(w.drop_last()[i] == w[i]);
            }
        }
        lemma_trim_end_ws(x, w.drop_last());
    } else {
        assert(x + w =~= x);
    }
}

proof fn lemma_trim_start_append(x: Seq<char>, w: Seq<char>)
    ensures
        trim_start(x + w) == (if trim_start(x).len() > 0 { trim_start(x) + w } else { trim_start(w) }),
    decreases x.len(),
{
    if x.len() == 0 {
        assert(x + w =~= w);
    } else if is_whitespace(x[0]) {
        assert((x + w).drop_first() =~= x.drop_first() + w);
        assert((x + w)[0] == x[0]);
        lemma_trim_start_append(x.drop_first(), w);
    } else {
        assert((x + w)[0] == x[0]);
    }
}

/// Whitespace around an expression does not change what `prefix_to_infix` gives.
pub proof fn law_surrounding_whitespace(s: Seq<char>, w1: Seq<char>, w2: Seq<char>)
    requires
        all_whitespace(w1),
        all_whitespace(w2),
    ensures
        trim(w1 + s + w2) == trim(s),
        sp_prefix_to_infix(w1 + s + w2) == sp_prefix_to_infix(s),
{
    assert(w1 + s + w2 =~= w1 + (s + w2));
    lemma_trim_start_ws(w1, s + w2);
    lemma_trim_start_append(s, w2);
    if trim_start(s).len() > 0 {
        lemma_trim_end_ws(trim_start(s), w2);
    } else {
        let e = Seq::<char>::empty();
        lemma_trim_start_ws(w2, e);
        assert(w2 + e =~= w2);
        assert(trim_start(s) =~= e);
    }
}

} // verus!
