use vstd::prelude::*;
use crate::text::push_char;
use crate::text::chars_of;
use crate::token::Token;
use crate::token::TokenType;

verus! {

/// Why the lexer stops on an input.
#[derive(Debug, PartialEq, Eq, Clone, Copy, Structural)]
pub enum LexError {
    /// A character that starts no token, at the given position.
    UnknownChar { ch: char, pos: usize },
    /// Inside a keyword or `:=`, `expected` was due at `pos` but `found` stood there.
    UnexpectedChar { expected: char, found: char, pos: usize },
}

/// What the lexer reads at a position of the input.
pub enum Lexed {
    /// No token is left; the position after the trailing spaces.
    Done(nat),
    /// A token of this kind and text, and the position just after it.
    Token(TokenType, Seq<char>, nat),
    /// The input holds no token here.
    Failed(LexError),
}

/// The first index from `j` on whose character lies outside `[lo, hi)` (or the end).
/// The range is half-open: a run of digits stops before `9` and a run of letters
/// before `z`, so `19` is read as the two numbers `1` and `9`.
pub open spec fn run_end(chars: Seq<char>, j: nat, lo: char, hi: char) -> nat
    decreases chars.len() - j,
{
    if j >= chars.len() || !(lo <= chars[j as int] && chars[j as int] < hi) {
        j
    } else {
        run_end(chars, j + 1, lo, hi)
    }
}

/// Matches the characters of `expected[k..]` one by one after position `pos`;
/// a space stands in for an expected character and is dropped, and the keyword
/// ends early where the input ends.
/// Gives the text read and the position of the last character read.
pub open spec fn expect_from(chars: Seq<char>, pos: nat, expected: Seq<char>, k: nat, acc: Seq<char>)
    -> Result<(Seq<char>, nat), LexError>
    decreases expected.len() - k,
{
    if k >= expected.len() {
        Ok((acc, pos))
    } else if pos + 1 >= chars.len() {
        Ok((acc, pos))
    } else {
        let p = (pos + 1) as nat;
        let ch = chars[p as int];
        if ch == ' ' {
            expect_from(chars, p, expected, k + 1, acc)
        } else if ch != expected[k as int] {
            Err(LexError::UnexpectedChar { expected: expected[k as int], found: ch, pos: p as usize })
        } else {
            expect_from(chars, p, expected, k + 1, acc.push(ch))
        }
    }
}

/// A keyword (or `:=`) that starts with `chars[pos]` and continues with `rest`.
pub open spec fn keyword(chars: Seq<char>, pos: nat, rest: Seq<char>, kind: TokenType) -> Lexed {
    match expect_from(chars, pos, rest, 0, seq![chars[pos as int]]) {
        Ok((text, p)) => Lexed::Token(kind, text, p + 1),
        Err(e) => Lexed::Failed(e),
    }
}

pub open spec fn is_operator_char(c: char) -> bool {
    c == '*' || c == '/' || c == '+' || c == '-'
}

/// The token that the lexer reads at position `pos` of `chars`.
/// A number or a name is its first character and the run that follows it over `[0, 9)`
/// or `[a, z)` (see `run_end`: the ranges leave out `9` and `z`).
pub open spec fn lex_at(chars: Seq<char>, pos: nat) -> Lexed
    decreases chars.len() - pos,
{
    if pos >= chars.len() {
        Lexed::Done(pos)
    } else {
        let c = chars[pos as int];
        if '0' <= c && c <= '9' {
            let e = run_end(chars, pos + 1, '0', '9');
            Lexed::Token(TokenType::Number, chars.subrange(pos as int, e as int), e)
        } else if 'a' <= c && c <= 'z' {
            let e = run_end(chars, pos + 1, 'a', 'z');
            Lexed::Token(TokenType::ID, chars.subrange(pos as int, e as int), e)
        } else if is_operator_char(c) {
            Lexed::Token(TokenType::Operator, seq![c], pos + 1)
        } else if c == '(' {
            Lexed::Token(TokenType::LParen, seq![c], pos + 1)
        } else if c == ')' {
            Lexed::Token(TokenType::RParen, seq![c], pos + 1)
        } else if c == ';' {
            Lexed::Token(TokenType::SEMI, seq![c], pos + 1)
        } else if c == ':' {
            keyword(chars, pos, seq!['='], TokenType::Assign)
        } else if c == 'B' {
            keyword(chars, pos, seq!['E', 'G', 'I', 'N'], TokenType::Begin)
        } else if c == 'E' {
            keyword(chars, pos, seq!['N', 'D', '.'], TokenType::End)
        } else if c == ' ' {
            lex_at(chars, pos + 1)
        } else {
            Lexed::Failed(LexError::UnknownChar { ch: c, pos: pos as usize })
        }
    }
}

proof fn lemma_run_end_bounds(chars: Seq<char>, j: nat, lo: char, hi: char)
    ensures
        j <= run_end(chars, j, lo, hi),
        j <= chars.len() ==> run_end(chars, j, lo, hi) <= chars.len(),
    decreases chars.len() - j,
{
    if !(j >= chars.len() || !(lo <= chars[j as int] && chars[j as int] < hi)) {
        lemma_run_end_bounds(chars, j + 1, lo, hi);
    }
}

proof fn lemma_expect_bounds(chars: Seq<char>, pos: nat, expected: Seq<char>, k: nat, acc: Seq<char>)
    requires
        pos < chars.len(),
    ensures
        expect_from(chars, pos, expected, k, acc) matches Ok((_, p)) ==> pos <= p < chars.len(),
        expect_from(chars, pos, expected, k, acc) matches Err(e) ==> e is UnexpectedChar,
    decreases expected.len() - k,
{
    if k < expected.len() && pos + 1 < chars.len() {
        let p = (pos + 1) as nat;
        let ch = chars[p as int];
        if ch == ' ' {
            lemma_expect_bounds(chars, p, expected, k + 1, acc);
        } else if ch == expected[k as int] {
            lemma_expect_bounds(chars, p, expected, k + 1, acc.push(ch));
        }
    }
}

/// Each token that the lexer reads moves the position forward and stays inside the input;
/// at the end of the input the position does not move back.
pub proof fn lemma_lex_progress(chars: Seq<char>, pos: nat)
    ensures
        match lex_at(chars, pos) {
            Lexed::Done(p) => pos <= p,
            Lexed::Token(_, _, p) => pos < p <= chars.len(),
            Lexed::Failed(_) => true,
        },
    decreases chars.len() - pos,
{
    if pos < chars.len() {
        let c = chars[pos as int];
        lemma_run_end_bounds(chars, pos + 1, '0', '9');
        lemma_run_end_bounds(chars, pos + 1, 'a', 'z');
        lemma_expect_bounds(chars, pos, seq!['='], 0, seq![c]);
        lemma_expect_bounds(chars, pos, seq!['E', 'G', 'I', 'N'], 0, seq![c]);
        lemma_expect_bounds(chars, pos, seq!['N', 'D', '.'], 0, seq![c]);
        if c == ' ' {
            lemma_lex_progress(chars, pos + 1);
        }
    }
}

/// A space in front of a token does not change the token that is read.
pub proof fn law_spaces_skipped(chars: Seq<char>, pos: nat)
    requires
        pos < chars.len(),
        chars[pos as int] == ' ',
    ensures
        lex_at(chars, pos) == lex_at(chars, pos + 1),
{
}

/// `t` without its spaces.
pub open spec fn without_spaces(t: Seq<char>) -> Seq<char>
    decreases t.len(),
{
    if t.len() == 0 {
        t
    } else if t.last() == ' ' {
        without_spaces(t.drop_last())
    } else {
        without_spaces(t.drop_last()).push(t.last())
    }
}

/// The kind of a token follows from its first character: digits make a number,
/// lower-case letters a name, `* / + -` an operator, a parenthesis or `;` a token of
/// its own, `:` an assignment, `B` the keyword `BEGIN` and `E` the keyword `END.`.
pub open spec fn token_shape(kind: TokenType, text: Seq<char>) -> bool {
    text.len() > 0 && {
        let c = text[0];
        if '0' <= c && c <= '9' {
            kind == TokenType::Number && forall|i: int| 0 <= i < text.len() ==> '0' <= #[trigger] text[i] <= '9'
        } else if 'a' <= c && c <= 'z' {
            kind == TokenType::ID && forall|i: int| 0 <= i < text.len() ==> 'a' <= #[trigger] text[i] <= 'z'
        } else if is_operator_char(c) {
            kind == TokenType::Operator && text == seq![c]
        } else if c == '(' {
            kind == TokenType::LParen && text == seq![c]
        } else if c == ')' {
            kind == TokenType::RParen && text == seq![c]
        } else if c == ';' {
            kind == TokenType::SEMI && text == seq![c]
        } else if c == ':' {
            kind == TokenType::Assign
        } else if c == 'B' {
            kind == TokenType::Begin
        } else if c == 'E' {
            kind == TokenType::End
        } else {
            false
        }
    }
}

/// A character that starts a token.
pub open spec fn starts_token(c: char) -> bool {
    ('0' <= c && c <= '9') || ('a' <= c && c <= 'z') || is_operator_char(c) || c == '(' || c == ')'
        || c == ';' || c == ':' || c == 'B' || c == 'E'
}

/// The tokens that repeated calls of the lexer read from position `p` to the end,
/// or `None` where a call fails. (Each token moves the position forward, by
/// `lemma_lex_progress`, so the guard on the position never cuts a run short.)
pub open spec fn lex_all(chars: Seq<char>, p: nat) -> Option<Seq<(TokenType, Seq<char>)>>
    decreases chars.len() - p,
{
    match lex_at(chars, p) {
        Lexed::Done(_) => Some(Seq::empty()),
        Lexed::Token(kind, text, q) => if p < q <= chars.len() {
            match lex_all(chars, q) {
                Some(ts) => Some(seq![(kind, text)] + ts),
                None => None,
            }
        } else {
            None
        },
        Lexed::Failed(_) => None,
    }
}

/// The texts of `ts`, one after the other.
pub open spec fn joined_texts(ts: Seq<(TokenType, Seq<char>)>) -> Seq<char>
    decreases ts.len(),
{
    if ts.len() == 0 {
        Seq::empty()
    } else {
        ts[0].1 + joined_texts(ts.drop_first())
    }
}

proof fn lemma_without_spaces_concat(x: Seq<char>, y: Seq<char>)
    ensures
        without_spaces(x + y) == without_spaces(x) + without_spaces(y),
    decreases y.len(),
{
    if y.len() == 0 {
        assert(x + y =~= x);
        assert(without_spaces(x) + without_spaces(y) =~= without_spaces(x));
    } else {
        assert((x + y).drop_last() =~= x + y.drop_last());
        lemma_without_spaces_concat(x, y.drop_last());
        assert(without_spaces(x + y) =~= without_spaces(x) + without_spaces(y));
    }
}

proof fn lemma_without_spaces_none(t: Seq<char>)
    requires
        forall|i: int| 0 <= i < t.len() ==> #[trigger] t[i] != ' ',
    ensures
        without_spaces(t) == t,
    decreases t.len(),
{
    if t.len() > 0 {
        lemma_without_spaces_none(t.drop_last());
        assert(t.drop_last().push(t.last()) =~= t);
    }
}

proof fn lemma_without_spaces_all(t: Seq<char>)
    requires
        forall|i: int| 0 <= i < t.len() ==> #[trigger] t[i] == ' ',
    ensures
        without_spaces(t) == Seq::<char>::empty(),
    decreases t.len(),
{
    if t.len() > 0 {
        lemma_without_spaces_all(t.drop_last());
    }
}

proof fn lemma_without_spaces_one(c: char)
    ensures
        without_spaces(seq![c]) == (if c == ' ' { Seq::<char>::empty() } else { seq![c] }),
{
    let t = seq![c];
    let e = Seq::<char>::empty();
    assert(t.drop_last() =~= e);
    assert(t.last() == c);
    assert(without_spaces(e) == e);
    assert(e.push(c) =~= t);
}

proof fn lemma_run_end_chars(chars: Seq<char>, j: nat, lo: char, hi: char)
    ensures
        forall|i: int| j <= i < run_end(chars, j, lo, hi) ==> lo <= #[trigger] chars[i] && chars[i] < hi,
    decreases chars.len() - j,
{
    if !(j >= chars.len() || !(lo <= chars[j as int] && chars[j as int] < hi)) {
        lemma_run_end_chars(chars, j + 1, lo, hi);
    }
}

/// The text that `expect_from` gives is what it started with, followed by the
/// characters it went over, without spaces.
proof fn lemma_expect_text(chars: Seq<char>, pos: nat, expected: Seq<char>, k: nat, acc: Seq<char>)
    requires
        pos < chars.len(),
    ensures
        expect_from(chars, pos, expected, k, acc) matches Ok((text, p)) ==> text == acc + without_spaces(
            chars.subrange(pos + 1 as int, p + 1 as int),
        ),
    decreases expected.len() - k,
{
    let e = Seq::<char>::empty();
    if k >= expected.len() || pos + 1 >= chars.len() {
        assert(chars.subrange(pos + 1 as int, pos + 1 as int) =~= e);
        assert(acc + e =~= acc);
    } else {
        let p = (pos + 1) as nat;
        let ch = chars[p as int];
        lemma_expect_bounds(chars, p, expected, k + 1, acc);
        lemma_expect_bounds(chars, p, expected, k + 1, acc.push(ch));
        if ch == ' ' {
            lemma_expect_text(chars, p, expected, k + 1, acc);
        } else if ch == expected[k as int] {
            lemma_expect_text(chars, p, expected, k + 1, acc.push(ch));
        }
        match expect_from(chars, pos, expected, k, acc) {
            Ok((text, q)) => {
                let mid = chars.subrange(p + 1 as int, q + 1 as int);
                assert(chars.subrange(pos + 1 as int, q + 1 as int) =~= seq![ch] + mid);
                lemma_without_spaces_concat(seq![ch], mid);
                if ch == ' ' {
                    lemma_without_spaces_one(ch);
                    assert(e + without_spaces(mid) =~= without_spaces(mid));
                } else {
                    lemma_without_spaces_one(ch);
                    assert(acc.push(ch) + without_spaces(mid) =~= acc + (seq![ch] + without_spaces(mid)));
                }
            },
            Err(_) => {},
        }
    }
}

/// A run that `run_end` measures ends at the first index from `j` on whose character lies
/// outside `[lo, hi)`, or at the end of the input: every character before it lies inside.
pub proof fn law_run_end_least(chars: Seq<char>, j: nat, lo: char, hi: char)
    requires
        j <= chars.len(),
    ensures
        j <= run_end(chars, j, lo, hi) <= chars.len(),
        forall|i: int| j <= i < run_end(chars, j, lo, hi) ==> lo <= #[trigger] chars[i] && chars[i] < hi,
        run_end(chars, j, lo, hi) < chars.len() ==> !(lo <= chars[run_end(chars, j, lo, hi) as int]
            && chars[run_end(chars, j, lo, hi) as int] < hi),
    decreases chars.len() - j,
{
    lemma_run_end_bounds(chars, j, lo, hi);
    lemma_run_end_chars(chars, j, lo, hi);
    if !(j >= chars.len() || !(lo <= chars[j as int] && chars[j as int] < hi)) {
        law_run_end_least(chars, j + 1, lo, hi);
    }
}

proof fn lemma_keyword_from(chars: Seq<char>, base: nat, expected: Seq<char>, k: nat, acc: Seq<char>)
    requires
        base + expected.len() < chars.len(),
        k <= expected.len(),
        forall|i: int| 0 <= i < expected.len() ==> #[trigger] chars[base + 1 + i] != ' ',
    ensures
        (forall|i: int| k <= i < expected.len() ==> #[trigger] chars[base + 1 + i] == expected[i]) ==> expect_from(
            chars,
            base + k,
            expected,
            k,
            acc,
        ) == Ok::<(Seq<char>, nat), LexError>((acc + expected.subrange(k as int, expected.len() as int), base + expected.len())),
        forall|j: int|
            k <= j < expected.len() && #[trigger] chars[base + 1 + j] != expected[j] && (forall|i: int|
                k <= i < j ==> #[trigger] chars[base + 1 + i] == expected[i]) ==> expect_from(chars, base + k, expected, k, acc)
                == Err::<(Seq<char>, nat), LexError>(
                LexError::UnexpectedChar { expected: expected[j], found: chars[base + 1 + j], pos: (base + 1 + j) as usize },
            ),
    decreases expected.len() - k,
{
    if k == expected.len() {
        assert(acc + expected.subrange(k as int, expected.len() as int) =~= acc);
    } else {
        let ch = chars[base + 1 + k as int];
        assert(ch != ' ');
        if ch == expected[k as int] {
            lemma_keyword_from(chars, base, expected, k + 1, acc.push(ch));
            assert(acc.push(ch) + expected.subrange(k + 1 as int, expected.len() as int) =~= acc + expected.subrange(
                k as int,
                expected.len() as int,
            ));
            assert forall|j: int|
                k <= j < expected.len() && #[trigger] chars[base + 1 + j] != expected[j] && (forall|i: int|
                    k <= i < j ==> #[trigger] chars[base + 1 + i] == expected[i]) implies k + 1 <= j by {}
        } else {
            assert forall|j: int|
                k <= j < expected.len() && #[trigger] chars[base + 1 + j] != expected[j] && (forall|i: int|
                    k <= i < j ==> #[trigger] chars[base + 1 + i] == expected[i]) implies j == k by {
                if j > k {
                    assert(chars[base + 1 + k as int] == expected[k as int]);
                }
            }
        }
    }
}

/// Reading the rest of a keyword (or of `:=`) where no space stands among the characters
/// that follow its first one: where those characters spell the rest, the text is the
/// first character and the rest, and the position ends on the last character read;
/// otherwise the first character that differs is reported, with the character due there.
pub proof fn law_keyword_read(chars: Seq<char>, pos: nat, expected: Seq<char>, init: char)
    requires
        pos + expected.len() < chars.len(),
        forall|i: int| 0 <= i < expected.len() ==> #[trigger] chars[pos + 1 + i] != ' ',
    ensures
        chars.subrange(pos + 1 as int, pos + 1 + expected.len() as int) == expected ==> expect_from(
            chars,
            pos,
            expected,
            0,
            seq![init],
        ) == Ok::<(Seq<char>, nat), LexError>((seq![init] + expected, pos + expected.len())),
        forall|j: int|
            0 <= j < expected.len() && #[trigger] chars[pos + 1 + j] != expected[j] && (forall|i: int|
                0 <= i < j ==> #[trigger] chars[pos + 1 + i] == expected[i]) ==> expect_from(chars, pos, expected, 0, seq![init])
                == Err::<(Seq<char>, nat), LexError>(
                LexError::UnexpectedChar { expected: expected[j], found: chars[pos + 1 + j], pos: (pos + 1 + j) as usize },
            ),
{
    lemma_keyword_from(chars, pos, expected, 0, seq![init]);
    assert(expected.subrange(0, expected.len() as int) =~= expected);
    if chars.subrange(pos + 1 as int, pos + 1 + expected.len() as int) == expected {
        assert forall|i: int| 0 <= i < expected.len() implies #[trigger] chars[pos + 1 + i] == expected[i] by {
            assert(chars.subrange(pos + 1 as int, pos + 1 + expected.len() as int)[i] == chars[pos + 1 + i]);
        }
    }
}

/// What one read of the lexer gives, by the characters it goes over: the end where only
/// spaces are left, a token whose text is the characters read without spaces and whose
/// kind follows from its first character, or an unknown character at the first
/// position that is not a space.
pub proof fn law_lex_step(chars: Seq<char>, p: nat)
    requires
        p <= chars.len(),
        chars.len() <= usize::MAX,
    ensures
        (lex_at(chars, p) is Done) <==> (forall|j: int| p <= j < chars.len() ==> #[trigger] chars[j] == ' '),
        lex_at(chars, p) matches Lexed::Done(q) ==> q == chars.len() && lex_at(chars, q) == Lexed::Done(q),
        lex_at(chars, p) matches Lexed::Token(kind, text, q) ==> p < q <= chars.len() && text == without_spaces(
            chars.subrange(p as int, q as int),
        ) && token_shape(kind, text),
        lex_at(chars, p) matches Lexed::Failed(LexError::UnknownChar { ch, pos }) ==> p <= pos < chars.len()
            && chars[pos as int] == ch && !starts_token(ch) && ch != ' ' && forall|j: int|
            p <= j < pos ==> #[trigger] chars[j] == ' ',
    decreases chars.len() - p,
{
    lemma_lex_progress(chars, p);
    if p < chars.len() {
        let c = chars[p as int];
        if c == ' ' {
            law_lex_step(chars, p + 1);
            match lex_at(chars, p) {
                Lexed::Token(kind, text, q) => {
                    assert(chars.subrange(p as int, q as int) =~= seq![' '] + chars.subrange(p + 1 as int, q as int));
                    lemma_without_spaces_concat(seq![' '], chars.subrange(p + 1 as int, q as int));
                    lemma_without_spaces_one(' ');
                    assert(Seq::<char>::empty() + without_spaces(chars.subrange(p + 1 as int, q as int)) =~= without_spaces(
                        chars.subrange(p + 1 as int, q as int),
                    ));
                },
                _ => {},
            }
            if !(lex_at(chars, p) is Done) {
                assert(!(forall|j: int| p <= j < chars.len() ==> #[trigger] chars[j] == ' '));
            }
            match lex_at(chars, p) {
                Lexed::Failed(LexError::UnknownChar { ch, pos }) => {
                    assert forall|j: int| p <= j < pos implies #[trigger] chars[j] == ' ' by {
                        if j > p {
                            assert(p + 1 <= j < pos);
                        }
                    }
                },
                _ => {},
            }
        } else {
            assert(!(forall|j: int| p <= j < chars.len() ==> #[trigger] chars[j] == ' ')) by {
                assert(chars[p as int] != ' ');
            }
            if '0' <= c && c <= '9' {
                let e = run_end(chars, p + 1, '0', '9');
                lemma_run_end_bounds(chars, p + 1, '0', '9');
                lemma_run_end_chars(chars, p + 1, '0', '9');
                let t = chars.subrange(p as int, e as int);
                assert forall|i: int| 0 <= i < t.len() implies '0' <= #[trigger] t[i] <= '9' by {
                    assert(t[i] == chars[p + i]);
                }
                lemma_without_spaces_none(t);
            } else if 'a' <= c && c <= 'z' {
                let e = run_end(chars, p + 1, 'a', 'z');
                lemma_run_end_bounds(chars, p + 1, 'a', 'z');
                lemma_run_end_chars(chars, p + 1, 'a', 'z');
                let t = chars.subrange(p as int, e as int);
                assert forall|i: int| 0 <= i < t.len() implies 'a' <= #[trigger] t[i] <= 'z' by {
                    assert(t[i] == chars[p + i]);
                }
                lemma_without_spaces_none(t);
            } else if is_operator_char(c) || c == '(' || c == ')' || c == ';' {
                let t = chars.subrange(p as int, p + 1 as int);
                assert(t =~= seq![c]);
                lemma_without_spaces_none(t);
            } else if c == ':' || c == 'B' || c == 'E' {
                let rest = if c == ':' {
                    seq!['=']
                } else if c == 'B' {
                    seq!['E', 'G', 'I', 'N']
                } else {
                    seq!['N', 'D', '.']
                };
                lemma_expect_text(chars, p, rest, 0, seq![c]);
                lemma_expect_bounds(chars, p, rest, 0, seq![c]);
                match expect_from(chars, p, rest, 0, seq![c]) {
                    Ok((text, q)) => {
                        let mid = chars.subrange(p + 1 as int, q + 1 as int);
                        assert(chars.subrange(p as int, q + 1 as int) =~= seq![c] + mid);
                        lemma_without_spaces_concat(seq![c], mid);
                        lemma_without_spaces_one(c);
                        assert(text[0] == c);
                    },
                    Err(_) => {},
                }
            } else {
                assert(!starts_token(c));
                assert((p as usize) as int == p);
            }
        }
    } else {
        let e = Seq::<char>::empty();
        assert(chars.subrange(p as int, p as int) =~= e);
    }
}

/// A full run of the lexer from position `p`: where no call fails, the texts of the
/// tokens, one after the other, are the input from `p` on without its spaces, and each
/// token's kind follows from its first character.
pub proof fn law_lex_all(chars: Seq<char>, p: nat)
    requires
        p <= chars.len(),
        chars.len() <= usize::MAX,
    ensures
        lex_all(chars, p) matches Some(ts) ==> joined_texts(ts) == without_spaces(
            chars.subrange(p as int, chars.len() as int),
        ) && forall|i: int| 0 <= i < ts.len() ==> token_shape(#[trigger] ts[i].0, ts[i].1),
    decreases chars.len() - p,
{
    law_lex_step(chars, p);
    match lex_at(chars, p) {
        Lexed::Done(_) => {
            lemma_without_spaces_all(chars.subrange(p as int, chars.len() as int));
            assert(joined_texts(Seq::<(TokenType, Seq<char>)>::empty()) =~= Seq::<char>::empty());
        },
        Lexed::Token(kind, text, q) => {
            law_lex_all(chars, q);
            match lex_all(chars, q) {
                Some(ts) => {
                    let all = seq![(kind, text)] + ts;
                    assert(all.drop_first() =~= ts);
                    assert(all[0] == (kind, text));
                    let tail = chars.subrange(q as int, chars.len() as int);
                    assert(chars.subrange(p as int, chars.len() as int) =~= chars.subrange(p as int, q as int) + tail);
                    lemma_without_spaces_concat(chars.subrange(p as int, q as int), tail);
                    assert forall|i: int| 0 <= i < all.len() implies token_shape(#[trigger] all[i].0, all[i].1) by {
                        if i > 0 {
                            assert(all[i] == ts[i - 1]);
                        }
                    }
                },
                None => {},
            }
        },
        Lexed::Failed(_) => {},
    }
}

/// Reads the characters of a program one token at a time.
pub struct Lexer {
    pub chars: Vec<char>,
    pos: usize,
}

impl Lexer {
    /// The position of the next character to read.
    pub closed spec fn position(&self) -> nat {
        self.pos as nat
    }

    /// The characters of the program.
    pub closed spec fn input(&self) -> Seq<char> {
        self.chars@
    }

    /// What the next call of `next_token` reads.
    pub open spec fn upcoming(&self) -> Lexed {
        lex_at(self.input(), self.position())
    }

    /// A lexer at the start of `code`.
    pub fn new(code: &str) -> (l: Lexer)
        ensures
            l.input() == code@,
            l.position() == 0,
    {
        Lexer { chars: chars_of(code), pos: 0 }
    }

    /// Extends the token that starts with `init` at `self.pos` by the characters
    /// that follow it while they lie in `[lo, hi)`.
    fn build_until_space(&mut self, init: char, lo: char, hi: char) -> (value: String)
        requires
            old(self).pos < old(self).chars.len(),
            old(self).chars@[old(self).pos as int] == init,
        ensures
            final(self).chars == old(self).chars,
            final(self).pos < final(self).chars.len(),
            final(self).pos + 1 == run_end(old(self).chars@, (old(self).pos + 1) as nat, lo, hi),
            value@ == old(self).chars@.subrange(old(self).pos as int, final(self).pos + 1),
    {
        let mut value = String::new();
        push_char(&mut value, init);
        let ghost start = self.pos as int;
        while self.pos + 1 < self.chars.len() && lo <= self.chars[self.pos + 1] && self.chars[self.pos + 1] < hi
            invariant
                self.chars == old(self).chars,
                0 <= start <= self.pos < self.chars.len(),
                run_end(self.chars@, (start + 1) as nat, lo, hi) == run_end(self.chars@, (self.pos + 1) as nat, lo, hi),
                value@ == self.chars@.subrange(start, self.pos + 1),
            decreases self.chars.len() - self.pos,
        {
            let ch = self.chars[self.pos + 1];
            let ghost before = value@;
            push_char(&mut value, ch);
            self.pos = self.pos + 1;
            assert(self.chars@.subrange(start, self.pos + 1) =~= self.chars@.subrange(start, self.pos as int).push(ch));
            assert(value@ =~= self.chars@.subrange(start, self.pos + 1));
        }
        value
    }

    /// Reads the characters of `expected` after `self.pos`, a space standing in for one of them.
    fn expect_chars(&mut self, init: char, expected: &Vec<char>) -> (res: Result<String, LexError>)
        requires
            old(self).pos < old(self).chars.len(),
        ensures
            final(self).chars == old(self).chars,
            final(self).pos < final(self).chars.len(),
            match expect_from(old(self).chars@, old(self).pos as nat, expected@, 0, seq![init]) {
                Ok((text, p)) => res matches Ok(v) && v@ == text && final(self).pos == p,
                Err(e) => res == Err::<String, LexError>(e),
            },
    {
        let mut value = String::new();
        push_char(&mut value, init);
        let mut k: usize = 0;
        while k < expected.len()
            invariant
                self.chars == old(self).chars,
                0 <= k <= expected.len(),
                self.pos < self.chars.len(),
                expect_from(self.chars@, old(self).pos as nat, expected@, 0, seq![init])
                    == expect_from(self.chars@, self.pos as nat, expected@, k as nat, value@),
            decreases expected.len() - k,
        {
            if self.pos + 1 >= self.chars.len() {
                return Ok(value);
            }
            self.pos = self.pos + 1;
            let ch = self.chars[self.pos];
            if ch != ' ' {
                if ch != expected[k] {
                    return Err(LexError::UnexpectedChar { expected: expected[k], found: ch, pos: self.pos });
                }
                push_char(&mut value, ch);
            }
            k = k + 1;
        }
        Ok(value)
    }

    /// Reads the next token, or says why the input holds none here.
    pub fn try_next_token(&mut self) -> (res: Result<Option<Token>, LexError>)
        ensures
            final(self).input() == old(self).input(),
            match old(self).upcoming() {
                Lexed::Done(p) => res matches Ok(None) && final(self).position() == p,
                Lexed::Token(kind, text, p) => res matches Ok(Some(t)) && t@ == (kind, text)
                    && final(self).position() == p,
                Lexed::Failed(e) => res == Err::<Option<Token>, LexError>(e),
            },
    {
        while self.pos < self.chars.len() && self.chars[self.pos] == ' '
            invariant
                self.chars == old(self).chars,
                lex_at(self.chars@, old(self).pos as nat) == lex_at(self.chars@, self.pos as nat),
            decreases self.chars.len() - self.pos,
        {
            self.pos = self.pos + 1;
        }
        if self.pos >= self.chars.len() {
            return Ok(None);
        }
        let ch = self.chars[self.pos];
        let kind: TokenType;
        let value: String;
        if '0' <= ch && ch <= '9' {
            kind = TokenType::Number;
            value = self.build_until_space(ch, '0', '9');
        } else if 'a' <= ch && ch <= 'z' {
            kind = TokenType::ID;
            value = self.build_until_space(ch, 'a', 'z');
        } else if ch == '*' || ch == '/' || ch == '+' || ch == '-' || ch == '(' || ch == ')' || ch == ';' {
            kind = if ch == '(' {
                TokenType::LParen
            } else if ch == ')' {
                TokenType::RParen
            } else if ch == ';' {
                TokenType::SEMI
            } else {
                TokenType::Operator
            };
            let mut v = String::new();
            push_char(&mut v, ch);
            value = v;
        } else if ch == ':' || ch == 'B' || ch == 'E' {
            let expected: Vec<char> = if ch == ':' {
                vec!['=']
            } else if ch == 'B' {
                vec!['E', 'G', 'I', 'N']
            } else {
                vec!['N', 'D', '.']
            };
            kind = if ch == ':' {
                TokenType::Assign
            } else if ch == 'B' {
                TokenType::Begin
            } else {
                TokenType::End
            };
            proof {
                if ch == ':' {
                    assert(expected@ =~= seq!['=']);
                } else if ch == 'B' {
                    assert(expected@ =~= seq!['E', 'G', 'I', 'N']);
                } else {
                    assert(expected@ =~= seq!['N', 'D', '.']);
                }
            }
            match self.expect_chars(ch, &expected) {
                Ok(v) => {
                    value = v;
                },
                Err(e) => {
                    return Err(e);
                },
            }
        } else {
            return Err(LexError::UnknownChar { ch, pos: self.pos });
        }
        self.pos = self.pos + 1;
        Ok(Some(Token { _type: kind, value }))
    }

    /// Reads the next token; `None` once the input is used up.
    pub fn next_token(&mut self) -> (res: Option<Token>)
        requires
            !(old(self).upcoming() is Failed),
        ensures
            final(self).input() == old(self).input(),
            match old(self).upcoming() {
                Lexed::Done(p) => res is None && final(self).position() == p,
                Lexed::Token(kind, text, p) => res matches Some(t) && t@ == (kind, text)
                    && final(self).position() == p,
                Lexed::Failed(_) => false,
            },
    {
        match self.try_next_token() {
            Ok(t) => t,
            Err(_) => None,
        }
    }
}

} // verus!
