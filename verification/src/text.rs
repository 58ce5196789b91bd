use vstd::prelude::*;

verus! {

/// Appends one character to a string with `String::push`; stated here: the string
/// afterwards is the string before with `c` at its end.
#[verifier::external_body]
pub(crate) fn push_char(s: &mut String, c: char)
    ensures
        final(s)@ == old(s)@.push(c),
{
    s.push(c);
}

/// Collects the characters of a string slice, in order.
pub(crate) fn chars_of(s: &str) -> (v: Vec<char>)
    ensures
        v@ == s@,
{
    let mut v: Vec<char> = Vec::new();
    for c in it: s.chars()
        invariant
            v@ == it.seq().take(it.index() as int),
    {
        v.push(c);
    }
    v
}

/// A string of the given characters.
pub(crate) fn string_of(v: &Vec<char>) -> (s: String)
    ensures
        s@ == v@,
{
    let mut s = String::new();
    let mut i: usize = 0;
    while i < v.len()
        invariant
            0 <= i <= v.len(),
            s@ == v@.take(i as int),
        decreases v.len() - i,
    {
        push_char(&mut s, v[i]);
        assert(s@ =~= v@.take(i + 1));
        i = i + 1;
    }
    assert(v@.take(v.len() as int) =~= v@);
    s
}

/// `str::split(sep)` for a one-character separator: the pieces of `s` between
/// occurrences of `sep`, empty pieces included.
pub open spec fn split_on(s: Seq<char>, sep: char) -> Seq<Seq<char>>
    decreases s.len(),
{
    if s.len() == 0 {
        seq![Seq::<char>::empty()]
    } else {
        let prev = split_on(s.drop_last(), sep);
        if s.last() == sep {
            prev.push(Seq::<char>::empty())
        } else {
            prev.update(prev.len() - 1, prev.last().push(s.last()))
        }
    }
}

pub proof fn lemma_split_nonempty(s: Seq<char>, sep: char)
    ensures
        split_on(s, sep).len() >= 1,
    decreases s.len(),
{
    if s.len() > 0 {
        lemma_split_nonempty(s.drop_last(), sep);
    }
}

/// A text without the separator is one piece.
pub proof fn lemma_split_single(x: Seq<char>, sep: char)
    requires
        !x.contains(sep),
    ensures
        split_on(x, sep) == seq![x],
    decreases x.len(),
{
    if x.len() > 0 {
        assert(!x.drop_last().contains(sep)) by {
            if x.drop_last().contains(sep) {
                let j = choose|j: int| 0 <= j < x.drop_last().len() && x.drop_last()[j] == sep;
                assert(x[j] == sep);
            }
        }
        lemma_split_single(x.drop_last(), sep);
        assert(x.drop_last().push(x.last()) =~= x);
        assert(x[x.len() - 1] != sep);
    } else {
        assert(x =~= Seq::<char>::empty());
    }
}

/// Pieces on both sides of a separator are the pieces of each side.
pub proof fn lemma_split_concat(x: Seq<char>, y: Seq<char>, sep: char)
    ensures
        split_on(x + seq![sep] + y, sep) == split_on(x, sep) + split_on(y, sep),
    decreases y.len(),
{
    lemma_split_nonempty(x, sep);
    if y.len() == 0 {
        assert((x + seq![sep] + y).drop_last() =~= x);
        assert(split_on(x + seq![sep] + y, sep) =~= split_on(x, sep) + split_on(y, sep));
    } else {
        let z = x + seq![sep] + y;
        assert(z.drop_last() =~= x + seq![sep] + y.drop_last());
        lemma_split_concat(x, y.drop_last(), sep);
        lemma_split_nonempty(y.drop_last(), sep);
        assert(z.last() == y.last());
        assert(split_on(z, sep) =~= split_on(x, sep) + split_on(y, sep));
    }
}

pub open spec fn views(v: Seq<Vec<char>>) -> Seq<Seq<char>> {
    v.map_values(|t: Vec<char>| t@)
}

/// The pieces of `s` between occurrences of `sep`.
pub(crate) fn split_chars(s: &Vec<char>, sep: char) -> (toks: Vec<Vec<char>>)
    ensures
        views(toks@) == split_on(s@, sep),
{
    let mut toks: Vec<Vec<char>> = Vec::new();
    let mut cur: Vec<char> = Vec::new();
    let mut i: usize = 0;
    while i < s.len()
        invariant
            0 <= i <= s.len(),
            split_on(s@.take(i as int), sep) == views(toks@).push(cur@),
        decreases s.len() - i,
    {
        assert(s@.take(i + 1).drop_last() =~= s@.take(i as int));
        if s[i] == sep {
            toks.push(cur);
            cur = Vec::new();
            assert(views(toks@).push(cur@) =~= split_on(s@.take(i as int), sep).push(Seq::<char>::empty()));
        } else {
            let ghost before = cur@;
            cur.push(s[i]);
            assert(views(toks@).push(cur@) =~= split_on(s@.take(i as int), sep).update(
                split_on(s@.take(i as int), sep).len() - 1,
                before.push(s@[i as int]),
            ));
        }
        i = i + 1;
    }
    assert(s@.take(s.len() as int) =~= s@);
    toks.push(cur);
    toks
}

/// Whether `s` is the one-character string `c`.
pub(crate) fn is_single_char(s: &String, c: char) -> (b: bool)
    ensures
        b == (s@ == seq![c]),
{
    let t = s.as_str();
    if t.unicode_len() != 1 {
        return false;
    }
    let d = t.get_char(0);
    proof {
        if d == c {
            assert(s@ =~= seq![c]);
        }
    }
    d == c
}

pub open spec fn is_digit(c: char) -> bool {
    '0' <= c && c <= '9'
}

pub open spec fn all_digits(v: Seq<char>) -> bool {
    forall|i: int| 0 <= i < v.len() ==> is_digit(#[trigger] v[i])
}

pub open spec fn digit_value(c: char) -> int {
    c as int - '0' as int
}

/// The number that a string of decimal digits writes.
pub open spec fn decimal_value(v: Seq<char>) -> int
    decreases v.len(),
{
    if v.len() == 0 {
        0
    } else {
        decimal_value(v.drop_last()) * 10 + digit_value(v.last())
    }
}

/// A prefix of a digit string writes a number no larger than the whole string.
pub proof fn lemma_decimal_prefix(v: Seq<char>, i: int)
    requires
        all_digits(v),
        0 <= i <= v.len(),
    ensures
        0 <= decimal_value(v.take(i)) <= decimal_value(v),
    decreases v.len(),
{
    if v.len() > 0 {
        let w = v.drop_last();
        assert(all_digits(w)) by {
            assert forall|j: int| 0 <= j < w.len() implies is_digit(#[trigger] w[j]) by {
                assert(w[j] == v[j]);
            }
        }
        assert(is_digit(v[v.len() - 1]));
        if i < v.len() {
            assert(v.take(i) =~= w.take(i));
            lemma_decimal_prefix(w, i);
        } else {
            assert(v.take(i) =~= v);
            lemma_decimal_prefix(w, 0);
        }
        lemma_decimal_prefix(w, w.len() as int);
        assert(w.take(w.len() as int) =~= w);
    } else {
        assert(v.take(i) =~= v);
    }
}

/// Reads a string of decimal digits as an `i32`: `None` where the string is empty,
/// holds a character that is no digit, or writes a number above `i32::MAX`.
pub(crate) fn parse_decimal_i32(s: &String) -> (r: Option<i32>)
    ensures
        r == (if s@.len() > 0 && all_digits(s@) && decimal_value(s@) <= i32::MAX {
            Some(decimal_value(s@) as i32)
        } else {
            None::<i32>
        }),
{
    let t = s.as_str();
    let n = t.unicode_len();
    if n == 0 {
        return None;
    }
    let mut i: usize = 0;
    while i < n
        invariant
            t@ == s@,
            n == s@.len(),
            0 <= i <= n,
            forall|j: int| 0 <= j < i ==> is_digit(#[trigger] s@[j]),
        decreases n - i,
    {
        let c = t.get_char(i);
        if !('0' <= c && c <= '9') {
            return None;
        }
        i = i + 1;
    }
    let mut acc: i64 = 0;
    let mut i: usize = 0;
    while i < n
        invariant
            t@ == s@,
            n == s@.len(),
            0 <= i <= n,
            all_digits(s@),
            acc == decimal_value(s@.take(i as int)),
            0 <= acc <= i32::MAX,
        decreases n - i,
    {
        let c = t.get_char(i);
        assert(is_digit(s@[i as int]));
        let d = (c as u32 - '0' as u32) as i64;
        assert(d == digit_value(s@[i as int]));
        assert(s@.take(i + 1).drop_last() =~= s@.take(i as int));
        acc = acc * 10 + d;
        proof {
            lemma_decimal_prefix(s@, i + 1);
        }
        if acc > i32::MAX as i64 {
            proof {
                lemma_decimal_prefix(s@, n as int);
                assert(s@.take(n as int) =~= s@);
            }
            return None;
        }
        i = i + 1;
    }
    assert(s@.take(n as int) =~= s@);
    Some(acc as i32)
}

} // verus!
