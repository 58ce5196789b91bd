use vstd::prelude::*;
use crate::text::chars_of;
use crate::text::split_chars;
use crate::text::split_on;
use crate::text::string_of;
use crate::text::views;

verus! {

/// An event received from the publisher: its type and its value.
#[derive(Debug, PartialEq)]
pub struct Event {
    pub kind: String,
    pub value: String,
}

/// The value recorded for an event that carries none.
pub open spec fn no_value() -> Seq<char> {
    seq!['-', '1']
}

/// The event that a message announces: the message is `<type>` or `<type> <value>`
/// (words separated by single spaces); a message of more words announces none.
pub open spec fn sp_event(message: Seq<char>) -> Option<(Seq<char>, Seq<char>)> {
    let words = split_on(message, ' ');
    if words.len() < 1 || words.len() > 2 {
        None
    } else if words.len() == 1 {
        Some((words[0], no_value()))
    } else {
        Some((words[0], words[1]))
    }
}

/// A message of one word announces that word with the value `-1`; a message of two
/// words separated by one space announces the first as its type and the second as its
/// value, whatever their characters; a message of more words announces nothing.
pub proof fn law_event_words(w0: Seq<char>, w1: Seq<char>, w2: Seq<char>)
    requires
        !w0.contains(' '),
        !w1.contains(' '),
    ensures
        sp_event(w0) == Some((w0, seq!['-', '1'])),
        sp_event(w0 + seq![' '] + w1) == Some((w0, w1)),
        sp_event(w0 + seq![' '] + w1 + seq![' '] + w2) is None,
{
    crate::text::lemma_split_single(w0, ' ');
    crate::text::lemma_split_single(w1, ' ');
    crate::text::lemma_split_concat(w0, w1, ' ');
    assert(seq![w0] + seq![w1] =~= seq![w0, w1]);
    crate::text::lemma_split_concat(w0 + seq![' '] + w1, w2, ' ');
    crate::text::lemma_split_nonempty(w2, ' ');
}

/// Reads the event that a message announces.
pub fn parse_event(message: &str) -> (r: Option<Event>)
    ensures
        match sp_event(message@) {
            None => r is None,
            Some((kind, value)) => r matches Some(e) && e.kind@ == kind && e.value@ == value,
        },
{
    let words = split_chars(&chars_of(message), ' ');
    let ghost ws = views(words@);
    if words.len() < 1 || words.len() > 2 {
        return None;
    }
    assert(ws[0] == words@[0]@);
    let kind = string_of(&words[0]);
    let value = if words.len() == 1 {
        let v = vec!['-', '1'];
        assert(v@ =~= no_value());
        string_of(&v)
    } else {
        assert(ws[1] == words@[1]@);
        string_of(&words[1])
    };
    Some(Event { kind, value })
}

/// The decimal digits of a number.
pub open spec fn decimal_text(n: nat) -> Seq<char>
    decreases n,
{
    if n < 10 {
        seq![((n + '0' as nat) as u8) as char]
    } else {
        decimal_text(n / 10).push((((n % 10) + '0' as nat) as u8) as char)
    }
}

fn write_decimal(n: u64, out: &mut Vec<char>)
    ensures
        final(out)@ == old(out)@ + decimal_text(n as nat),
    decreases n,
{
    if n >= 10 {
        write_decimal(n / 10, out);
    }
    out.push(((n % 10) as u8 + 48u8) as char);
    assert(out@ =~= old(out)@ + decimal_text(n as nat));
}

/// `<level>::<time>::<message>` and a line break, as the client writes to its log.
pub open spec fn log_line(level: Seq<char>, time: nat, message: Seq<char>) -> Seq<char> {
    level + seq![':', ':'] + decimal_text(time) + seq![':', ':'] + message + seq!['\n']
}

/// The line that the client writes to its log for a message at a level and a time in seconds.
pub fn format_log_line(level: &str, time: u64, message: &str) -> (r: String)
    ensures
        r@ == log_line(level@, time as nat, message@),
{
    let mut out = chars_of(level);
    out.push(':');
    out.push(':');
    write_decimal(time, &mut out);
    out.push(':');
    out.push(':');
    let m = chars_of(message);
    let mut i: usize = 0;
    let ghost start = out@;
    while i < m.len()
        invariant
            0 <= i <= m.len(),
            out@ == start + m@.take(i as int),
        decreases m.len() - i,
    {
        out.push(m[i]);
        assert(out@ =~= start + m@.take(i + 1));
        i = i + 1;
    }
    assert(m@.take(m.len() as int) =~= m@);
    out.push('\n');
    assert(out@ =~= log_line(level@, time as nat, message@));
    string_of(&out)
}

} // verus!
