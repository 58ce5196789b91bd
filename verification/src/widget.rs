use vstd::prelude::*;
use crate::text::string_of;
use crate::text::chars_of;
use crate::text::all_digits;
use crate::text::decimal_value;
use crate::text::split_on;
use crate::notation::is_whitespace;

verus! {

/// How a layout arranges its children.
#[derive(Debug, PartialEq, Eq, Clone, Copy, Structural)]
pub enum Alignment {
    Horizontal,
    Vertical,
}

/// A top-level window with a title.
#[derive(Debug)]
pub struct Window {
    pub title: String,
    pub children: Vec<AnyWidget>,
}

/// A container that arranges its children in a row or a column.
#[derive(Debug)]
pub struct Layout {
    pub alignment: Alignment,
    pub children: Vec<AnyWidget>,
}

/// A one-line text field that holds at most `max_length` characters.
#[derive(Debug)]
pub struct LineEdit {
    pub max_length: u8,
    pub children: Vec<AnyWidget>,
}

/// A drop-down list of items.
#[derive(Debug)]
pub struct ComboBox {
    pub items: Vec<String>,
    pub children: Vec<AnyWidget>,
}

/// A widget of any of the four kinds.
#[derive(Debug)]
pub enum AnyWidget {
    Window(Window),
    Layout(Layout),
    LineEdit(LineEdit),
    ComboBox(ComboBox),
}

/// The attribute that sets a widget's kind apart.
pub enum Attr {
    Title(Seq<char>),
    Alignment(Alignment),
    MaxLength(u8),
    Items(Seq<Seq<char>>),
}

/// The mathematical form of a widget tree.
pub struct WidgetView {
    pub attr: Attr,
    pub children: Seq<WidgetView>,
}

pub open spec fn string_views(v: Seq<String>) -> Seq<Seq<char>> {
    v.map_values(|s: String| s@)
}

impl AnyWidget {
    pub open spec fn to_view(&self) -> WidgetView
        decreases self, 0nat,
    {
        match self {
            AnyWidget::Window(w) => WidgetView { attr: Attr::Title(w.title@), children: views_of(w.children@, 0) },
            AnyWidget::Layout(w) => WidgetView {
                attr: Attr::Alignment(w.alignment),
                children: views_of(w.children@, 0),
            },
            AnyWidget::LineEdit(w) => WidgetView {
                attr: Attr::MaxLength(w.max_length),
                children: views_of(w.children@, 0),
            },
            AnyWidget::ComboBox(w) => WidgetView {
                attr: Attr::Items(string_views(w.items@)),
                children: views_of(w.children@, 0),
            },
        }
    }
}

/// The views of `cs[i..]`.
pub open spec fn views_of(cs: Seq<AnyWidget>, i: nat) -> Seq<WidgetView>
    decreases cs, cs.len() - i,
{
    if i >= cs.len() {
        Seq::empty()
    } else {
        seq![cs[i as int].to_view()] + views_of(cs, i + 1)
    }
}

/// What `{:?}` writes for a string that holds a character other than a plain one.
pub uninterp spec fn debug_text(s: Seq<char>) -> Seq<char>;

/// `t` between two double quotes.
pub open spec fn quoted(t: Seq<char>) -> Seq<char> {
    seq!['"'] + t + seq!['"']
}

/// What `{:?}` writes for a string: a string of plain characters between two double quotes.
pub open spec fn debug_form(s: Seq<char>) -> Seq<char> {
    if all_plain(s) {
        quoted(s)
    } else {
        debug_text(s)
    }
}

/// A character that `{:?}` writes unchanged inside the quotes: an ASCII letter or digit, `_` or a space.
pub open spec fn is_plain(c: char) -> bool {
    ('a' <= c && c <= 'z') || ('A' <= c && c <= 'Z') || ('0' <= c && c <= '9') || c == '_' || c == ' '
}

pub open spec fn all_plain(s: Seq<char>) -> bool {
    forall|i: int| 0 <= i < s.len() ==> is_plain(#[trigger] s[i])
}

/// The `Debug` form of a string, by `format!("{:?}", s)`: the string in double quotes,
/// with quotes, backslashes and characters that are not printable escaped.
/// Stated here: a string of plain characters comes out unchanged between two double quotes;
/// for any other string the result is named `debug_text` of it, and its escapes are not stated.
#[verifier::external_body]
fn debug_string(s: &String) -> (r: String)
    ensures
        all_plain(s@) ==> r@ == quoted(s@),
        !all_plain(s@) ==> r@ == debug_text(s@),
{
    format!("{:?}", s)
}

pub open spec fn quote() -> Seq<char> {
    seq!['"']
}

/// `[a, b, ...]` with each string in its `Debug` form, as `{:?}` writes a `Vec<String>`.
pub open spec fn debug_list(items: Seq<Seq<char>>) -> Seq<char> {
    seq!['['] + debug_items(items) + seq![']']
}

pub open spec fn debug_items(items: Seq<Seq<char>>) -> Seq<char>
    decreases items.len(),
{
    if items.len() == 0 {
        Seq::empty()
    } else if items.len() == 1 {
        debug_form(items[0])
    } else {
        debug_form(items[0]) + seq![',', ' '] + debug_items(items.drop_first())
    }
}

/// The decimal digits of a byte.
pub open spec fn u8_decimal(n: u8) -> Seq<char> {
    let v = n as int;
    if v < 10 {
        seq![digit_char(v)]
    } else if v < 100 {
        seq![digit_char(v / 10), digit_char(v % 10)]
    } else {
        seq![digit_char(v / 100), digit_char((v / 10) % 10), digit_char(v % 10)]
    }
}

pub open spec fn digit_char(d: int) -> char {
    (d + '0' as int) as char
}

pub open spec fn kind_name(a: Attr) -> Seq<char> {
    match a {
        Attr::Title(_) => seq!['W', 'i', 'n', 'd', 'o', 'w'],
        Attr::Alignment(_) => seq!['L', 'a', 'y', 'o', 'u', 't'],
        Attr::MaxLength(_) => seq!['L', 'i', 'n', 'e', 'E', 'd', 'i', 't'],
        Attr::Items(_) => seq!['C', 'o', 'm', 'b', 'o', 'B', 'o', 'x'],
    }
}

/// `{"name":"`
pub open spec fn name_open() -> Seq<char> {
    seq!['{', '"', 'n', 'a', 'm', 'e', '"', ':', '"']
}

/// `"title":`
pub open spec fn title_key() -> Seq<char> {
    seq!['"', 't', 'i', 't', 'l', 'e', '"', ':']
}

/// `"alignment":`
pub open spec fn alignment_key() -> Seq<char> {
    seq!['"', 'a', 'l', 'i', 'g', 'n', 'm', 'e', 'n', 't', '"', ':']
}

/// `"max_length":`
pub open spec fn max_length_key() -> Seq<char> {
    seq!['"', 'm', 'a', 'x', '_', 'l', 'e', 'n', 'g', 't', 'h', '"', ':']
}

/// `"items":`
pub open spec fn items_key() -> Seq<char> {
    seq!['"', 'i', 't', 'e', 'm', 's', '"', ':']
}

/// `"children":[`
pub open spec fn children_open() -> Seq<char> {
    seq!['"', 'c', 'h', 'i', 'l', 'd', 'r', 'e', 'n', '"', ':', '[']
}

pub open spec fn alignment_digit(a: Alignment) -> char {
    match a {
        Alignment::Horizontal => '1',
        Alignment::Vertical => '2',
    }
}

/// The attribute as the encoding writes it, with its trailing comma.
pub open spec fn attr_text(a: Attr) -> Seq<char> {
    match a {
        Attr::Title(t) => title_key() + debug_form(t) + seq![','],
        Attr::Alignment(al) => alignment_key() + seq![alignment_digit(al), ','],
        Attr::MaxLength(n) => max_length_key() + u8_decimal(n) + seq![','],
        Attr::Items(items) => items_key() + debug_list(items) + seq![','],
    }
}

/// The encoding of a widget tree:
/// `{"name":"<kind>",<attribute>,"children":[<child>,<child>,...]}`.
pub open spec fn encode(v: WidgetView) -> Seq<char>
    decreases v, 0nat,
{
    name_open() + kind_name(v.attr) + seq!['"', ','] + attr_text(v.attr) + children_open() + encode_list(
        v.children,
        0,
    ) + seq![']', '}']
}

/// The encodings of `cs[i..]`, separated by commas.
pub open spec fn encode_list(cs: Seq<WidgetView>, i: nat) -> Seq<char>
    decreases cs, cs.len() - i,
{
    if i >= cs.len() {
        Seq::empty()
    } else if i + 1 == cs.len() {
        encode(cs[i as int])
    } else {
        encode(cs[i as int]) + seq![','] + encode_list(cs, i + 1)
    }
}

/// The classes of characters that the decoder reads in runs.
#[derive(Debug, PartialEq, Eq, Clone, Copy, Structural)]
pub enum CharClass {
    /// Word characters, as the class `\w` of the regex crate takes them.
    Name,
    /// Characters of a title: word characters and whitespace.
    Title,
    /// Characters of an attribute's value (`[\w\s\[\]",]`): those of a title, `[`, `]`, `"` and `,`.
    AttrValue,
}

/// An ASCII word character: an ASCII letter or digit, or `_`.
pub open spec fn is_ascii_word(c: char) -> bool {
    ('a' <= c && c <= 'z') || ('A' <= c && c <= 'Z') || ('0' <= c && c <= '9') || c == '_'
}

/// Whether the Unicode class `\w` of the regex crate holds a character.
pub uninterp spec fn regex_word(c: char) -> bool;

/// A word character: among ASCII characters the ASCII word characters, beyond them
/// what `\w` of the regex crate accepts.
pub open spec fn is_word(c: char) -> bool {
    if (c as u32) < 128 {
        is_ascii_word(c)
    } else {
        regex_word(c)
    }
}

/// Whether `c` is a word character, by matching it against the regex `\w` (Unicode).
/// Stated here: among ASCII characters `\w` accepts letters, digits and `_`; for other
/// characters the answer is named `regex_word` of the character (the Unicode tables of
/// the regex crate are not stated).
#[verifier::external_body]
fn regex_word_char(c: char) -> (b: bool)
    ensures
        (c as u32) < 128 ==> b == is_ascii_word(c),
        (c as u32) >= 128 ==> b == regex_word(c),
{
    regex::Regex::new(r"^\w$").unwrap().is_match(&c.to_string())
}

/// Whether `c` is a word character.
fn is_word_char(c: char) -> (b: bool)
    ensures
        b == is_word(c),
{
    if (c as u32) < 128 {
        ('a' <= c && c <= 'z') || ('A' <= c && c <= 'Z') || ('0' <= c && c <= '9') || c == '_'
    } else {
        regex_word_char(c)
    }
}

pub open spec fn in_class(c: char, k: CharClass) -> bool {
    match k {
        CharClass::Name => is_word(c),
        CharClass::Title => is_word(c) || is_whitespace(c),
        CharClass::AttrValue => is_word(c) || is_whitespace(c) || c == '"' || c == ',' || c == '[' || c == ']',
    }
}

/// The end of the run of characters of class `k` that starts at `p`.
pub open spec fn class_end(s: Seq<char>, p: nat, k: CharClass) -> nat
    decreases s.len() - p,
{
    if p < s.len() && in_class(s[p as int], k) {
        class_end(s, p + 1, k)
    } else {
        p
    }
}

/// Whether `lit` stands in `s` at position `p`.
pub open spec fn lit_at(s: Seq<char>, p: nat, lit: Seq<char>) -> bool {
    p + lit.len() <= s.len() && s.subrange(p as int, p + lit.len() as int) == lit
}

/// `t` without its double quotes and spaces.
pub open spec fn strip_quotes(t: Seq<char>) -> Seq<char>
    decreases t.len(),
{
    if t.len() == 0 {
        t
    } else if t.last() == '"' || t.last() == ' ' {
        strip_quotes(t.drop_last())
    } else {
        strip_quotes(t.drop_last()).push(t.last())
    }
}

/// The items written in `content`: its pieces between commas, without quotes and spaces.
pub open spec fn items_of(content: Seq<char>) -> Seq<Seq<char>> {
    split_on(content, ',').map_values(|t: Seq<char>| strip_quotes(t))
}

/// Whether `t` holds no line break (`.` of a regex does not match one).
pub open spec fn no_newline(t: Seq<char>) -> bool {
    forall|i: int| 0 <= i < t.len() ==> #[trigger] t[i] != '\n'
}

/// `}]}`: the end of a last child, of its list and of its parent.
pub open spec fn close3() -> Seq<char> {
    seq!['}', ']', '}']
}

/// The greatest `e` from `c + 1` up to `e_hi` at which `}]}` stands with no line break
/// in `t[c + 1..e]`: where the greedy `\{.*\}` of the tree pattern ends.
pub open spec fn last_close(t: Seq<char>, c: nat, e_hi: nat) -> Option<nat>
    decreases e_hi,
{
    if e_hi < c + 1 {
        None
    } else if lit_at(t, e_hi, close3()) && no_newline(t.subrange(c + 1 as int, e_hi as int)) {
        Some(e_hi)
    } else {
        last_close(t, c, (e_hi - 1) as nat)
    }
}

/// `(\{.*\})?\]\}` at position `c`: the span of the children's text where there is one,
/// and the position after the match. The group is tried first, with `.*` as long as it
/// can be, then left out.
pub open spec fn children_group(t: Seq<char>, c: nat) -> Option<(Option<(nat, nat)>, nat)> {
    let found = if c < t.len() && t[c as int] == '{' && t.len() >= 3 {
        last_close(t, c, (t.len() - 3) as nat)
    } else {
        None
    };
    match found {
        Some(e) => Some((Some((c, e + 1)), e + 3)),
        None => if lit_at(t, c, seq![']', '}']) {
            Some((None, c + 2))
        } else {
            None
        },
    }
}

/// `"children":\[` and the children group at position `x`: where the attributes end,
/// the children's span and the end of the match.
pub open spec fn children_exit(t: Seq<char>, x: nat) -> Option<(nat, Option<(nat, nat)>, nat)> {
    if lit_at(t, x, children_open()) {
        match children_group(t, x + 12) {
            Some((ch, end)) => Some((x, ch, end)),
            None => None,
        }
    } else {
        None
    }
}

/// One or more attributes `"\w+":[\w\s\[\]",]+,` from position `k`, followed by the
/// children: the first match in the order of preference of the pattern (the value as
/// long as it can be, then one more attribute before the children).
pub open spec fn attr_iter(t: Seq<char>, k: nat) -> Option<(nat, Option<(nat, nat)>, nat)>
    decreases t.len() - k, 1nat, 0nat,
{
    if !(k < t.len() && t[k as int] == '"') {
        None
    } else {
        let w1 = class_end(t, k + 1, CharClass::Name);
        if w1 == k + 1 || !lit_at(t, w1, seq!['"', ':']) {
            None
        } else {
            let v0 = w1 + 2;
            let r = class_end(t, v0, CharClass::AttrValue);
            if r == 0 {
                None
            } else {
                attr_scan(t, k, v0, (r - 1) as nat)
            }
        }
    }
}

/// The ends `j` of the value that starts at `v0`, from `j` down: at a comma, first
/// one more attribute, then the children.
pub open spec fn attr_scan(t: Seq<char>, k: nat, v0: nat, j: nat) -> Option<(nat, Option<(nat, nat)>, nat)>
    decreases t.len() - k, 0nat, j,
{
    if j < v0 + 1 || j >= t.len() || k >= v0 {
        None
    } else if t[j as int] == ',' {
        match attr_iter(t, j + 1) {
            Some(x) => Some(x),
            None => match children_exit(t, j + 1) {
                Some(x) => Some(x),
                None => attr_scan(t, k, v0, (j - 1) as nat),
            },
        }
    } else {
        attr_scan(t, k, v0, (j - 1) as nat)
    }
}

/// Where the tree pattern
/// `\{"name":"(\w+)",((?:"\w+":[\w\s\[\]",]+,)+)"children":\[(\{.*\})?\]\}`
/// matches at a position: the spans of the name, of the attributes and of the
/// children (if any), and the end of the match.
pub struct TreeMatch {
    pub name: (nat, nat),
    pub attrs: (nat, nat),
    pub children: Option<(nat, nat)>,
    pub end: nat,
}

/// The match of the tree pattern at position `p`, as the regex crate prefers it.
pub open spec fn match_at(t: Seq<char>, p: nat) -> Option<TreeMatch> {
    if !lit_at(t, p, name_open()) {
        None
    } else {
        let n0 = p + 9;
        let n1 = class_end(t, n0, CharClass::Name);
        if n1 == n0 || !lit_at(t, n1, seq!['"', ',']) {
            None
        } else {
            match attr_iter(t, n1 + 2) {
                None => None,
                Some((x, ch, end)) => Some(TreeMatch { name: (n0, n1), attrs: (n1 + 2, x), children: ch, end }),
            }
        }
    }
}

/// The leftmost match of the tree pattern at position `q` or after it.
pub open spec fn leftmost(t: Seq<char>, q: nat) -> Option<TreeMatch>
    decreases t.len() + 1 - q,
{
    if q > t.len() {
        None
    } else {
        match match_at(t, q) {
            Some(m) => Some(m),
            None => leftmost(t, q + 1),
        }
    }
}

/// The attribute of a widget of kind `name` written as `a` (the attributes' text, its
/// last comma included), as the pattern of each kind reads it:
/// `^"title":"([\w\s]+)",$`, `^"alignment":(\d+),$` (1 or 2), `^"max_length":(\d+),$`
/// (a byte) and `^"items":\[(.*)\],$`; `None` where the kind is unknown or its pattern
/// does not match.
pub open spec fn kind_attr(name: Seq<char>, a: Seq<char>) -> Option<Attr> {
    let n = a.len();
    if name == kind_name(Attr::Title(Seq::empty())) {
        if n >= 12 && a.subrange(0, 9) == title_key() + quote() && a.subrange(n - 2, n as int) == seq!['"', ',']
            && forall|i: int| 9 <= i < n - 2 ==> in_class(#[trigger] a[i], CharClass::Title) {
            Some(Attr::Title(a.subrange(9, n - 2)))
        } else {
            None
        }
    } else if name == kind_name(Attr::Alignment(Alignment::Horizontal)) {
        if a == alignment_key() + seq!['1', ','] {
            Some(Attr::Alignment(Alignment::Horizontal))
        } else if a == alignment_key() + seq!['2', ','] {
            Some(Attr::Alignment(Alignment::Vertical))
        } else {
            None
        }
    } else if name == kind_name(Attr::MaxLength(0)) {
        let d = a.subrange(13, n - 1);
        if n >= 15 && a.subrange(0, 13) == max_length_key() && a[n - 1] == ',' && all_digits(d) && decimal_value(d)
            <= 255 {
            Some(Attr::MaxLength(decimal_value(d) as u8))
        } else {
            None
        }
    } else if name == kind_name(Attr::Items(Seq::empty())) {
        if n >= 11 && a.subrange(0, 9) == items_key() + seq!['['] && a.subrange(n - 2, n as int) == seq![']', ',']
            && no_newline(a.subrange(9, n - 2)) {
            Some(Attr::Items(items_of(a.subrange(9, n - 2))))
        } else {
            None
        }
    } else {
        None
    }
}

/// The widget tree of a match in `t`: its attribute by its kind's pattern, its children
/// the trees of the successive leftmost matches in the children's text.
pub open spec fn decode_match(t: Seq<char>, m: TreeMatch) -> Option<WidgetView>
    decreases t.len(), 0nat, 0nat,
{
    match kind_attr(t.subrange(m.name.0 as int, m.name.1 as int), t.subrange(m.attrs.0 as int, m.attrs.1 as int)) {
        None => None,
        Some(attr) => match m.children {
            None => Some(WidgetView { attr, children: Seq::empty() }),
            Some((c0, c1)) => if c1 < t.len() {
                match decode_all(t.subrange(0, c1 as int), c0) {
                    Some(cs) => Some(WidgetView { attr, children: cs }),
                    None => None,
                }
            } else {
                None
            },
        },
    }
}

/// The trees of the successive non-overlapping leftmost matches in `u` from `q` on.
pub open spec fn decode_all(u: Seq<char>, q: nat) -> Option<Seq<WidgetView>>
    decreases u.len(), 1nat, u.len() + 1 - q,
{
    if q > u.len() {
        Some(Seq::empty())
    } else {
        match leftmost(u, q) {
            None => Some(Seq::empty()),
            Some(m) => if q < m.end && m.end <= u.len() {
                match decode_match(u, m) {
                    None => None,
                    Some(w) => match decode_all(u, m.end) {
                        None => None,
                        Some(ws) => Some(seq![w] + ws),
                    },
                }
            } else {
                None
            },
        }
    }
}

/// The widget tree that `source` encodes: that of the leftmost match of the tree
/// pattern, or `None` where there is none or it does not decode.
pub open spec fn decode_source(s: Seq<char>) -> Option<WidgetView> {
    match leftmost(s, 0) {
        None => None,
        Some(m) => decode_match(s, m),
    }
}

pub proof fn lemma_views_of(cs: Seq<AnyWidget>, i: nat)
    requires
        i <= cs.len(),
    ensures
        views_of(cs, i).len() == cs.len() - i,
        forall|j: int| 0 <= j < cs.len() - i ==> #[trigger] views_of(cs, i)[j] == cs[i + j].to_view(),
    decreases cs.len() - i,
{
    if i < cs.len() {
        lemma_views_of(cs, i + 1);
        assert forall|j: int| 0 <= j < cs.len() - i implies #[trigger] views_of(cs, i)[j] == cs[i + j].to_view() by {
            if j > 0 {
                assert(views_of(cs, i)[j] == views_of(cs, i + 1)[j - 1]);
            }
        }
    }
}

proof fn lemma_views_push(cs: Seq<AnyWidget>, c: AnyWidget)
    ensures
        views_of(cs.push(c), 0) == views_of(cs, 0).push(c.to_view()),
{
    lemma_views_of(cs, 0);
    lemma_views_of(cs.push(c), 0);
    assert(views_of(cs.push(c), 0) =~= views_of(cs, 0).push(c.to_view()));
}

/// Appends the characters of `t` to `out`.
fn append(out: &mut Vec<char>, t: &Vec<char>)
    ensures
        final(out)@ == old(out)@ + t@,
{
    let mut i: usize = 0;
    while i < t.len()
        invariant
            0 <= i <= t.len(),
            out@ == old(out)@ + t@.take(i as int),
        decreases t.len() - i,
    {
        out.push(t[i]);
        assert(out@ =~= old(out)@ + t@.take(i + 1));
        i = i + 1;
    }
    assert(t@.take(t.len() as int) =~= t@);
}

/// The decimal digits of a byte.
fn u8_digits(n: u8) -> (v: Vec<char>)
    ensures
        v@ == u8_decimal(n),
{
    let mut v: Vec<char> = Vec::new();
    if n >= 100 {
        v.push((n / 100 + 48u8) as char);
    }
    if n >= 10 {
        v.push(((n / 10) % 10 + 48u8) as char);
    }
    v.push((n % 10 + 48u8) as char);
    assert(v@ =~= u8_decimal(n));
    v
}

fn title_attr(title: &String) -> (v: Vec<char>)
    ensures
        v@ == attr_text(Attr::Title(title@)),
{
    let mut v = vec!['"', 't', 'i', 't', 'l', 'e', '"', ':'];
    assert(v@ =~= title_key());
    let d = debug_string(title);
    append(&mut v, &chars_of(d.as_str()));
    v.push(',');
    assert(v@ =~= attr_text(Attr::Title(title@)));
    v
}

fn alignment_attr(a: Alignment) -> (v: Vec<char>)
    ensures
        v@ == attr_text(Attr::Alignment(a)),
{
    let mut v = vec!['"', 'a', 'l', 'i', 'g', 'n', 'm', 'e', 'n', 't', '"', ':'];
    assert(v@ =~= alignment_key());
    match a {
        Alignment::Horizontal => v.push('1'),
        Alignment::Vertical => v.push('2'),
    }
    v.push(',');
    assert(v@ =~= attr_text(Attr::Alignment(a)));
    v
}

fn max_length_attr(n: u8) -> (v: Vec<char>)
    ensures
        v@ == attr_text(Attr::MaxLength(n)),
{
    let mut v = vec!['"', 'm', 'a', 'x', '_', 'l', 'e', 'n', 'g', 't', 'h', '"', ':'];
    assert(v@ =~= max_length_key());
    append(&mut v, &u8_digits(n));
    v.push(',');
    assert(v@ =~= attr_text(Attr::MaxLength(n)));
    v
}

proof fn lemma_debug_items_step(items: Seq<Seq<char>>, i: int)
    requires
        0 <= i < items.len(),
    ensures
        debug_items(items.take(i + 1)) == if i == 0 {
            debug_form(items[0])
        } else {
            debug_items(items.take(i)) + seq![',', ' '] + debug_form(items[i])
        },
    decreases i,
{
    if i > 0 {
        let t = items.take(i + 1);
        assert(t.drop_first() =~= items.drop_first().take(i));
        assert(items.take(i).drop_first() =~= items.drop_first().take(i - 1));
        lemma_debug_items_step(items.drop_first(), i - 1);
        if i > 1 {
            assert(debug_items(items.take(i)) == debug_form(items[0]) + seq![',', ' '] + debug_items(items.drop_first().take(i - 1)));
        }
    }
}

fn items_attr(items: &Vec<String>) -> (v: Vec<char>)
    ensures
        v@ == attr_text(Attr::Items(string_views(items@))),
{
    let ghost sv = string_views(items@);
    let mut v = vec!['"', 'i', 't', 'e', 'm', 's', '"', ':', '['];
    assert(v@ =~= items_key() + seq!['[']);
    let ghost start = v@;
    let mut i: usize = 0;
    while i < items.len()
        invariant
            0 <= i <= items.len(),
            sv == string_views(items@),
            v@ == start + debug_items(sv.take(i as int)),
        decreases items.len() - i,
    {
        proof {
            lemma_debug_items_step(sv, i as int);
        }
        if i > 0 {
            v.push(',');
            v.push(' ');
        }
        let d = debug_string(&items[i]);
        append(&mut v, &chars_of(d.as_str()));
        proof {
            assert(sv[i as int] == items@[i as int]@);
            if i == 0 {
                assert(sv.take(0) =~= Seq::<Seq<char>>::empty());
            }
        }
        assert(v@ =~= start + debug_items(sv.take(i + 1)));
        i = i + 1;
    }
    assert(sv.take(items.len() as int) =~= sv);
    v.push(']');
    v.push(',');
    assert(v@ =~= attr_text(Attr::Items(sv)));
    v
}

/// Appends the encoding of a widget tree.
fn write_widget(w: &AnyWidget, out: &mut Vec<char>)
    ensures
        final(out)@ == old(out)@ + encode(w.to_view()),
    decreases w, 0nat,
{
    match w {
        AnyWidget::Window(x) => {
            let name = vec!['W', 'i', 'n', 'd', 'o', 'w'];
            assert(name@ =~= kind_name(Attr::Title(x.title@)));
            write_node(&name, &title_attr(&x.title), &x.children, out);
        },
        AnyWidget::Layout(x) => {
            let name = vec!['L', 'a', 'y', 'o', 'u', 't'];
            assert(name@ =~= kind_name(Attr::Alignment(x.alignment)));
            write_node(&name, &alignment_attr(x.alignment), &x.children, out);
        },
        AnyWidget::LineEdit(x) => {
            let name = vec!['L', 'i', 'n', 'e', 'E', 'd', 'i', 't'];
            assert(name@ =~= kind_name(Attr::MaxLength(x.max_length)));
            write_node(&name, &max_length_attr(x.max_length), &x.children, out);
        },
        AnyWidget::ComboBox(x) => {
            let name = vec!['C', 'o', 'm', 'b', 'o', 'B', 'o', 'x'];
            assert(name@ =~= kind_name(Attr::Items(string_views(x.items@))));
            write_node(&name, &items_attr(&x.items), &x.children, out);
        },
    }
}

/// Appends `{"name":"<name>",<attr>"children":[<children>]}`.
fn write_node(name: &Vec<char>, attr: &Vec<char>, children: &Vec<AnyWidget>, out: &mut Vec<char>)
    ensures
        final(out)@ == old(out)@ + name_open() + name@ + seq!['"', ','] + attr@ + children_open() + encode_list(
            views_of(children@, 0),
            0,
        ) + seq![']', '}'],
    decreases children, children.len() + 1,
{
    let open = vec!['{', '"', 'n', 'a', 'm', 'e', '"', ':', '"'];
    assert(open@ =~= name_open());
    append(out, &open);
    append(out, name);
    out.push('"');
    out.push(',');
    append(out, attr);
    let ch = vec!['"', 'c', 'h', 'i', 'l', 'd', 'r', 'e', 'n', '"', ':', '['];
    assert(ch@ =~= children_open());
    append(out, &ch);
    let ghost mid = out@;
    write_children(children, 0, out);
    out.push(']');
    out.push('}');
    assert(out@ =~= old(out)@ + name_open() + name@ + seq!['"', ','] + attr@ + children_open() + encode_list(
        views_of(children@, 0),
        0,
    ) + seq![']', '}']);
}

/// Appends the encodings of `cs[i..]`, separated by commas.
fn write_children(cs: &Vec<AnyWidget>, i: usize, out: &mut Vec<char>)
    requires
        i <= cs.len(),
    ensures
        final(out)@ == old(out)@ + encode_list(views_of(cs@, 0), i as nat),
    decreases cs, cs.len() - i,
{
    proof {
        lemma_views_of(cs@, 0);
    }
    if i >= cs.len() {
        assert(old(out)@ + encode_list(views_of(cs@, 0), i as nat) =~= old(out)@);
        return;
    }
    write_widget(&cs[i], out);
    if i + 1 < cs.len() {
        out.push(',');
        write_children(cs, i + 1, out);
        assert(out@ =~= old(out)@ + encode_list(views_of(cs@, 0), i as nat));
    }
}

/// The common behaviour of widgets: taking a child and writing themselves out.
pub trait Widget {
    /// The widget tree that this widget roots.
    spec fn widget_view(&self) -> WidgetView;

    /// Adds `child` after the children already there.
    fn add_child(&mut self, child: AnyWidget)
        ensures
            final(self).widget_view() == (WidgetView {
                attr: old(self).widget_view().attr,
                children: old(self).widget_view().children.push(child.to_view()),
            }),
    ;

    /// The encoding of the widget tree.
    fn to_binary(&self) -> (r: String)
        ensures
            r@ == encode(self.widget_view()),
    ;
}

impl Window {
    /// A window with the given title and no children.
    pub fn new(title: String) -> (w: Window)
        ensures
            w.title@ == title@,
            w.children@.len() == 0,
    {
        Window { title, children: Vec::new() }
    }
}

impl Layout {
    /// A layout with the given alignment and no children.
    pub fn new(alignment: Alignment) -> (w: Layout)
        ensures
            w.alignment == alignment,
            w.children@.len() == 0,
    {
        Layout { alignment, children: Vec::new() }
    }
}

impl LineEdit {
    /// A line edit with the given maximum length and no children.
    pub fn new(max_length: u8) -> (w: LineEdit)
        ensures
            w.max_length == max_length,
            w.children@.len() == 0,
    {
        LineEdit { max_length, children: Vec::new() }
    }
}

impl ComboBox {
    /// A combo box with the given items and no children.
    pub fn new(items: Vec<String>) -> (w: ComboBox)
        ensures
            w.items@ == items@,
            w.children@.len() == 0,
    {
        ComboBox { items, children: Vec::new() }
    }
}

impl Widget for Window {
    open spec fn widget_view(&self) -> WidgetView {
        WidgetView { attr: Attr::Title(self.title@), children: views_of(self.children@, 0) }
    }

    fn add_child(&mut self, child: AnyWidget) {
        proof {
            lemma_views_push(self.children@, child);
        }
        self.children.push(child);
    }

    fn to_binary(&self) -> (r: String) {
        let mut out: Vec<char> = Vec::new();
        let name = vec!['W', 'i', 'n', 'd', 'o', 'w'];
        assert(name@ =~= kind_name(Attr::Title(self.title@)));
        write_node(&name, &title_attr(&self.title), &self.children, &mut out);
        assert(out@ =~= encode(self.widget_view()));
        string_of(&out)
    }
}

impl Widget for Layout {
    open spec fn widget_view(&self) -> WidgetView {
        WidgetView { attr: Attr::Alignment(self.alignment), children: views_of(self.children@, 0) }
    }

    fn add_child(&mut self, child: AnyWidget) {
        proof {
            lemma_views_push(self.children@, child);
        }
        self.children.push(child);
    }

    fn to_binary(&self) -> (r: String) {
        let mut out: Vec<char> = Vec::new();
        let name = vec!['L', 'a', 'y', 'o', 'u', 't'];
        assert(name@ =~= kind_name(Attr::Alignment(self.alignment)));
        write_node(&name, &alignment_attr(self.alignment), &self.children, &mut out);
        assert(out@ =~= encode(self.widget_view()));
        string_of(&out)
    }
}

impl Widget for LineEdit {
    open spec fn widget_view(&self) -> WidgetView {
        WidgetView { attr: Attr::MaxLength(self.max_length), children: views_of(self.children@, 0) }
    }

    fn add_child(&mut self, child: AnyWidget) {
        proof {
            lemma_views_push(self.children@, child);
        }
        self.children.push(child);
    }

    fn to_binary(&self) -> (r: String) {
        let mut out: Vec<char> = Vec::new();
        let name = vec!['L', 'i', 'n', 'e', 'E', 'd', 'i', 't'];
        assert(name@ =~= kind_name(Attr::MaxLength(self.max_length)));
        write_node(&name, &max_length_attr(self.max_length), &self.children, &mut out);
        assert(out@ =~= encode(self.widget_view()));
        string_of(&out)
    }
}

impl Widget for ComboBox {
    open spec fn widget_view(&self) -> WidgetView {
        WidgetView { attr: Attr::Items(string_views(self.items@)), children: views_of(self.children@, 0) }
    }

    fn add_child(&mut self, child: AnyWidget) {
        proof {
            lemma_views_push(self.children@, child);
        }
        self.children.push(child);
    }

    fn to_binary(&self) -> (r: String) {
        let mut out: Vec<char> = Vec::new();
        let name = vec!['C', 'o', 'm', 'b', 'o', 'B', 'o', 'x'];
        assert(name@ =~= kind_name(Attr::Items(string_views(self.items@))));
        write_node(&name, &items_attr(&self.items), &self.children, &mut out);
        assert(out@ =~= encode(self.widget_view()));
        string_of(&out)
    }
}

impl Widget for AnyWidget {
    open spec fn widget_view(&self) -> WidgetView {
        self.to_view()
    }

    fn add_child(&mut self, child: AnyWidget) {
        match self {
            AnyWidget::Window(w) => w.add_child(child),
            AnyWidget::Layout(w) => w.add_child(child),
            AnyWidget::LineEdit(w) => w.add_child(child),
            AnyWidget::ComboBox(w) => w.add_child(child),
        }
    }

    fn to_binary(&self) -> (r: String) {
        let mut out: Vec<char> = Vec::new();
        write_widget(self, &mut out);
        assert(out@ =~= encode(self.widget_view()));
        string_of(&out)
    }
}

/// An attribute read by the decoder.
enum AttrValue {
    Title(String),
    Alignment(Alignment),
    MaxLength(u8),
    Items(Vec<String>),
}

impl AttrValue {
    spec fn to_attr(&self) -> Attr {
        match self {
            AttrValue::Title(t) => Attr::Title(t@),
            AttrValue::Alignment(a) => Attr::Alignment(*a),
            AttrValue::MaxLength(n) => Attr::MaxLength(*n),
            AttrValue::Items(items) => Attr::Items(string_views(items@)),
        }
    }
}

fn lit_at_exec(s: &Vec<char>, p: usize, lit: &Vec<char>) -> (b: bool)
    ensures
        b == lit_at(s@, p as nat, lit@),
{
    if p > s.len() || lit.len() > s.len() - p {
        return false;
    }
    let mut i: usize = 0;
    while i < lit.len()
        invariant
            p + lit.len() <= s.len(),
            0 <= i <= lit.len(),
            forall|j: int| 0 <= j < i ==> s@[p + j] == lit@[j],
        decreases lit.len() - i,
    {
        if s[p + i] != lit[i] {
            assert(s@.subrange(p as int, p + lit.len() as int)[i as int] != lit@[i as int]);
            return false;
        }
        i = i + 1;
    }
    assert(s@.subrange(p as int, p + lit.len() as int) =~= lit@);
    true
}

fn in_class_exec(c: char, k: CharClass) -> (b: bool)
    ensures
        b == in_class(c, k),
{
    match k {
        CharClass::Name => is_word_char(c),
        CharClass::Title => is_word_char(c) || crate::notation::is_whitespace_char(c),
        CharClass::AttrValue => is_word_char(c) || crate::notation::is_whitespace_char(c) || c == '"' || c == ','
            || c == '[' || c == ']',
    }
}

fn class_end_exec(s: &Vec<char>, p: usize, k: CharClass) -> (e: usize)
    requires
        p <= s.len(),
    ensures
        e == class_end(s@, p as nat, k),
        p <= e <= s.len(),
        forall|j: int| p <= j < e ==> in_class(#[trigger] s@[j], k),
{
    let mut e = p;
    while e < s.len() && in_class_exec(s[e], k)
        invariant
            p <= e <= s.len(),
            class_end(s@, p as nat, k) == class_end(s@, e as nat, k),
            forall|j: int| p <= j < e ==> in_class(#[trigger] s@[j], k),
        decreases s.len() - e,
    {
        e = e + 1;
    }
    e
}

fn slice_is(s: &Vec<char>, a: usize, b: usize, lit: &Vec<char>) -> (r: bool)
    requires
        a <= b <= s.len(),
    ensures
        r == (s@.subrange(a as int, b as int) == lit@),
{
    if b - a != lit.len() {
        return false;
    }
    let r = lit_at_exec(s, a, lit);
    r
}

fn sub_chars(s: &Vec<char>, a: usize, b: usize) -> (v: Vec<char>)
    requires
        a <= b <= s.len(),
    ensures
        v@ == s@.subrange(a as int, b as int),
{
    let mut v: Vec<char> = Vec::new();
    let mut i = a;
    while i < b
        invariant
            a <= i <= b <= s.len(),
            v@ == s@.subrange(a as int, i as int),
        decreases b - i,
    {
        v.push(s[i]);
        assert(v@ =~= s@.subrange(a as int, i + 1));
        i = i + 1;
    }
    v
}

fn strip_quotes_exec(t: &Vec<char>) -> (r: Vec<char>)
    ensures
        r@ == strip_quotes(t@),
{
    let mut r: Vec<char> = Vec::new();
    let mut i: usize = 0;
    while i < t.len()
        invariant
            0 <= i <= t.len(),
            r@ == strip_quotes(t@.take(i as int)),
        decreases t.len() - i,
    {
        assert(t@.take(i + 1).drop_last() =~= t@.take(i as int));
        if t[i] != '"' && t[i] != ' ' {
            r.push(t[i]);
        }
        i = i + 1;
    }
    assert(t@.take(t.len() as int) =~= t@);
    r
}

fn items_exec(content: &Vec<char>) -> (items: Vec<String>)
    ensures
        string_views(items@) == items_of(content@),
{
    let pieces = crate::text::split_chars(content, ',');
    let ghost ps = crate::text::views(pieces@);
    let mut items: Vec<String> = Vec::new();
    let mut i: usize = 0;
    while i < pieces.len()
        invariant
            0 <= i <= pieces.len(),
            ps == crate::text::views(pieces@),
            ps == split_on(content@, ','),
            string_views(items@) == ps.take(i as int).map_values(|t: Seq<char>| strip_quotes(t)),
        decreases pieces.len() - i,
    {
        let st = strip_quotes_exec(&pieces[i]);
        assert(ps[i as int] == pieces@[i as int]@);
        let ghost before = string_views(items@);
        let item = string_of(&st);
        items.push(item);
        assert(string_views(items@) =~= before.push(strip_quotes(ps[i as int])));
        assert(ps.take(i + 1).map_values(|t: Seq<char>| strip_quotes(t)) =~= ps.take(i as int).map_values(
            |t: Seq<char>| strip_quotes(t),
        ).push(strip_quotes(ps[i as int])));
        i = i + 1;
    }
    assert(ps.take(pieces.len() as int) =~= ps);
    items
}

/// Whether `a[lo..hi]` holds no line break.
fn no_newline_exec(a: &Vec<char>, lo: usize, hi: usize) -> (b: bool)
    requires
        lo <= hi <= a.len(),
    ensures
        b == no_newline(a@.subrange(lo as int, hi as int)),
{
    let mut i = lo;
    while i < hi
        invariant
            lo <= i <= hi <= a.len(),
            forall|j: int| lo <= j < i ==> a@[j] != '\n',
        decreases hi - i,
    {
        if a[i] == '\n' {
            assert(a@.subrange(lo as int, hi as int)[i - lo] == '\n');
            return false;
        }
        i = i + 1;
    }
    assert forall|j: int| 0 <= j < hi - lo implies #[trigger] a@.subrange(lo as int, hi as int)[j] != '\n' by {
        assert(a@.subrange(lo as int, hi as int)[j] == a@[lo + j]);
    }
    true
}

/// The attribute of a widget whose name is `s[n0..n1]` and whose attributes' text is `s[a0..a1]`.
fn kind_attr_exec(s: &Vec<char>, n0: usize, n1: usize, a0: usize, a1: usize) -> (r: Option<AttrValue>)
    requires
        n0 <= n1 <= s.len(),
        a0 <= a1 <= s.len(),
    ensures
        match kind_attr(s@.subrange(n0 as int, n1 as int), s@.subrange(a0 as int, a1 as int)) {
            None => r is None,
            Some(at) => r matches Some(v) && v.to_attr() == at,
        },
{
    let ghost name = s@.subrange(n0 as int, n1 as int);
    let a = sub_chars(s, a0, a1);
    let n = a.len();
    let window = vec!['W', 'i', 'n', 'd', 'o', 'w'];
    let layout = vec!['L', 'a', 'y', 'o', 'u', 't'];
    let line_edit = vec!['L', 'i', 'n', 'e', 'E', 'd', 'i', 't'];
    let combo_box = vec!['C', 'o', 'm', 'b', 'o', 'B', 'o', 'x'];
    assert(window@ =~= kind_name(Attr::Title(Seq::empty())));
    assert(layout@ =~= kind_name(Attr::Alignment(Alignment::Horizontal)));
    assert(line_edit@ =~= kind_name(Attr::MaxLength(0)));
    assert(combo_box@ =~= kind_name(Attr::Items(Seq::empty())));
    if slice_is(s, n0, n1, &window) {
        let key = vec!['"', 't', 'i', 't', 'l', 'e', '"', ':', '"'];
        assert(key@ =~= title_key() + quote());
        let close = vec!['"', ','];
        assert(close@ =~= seq!['"', ',']);
        if n < 12 || !slice_is(&a, 0, 9, &key) || !slice_is(&a, n - 2, n, &close) {
            return None;
        }
        let mut i: usize = 9;
        while i < n - 2
            invariant
                12 <= n == a.len(),
                9 <= i <= n - 2,
                name == s@.subrange(n0 as int, n1 as int),
                name == kind_name(Attr::Title(Seq::empty())),
                a@ == s@.subrange(a0 as int, a1 as int),
                a@.subrange(0, 9) == title_key() + quote(),
                a@.subrange(n - 2, n as int) == seq!['"', ','],
                forall|j: int| 9 <= j < i ==> in_class(#[trigger] a@[j], CharClass::Title),
            decreases n - 2 - i,
        {
            if !in_class_exec(a[i], CharClass::Title) {
                assert(!in_class(a@[i as int], CharClass::Title));
                return None;
            }
            i = i + 1;
        }
        let t = sub_chars(&a, 9, n - 2);
        Some(AttrValue::Title(string_of(&t)))
    } else if slice_is(s, n0, n1, &layout) {
        let one = vec!['"', 'a', 'l', 'i', 'g', 'n', 'm', 'e', 'n', 't', '"', ':', '1', ','];
        let two = vec!['"', 'a', 'l', 'i', 'g', 'n', 'm', 'e', 'n', 't', '"', ':', '2', ','];
        assert(one@ =~= alignment_key() + seq!['1', ',']);
        assert(two@ =~= alignment_key() + seq!['2', ',']);
        if slice_is(&a, 0, n, &one) {
            assert(a@.subrange(0, n as int) =~= a@);
            Some(AttrValue::Alignment(Alignment::Horizontal))
        } else if slice_is(&a, 0, n, &two) {
            assert(a@.subrange(0, n as int) =~= a@);
            Some(AttrValue::Alignment(Alignment::Vertical))
        } else {
            assert(a@.subrange(0, n as int) =~= a@);
            None
        }
    } else if slice_is(s, n0, n1, &line_edit) {
        let key = vec!['"', 'm', 'a', 'x', '_', 'l', 'e', 'n', 'g', 't', 'h', '"', ':'];
        assert(key@ =~= max_length_key());
        if n < 15 || !slice_is(&a, 0, 13, &key) || a[n - 1] != ',' {
            return None;
        }
        let ghost d = a@.subrange(13, n - 1);
        let mut i: usize = 13;
        while i < n - 1
            invariant
                15 <= n == a.len(),
                13 <= i <= n - 1,
                name == s@.subrange(n0 as int, n1 as int),
                name == kind_name(Attr::MaxLength(0)),
                a@ == s@.subrange(a0 as int, a1 as int),
                d == a@.subrange(13, n - 1),
                forall|j: int| 13 <= j < i ==> crate::text::is_digit(#[trigger] a@[j]),
            decreases n - 1 - i,
        {
            if !('0' <= a[i] && a[i] <= '9') {
                assert(d[i - 13] == a@[i as int]);
                assert(!crate::text::is_digit(d[i - 13]));
                assert(!all_digits(d));
                assert(name != kind_name(Attr::Title(Seq::empty()))) by {
                    assert(name[0] != kind_name(Attr::Title(Seq::empty()))[0]);
                }
                assert(name != kind_name(Attr::Alignment(Alignment::Horizontal))) by {
                    assert(name[2] != kind_name(Attr::Alignment(Alignment::Horizontal))[2]);
                }
                return None;
            }
            i = i + 1;
        }
        assert(all_digits(d)) by {
            assert forall|j: int| 0 <= j < d.len() implies crate::text::is_digit(#[trigger] d[j]) by {
                assert(d[j] == a@[13 + j]);
            }
        }
        proof {
            crate::text::lemma_decimal_prefix(d, 0);
        }
        let text = string_of(&sub_chars(&a, 13, n - 1));
        match crate::text::parse_decimal_i32(&text) {
            Some(v) => {
                if v <= 255 {
                    Some(AttrValue::MaxLength(v as u8))
                } else {
                    None
                }
            },
            None => {
                None
            },
        }
    } else if slice_is(s, n0, n1, &combo_box) {
        let key = vec!['"', 'i', 't', 'e', 'm', 's', '"', ':', '['];
        assert(key@ =~= items_key() + seq!['[']);
        let close = vec![']', ','];
        assert(close@ =~= seq![']', ',']);
        if n < 11 || !slice_is(&a, 0, 9, &key) || !slice_is(&a, n - 2, n, &close) || !no_newline_exec(&a, 9, n - 2) {
            return None;
        }
        let content = sub_chars(&a, 9, n - 2);
        Some(AttrValue::Items(items_exec(&content)))
    } else {
        None
    }
}

fn make_widget(attr: AttrValue, children: Vec<AnyWidget>) -> (w: AnyWidget)
    ensures
        w.to_view() == (WidgetView { attr: attr.to_attr(), children: views_of(children@, 0) }),
{
    match attr {
        AttrValue::Title(title) => AnyWidget::Window(Window { title, children }),
        AttrValue::Alignment(alignment) => AnyWidget::Layout(Layout { alignment, children }),
        AttrValue::MaxLength(max_length) => AnyWidget::LineEdit(LineEdit { max_length, children }),
        AttrValue::Items(items) => AnyWidget::ComboBox(ComboBox { items, children }),
    }
}

pub open spec fn span_view(ch: Option<(usize, usize)>) -> Option<(nat, nat)> {
    match ch {
        Some((a, b)) => Some((a as nat, b as nat)),
        None => None,
    }
}

pub open spec fn tail_view(r: Option<(usize, Option<(usize, usize)>, usize)>) -> Option<(nat, Option<(nat, nat)>, nat)> {
    match r {
        Some((x, ch, e)) => Some((x as nat, span_view(ch), e as nat)),
        None => None,
    }
}

/// Where the children end and the match ends: `x` after the attributes, `ch` the span
/// of the children's text, `e` the end of the match.
pub open spec fn tail_bounds(len: nat, k: nat, r: Option<(usize, Option<(usize, usize)>, usize)>) -> bool {
    r matches Some((x, ch, e)) ==> k < x && x + 12 <= len && e <= len && x < e && (ch matches Some((c0, c1)) ==> c0
        <= c1 && c1 + 2 <= len)
}

fn last_close_exec(s: &Vec<char>, c: usize) -> (r: Option<usize>)
    requires
        c < s.len(),
        s.len() >= 3,
    ensures
        r == (match last_close(s@, c as nat, (s.len() - 3) as nat) {
            Some(e) => Some(e as usize),
            None => None::<usize>,
        }),
        r matches Some(e) ==> c < e && e + 3 <= s.len(),
        last_close(s@, c as nat, (s.len() - 3) as nat) matches Some(e) ==> e + 3 <= s.len(),
{
    let mut nl = c + 1;
    while nl < s.len() && s[nl] != '\n'
        invariant
            c + 1 <= nl <= s.len(),
            forall|i: int| c + 1 <= i < nl ==> s@[i] != '\n',
        decreases s.len() - nl,
    {
        nl = nl + 1;
    }
    let close = vec!['}', ']', '}'];
    assert(close@ =~= close3());
    let mut e = s.len() - 3;
    while e > c
        invariant
            e <= s.len() - 3,
            c < s.len(),
            c + 1 <= nl <= s.len(),
            forall|i: int| c + 1 <= i < nl ==> s@[i] != '\n',
            nl < s.len() ==> s@[nl as int] == '\n',
            close@ == close3(),
            last_close(s@, c as nat, (s.len() - 3) as nat) == last_close(s@, c as nat, e as nat),
        decreases e,
    {
        let ghost nn = no_newline(s@.subrange(c + 1, e as int));
        assert(nn == (e <= nl)) by {
            if e <= nl {
                assert forall|i: int| 0 <= i < e - c - 1 implies #[trigger] s@.subrange(c + 1, e as int)[i] != '\n' by {
                    assert(s@.subrange(c + 1, e as int)[i] == s@[c + 1 + i]);
                }
            } else {
                assert(s@.subrange(c + 1, e as int)[nl - c - 1] == s@[nl as int]);
            }
        }
        if lit_at_exec(s, e, &close) && e <= nl {
            return Some(e);
        }
        e = e - 1;
    }
    None
}

fn children_group_exec(s: &Vec<char>, c: usize) -> (r: Option<(Option<(usize, usize)>, usize)>)
    ensures
        match children_group(s@, c as nat) {
            None => r is None,
            Some((ch, e)) => r matches Some((ch2, e2)) && span_view(ch2) == ch && e2 == e,
        },
        r matches Some((ch, e)) ==> c < e <= s.len() && (ch matches Some((c0, c1)) ==> c0 == c && c0 <= c1 && c1 + 2
            <= s.len()),
{
    if c < s.len() && s[c] == '{' && s.len() >= 3 {
        match last_close_exec(s, c) {
            Some(e) => {
                return Some((Some((c, e + 1)), e + 3));
            },
            None => {},
        }
    }
    let close = vec![']', '}'];
    assert(close@ =~= seq![']', '}']);
    if lit_at_exec(s, c, &close) {
        Some((None, c + 2))
    } else {
        None
    }
}

fn children_exit_exec(s: &Vec<char>, x: usize) -> (r: Option<(usize, Option<(usize, usize)>, usize)>)
    ensures
        tail_view(r) == children_exit(s@, x as nat),
        r matches Some((x2, ch, e)) ==> x2 == x && x + 12 <= s.len() && e <= s.len() && x < e && (ch matches Some((c0, c1))
            ==> c0 <= c1 && c1 + 2 <= s.len()),
{
    let ch = vec!['"', 'c', 'h', 'i', 'l', 'd', 'r', 'e', 'n', '"', ':', '['];
    assert(ch@ =~= children_open());
    assert(ch@.len() == 12);
    if x <= s.len() && lit_at_exec(s, x, &ch) {
        match children_group_exec(s, x + 12) {
            Some((g, e)) => Some((x, g, e)),
            None => None,
        }
    } else {
        None
    }
}

fn attr_iter_exec(s: &Vec<char>, k: usize) -> (r: Option<(usize, Option<(usize, usize)>, usize)>)
    ensures
        tail_view(r) == attr_iter(s@, k as nat),
        tail_bounds(s.len() as nat, k as nat, r),
    decreases s.len() - k, 1nat, 0nat,
{
    if !(k < s.len() && s[k] == '"') {
        return None;
    }
    let w1 = class_end_exec(s, k + 1, CharClass::Name);
    let sep = vec!['"', ':'];
    assert(sep@ =~= seq!['"', ':']);
    if w1 == k + 1 || !lit_at_exec(s, w1, &sep) {
        return None;
    }
    let v0 = w1 + 2;
    let r = class_end_exec(s, v0, CharClass::AttrValue);
    if r == 0 {
        return None;
    }
    attr_scan_exec(s, k, v0, r - 1)
}

fn attr_scan_exec(s: &Vec<char>, k: usize, v0: usize, j: usize) -> (r: Option<(usize, Option<(usize, usize)>, usize)>)
    ensures
        tail_view(r) == attr_scan(s@, k as nat, v0 as nat, j as nat),
        tail_bounds(s.len() as nat, k as nat, r),
    decreases s.len() - k, 0nat, j,
{
    if j < v0 || j - v0 < 1 || j >= s.len() || k >= v0 {
        return None;
    }
    if s[j] == ',' {
        match attr_iter_exec(s, j + 1) {
            Some(x) => {
                return Some(x);
            },
            None => {},
        }
        match children_exit_exec(s, j + 1) {
            Some(x) => {
                return Some(x);
            },
            None => {},
        }
    }
    attr_scan_exec(s, k, v0, j - 1)
}

/// A match of the tree pattern, in positions.
struct ExecMatch {
    n0: usize,
    n1: usize,
    a0: usize,
    a1: usize,
    children: Option<(usize, usize)>,
    end: usize,
}

impl ExecMatch {
    spec fn tm(&self) -> TreeMatch {
        TreeMatch {
            name: (self.n0 as nat, self.n1 as nat),
            attrs: (self.a0 as nat, self.a1 as nat),
            children: span_view(self.children),
            end: self.end as nat,
        }
    }

    spec fn fits(&self, len: nat) -> bool {
        &&& self.n0 <= self.n1 <= len
        &&& self.a0 <= self.a1 <= len
        &&& self.end <= len
        &&& (self.children matches Some((c0, c1)) ==> c0 <= c1 && c1 + 2 <= len)
    }
}

fn match_at_exec(s: &Vec<char>, p: usize) -> (r: Option<ExecMatch>)
    ensures
        match match_at(s@, p as nat) {
            None => r is None,
            Some(m) => r matches Some(x) && x.tm() == m && x.fits(s.len() as nat) && p < x.end,
        },
{
    let open = vec!['{', '"', 'n', 'a', 'm', 'e', '"', ':', '"'];
    assert(open@ =~= name_open());
    assert(open@.len() == 9);
    if p > s.len() || !lit_at_exec(s, p, &open) {
        return None;
    }
    let n0 = p + 9;
    let n1 = class_end_exec(s, n0, CharClass::Name);
    let sep = vec!['"', ','];
    assert(sep@ =~= seq!['"', ',']);
    if n1 == n0 || !lit_at_exec(s, n1, &sep) {
        return None;
    }
    match attr_iter_exec(s, n1 + 2) {
        None => None,
        Some((x, ch, end)) => Some(ExecMatch { n0, n1, a0: n1 + 2, a1: x, children: ch, end }),
    }
}

fn leftmost_exec(s: &Vec<char>, q: usize) -> (r: Option<ExecMatch>)
    ensures
        match leftmost(s@, q as nat) {
            None => r is None,
            Some(m) => r matches Some(x) && x.tm() == m && x.fits(s.len() as nat) && q < x.end,
        },
{
    let mut p = q;
    if p > s.len() {
        return None;
    }
    while p < s.len()
        invariant
            q <= p <= s.len(),
            leftmost(s@, q as nat) == leftmost(s@, p as nat),
        decreases s.len() - p,
    {
        match match_at_exec(s, p) {
            Some(m) => {
                return Some(m);
            },
            None => {},
        }
        p = p + 1;
    }
    assert(match_at(s@, p as nat) is None);
    assert(leftmost(s@, (p + 1) as nat) is None);
    None
}

fn decode_match_exec(s: &Vec<char>, m: &ExecMatch) -> (r: Option<AnyWidget>)
    requires
        m.fits(s.len() as nat),
    ensures
        match decode_match(s@, m.tm()) {
            None => r is None,
            Some(v) => r matches Some(w) && w.to_view() == v,
        },
    decreases s.len(), 0nat, 0nat,
{
    let attr = match kind_attr_exec(s, m.n0, m.n1, m.a0, m.a1) {
        None => {
            return None;
        },
        Some(a) => a,
    };
    match m.children {
        None => {
            let v: Vec<AnyWidget> = Vec::new();
            assert(views_of(v@, 0) =~= Seq::<WidgetView>::empty());
            Some(make_widget(attr, v))
        },
        Some((c0, c1)) => {
            let u = sub_chars(s, 0, c1);
            match decode_all_exec(&u, c0) {
                Some(cs) => Some(make_widget(attr, cs)),
                None => None,
            }
        },
    }
}

fn decode_all_exec(u: &Vec<char>, q: usize) -> (r: Option<Vec<AnyWidget>>)
    ensures
        match decode_all(u@, q as nat) {
            None => r is None,
            Some(cs) => r matches Some(v) && views_of(v@, 0) == cs,
        },
    decreases u.len(), 1nat, u.len() + 1 - q,
{
    if q > u.len() {
        let v: Vec<AnyWidget> = Vec::new();
        assert(views_of(v@, 0) =~= Seq::<WidgetView>::empty());
        return Some(v);
    }
    match leftmost_exec(u, q) {
        None => {
            let v: Vec<AnyWidget> = Vec::new();
            assert(views_of(v@, 0) =~= Seq::<WidgetView>::empty());
            Some(v)
        },
        Some(m) => {
            let w = match decode_match_exec(u, &m) {
                None => {
                    return None;
                },
                Some(w) => w,
            };
            let ghost wv = w.to_view();
            let mut rest = match decode_all_exec(u, m.end) {
                None => {
                    return None;
                },
                Some(x) => x,
            };
            let ghost old_rest = rest@;
            rest.insert(0, w);
            proof {
                lemma_views_of(old_rest, 0);
                lemma_views_of(rest@, 0);
                assert(views_of(rest@, 0) =~= seq![wv] + views_of(old_rest, 0));
            }
            Some(rest)
        },
    }
}

/// Rebuilds the widget tree that `source` encodes: that of the leftmost match of the
/// tree pattern in it (text before and after the match is ignored), or `None` where the
/// pattern matches nowhere or its leftmost match does not decode.
pub fn try_from_binary(source: &String) -> (r: Option<AnyWidget>)
    ensures
        match decode_source(source@) {
            None => r is None,
            Some(v) => r matches Some(w) && w.to_view() == v,
        },
{
    let s = chars_of(source.as_str());
    match leftmost_exec(&s, 0) {
        None => None,
        Some(m) => decode_match_exec(&s, &m),
    }
}

/// Rebuilds the widget tree that `source` encodes (see `try_from_binary`).
pub fn from_binary(source: &String) -> (w: AnyWidget)
    requires
        decode_source(source@) is Some,
    ensures
        decode_source(source@) == Some(w.to_view()),
{
    match try_from_binary(source) {
        Some(w) => w,
        None => AnyWidget::LineEdit(LineEdit::new(0)),
    }
}

} // verus!
