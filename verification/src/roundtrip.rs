use vstd::prelude::*;
use crate::text::all_digits;
use crate::text::decimal_value;
use crate::text::split_on;
use crate::widget::Attr;
use crate::widget::WidgetView;
use crate::widget::CharClass;
use crate::widget::all_plain;
use crate::widget::is_plain;
use crate::widget::is_word;
use crate::widget::is_ascii_word;
use crate::widget::in_class;
use crate::widget::class_end;
use crate::widget::lit_at;
use crate::widget::strip_quotes;
use crate::widget::items_of;
use crate::widget::debug_items;
use crate::widget::debug_form;
use crate::widget::quoted;
use crate::widget::quote;
use crate::widget::u8_decimal;
use crate::widget::digit_char;
use crate::widget::encode;
use crate::widget::encode_list;
use crate::widget::name_open;
use crate::widget::kind_name;
use crate::widget::title_key;
use crate::widget::alignment_key;
use crate::widget::max_length_key;
use crate::widget::items_key;
use crate::widget::children_open;
use crate::widget::attr_text;
use crate::widget::alignment_digit;
use crate::widget::debug_list;
use crate::widget::Alignment;
use crate::widget::no_newline;
use crate::widget::close3;
use crate::widget::last_close;
use crate::widget::children_group;
use crate::widget::children_exit;
use crate::widget::attr_iter;
use crate::widget::attr_scan;
use crate::widget::TreeMatch;
use crate::widget::match_at;
use crate::widget::leftmost;
use crate::widget::kind_attr;
use crate::widget::decode_match;
use crate::widget::decode_all;
use crate::widget::decode_source;

verus! {

/// A character of a plain item: an ASCII letter or digit, or `_`.
pub open spec fn all_word(t: Seq<char>) -> bool {
    forall|i: int| 0 <= i < t.len() ==> is_ascii_word(#[trigger] t[i])
}

/// An attribute that the encoding writes in a form the decoder reads back unchanged:
/// titles are non-empty and of plain characters, lists of items are non-empty and
/// their items made of ASCII letters, digits and `_`.
pub open spec fn plain_attr(a: Attr) -> bool {
    match a {
        Attr::Title(t) => t.len() > 0 && all_plain(t),
        Attr::Alignment(_) => true,
        Attr::MaxLength(_) => true,
        Attr::Items(items) => items.len() > 0 && forall|i: int| 0 <= i < items.len() ==> all_word(#[trigger] items[i]),
    }
}

/// A widget tree whose attributes are all plain.
pub open spec fn plain_widget(v: WidgetView) -> bool
    decreases v, 0nat,
{
    plain_attr(v.attr) && plain_list(v.children, 0)
}

pub open spec fn plain_list(cs: Seq<WidgetView>, i: nat) -> bool
    decreases cs, cs.len() - i,
{
    i >= cs.len() || (plain_widget(cs[i as int]) && plain_list(cs, i + 1))
}

proof fn lemma_lit_split(s: Seq<char>, p: nat, a: Seq<char>, b: Seq<char>)
    requires
        lit_at(s, p, a + b),
    ensures
        lit_at(s, p, a),
        lit_at(s, p + a.len(), b),
{
    assert(s.subrange(p as int, p + a.len() as int) =~= (a + b).subrange(0, a.len() as int));
    assert((a + b).subrange(0, a.len() as int) =~= a);
    assert(s.subrange(p + a.len() as int, p + a.len() + b.len() as int) =~= (a + b).subrange(
        a.len() as int,
        (a + b).len() as int,
    ));
    assert((a + b).subrange(a.len() as int, (a + b).len() as int) =~= b);
}

proof fn lemma_lit_char(s: Seq<char>, p: nat, t: Seq<char>, i: int)
    requires
        lit_at(s, p, t),
        0 <= i < t.len(),
    ensures
        s[p + i] == t[i],
{
    assert(s.subrange(p as int, p + t.len() as int)[i] == s[p + i]);
}

proof fn lemma_class_run(s: Seq<char>, p: nat, t: Seq<char>, k: CharClass)
    requires
        lit_at(s, p, t),
        forall|i: int| 0 <= i < t.len() ==> in_class(#[trigger] t[i], k),
        p + t.len() < s.len(),
        !in_class(s[p + t.len() as int], k),
    ensures
        class_end(s, p, k) == p + t.len(),
    decreases t.len(),
{
    if t.len() > 0 {
        lemma_lit_char(s, p, t, 0);
        assert(t =~= seq![t[0]] + t.drop_first());
        lemma_lit_split(s, p, seq![t[0]], t.drop_first());
        assert forall|i: int| 0 <= i < t.drop_first().len() implies in_class(#[trigger] t.drop_first()[i], k) by {
            assert(t.drop_first()[i] == t[i + 1]);
        }
        lemma_class_run(s, p + 1, t.drop_first(), k);
    }
}

proof fn lemma_u8_decimal(n: u8)
    ensures
        u8_decimal(n).len() >= 1,
        all_digits(u8_decimal(n)),
        decimal_value(u8_decimal(n)) == n,
{
    let v = n as int;
    let d = u8_decimal(n);
    assert forall|x: int| 0 <= x <= 9 implies #[trigger] crate::text::digit_value(digit_char(x)) == x
        && crate::text::is_digit(digit_char(x)) by {}
    let e = Seq::<char>::empty();
    assert(decimal_value(e) == 0);
    if v < 10 {
        assert(d.drop_last() =~= e);
        assert(crate::text::digit_value(digit_char(v)) == v);
        assert(decimal_value(d) == decimal_value(e) * 10 + v);
    } else if v < 100 {
        let d1 = seq![digit_char(v / 10)];
        assert(d.drop_last() =~= d1);
        assert(d1.drop_last() =~= e);
        assert(crate::text::digit_value(digit_char(v / 10)) == v / 10);
        assert(crate::text::digit_value(digit_char(v % 10)) == v % 10);
        assert(decimal_value(d1) == v / 10);
        assert(decimal_value(d) == (v / 10) * 10 + v % 10);
    } else {
        let d2 = seq![digit_char(v / 100), digit_char((v / 10) % 10)];
        let d1 = seq![digit_char(v / 100)];
        assert(d.drop_last() =~= d2);
        assert(d2.drop_last() =~= d1);
        assert(d1.drop_last() =~= e);
        assert(crate::text::digit_value(digit_char(v / 100)) == v / 100);
        assert(crate::text::digit_value(digit_char((v / 10) % 10)) == (v / 10) % 10);
        assert(crate::text::digit_value(digit_char(v % 10)) == v % 10);
        assert(decimal_value(d1) == v / 100);
        assert(decimal_value(d2) == (v / 100) * 10 + (v / 10) % 10);
        assert(decimal_value(d) == ((v / 100) * 10 + (v / 10) % 10) * 10 + v % 10);
    }
}

proof fn lemma_strip_concat(x: Seq<char>, y: Seq<char>)
    ensures
        strip_quotes(x + y) == strip_quotes(x) + strip_quotes(y),
    decreases y.len(),
{
    if y.len() == 0 {
        assert(x + y =~= x);
        assert(strip_quotes(x) + strip_quotes(y) =~= strip_quotes(x));
    } else {
        assert((x + y).drop_last() =~= x + y.drop_last());
        lemma_strip_concat(x, y.drop_last());
        assert(strip_quotes(x + y) =~= strip_quotes(x) + strip_quotes(y));
    }
}

proof fn lemma_strip_word(t: Seq<char>)
    requires
        all_word(t),
    ensures
        strip_quotes(t) == t,
    decreases t.len(),
{
    if t.len() > 0 {
        assert(all_word(t.drop_last())) by {
            assert forall|i: int| 0 <= i < t.drop_last().len() implies is_ascii_word(#[trigger] t.drop_last()[i]) by {
                assert(t.drop_last()[i] == t[i]);
            }
        }
        lemma_strip_word(t.drop_last());
        assert(is_ascii_word(t[t.len() - 1]));
        assert(t.drop_last().push(t.last()) =~= t);
    }
}

proof fn lemma_strip_quoted(t: Seq<char>, lead: Seq<char>)
    requires
        all_word(t),
        lead == Seq::<char>::empty() || lead == seq![' '],
    ensures
        strip_quotes(lead + seq!['"'] + t + seq!['"']) == t,
{
    lemma_strip_concat(lead + seq!['"'] + t, seq!['"']);
    lemma_strip_concat(lead + seq!['"'], t);
    lemma_strip_concat(lead, seq!['"']);
    lemma_strip_word(t);
    assert(strip_quotes(seq!['"']) =~= Seq::<char>::empty()) by {
        let q = seq!['"'];
        assert(q.drop_last() =~= Seq::<char>::empty());
        assert(q.last() == '"');
        assert(strip_quotes(Seq::<char>::empty()) =~= Seq::<char>::empty());
    }
    if lead.len() == 1 {
        assert(lead.drop_last() =~= Seq::<char>::empty());
        assert(lead.last() == ' ');
        assert(strip_quotes(Seq::<char>::empty()) =~= Seq::<char>::empty());
        assert(strip_quotes(lead) =~= Seq::<char>::empty());
    } else {
        assert(strip_quotes(lead) =~= Seq::<char>::empty());
    }
    assert(strip_quotes(lead + seq!['"'] + t + seq!['"']) =~= t);
}

/// The pieces between commas of a list of quoted items: the first item quoted,
/// each later one quoted after a space.
proof fn lemma_split_items(items: Seq<Seq<char>>)
    requires
        items.len() > 0,
        forall|i: int| 0 <= i < items.len() ==> all_word(#[trigger] items[i]),
    ensures
        split_on(debug_items(items), ',').len() == items.len(),
        split_on(debug_items(items), ',')[0] == quoted(items[0]),
        forall|i: int| 1 <= i < items.len() ==> #[trigger] split_on(debug_items(items), ',')[i] == seq![' '] + quoted(items[i]),
    decreases items.len(),
{
    assert forall|i: int| 0 <= i < items.len() implies #[trigger] debug_form(items[i]) == quoted(items[i]) by {
        assert(all_plain(items[i])) by {
            assert forall|j: int| 0 <= j < items[i].len() implies is_plain(#[trigger] items[i][j]) by {
                assert(is_ascii_word(items[i][j]));
            }
        }
    }
    assert(!quoted(items[0]).contains(',')) by {
        if quoted(items[0]).contains(',') {
            let j = choose|j: int| 0 <= j < quoted(items[0]).len() && quoted(items[0])[j] == ',';
            assert(is_ascii_word(items[0][j - 1]));
        }
    }
    crate::text::lemma_split_single(quoted(items[0]), ',');
    if items.len() > 1 {
        let rest = items.drop_first();
        assert forall|i: int| 0 <= i < rest.len() implies all_word(#[trigger] rest[i]) by {
            assert(rest[i] == items[i + 1]);
        }
        lemma_split_items(rest);
        let d = debug_items(items);
        assert(d =~= quoted(items[0]) + seq![','] + (seq![' '] + debug_items(rest)));
        crate::text::lemma_split_concat(quoted(items[0]), seq![' '] + debug_items(rest), ',');
        // the leading space joins the first piece of the rest
        let r = debug_items(rest);
        let pr = split_on(r, ',');
        lemma_split_space_front(r);
        assert forall|i: int| 1 <= i < items.len() implies #[trigger] split_on(debug_items(items), ',')[i] == seq![' ']
            + quoted(items[i]) by {
            if i == 1 {
                assert(split_on(seq![' '] + r, ',')[0] == seq![' '] + pr[0]);
            } else {
                assert(split_on(seq![' '] + r, ',')[i - 1] == pr[i - 1]);
                assert(pr[i - 1] == seq![' '] + quoted(rest[i - 1]));
            }
        }
    }
}

/// A space in front of a text joins its first piece between commas.
proof fn lemma_split_space_front(r: Seq<char>)
    ensures
        split_on(seq![' '] + r, ',').len() == split_on(r, ',').len(),
        split_on(seq![' '] + r, ',')[0] == seq![' '] + split_on(r, ',')[0],
        forall|i: int| 1 <= i < split_on(r, ',').len() ==> #[trigger] split_on(seq![' '] + r, ',')[i] == split_on(r, ',')[i],
    decreases r.len(),
{
    crate::text::lemma_split_nonempty(r, ',');
    if r.len() == 0 {
        assert(seq![' '] + r =~= seq![' ']);
        assert(seq![' '].drop_last() =~= Seq::<char>::empty());
        assert(seq![' '].last() == ' ');
        assert(split_on(Seq::<char>::empty(), ',') =~= seq![Seq::<char>::empty()]);
        assert(seq![Seq::<char>::empty()].update(0, Seq::<char>::empty().push(' ')) =~= seq![seq![' ']]);
        assert(split_on(seq![' '] + r, ',') =~= seq![seq![' ']]);
        assert(split_on(r, ',') =~= seq![Seq::<char>::empty()]);
    } else {
        assert((seq![' '] + r).drop_last() =~= seq![' '] + r.drop_last());
        lemma_split_space_front(r.drop_last());
        crate::text::lemma_split_nonempty(r.drop_last(), ',');
        let a = split_on(seq![' '] + r.drop_last(), ',');
        let b = split_on(r.drop_last(), ',');
        if r.last() == ',' {
        } else {
            if b.len() == 1 {
                assert(a[0] == seq![' '] + b[0]);
                assert(a[0].push(r.last()) =~= seq![' '] + b[0].push(r.last()));
            }
        }
    }
}

/// The items that the decoder reads from a list written by `debug_items`.
proof fn lemma_items_roundtrip(items: Seq<Seq<char>>)
    requires
        items.len() > 0,
        forall|i: int| 0 <= i < items.len() ==> all_word(#[trigger] items[i]),
    ensures
        items_of(debug_items(items)) == items,
{
    lemma_split_items(items);
    let pieces = split_on(debug_items(items), ',');
    assert forall|i: int| 0 <= i < items.len() implies #[trigger] items_of(debug_items(items))[i] == items[i] by {
        if i == 0 {
            lemma_strip_quoted(items[0], Seq::<char>::empty());
            assert(Seq::<char>::empty() + seq!['"'] + items[0] + seq!['"'] =~= quoted(items[0]));
        } else {
            lemma_strip_quoted(items[i], seq![' ']);
            assert(seq![' '] + seq!['"'] + items[i] + seq!['"'] =~= seq![' '] + quoted(items[i]));
        }
    }
    assert(items_of(debug_items(items)) =~= items);
}

/// A character that is no line break and no brace.
pub open spec fn calm(c: char) -> bool {
    c != '\n' && c != '{' && c != '}'
}

/// A character that may stand in an attribute's value and is calm.
pub open spec fn value_char(c: char) -> bool {
    in_class(c, CharClass::AttrValue) && calm(c)
}

proof fn lemma_item_text(items: Seq<Seq<char>>)
    requires
        forall|i: int| 0 <= i < items.len() ==> all_word(#[trigger] items[i]),
    ensures
        forall|j: int| 0 <= j < debug_items(items).len() ==> value_char(#[trigger] debug_items(items)[j]),
    decreases items.len(),
{
    if items.len() > 0 {
        let t = items[0];
        assert(all_plain(t)) by {
            assert forall|j: int| 0 <= j < t.len() implies is_plain(#[trigger] t[j]) by {
                assert(is_ascii_word(t[j]));
            }
        }
        let q = debug_form(t);
        assert(q == quoted(t));
        assert forall|j: int| 0 <= j < q.len() implies value_char(#[trigger] q[j]) by {
            if 0 < j < q.len() - 1 {
                assert(q[j] == t[j - 1]);
                assert(is_ascii_word(t[j - 1]));
                assert(is_word(t[j - 1]));
            }
        }
        if items.len() > 1 {
            let rest = items.drop_first();
            assert forall|i: int| 0 <= i < rest.len() implies all_word(#[trigger] rest[i]) by {
                assert(rest[i] == items[i + 1]);
            }
            lemma_item_text(rest);
            let d = debug_items(items);
            let r = debug_items(rest);
            assert(d == q + seq![',', ' '] + r);
            assert forall|j: int| 0 <= j < d.len() implies value_char(#[trigger] d[j]) by {
                if j < q.len() {
                    assert(d[j] == q[j]);
                } else if j < q.len() + 2 {
                } else {
                    assert(d[j] == r[j - q.len() - 2]);
                }
            }
        }
    }
}

/// Whether the tree has children of its own.
pub open spec fn has_children(v: WidgetView) -> bool {
    v.children.len() > 0
}

/// At most one of the trees `cs` has children of its own.
pub open spec fn one_parent(cs: Seq<WidgetView>) -> bool {
    forall|i: int, j: int| 0 <= i < j < cs.len() ==> !(has_children(#[trigger] cs[i]) && has_children(#[trigger] cs[j]))
}

/// In every list of children of the tree, at most one child has children of its own:
/// the greedy children pattern then ends where each tree ends.
pub open spec fn one_parent_tree(v: WidgetView) -> bool
    decreases v, 0nat,
{
    one_parent(v.children) && one_parent_list(v.children, 0)
}

pub open spec fn one_parent_list(cs: Seq<WidgetView>, i: nat) -> bool
    decreases cs, cs.len() - i,
{
    i >= cs.len() || (one_parent_tree(cs[i as int]) && one_parent_list(cs, i + 1))
}

/// The word of an attribute's key.
pub open spec fn attr_key_word(a: Attr) -> Seq<char> {
    match a {
        Attr::Title(_) => seq!['t', 'i', 't', 'l', 'e'],
        Attr::Alignment(_) => seq!['a', 'l', 'i', 'g', 'n', 'm', 'e', 'n', 't'],
        Attr::MaxLength(_) => seq!['m', 'a', 'x', '_', 'l', 'e', 'n', 'g', 't', 'h'],
        Attr::Items(_) => seq!['i', 't', 'e', 'm', 's'],
    }
}

/// An attribute's value as the encoding writes it, with its trailing comma.
pub open spec fn attr_value(a: Attr) -> Seq<char> {
    match a {
        Attr::Title(t) => debug_form(t) + seq![','],
        Attr::Alignment(al) => seq![alignment_digit(al), ','],
        Attr::MaxLength(n) => u8_decimal(n) + seq![','],
        Attr::Items(items) => debug_list(items) + seq![','],
    }
}

proof fn lemma_attr_parts(a: Attr)
    requires
        plain_attr(a),
    ensures
        attr_text(a) == seq!['"'] + attr_key_word(a) + seq!['"', ':'] + attr_value(a),
        attr_key_word(a).len() >= 1,
        forall|i: int| 0 <= i < attr_key_word(a).len() ==> in_class(#[trigger] attr_key_word(a)[i], CharClass::Name)
            && calm(attr_key_word(a)[i]),
        attr_value(a).len() >= 2,
        attr_value(a).last() == ',',
        forall|i: int| 0 <= i < attr_value(a).len() ==> value_char(#[trigger] attr_value(a)[i]),
{
    let kw = attr_key_word(a);
    let val = attr_value(a);
    assert forall|i: int| 0 <= i < kw.len() implies in_class(#[trigger] kw[i], CharClass::Name) && calm(kw[i]) by {
        assert(is_ascii_word(kw[i]));
    }
    match a {
        Attr::Title(t) => {
            assert(debug_form(t) == quoted(t));
            assert(attr_text(a) =~= seq!['"'] + kw + seq!['"', ':'] + val);
            assert forall|i: int| 0 <= i < val.len() implies value_char(#[trigger] val[i]) by {
                if 0 < i < val.len() - 2 {
                    assert(val[i] == t[i - 1]);
                    assert(is_plain(t[i - 1]));
                }
            }
        },
        Attr::Alignment(al) => {
            assert(attr_text(a) =~= seq!['"'] + kw + seq!['"', ':'] + val);
        },
        Attr::MaxLength(n) => {
            lemma_u8_decimal(n);
            let d = u8_decimal(n);
            assert(attr_text(a) =~= seq!['"'] + kw + seq!['"', ':'] + val);
            assert forall|i: int| 0 <= i < val.len() implies value_char(#[trigger] val[i]) by {
                if i < d.len() {
                    assert(val[i] == d[i]);
                    assert(crate::text::is_digit(d[i]));
                }
            }
        },
        Attr::Items(items) => {
            let d = debug_items(items);
            lemma_item_text(items);
            assert(attr_text(a) =~= seq!['"'] + kw + seq!['"', ':'] + val);
            assert(val =~= seq!['['] + d + seq![']', ',']);
            assert forall|i: int| 0 <= i < val.len() implies value_char(#[trigger] val[i]) by {
                if 1 <= i < d.len() + 1 {
                    assert(val[i] == d[i - 1]);
                }
            }
        },
    }
}

/// The text of a tree before its children.
pub open spec fn enc_head(v: WidgetView) -> Seq<char> {
    name_open() + kind_name(v.attr) + seq!['"', ','] + attr_text(v.attr) + children_open()
}

proof fn lemma_head(v: WidgetView)
    requires
        plain_attr(v.attr),
    ensures
        encode(v) == enc_head(v) + encode_list(v.children, 0) + seq![']', '}'],
        enc_head(v)[0] == '{',
        forall|i: int| 1 <= i < enc_head(v).len() ==> calm(#[trigger] enc_head(v)[i]),
        enc_head(v).len() == 9 + kind_name(v.attr).len() + 2 + attr_text(v.attr).len() + 12,
{
    let k = kind_name(v.attr);
    let at = attr_text(v.attr);
    let h = enc_head(v);
    lemma_attr_parts(v.attr);
    let kw = attr_key_word(v.attr);
    let val = attr_value(v.attr);
    assert forall|i: int| 1 <= i < h.len() implies calm(#[trigger] h[i]) by {
        let a = 11 + k.len();
        if i < 9 {
            assert(h[i] == name_open()[i]);
        } else if i < 9 + k.len() {
            assert(h[i] == k[i - 9]);
        } else if i < a {
        } else if i < a + at.len() {
            assert(h[i] == at[i - a]);
            let j = i - a;
            if 1 <= j < 1 + kw.len() {
                assert(at[j] == kw[j - 1]);
            } else if j >= 3 + kw.len() {
                assert(at[j] == val[j - 3 - kw.len()]);
            }
        } else {
            assert(h[i] == children_open()[i - a - at.len()]);
        }
    }
}

/// An encoding holds no line break.
proof fn lemma_encode_no_newline(v: WidgetView)
    requires
        plain_widget(v),
    ensures
        no_newline(encode(v)),
    decreases v, 0nat,
{
    lemma_head(v);
    let h = enc_head(v);
    let l = encode_list(v.children, 0);
    lemma_list_no_newline(v.children, 0);
    let e = encode(v);
    assert forall|i: int| 0 <= i < e.len() implies #[trigger] e[i] != '\n' by {
        if i < h.len() {
            assert(e[i] == h[i]);
        } else if i < h.len() + l.len() {
            assert(e[i] == l[i - h.len()]);
        }
    }
}

proof fn lemma_list_no_newline(cs: Seq<WidgetView>, i: nat)
    requires
        plain_list(cs, i),
    ensures
        no_newline(encode_list(cs, i)),
    decreases cs, cs.len() - i,
{
    if i < cs.len() {
        lemma_encode_no_newline(cs[i as int]);
        let e = encode(cs[i as int]);
        if i + 1 < cs.len() {
            lemma_list_no_newline(cs, i + 1);
            let r = encode_list(cs, i + 1);
            let l = encode_list(cs, i);
            assert(l == e + seq![','] + r);
            assert forall|j: int| 0 <= j < l.len() implies #[trigger] l[j] != '\n' by {
                if j < e.len() {
                    assert(l[j] == e[j]);
                } else if j > e.len() {
                    assert(l[j] == r[j - e.len() - 1]);
                }
            }
        }
    }
}

/// The encoding of a tree starts with `{` and ends with `]}`; without children, its
/// only `}` is its last character.
proof fn lemma_encode_ends(v: WidgetView)
    requires
        plain_attr(v.attr),
    ensures
        encode(v).len() >= 2 + enc_head(v).len(),
        encode(v)[0] == '{',
        encode(v)[encode(v).len() - 1] == '}',
        encode(v)[encode(v).len() - 2] == ']',
        !has_children(v) ==> forall|i: int| 0 <= i < encode(v).len() - 1 ==> #[trigger] encode(v)[i] != '}',
{
    lemma_head(v);
    let h = enc_head(v);
    let e = encode(v);
    if !has_children(v) {
        assert(encode_list(v.children, 0) =~= Seq::<char>::empty());
        assert(e =~= h + seq![']', '}']);
        assert forall|i: int| 0 <= i < e.len() - 1 implies #[trigger] e[i] != '}' by {
            if i < h.len() {
                assert(e[i] == h[i]);
            }
        }
    }
}

/// After a run of childless encodings, no `}]}` stands.
proof fn lemma_leaves_no_close(u: Seq<char>, q: nat, cs: Seq<WidgetView>, j: nat)
    requires
        j < cs.len(),
        plain_list(cs, j),
        forall|m: int| j <= m < cs.len() ==> !has_children(#[trigger] cs[m]),
        lit_at(u, q, encode_list(cs, j)),
        q + encode_list(cs, j).len() == u.len(),
    ensures
        forall|e: nat| q <= e && e + 3 <= u.len() ==> !#[trigger] lit_at(u, e, close3()),
    decreases cs.len() - j,
{
    let w = cs[j as int];
    let ew = encode(w);
    let l = encode_list(cs, j);
    assert(plain_widget(w));
    assert(plain_attr(w.attr));
    lemma_encode_ends(w);
    assert(!has_children(w));
    if j + 1 < cs.len() {
        let r = encode_list(cs, j + 1);
        assert(l == ew + seq![','] + r);
        lemma_lit_split(u, q, ew + seq![','], r);
        lemma_lit_split(u, q, ew, seq![',']);
        lemma_lit_char(u, q + ew.len(), seq![','], 0);
        lemma_leaves_no_close(u, q + ew.len() + 1, cs, j + 1);
    } else {
        assert(l == ew);
    }
    assert forall|e: nat| q <= e && e + 3 <= u.len() implies !#[trigger] lit_at(u, e, close3()) by {
        if lit_at(u, e, close3()) {
            lemma_lit_char(u, e, close3(), 0);
            lemma_lit_char(u, e, close3(), 1);
            if e < q + ew.len() {
                lemma_lit_char(u, q, l, e - q);
                assert(l[e - q] == ew[e - q]);
                assert(e == q + ew.len() - 1);
                lemma_lit_char(u, q + ew.len(), seq![','], 0);
            } else if e == q + ew.len() {
                lemma_lit_char(u, q + ew.len(), seq![','], 0);
            }
        }
    }
}

/// Where `}]}` stands at `e0` with no line break before it, and no `}]}` stands after it
/// up to `hi`, the greedy end is `e0`.
proof fn lemma_last_close_at(t: Seq<char>, c: nat, hi: nat, e0: nat)
    requires
        c + 1 <= e0 <= hi,
        lit_at(t, e0, close3()),
        no_newline(t.subrange(c + 1 as int, e0 as int)),
        forall|e: nat| e0 < e <= hi ==> !#[trigger] lit_at(t, e, close3()),
    ensures
        last_close(t, c, hi) == Some(e0),
    decreases hi - e0,
{
    if hi > e0 {
        lemma_last_close_at(t, c, (hi - 1) as nat, e0);
    }
}

/// Positions of the value without a comma are passed over.
proof fn lemma_scan_skip(t: Seq<char>, k: nat, v0: nat, j: nat, j2: nat)
    requires
        j2 <= j < t.len(),
        v0 + 1 <= j2,
        k < v0,
        forall|x: int| j2 < x <= j ==> #[trigger] t[x] != ',',
    ensures
        attr_scan(t, k, v0, j) == attr_scan(t, k, v0, j2),
    decreases j - j2,
{
    if j > j2 {
        lemma_scan_skip(t, k, v0, (j - 1) as nat, j2);
    }
}

/// The kind's pattern reads a plain attribute back.
proof fn lemma_kind_attr(a: Attr)
    requires
        plain_attr(a),
    ensures
        kind_attr(kind_name(a), attr_text(a)) == Some(a),
{
    let window = kind_name(Attr::Title(Seq::empty()));
    let layout = kind_name(Attr::Alignment(Alignment::Horizontal));
    let line_edit = kind_name(Attr::MaxLength(0));
    let at = attr_text(a);
    let n = at.len();
    assert(window[0] == 'W' && layout[0] == 'L' && line_edit[0] == 'L');
    assert(layout[2] == 'y' && line_edit[2] == 'n');
    match a {
        Attr::Title(t) => {
            assert(debug_form(t) == quoted(t));
            assert(at =~= title_key() + quote() + t + seq!['"', ',']);
            assert(at.subrange(0, 9) =~= title_key() + quote());
            assert(at.subrange(n - 2, n as int) =~= seq!['"', ',']);
            assert(at.subrange(9, n - 2) =~= t);
            assert forall|i: int| 9 <= i < n - 2 implies in_class(#[trigger] at[i], CharClass::Title) by {
                assert(at[i] == t[i - 9]);
                assert(is_plain(t[i - 9]));
            }
        },
        Attr::Alignment(al) => {
            match al {
                Alignment::Horizontal => {
                    assert(at =~= alignment_key() + seq!['1', ',']);
                },
                Alignment::Vertical => {
                    assert(at =~= alignment_key() + seq!['2', ',']);
                    assert(at != alignment_key() + seq!['1', ',']) by {
                        assert(at[12] != (alignment_key() + seq!['1', ','])[12]);
                    }
                },
            }
        },
        Attr::MaxLength(m) => {
            let d = u8_decimal(m);
            lemma_u8_decimal(m);
            assert(at =~= max_length_key() + d + seq![',']);
            assert(at.subrange(0, 13) =~= max_length_key());
            assert(at.subrange(13, n - 1) =~= d);
        },
        Attr::Items(items) => {
            let d = debug_items(items);
            assert(at =~= items_key() + seq!['['] + d + seq![']', ',']);
            assert(at.subrange(0, 9) =~= items_key() + seq!['[']);
            assert(at.subrange(n - 2, n as int) =~= seq![']', ',']);
            assert(at.subrange(9, n - 2) =~= d);
            lemma_item_text(items);
            assert(no_newline(d)) by {
                assert forall|i: int| 0 <= i < d.len() implies #[trigger] d[i] != '\n' by {
                    assert(value_char(d[i]));
                }
            }
            lemma_items_roundtrip(items);
        },
    }
}

/// The match of the tree pattern at the encoding of a tree.
pub open spec fn enc_match(p: nat, v: WidgetView) -> TreeMatch {
    let k = kind_name(v.attr).len();
    let a = p + 11 + k;
    let b = a + attr_text(v.attr).len();
    let c = b + 12;
    let d = c + encode_list(v.children, 0).len();
    TreeMatch {
        name: (p + 9, p + 9 + k),
        attrs: (a, b),
        children: if v.children.len() > 0 { Some((c, d)) } else { None },
        end: p + encode(v).len(),
    }
}

proof fn lemma_lit_join(s: Seq<char>, p: nat, a: Seq<char>, b: Seq<char>)
    requires
        lit_at(s, p, a),
        lit_at(s, p + a.len(), b),
    ensures
        lit_at(s, p, a + b),
{
    assert forall|i: int| 0 <= i < (a + b).len() implies #[trigger] s.subrange(p as int, p + (a + b).len() as int)[i]
        == (a + b)[i] by {
        if i < a.len() {
            lemma_lit_char(s, p, a, i);
        } else {
            lemma_lit_char(s, p + a.len(), b, i - a.len());
        }
    }
    assert(s.subrange(p as int, p + (a + b).len() as int) =~= a + b);
}

/// The pieces of an encoding, each at its position.
proof fn lemma_enc_lits(t: Seq<char>, p: nat, v: WidgetView)
    requires
        plain_widget(v),
        lit_at(t, p, encode(v)),
    ensures
        ({
            let k = kind_name(v.attr);
            let at = attr_text(v.attr);
            let l = encode_list(v.children, 0);
            let n1 = p + 9 + k.len();
            let b = n1 + 2 + at.len();
            let d = b + 12 + l.len();
            &&& lit_at(t, p, name_open())
            &&& lit_at(t, p + 9, k)
            &&& lit_at(t, n1, seq!['"', ','])
            &&& lit_at(t, n1 + 2, at)
            &&& lit_at(t, b, children_open())
            &&& lit_at(t, b + 12, l)
            &&& lit_at(t, d, seq![']', '}'])
            &&& d + 2 == p + encode(v).len()
        }),
{
    lemma_head(v);
    let k = kind_name(v.attr);
    let at = attr_text(v.attr);
    let l = encode_list(v.children, 0);
    let h = enc_head(v);
    let x1 = name_open() + k;
    let x2 = x1 + seq!['"', ','];
    lemma_lit_split(t, p, h + l, seq![']', '}']);
    lemma_lit_split(t, p, h, l);
    assert(h == (x2 + at) + children_open());
    lemma_lit_split(t, p, x2 + at, children_open());
    lemma_lit_split(t, p, x2, at);
    lemma_lit_split(t, p, x1, seq!['"', ',']);
    lemma_lit_split(t, p, name_open(), k);
}

/// At `"children":[` no further attribute starts, and the children group ends where the
/// encoding ends.
#[verifier::spinoff_prover]
proof fn lemma_children_tail(t: Seq<char>, b: nat, v: WidgetView)
    requires
        plain_widget(v),
        lit_at(t, b, children_open()),
        lit_at(t, b + 12, encode_list(v.children, 0)),
        lit_at(t, b + 12 + encode_list(v.children, 0).len(), seq![']', '}']),
        has_children(v) ==> forall|e: nat|
            b + 13 + encode_list(v.children, 0).len() <= e && e + 3 <= t.len() ==> !#[trigger] lit_at(t, e, close3()),
    ensures
        attr_iter(t, b) is None,
        children_exit(t, b) == Some(
            (
                b,
                if has_children(v) {
                    Some((b + 12, b + 12 + encode_list(v.children, 0).len()))
                } else {
                    None::<(nat, nat)>
                },
                b + 14 + encode_list(v.children, 0).len(),
            ),
        ),
{
    let l = encode_list(v.children, 0);
    let c = b + 12;
    let d = c + l.len();
    let cw = children_open().subrange(0, 10);
    assert(children_open() =~= cw + seq![':', '[']);
    lemma_lit_split(t, b, cw, seq![':', '[']);
    lemma_lit_char(t, b + 10, seq![':', '['], 0);
    lemma_lit_char(t, b + 10, seq![':', '['], 1);
    let word = seq!['c', 'h', 'i', 'l', 'd', 'r', 'e', 'n'];
    assert(cw =~= seq!['"'] + word + seq!['"']);
    lemma_lit_split(t, b, seq!['"'] + word, seq!['"']);
    lemma_lit_split(t, b, seq!['"'], word);
    lemma_lit_char(t, b, seq!['"'], 0);
    lemma_lit_char(t, b + 9, seq!['"'], 0);
    assert forall|i: int| 0 <= i < word.len() implies in_class(#[trigger] word[i], CharClass::Name) by {}
    lemma_class_run(t, b + 1, word, CharClass::Name);
    assert(lit_at(t, b + 9, seq!['"', ':'])) by {
        assert(t.subrange(b + 9 as int, b + 11 as int) =~= seq!['"', ':']);
    }
    lemma_lit_char(t, d, seq![']', '}'], 0);
    lemma_lit_char(t, d, seq![']', '}'], 1);
    if has_children(v) {
        let c0 = v.children[0];
        assert(plain_widget(c0));
        lemma_encode_ends(c0);
        lemma_list_last(v.children, 0);
        assert(l[0] == encode(c0)[0]) by {
            if v.children.len() > 1 {
                assert(l == encode(c0) + seq![','] + encode_list(v.children, 1));
            }
        }
        lemma_lit_char(t, c, l, 0);
        assert(lit_at(t, b + 11, seq!['['])) by {
            assert(t.subrange(b + 11 as int, b + 12 as int) =~= seq!['[']);
        }
        lemma_class_run(t, b + 11, seq!['['], CharClass::AttrValue);
        assert(attr_iter(t, b) is None);
        lemma_lit_char(t, c, l, l.len() - 1);
        assert(lit_at(t, (d - 1) as nat, close3())) by {
            assert(t.subrange(d - 1, d + 2 as int) =~= close3());
        }
        lemma_list_no_newline(v.children, 0);
        assert(no_newline(t.subrange(c + 1 as int, d - 1))) by {
            assert forall|i: int| 0 <= i < d - 1 - (c + 1) implies #[trigger] t.subrange(c + 1 as int, d - 1)[i] != '\n' by {
                lemma_lit_char(t, c, l, i + 1);
            }
        }
        assert forall|e: nat| d - 1 < e <= t.len() - 3 implies !#[trigger] lit_at(t, e, close3()) by {
            if e == d {
                if lit_at(t, e, close3()) {
                    lemma_lit_char(t, e, close3(), 0);
                }
            }
        }
        lemma_last_close_at(t, c, (t.len() - 3) as nat, (d - 1) as nat);
        assert(children_group(t, c) == Some((Some((c, d)), d + 2)));
    } else {
        assert(l =~= Seq::<char>::empty());
        assert(lit_at(t, b + 11, seq!['[', ']'])) by {
            assert(t.subrange(b + 11 as int, b + 13 as int) =~= seq!['[', ']']);
        }
        lemma_class_run(t, b + 11, seq!['[', ']'], CharClass::AttrValue);
        assert(attr_scan(t, b, b + 11, b + 11) is None);
        assert(attr_scan(t, b, b + 11, b + 12) is None);
        assert(attr_iter(t, b) is None);
        assert(children_group(t, c) == Some((None::<(nat, nat)>, c + 2)));
    }
}

/// The attributes of an encoding run from `a` to the `"children"` that follows them.
#[verifier::spinoff_prover]
proof fn lemma_attrs_tail(t: Seq<char>, a: nat, at_attr: Attr)
    requires
        plain_attr(at_attr),
        lit_at(t, a, attr_text(at_attr)),
        lit_at(t, a + attr_text(at_attr).len(), children_open()),
        attr_iter(t, a + attr_text(at_attr).len()) is None,
        children_exit(t, a + attr_text(at_attr).len()) is Some,
    ensures
        attr_iter(t, a) == children_exit(t, a + attr_text(at_attr).len()),
{
    lemma_attr_parts(at_attr);
    let at = attr_text(at_attr);
    let b = a + at.len();
    let kw = attr_key_word(at_attr);
    let val = attr_value(at_attr);
    let y1 = seq!['"'] + kw;
    let y2 = y1 + seq!['"', ':'];
    lemma_lit_split(t, a, y2, val);
    lemma_lit_split(t, a, y1, seq!['"', ':']);
    lemma_lit_split(t, a, seq!['"'], kw);
    lemma_lit_char(t, a, seq!['"'], 0);
    let w1 = a + 1 + kw.len();
    lemma_lit_char(t, w1, seq!['"', ':'], 0);
    lemma_lit_char(t, w1, seq!['"', ':'], 1);
    lemma_class_run(t, a + 1, kw, CharClass::Name);
    let v0 = w1 + 2;
    assert(v0 + val.len() == b);
    let cw = children_open().subrange(0, 10);
    assert(children_open() =~= cw + seq![':', '[']);
    lemma_lit_split(t, b, cw, seq![':', '[']);
    lemma_lit_char(t, b + 10, seq![':', '['], 0);
    let run = val + cw;
    lemma_lit_join(t, v0, val, cw);
    assert forall|i: int| 0 <= i < run.len() implies in_class(#[trigger] run[i], CharClass::AttrValue) by {
        if i < val.len() {
            assert(run[i] == val[i]);
            assert(value_char(val[i]));
        } else {
            assert(run[i] == cw[i - val.len()]);
        }
    }
    lemma_class_run(t, v0, run, CharClass::AttrValue);
    let r = b + 10;
    assert forall|x: int| b - 1 < x <= r - 1 implies #[trigger] t[x] != ',' by {
        lemma_lit_char(t, b, cw, x - b);
    }
    lemma_scan_skip(t, a, v0, (r - 1) as nat, (b - 1) as nat);
    lemma_lit_char(t, v0, val, val.len() - 1);
    assert(t[b - 1] == ',');
    assert(attr_scan(t, a, v0, (b - 1) as nat) == children_exit(t, b));
}

/// The tree pattern matches at the encoding of a tree where no `}]}` stands after the
/// encoding (if the tree has children), and the match decodes to the tree.
#[verifier::spinoff_prover]
pub proof fn lemma_match_encode(t: Seq<char>, p: nat, v: WidgetView)
    requires
        plain_widget(v),
        one_parent_tree(v),
        lit_at(t, p, encode(v)),
        has_children(v) ==> forall|e: nat|
            p + encode(v).len() - 1 <= e && e + 3 <= t.len() ==> !#[trigger] lit_at(t, e, close3()),
    ensures
        match_at(t, p) == Some(enc_match(p, v)),
        decode_match(t, enc_match(p, v)) == Some(v),
    decreases v, 0nat,
{
    lemma_enc_lits(t, p, v);
    let k = kind_name(v.attr);
    let at = attr_text(v.attr);
    let l = encode_list(v.children, 0);
    let n1 = p + 9 + k.len();
    let a = n1 + 2;
    let b = a + at.len();
    let c = b + 12;
    let d = c + l.len();
    lemma_lit_char(t, n1, seq!['"', ','], 0);
    assert forall|i: int| 0 <= i < k.len() implies in_class(#[trigger] k[i], CharClass::Name) by {}
    lemma_class_run(t, p + 9, k, CharClass::Name);
    assert(t.subrange(p + 9 as int, n1 as int) == k);
    lemma_children_tail(t, b, v);
    lemma_attrs_tail(t, a, v.attr);
    assert(match_at(t, p) == Some(enc_match(p, v)));
    assert(t.subrange(a as int, b as int) == at);
    lemma_kind_attr(v.attr);
    if has_children(v) {
        let u = t.subrange(0, d as int);
        assert(u.subrange(c as int, d as int) =~= t.subrange(c as int, d as int));
        lemma_decode_all_list(u, c, v.children, 0);
        assert(v.children.subrange(0, v.children.len() as int) =~= v.children);
    } else {
        assert(v.children =~= Seq::<WidgetView>::empty());
    }
}

/// The last character of a list of encodings is `}`.
proof fn lemma_list_last(cs: Seq<WidgetView>, i: nat)
    requires
        i < cs.len(),
        plain_list(cs, i),
    ensures
        encode_list(cs, i).len() >= 2,
        encode_list(cs, i)[encode_list(cs, i).len() - 1] == '}',
    decreases cs.len() - i,
{
    let w = cs[i as int];
    assert(plain_widget(w));
    lemma_encode_ends(w);
    if i + 1 < cs.len() {
        lemma_list_last(cs, i + 1);
        let r = encode_list(cs, i + 1);
        assert(encode_list(cs, i) == encode(w) + seq![','] + r);
    }
}

/// The successive leftmost matches in the text of a list of children are the children.
proof fn lemma_decode_all_list(u: Seq<char>, q: nat, cs: Seq<WidgetView>, i: nat)
    requires
        i < cs.len(),
        plain_list(cs, i),
        one_parent_list(cs, i),
        one_parent(cs),
        lit_at(u, q, encode_list(cs, i)),
        q + encode_list(cs, i).len() == u.len(),
    ensures
        leftmost(u, q) == Some(enc_match(q, cs[i as int])),
        decode_all(u, q) == Some(cs.subrange(i as int, cs.len() as int)),
    decreases cs, cs.len() - i,
{
    let w = cs[i as int];
    let ew = encode(w);
    let n = ew.len();
    let l = encode_list(cs, i);
    assert(plain_widget(w));
    assert(one_parent_tree(w));
    lemma_encode_ends(w);
    if i + 1 < cs.len() {
        let r = encode_list(cs, i + 1);
        assert(l == ew + seq![','] + r);
        lemma_lit_split(u, q, ew + seq![','], r);
        lemma_lit_split(u, q, ew, seq![',']);
        lemma_lit_char(u, q + n, seq![','], 0);
        if has_children(w) {
            assert forall|m: int| i + 1 <= m < cs.len() implies !has_children(#[trigger] cs[m]) by {
                assert(!(has_children(cs[i as int]) && has_children(cs[m])));
            }
            lemma_leaves_no_close(u, q + n + 1, cs, i + 1);
            assert forall|e: nat| q + n - 1 <= e && e + 3 <= u.len() implies !#[trigger] lit_at(u, e, close3()) by {
                if e < q + n + 1 && lit_at(u, e, close3()) {
                    lemma_lit_char(u, e, close3(), 0);
                    lemma_lit_char(u, e, close3(), 1);
                }
            }
        }
        lemma_match_encode(u, q, w);
        lemma_decode_all_list(u, q + n + 1, cs, i + 1);
        assert(match_at(u, q + n) is None) by {
            if lit_at(u, q + n, name_open()) {
                lemma_lit_char(u, q + n, name_open(), 0);
            }
        }
        assert(leftmost(u, q + n) == leftmost(u, q + n + 1));
        assert(decode_all(u, q + n) == decode_all(u, q + n + 1));
        assert(seq![w] + cs.subrange(i + 1 as int, cs.len() as int) =~= cs.subrange(i as int, cs.len() as int));
    } else {
        assert(l == ew);
        if has_children(w) {
            assert forall|e: nat| q + n - 1 <= e && e + 3 <= u.len() implies !#[trigger] lit_at(u, e, close3()) by {}
        }
        lemma_match_encode(u, q, w);
        assert(match_at(u, u.len()) is None);
        assert(leftmost(u, u.len() + 1) is None);
        assert(decode_all(u, q + n) == Some(Seq::<WidgetView>::empty()));
        assert(seq![w] + Seq::<WidgetView>::empty() =~= cs.subrange(i as int, cs.len() as int));
    }
}

/// Decoding the encoding of a plain widget tree gives the tree back, where no two
/// children of one widget have children of their own. (Where two do, the greedy
/// children pattern of the first reaches into the second, and the tree read back is
/// regrouped.)
pub proof fn law_binary_roundtrip(v: WidgetView)
    requires
        plain_widget(v),
        one_parent_tree(v),
    ensures
        decode_source(encode(v)) == Some(v),
{
    let s = encode(v);
    assert(s.subrange(0, s.len() as int) =~= s);
    assert forall|e: nat| s.len() - 1 <= e && e + 3 <= s.len() implies !#[trigger] lit_at(s, e, close3()) by {}
    lemma_match_encode(s, 0, v);
}

proof fn lemma_leftmost_skips(s: Seq<char>, p: nat, q: nat)
    requires
        p <= q <= s.len(),
        forall|j: int| p <= j < q ==> #[trigger] s[j] != '{',
    ensures
        leftmost(s, p) == leftmost(s, q),
    decreases q - p,
{
    if p < q {
        assert(!lit_at(s, p, name_open())) by {
            if lit_at(s, p, name_open()) {
                lemma_lit_char(s, p, name_open(), 0);
            }
        }
        lemma_leftmost_skips(s, p + 1, q);
    }
}

/// A plain widget tree as in `law_binary_roundtrip`, encoded after text that holds no
/// `{`, is found there and given back.
pub proof fn law_roundtrip_after_text(prefix: Seq<char>, v: WidgetView)
    requires
        plain_widget(v),
        one_parent_tree(v),
        forall|j: int| 0 <= j < prefix.len() ==> #[trigger] prefix[j] != '{',
    ensures
        decode_source(prefix + encode(v)) == Some(v),
{
    let s = prefix + encode(v);
    let p = prefix.len();
    assert forall|j: int| 0 <= j < p implies #[trigger] s[j] != '{' by {
        assert(s[j] == prefix[j]);
    }
    lemma_leftmost_skips(s, 0, p);
    assert(s.subrange(p as int, s.len() as int) =~= encode(v));
    assert forall|e: nat| p + encode(v).len() - 1 <= e && e + 3 <= s.len() implies !#[trigger] lit_at(s, e, close3()) by {}
    lemma_match_encode(s, p, v);
}

/// The characters of a piece of an item list that are no `"` and no space.
pub open spec fn not_quote_or_space(c: char) -> bool {
    c != '"' && c != ' '
}

/// An item is its piece of the list with every `"` and space taken out and every other
/// character kept, in order, whatever the character.
pub proof fn law_strip_quotes_keeps_the_rest(t: Seq<char>)
    ensures
        strip_quotes(t) == t.filter(|c: char| not_quote_or_space(c)),
    decreases t.len(),
{
    reveal(Seq::filter);
    if t.len() > 0 {
        law_strip_quotes_keeps_the_rest(t.drop_last());
    }
}

/// The items of a list are its pieces between commas, each without `"` and spaces.
pub proof fn law_items_are_pieces(content: Seq<char>)
    ensures
        items_of(content).len() == split_on(content, ',').len(),
        forall|i: int|
            0 <= i < items_of(content).len() ==> #[trigger] items_of(content)[i] == split_on(content, ',')[i].filter(
                |c: char| not_quote_or_space(c),
            ),
{
    assert forall|i: int| 0 <= i < items_of(content).len() implies #[trigger] items_of(content)[i] == split_on(
        content,
        ',',
    )[i].filter(|c: char| not_quote_or_space(c)) by {
        law_strip_quotes_keeps_the_rest(split_on(content, ',')[i]);
    }
}

/// A word without quotes and spaces, quoted (after a space or not), is read back as
/// itself, whatever its characters.
pub proof fn law_quoted_word_read_back(w: Seq<char>)
    requires
        !w.contains('"'),
        !w.contains(' '),
    ensures
        strip_quotes(quoted(w)) == w,
        strip_quotes(seq![' '] + quoted(w)) == w,
{
    law_strip_quotes_keeps_the_rest(w);
    assert(strip_quotes(w) == w) by {
        lemma_strip_none(w);
    }
    let q = seq!['"'];
    let e = Seq::<char>::empty();
    assert(strip_quotes(e) =~= e);
    assert(strip_quotes(q) =~= e) by {
        assert(q.drop_last() =~= e);
        assert(q.last() == '"');
    }
    assert(strip_quotes(seq![' ']) =~= e) by {
        assert(seq![' '].drop_last() =~= e);
        assert(seq![' '].last() == ' ');
    }
    lemma_strip_concat(q + w, q);
    lemma_strip_concat(q, w);
    assert(quoted(w) == q + w + q);
    assert(e + w + e =~= w);
    lemma_strip_concat(seq![' '], quoted(w));
    assert(e + w =~= w);
}

proof fn lemma_strip_none(w: Seq<char>)
    requires
        !w.contains('"'),
        !w.contains(' '),
    ensures
        strip_quotes(w) == w,
    decreases w.len(),
{
    if w.len() > 0 {
        assert(!w.drop_last().contains('"') && !w.drop_last().contains(' ')) by {
            if w.drop_last().contains('"') || w.drop_last().contains(' ') {
                let j = choose|j: int| 0 <= j < w.drop_last().len() && (w.drop_last()[j] == '"' || w.drop_last()[j] == ' ');
                assert(w[j] == w.drop_last()[j]);
            }
        }
        lemma_strip_none(w.drop_last());
        assert(w[w.len() - 1] != '"' && w[w.len() - 1] != ' ');
        assert(w.drop_last().push(w.last()) =~= w);
    }
}

} // verus!
