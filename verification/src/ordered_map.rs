use vstd::prelude::*;
use crate::text::chars_of;

verus! {

/// The order of `String`: lexicographic over the characters.
pub open spec fn str_lt(a: Seq<char>, b: Seq<char>) -> bool
    decreases a.len(),
{
    if a.len() == 0 {
        b.len() > 0
    } else if b.len() == 0 {
        false
    } else if a[0] != b[0] {
        a[0] < b[0]
    } else {
        str_lt(a.drop_first(), b.drop_first())
    }
}

/// No string is below itself.
pub proof fn lemma_str_lt_irreflexive(a: Seq<char>)
    ensures
        !str_lt(a, a),
    decreases a.len(),
{
    if a.len() > 0 {
        lemma_str_lt_irreflexive(a.drop_first());
    }
}

/// The order is transitive.
pub proof fn lemma_str_lt_transitive(a: Seq<char>, b: Seq<char>, c: Seq<char>)
    requires
        str_lt(a, b),
        str_lt(b, c),
    ensures
        str_lt(a, c),
    decreases a.len(),
{
    if a.len() > 0 && b.len() > 0 && c.len() > 0 && a[0] == b[0] && b[0] == c[0] {
        lemma_str_lt_transitive(a.drop_first(), b.drop_first(), c.drop_first());
    }
}

/// Of two different strings, one is below the other.
pub proof fn lemma_str_lt_total(a: Seq<char>, b: Seq<char>)
    requires
        a != b,
    ensures
        str_lt(a, b) || str_lt(b, a),
    decreases a.len(),
{
    if a.len() == 0 {
        assert(b.len() > 0) by {
            if b.len() == 0 {
                assert(a =~= b);
            }
        }
    } else if b.len() > 0 && a[0] == b[0] {
        if a.drop_first() == b.drop_first() {
            assert(a =~= seq![a[0]] + a.drop_first());
            assert(b =~= seq![b[0]] + b.drop_first());
        }
        lemma_str_lt_total(a.drop_first(), b.drop_first());
    }
}

proof fn lemma_str_lt_skip(a: Seq<char>, b: Seq<char>, i: int)
    requires
        0 <= i <= a.len(),
        i <= b.len(),
        forall|j: int| 0 <= j < i ==> a[j] == b[j],
    ensures
        str_lt(a, b) == str_lt(a.skip(i), b.skip(i)),
    decreases i,
{
    if i > 0 {
        lemma_str_lt_skip(a.drop_first(), b.drop_first(), i - 1);
        assert(a.drop_first().skip(i - 1) =~= a.skip(i));
        assert(b.drop_first().skip(i - 1) =~= b.skip(i));
    } else {
        assert(a.skip(0) =~= a);
        assert(b.skip(0) =~= b);
    }
}

/// The outcome of comparing two keys.
#[derive(Debug, PartialEq, Eq, Clone, Copy, Structural)]
pub enum KeyOrder {
    Less,
    Equal,
    Greater,
}

/// Compares two strings in the order of `String`.
pub fn compare_keys(a: &String, b: &String) -> (r: KeyOrder)
    ensures
        (r == KeyOrder::Less) == str_lt(a@, b@),
        (r == KeyOrder::Equal) == (a@ == b@),
        (r == KeyOrder::Greater) == str_lt(b@, a@),
{
    let x = chars_of(a.as_str());
    let y = chars_of(b.as_str());
    let mut i: usize = 0;
    while i < x.len() && i < y.len() && x[i] == y[i]
        invariant
            x@ == a@,
            y@ == b@,
            0 <= i <= x.len(),
            i <= y.len(),
            forall|j: int| 0 <= j < i ==> x@[j] == y@[j],
        decreases x.len() - i,
    {
        i = i + 1;
    }
    proof {
        lemma_str_lt_skip(x@, y@, i as int);
        lemma_str_lt_skip(y@, x@, i as int);
        lemma_str_lt_irreflexive(x@);
        if i == x.len() && i == y.len() {
            assert(x@ =~= y@);
        }
        if i < x.len() && i < y.len() {
            assert(x@[i as int] != y@[i as int]);
        }
    }
    if i == x.len() && i == y.len() {
        KeyOrder::Equal
    } else if i == x.len() {
        assert(x@ != y@) by {
            assert(y@.len() > x@.len());
        }
        KeyOrder::Less
    } else if i == y.len() {
        assert(x@ != y@) by {
            assert(x@.len() > y@.len());
        }
        KeyOrder::Greater
    } else if x[i] < y[i] {
        assert(x@ != y@) by {
            assert(x@[i as int] != y@[i as int]);
        }
        KeyOrder::Less
    } else {
        assert(x@ != y@) by {
            assert(x@[i as int] != y@[i as int]);
        }
        KeyOrder::Greater
    }
}

pub open spec fn strictly_sorted(ks: Seq<Seq<char>>) -> bool {
    forall|i: int, j: int| 0 <= i < j < ks.len() ==> str_lt(#[trigger] ks[i], #[trigger] ks[j])
}

/// Changing the value at one slot changes the map at that slot's key only.
proof fn lemma_set_value<T>(a: OrderedMap<T>, b: OrderedMap<T>, i: int)
    requires
        a.wf(),
        0 <= i < a.keys@.len(),
        b.keys == a.keys,
        b.values@ == a.values@.update(i, b.values@[i]),
    ensures
        b.wf(),
        b.view() == a.view().insert(a.keys@[i]@, b.values@[i]),
{
    let k = a.keys@[i]@;
    let v = b.values@[i];
    assert(b.key_seq() =~= a.key_seq());
    a.lemma_slot(i);
    assert forall|m: Seq<char>| #[trigger] b.view().dom().contains(m) == a.view().insert(k, v).dom().contains(m) by {
        b.lemma_dom(m);
        a.lemma_dom(m);
    }
    assert forall|m: Seq<char>| #[trigger] b.view().dom().contains(m) implies b.view()[m] == a.view().insert(k, v)[m] by {
        b.lemma_dom(m);
        let j = choose|j: int| 0 <= j < b.key_seq().len() && b.key_seq()[j] == m;
        b.lemma_slot(j);
        a.lemma_slot(j);
    }
    assert(b.view() =~= a.view().insert(k, v));
}

proof fn lemma_set_value_any<T>(a: OrderedMap<T>, i: int)
    requires
        a.wf(),
        0 <= i < a.keys@.len(),
    ensures
        forall|b: OrderedMap<T>| b.keys == a.keys && b.values@ == a.values@.update(i, b.values@[i]) ==> #[trigger] b.wf(),
        forall|b: OrderedMap<T>| b.keys == a.keys && b.values@ == a.values@.update(i, b.values@[i])
            ==> #[trigger] b.view() == a.view().insert(a.keys@[i]@, b.values@[i]),
{
    assert forall|b: OrderedMap<T>| b.keys == a.keys && b.values@ == a.values@.update(i, b.values@[i]) implies #[trigger] b.wf() by {
        lemma_set_value(a, b, i);
    }
    assert forall|b: OrderedMap<T>| b.keys == a.keys && b.values@ == a.values@.update(i, b.values@[i])
        implies #[trigger] b.view() == a.view().insert(a.keys@[i]@, b.values@[i]) by {
        lemma_set_value(a, b, i);
    }
}

/// A map from strings to values that keeps its keys in the order of `String`.
#[derive(Debug)]
pub struct OrderedMap<T> {
    keys: Vec<String>,
    values: Vec<T>,
}

impl<T> OrderedMap<T> {
    /// The keys, in increasing order.
    pub closed spec fn key_seq(&self) -> Seq<Seq<char>> {
        self.keys@.map_values(|k: String| k@)
    }

    /// The keys are in increasing order and each has a value.
    pub closed spec fn wf(&self) -> bool {
        &&& self.keys.len() == self.values.len()
        &&& strictly_sorted(self.key_seq())
    }

    closed spec fn slot_of(&self, k: Seq<char>) -> int {
        choose|i: int| 0 <= i < self.keys@.len() && self.keys@[i]@ == k
    }

    /// The map from each key to its value.
    pub closed spec fn view(&self) -> Map<Seq<char>, T> {
        Map::new(
            |k: Seq<char>| exists|i: int| 0 <= i < self.keys@.len() && self.keys@[i]@ == k,
            |k: Seq<char>| self.values@[self.slot_of(k)],
        )
    }

    proof fn lemma_slot(&self, i: int)
        requires
            self.wf(),
            0 <= i < self.keys@.len(),
        ensures
            self.view().dom().contains(self.keys@[i]@),
            self.slot_of(self.keys@[i]@) == i,
            self.view()[self.keys@[i]@] == self.values@[i],
            self.key_seq()[i] == self.keys@[i]@,
    {
        let k = self.keys@[i]@;
        assert(self.key_seq()[i] == k);
        assert(exists|j: int| 0 <= j < self.keys@.len() && self.keys@[j]@ == k);
        let j = self.slot_of(k);
        assert(self.key_seq()[j] == k);
        if j < i {
            assert(str_lt(self.key_seq()[j], self.key_seq()[i]));
            lemma_str_lt_irreflexive(k);
        } else if i < j {
            assert(str_lt(self.key_seq()[i], self.key_seq()[j]));
            lemma_str_lt_irreflexive(k);
        }
    }

    proof fn lemma_dom(&self, k: Seq<char>)
        requires
            self.wf(),
        ensures
            self.view().dom().contains(k) == self.key_seq().contains(k),
    {
        if self.view().dom().contains(k) {
            let i = choose|i: int| 0 <= i < self.keys@.len() && self.keys@[i]@ == k;
            assert(self.key_seq()[i] == k);
        }
        if self.key_seq().contains(k) {
            let i = choose|i: int| 0 <= i < self.key_seq().len() && self.key_seq()[i] == k;
            assert(self.keys@[i]@ == k);
        }
    }

    /// The keys are in increasing order, and they are exactly the keys of the map.
    pub proof fn lemma_keys(&self)
        requires
            self.wf(),
        ensures
            strictly_sorted(self.key_seq()),
            self.key_seq().len() == self.view().dom().len(),
            forall|k: Seq<char>| #[trigger] self.view().dom().contains(k) == self.key_seq().contains(k),
    {
        assert forall|k: Seq<char>| #[trigger] self.view().dom().contains(k) == self.key_seq().contains(k) by {
            self.lemma_dom(k);
        }
        assert(self.view().dom() =~= self.key_seq().to_set());
        assert(self.key_seq().no_duplicates()) by {
            assert forall|i: int, j: int| 0 <= i < self.key_seq().len() && 0 <= j < self.key_seq().len() && i != j
                implies self.key_seq()[i] != self.key_seq()[j] by {
                if i < j {
                    assert(str_lt(self.key_seq()[i], self.key_seq()[j]));
                } else {
                    assert(str_lt(self.key_seq()[j], self.key_seq()[i]));
                }
                lemma_str_lt_irreflexive(self.key_seq()[i]);
            }
        }
        self.key_seq().unique_seq_to_set();
    }

    /// An empty map.
    pub fn new() -> (m: OrderedMap<T>)
        ensures
            m.wf(),
            m.view() == Map::<Seq<char>, T>::empty(),
    {
        let m = OrderedMap { keys: Vec::new(), values: Vec::new() };
        assert(m.view() =~= Map::<Seq<char>, T>::empty());
        m
    }

    /// The number of keys.
    pub fn len(&self) -> (n: usize)
        requires
            self.wf(),
        ensures
            n == self.view().dom().len(),
    {
        proof {
            self.lemma_keys();
        }
        self.keys.len()
    }

    /// Where `key` stands among the keys: whether it is there, and the number of keys below it.
    fn find(&self, key: &String) -> (r: (bool, usize))
        requires
            self.wf(),
        ensures
            r.1 <= self.keys.len(),
            forall|j: int| 0 <= j < r.1 ==> str_lt(#[trigger] self.key_seq()[j], key@),
            r.1 < self.keys.len() ==> (r.0 <==> self.key_seq()[r.1 as int] == key@),
            r.1 < self.keys.len() && !r.0 ==> str_lt(key@, self.key_seq()[r.1 as int]),
            r.1 == self.keys.len() ==> !r.0,
    {
        let mut i: usize = 0;
        while i < self.keys.len()
            invariant
                self.wf(),
                0 <= i <= self.keys.len(),
                forall|j: int| 0 <= j < i ==> str_lt(#[trigger] self.key_seq()[j], key@),
            decreases self.keys.len() - i,
        {
            assert(self.key_seq()[i as int] == self.keys@[i as int]@);
            match compare_keys(&self.keys[i], key) {
                KeyOrder::Less => {},
                KeyOrder::Equal => {
                    return (true, i);
                },
                KeyOrder::Greater => {
                    return (false, i);
                },
            }
            i = i + 1;
        }
        (false, i)
    }

    /// Sets the value of `key`, adding the key where it is new.
    pub fn insert(&mut self, key: String, value: T)
        requires
            old(self).wf(),
        ensures
            final(self).wf(),
            final(self).view() == old(self).view().insert(key@, value),
    {
        let (found, i) = self.find(&key);
        let ghost k = key@;
        let ghost old_map = self.view();
        if found {
            proof {
                self.lemma_slot(i as int);
            }
            self.values.set(i, value);
            proof {
                lemma_set_value(*old(self), *self, i as int);
            }
        } else {
            self.keys.insert(i, key);
            self.values.insert(i, value);
            proof {
                let ks = self.key_seq();
                let oks = old(self).key_seq();
                assert(ks =~= oks.insert(i as int, k));
                assert forall|a: int, b: int| 0 <= a < b < ks.len() implies str_lt(#[trigger] ks[a], #[trigger] ks[b]) by {
                    if b < i {
                        assert(str_lt(oks[a], oks[b]));
                    } else if b == i {
                    } else if a < i {
                        assert(ks[b] == oks[b - 1]);
                        if b - 1 > i {
                            assert(str_lt(oks[i as int], oks[b - 1]));
                        }
                        if a == i {
                        } else {
                            assert(str_lt(oks[a], k));
                            if (i as int) < oks.len() {
                                if b - 1 > i {
                                    lemma_str_lt_transitive(k, oks[i as int], oks[b - 1]);
                                }
                            }
                            lemma_str_lt_transitive(oks[a], k, ks[b]);
                        }
                    } else if a == i {
                        if b - 1 > i {
                            assert(str_lt(oks[i as int], oks[b - 1]));
                            lemma_str_lt_transitive(k, oks[i as int], oks[b - 1]);
                        }
                    } else {
                        assert(str_lt(oks[a - 1], oks[b - 1]));
                    }
                }
                assert forall|m: Seq<char>| #[trigger] self.view().dom().contains(m) == old_map.insert(k, value).dom().contains(m) by {
                    self.lemma_dom(m);
                    old(self).lemma_dom(m);
                    assert(ks[i as int] == k);
                    if oks.contains(m) {
                        let j = choose|j: int| 0 <= j < oks.len() && oks[j] == m;
                        if j < i {
                            assert(ks[j] == m);
                        } else {
                            assert(ks[j + 1] == m);
                        }
                    }
                    if ks.contains(m) {
                        let j = choose|j: int| 0 <= j < ks.len() && ks[j] == m;
                        if j < i {
                            assert(oks[j] == m);
                        } else if j > i {
                            assert(oks[j - 1] == m);
                        }
                    }
                }
                assert forall|m: Seq<char>| #[trigger] self.view().dom().contains(m) implies self.view()[m] == old_map.insert(k, value)[m] by {
                    self.lemma_dom(m);
                    let j = choose|j: int| 0 <= j < ks.len() && ks[j] == m;
                    self.lemma_slot(j);
                    if j < i {
                        old(self).lemma_slot(j);
                        assert(oks[j] == m);
                        assert(str_lt(m, k));
                        lemma_str_lt_irreflexive(k);
                    } else if j > i {
                        old(self).lemma_slot(j - 1);
                        assert(oks[j - 1] == m);
                        if (i as int) < oks.len() {
                            if j - 1 > i {
                                assert(str_lt(oks[i as int], oks[j - 1]));
                                lemma_str_lt_transitive(k, oks[i as int], m);
                            }
                        }
                        lemma_str_lt_irreflexive(k);
                    }
                }
                assert(self.view() =~= old_map.insert(k, value));
            }
        }
    }

    /// The value of `key`, if the map holds it.
    pub fn get(&self, key: &String) -> (r: Option<&T>)
        requires
            self.wf(),
        ensures
            match r {
                Some(v) => self.view().dom().contains(key@) && *v == self.view()[key@],
                None => !self.view().dom().contains(key@),
            },
    {
        let (found, i) = self.find(key);
        if found {
            proof {
                self.lemma_slot(i as int);
            }
            Some(&self.values[i])
        } else {
            proof {
                self.lemma_dom(key@);
                if self.key_seq().contains(key@) {
                    let j = choose|j: int| 0 <= j < self.key_seq().len() && self.key_seq()[j] == key@;
                    if j < i {
                        lemma_str_lt_irreflexive(key@);
                    } else if j > i {
                        assert(str_lt(self.key_seq()[i as int], self.key_seq()[j]));
                        lemma_str_lt_transitive(key@, self.key_seq()[i as int], key@);
                        lemma_str_lt_irreflexive(key@);
                    }
                }
            }
            None
        }
    }
}

impl OrderedMap<i8> {
    /// The value of the `index`-th key in increasing order.
    pub fn index(&self, index: usize) -> (r: i8)
        requires
            self.wf(),
            index < self.view().dom().len(),
        ensures
            r == self.view()[self.key_seq()[index as int]],
    {
        proof {
            self.lemma_keys();
            self.lemma_slot(index as int);
        }
        self.values[index]
    }

    /// The value of `key`, which the map holds.
    pub fn index_by_key(&self, key: String) -> (r: i8)
        requires
            self.wf(),
            self.view().dom().contains(key@),
        ensures
            r == self.view()[key@],
    {
        match self.get(&key) {
            Some(v) => *v,
            None => 0,
        }
    }

    /// Sets the value of `key` to 0, adding the key where it is new, and hands out the value.
    pub fn index_mut(&mut self, key: String) -> (r: &mut i8)
        requires
            old(self).wf(),
        ensures
            *r == 0,
            final(self).wf(),
            final(self).view() == old(self).view().insert(key@, *final(r)),
    {
        let probe = key.clone();
        self.insert(key, 0);
        let (found, i) = self.find(&probe);
        proof {
            self.lemma_dom(probe@);
            if !found {
                let j = choose|j: int| 0 <= j < self.key_seq().len() && self.key_seq()[j] == probe@;
                if j < i {
                    lemma_str_lt_irreflexive(probe@);
                } else if j > i {
                    assert(str_lt(self.key_seq()[i as int], self.key_seq()[j]));
                    lemma_str_lt_transitive(probe@, self.key_seq()[i as int], probe@);
                    lemma_str_lt_irreflexive(probe@);
                }
            }
            self.lemma_slot(i as int);
        }
        proof {
            lemma_set_value_any(*self, i as int);
        }
        &mut self.values[i]
    }
}

/// What is read under a key after a write is what was written; other keys keep their values.
pub proof fn law_read_after_write<T>(before: Map<Seq<char>, T>, after: Map<Seq<char>, T>, key: Seq<char>, value: T)
    requires
        after == before.insert(key, value),
    ensures
        after.dom().contains(key),
        after[key] == value,
        forall|k: Seq<char>| k != key ==> (#[trigger] after.dom().contains(k) == before.dom().contains(k)),
        forall|k: Seq<char>| k != key && before.dom().contains(k) ==> #[trigger] after[k] == before[k],
{
}

} // verus!
