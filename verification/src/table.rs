//! An ordered table keyed by text: at most one value per key, keys in ascending order.
//!
//! The table is modelled by the map `t@` from key to value and by `t.order()`, the ascending list
//! of its keys.

use vstd::prelude::*;

use crate::text::str_precedes;

verus! {

/// The texts of `s` are strictly ascending.
pub open spec fn ascending(s: Seq<Seq<char>>) -> bool {
    forall|i: int, j: int|
        0 <= i < j < s.len() ==> crate::text::precedes(#[trigger] s[i], #[trigger] s[j])
}

/// A map from text to `V`, walked in ascending order of its keys.
#[derive(Debug, PartialEq, Eq)]
pub struct Table<V> {
    keys: Vec<String>,
    values: Vec<V>,
}

impl<V> View for Table<V> {
    type V = Map<Seq<char>, V>;

    closed spec fn view(&self) -> Map<Seq<char>, V> {
        Map::new(
            |k: Seq<char>| self.order().contains(k),
            |k: Seq<char>| self.values@[self.order().index_of(k)],
        )
    }
}

impl<V> Table<V> {
    /// One value per key, and the keys strictly ascending.
    #[verifier::type_invariant]
    pub closed spec fn well_formed(self) -> bool {
        &&& self.keys@.len() == self.values@.len()
        &&& ascending(self.order())
    }

    /// The keys, ascending.
    pub closed spec fn order(self) -> Seq<Seq<char>> {
        crate::text::texts(self.keys@)
    }

    /// The order lists every key once, ascending.
    pub proof fn lemma_order(self)
        requires
            self.well_formed(),
        ensures
            ascending(self.order()),
            self.order().no_duplicates(),
            self.order().to_set() == self@.dom(),
            forall|k: Seq<char>| #[trigger] self.order().contains(k) <==> self@.contains_key(k),
            forall|i: int|
                0 <= i < self.order().len() ==> self@.contains_key(#[trigger] self.order()[i]),
    {
        let s = self.order();
        assert forall|i: int, j: int| 0 <= i < s.len() && 0 <= j < s.len() && i != j implies s[i]
            != s[j] by {
            if i < j {
                crate::text::lemma_precedes_asymmetric(s[i], s[j]);
            } else {
                crate::text::lemma_precedes_asymmetric(s[j], s[i]);
            }
        }
        assert(s.to_set() =~= self@.dom());
    }

    /// The value found under the key at place `i`.
    proof fn lemma_value_at(self, i: int)
        requires
            self.well_formed(),
            0 <= i < self.order().len(),
        ensures
            self@.contains_key(self.order()[i]),
            self@[self.order()[i]] == self.values@[i],
    {
        self.lemma_order();
        let k = self.order()[i];
        let j = self.order().index_of(k);
        assert(0 <= j < self.order().len() && self.order()[j] == k);
        assert(i == j);
    }

    /// A table is determined by its keys and the values at their places.
    proof fn lemma_view_is(self, m: Map<Seq<char>, V>)
        requires
            self.well_formed(),
            self.order().to_set() == m.dom(),
            forall|i: int|
                0 <= i < self.order().len() ==> self.values@[i] == m[#[trigger] self.order()[i]],
        ensures
            self@ == m,
    {
        self.lemma_order();
        assert forall|k: Seq<char>| self@.contains_key(k) implies #[trigger] self@[k] == m[k] by {
            let i = self.order().index_of(k);
            assert(self.order().contains(k));
            assert(self.order()[i] == k);
            self.lemma_value_at(i);
        }
        assert(self@ =~= m);
    }

    /// An empty table.
    pub fn new() -> (r: Self)
        ensures
            r@ == Map::<Seq<char>, V>::empty(),
            r.order() == Seq::<Seq<char>>::empty(),
    {
        let r = Table { keys: Vec::new(), values: Vec::new() };
        assert(r.order() =~= Seq::<Seq<char>>::empty());
        assert(r@ =~= Map::<Seq<char>, V>::empty());
        r
    }

    /// The number of keys.
    pub fn len(&self) -> (r: usize)
        ensures
            r == self@.dom().len(),
            r == self.order().len(),
    {
        proof {
            use_type_invariant(self);
            self.lemma_order();
            self.order().unique_seq_to_set();
        }
        self.keys.len()
    }

    /// Whether the table has no key.
    pub fn is_empty(&self) -> (r: bool)
        ensures
            r == (self@ == Map::<Seq<char>, V>::empty()),
            r == (self.order().len() == 0),
    {
        proof {
            use_type_invariant(self);
            self.lemma_order();
            if self.order().len() == 0 {
                assert(self@ =~= Map::<Seq<char>, V>::empty());
            } else {
                assert(self@.contains_key(self.order()[0]));
            }
        }
        self.keys.len() == 0
    }

    /// The place of `key`, or the place at which it would be inserted.
    fn locate(&self, key: &str) -> (r: Result<usize, usize>)
        ensures
            match r {
                Ok(i) => i < self.order().len() && self.order()[i as int] == key@,
                Err(i) => {
                    &&& i <= self.order().len()
                    &&& forall|j: int|
                        0 <= j < i ==> crate::text::precedes(#[trigger] self.order()[j], key@)
                    &&& forall|j: int|
                        i <= j < self.order().len() ==> crate::text::precedes(
                            key@,
                            #[trigger] self.order()[j],
                        )
                },
            },
            r is Ok <==> self@.contains_key(key@),
    {
        proof {
            use_type_invariant(self);
            self.lemma_order();
        }
        let ghost s = self.order();
        let mut lo: usize = 0;
        let mut hi: usize = self.keys.len();
        while lo < hi
            invariant
                s == self.order(),
                s.len() == self.keys@.len(),
                ascending(s),
                lo <= hi <= s.len(),
                forall|k: Seq<char>| #[trigger] s.contains(k) <==> self@.contains_key(k),
                forall|j: int| 0 <= j < lo ==> crate::text::precedes(#[trigger] s[j], key@),
                forall|j: int| hi <= j < s.len() ==> crate::text::precedes(key@, #[trigger] s[j]),
            decreases hi - lo,
        {
            let mid: usize = lo + (hi - lo) / 2;
            let probe = self.keys[mid].as_str();
            assert(probe@ == s[mid as int]);
            if str_precedes(probe, key) {
                proof {
                    assert forall|j: int| 0 <= j < mid implies crate::text::precedes(
                        #[trigger] s[j],
                        key@,
                    ) by {
                        crate::text::lemma_precedes_transitive(s[j], s[mid as int], key@);
                    }
                }
                lo = mid + 1;
            } else if str_precedes(key, probe) {
                proof {
                    assert forall|j: int| mid < j < s.len() implies crate::text::precedes(
                        key@,
                        #[trigger] s[j],
                    ) by {
                        crate::text::lemma_precedes_transitive(key@, s[mid as int], s[j]);
                    }
                }
                hi = mid;
            } else {
                proof {
                    crate::text::lemma_precedes_total(probe@, key@);
                    assert(s.contains(s[mid as int]));
                }
                return Ok(mid);
            }
        }
        proof {
            if s.contains(key@) {
                let j = s.index_of(key@);
                assert(s[j] == key@);
                crate::text::lemma_precedes_irreflexive(key@);
            }
        }
        Err(lo)
    }

    /// Whether `key` has a value.
    pub fn contains_key(&self, key: &str) -> (r: bool)
        ensures
            r == self@.contains_key(key@),
    {
        self.locate(key).is_ok()
    }

    /// The value of `key`, if it has one.
    pub fn get(&self, key: &str) -> (r: Option<&V>)
        ensures
            match r {
                Some(v) => self@.contains_key(key@) && *v == self@[key@],
                None => !self@.contains_key(key@),
            },
    {
        match self.locate(key) {
            Ok(i) => {
                proof {
                    use_type_invariant(self);
                    self.lemma_value_at(i as int);
                }
                Some(&self.values[i])
            },
            Err(_) => None,
        }
    }

    /// The value of `key` for change in place. Keys cannot change through it.
    pub fn get_mut(&mut self, key: &str) -> (r: Option<&mut V>)
        ensures
            match r {
                Some(v) => {
                    &&& old(self)@.contains_key(key@)
                    &&& *v == old(self)@[key@]
                    &&& final(self)@ == old(self)@.insert(key@, *final(v))
                    &&& final(self).order() == old(self).order()
                },
                None => {
                    &&& !old(self)@.contains_key(key@)
                    &&& *final(self) == *old(self)
                },
            },
    {
        match self.locate(key) {
            Ok(i) => {
                proof {
                    use_type_invariant(&*self);
                    self.lemma_order();
                    self.lemma_value_at(i as int);
                    lemma_update_at(*self, i as int);
                }
                Some(&mut self.values[i])
            },
            Err(_) => None,
        }
    }

    /// Gives `key` the value `value`; the value that it had before is handed back.
    pub fn insert(&mut self, key: String, value: V) -> (r: Option<V>)
        ensures
            final(self)@ == old(self)@.insert(key@, value),
            match r {
                Some(v) => old(self)@.contains_key(key@) && v == old(self)@[key@],
                None => !old(self)@.contains_key(key@),
            },
    {
        let mut taken: Table<V> = Table::new();
        std::mem::swap(self, &mut taken);
        let place = taken.locate(key.as_str());
        proof {
            use_type_invariant(&taken);
            taken.lemma_order();
        }
        let ghost before = taken;
        let ghost s = taken.order();
        let Table { keys: mut keys, values: mut values } = taken;
        match place {
            Ok(i) => {
                let mut value = value;
                let ghost new_value = value;
                proof {
                    before.lemma_value_at(i as int);
                }
                std::mem::swap(&mut values[i], &mut value);
                *self = Table { keys, values };
                proof {
                    assert(self.order() =~= s);
                    lemma_update_at(before, i as int);
                }
                Some(value)
            },
            Err(i) => {
                let ghost text = key@;
                keys.insert(i, key);
                values.insert(i, value);
                proof {
                    assert(crate::text::texts(keys@) =~= s.insert(i as int, text));
                    lemma_insert_ascending(s, i as int, text);
                }
                *self = Table { keys, values };
                proof {
                    let m = before@.insert(text, value);
                    assert forall|k: Seq<char>| self.order().to_set().contains(k) <==> m.dom().contains(
                        k,
                    ) by {
                        lemma_insert_contains(s, i as int, text, k);
                        assert(s.contains(k) <==> before@.contains_key(k));
                    }
                    assert(self.order().to_set() =~= m.dom());
                    assert forall|j: int| 0 <= j < self.order().len() implies self.values@[j]
                        == m[#[trigger] self.order()[j]] by {
                        if j < i {
                            before.lemma_value_at(j);
                            assert(self.order()[j] == s[j]);
                        } else if j > i {
                            before.lemma_value_at(j - 1);
                            assert(self.order()[j] == s[j - 1]);
                        }
                    }
                    self.lemma_view_is(m);
                }
                None
            },
        }
    }

    /// Drops `key`; the value that it had is handed back.
    pub fn remove(&mut self, key: &str) -> (r: Option<V>)
        ensures
            final(self)@ == old(self)@.remove(key@),
            match r {
                Some(v) => old(self)@.contains_key(key@) && v == old(self)@[key@],
                None => !old(self)@.contains_key(key@),
            },
    {
        match self.locate(key) {
            Err(_) => {
                assert(self@.remove(key@) =~= self@);
                None
            },
            Ok(i) => {
                let mut taken: Table<V> = Table::new();
                std::mem::swap(self, &mut taken);
                proof {
                    use_type_invariant(&taken);
                    taken.lemma_order();
                    taken.lemma_value_at(i as int);
                }
                let ghost before = taken;
                let ghost s = taken.order();
                let Table { keys: mut keys, values: mut values } = taken;
                keys.remove(i);
                let value = values.remove(i);
                assert(crate::text::texts(keys@) =~= s.remove(i as int));
                *self = Table { keys, values };
                proof {
                    let m = before@.remove(key@);
                    assert forall|k: Seq<char>| self.order().to_set().contains(k) <==> m.dom().contains(
                        k,
                    ) by {
                        lemma_remove_contains(s, i as int, k);
                        assert(s.contains(k) <==> before@.contains_key(k));
                    }
                    assert(self.order().to_set() =~= m.dom());
                    assert forall|j: int| 0 <= j < self.order().len() implies self.values@[j]
                        == m[#[trigger] self.order()[j]] by {
                        let place = if j < i { j } else { j + 1 };
                        before.lemma_value_at(place);
                        assert(self.order()[j] == s[place]);
                    }
                    self.lemma_view_is(m);
                }
                Some(value)
            },
        }
    }

    /// The keys, ascending.
    pub fn keys(&self) -> (r: Vec<String>)
        ensures
            crate::text::texts(r@) == self.order(),
            ascending(self.order()),
            self.order().to_set() == self@.dom(),
    {
        proof {
            use_type_invariant(self);
            self.lemma_order();
        }
        crate::text::clone_strings(self.keys.as_slice())
    }

    /// The key at place `i` of the order.
    pub fn key_at(&self, i: usize) -> (r: &String)
        requires
            i < self.order().len(),
        ensures
            r@ == self.order()[i as int],
    {
        &self.keys[i]
    }

    /// The value of the key at place `i` of the order.
    pub fn value_at(&self, i: usize) -> (r: &V)
        requires
            i < self.order().len(),
        ensures
            *r == self@[self.order()[i as int]],
    {
        proof {
            use_type_invariant(self);
            self.lemma_value_at(i as int);
        }
        &self.values[i]
    }
}

impl<V> Default for Table<V> {
    fn default() -> (r: Self)
        ensures
            r@ == Map::<Seq<char>, V>::empty(),
    {
        Table::new()
    }
}

impl<V: Clone> Clone for Table<V> {
    fn clone(&self) -> (r: Self)
        ensures
            r.order() == self.order(),
            r@.dom() == self@.dom(),
            forall|k: Seq<char>| #[trigger] r@.contains_key(k) ==> cloned(self@[k], r@[k]),
    {
        proof {
            use_type_invariant(self);
            self.lemma_order();
        }
        let keys = crate::text::clone_strings(self.keys.as_slice());
        let values = self.values.clone();
        let r = Table { keys, values };
        proof {
            r.lemma_order();
            assert forall|k: Seq<char>| #[trigger] r@.contains_key(k) implies cloned(
                self@[k],
                r@[k],
            ) by {
                assert(r.order().contains(k));
                let i = r.order().index_of(k);
                r.lemma_value_at(i);
                self.lemma_value_at(i);
            }
        }
        r
    }
}

/// Changing the value at one place changes the map at that key only.
proof fn lemma_update_at<V>(t: Table<V>, i: int)
    requires
        t.well_formed(),
        0 <= i < t.order().len(),
    ensures
        forall|u: Table<V>, v: V|
            u.order() == t.order() && #[trigger] u.values@ == #[trigger] t.values@.update(i, v)
                ==> u@ == t@.insert(t.order()[i], v),
{
    t.lemma_order();
    assert forall|u: Table<V>, v: V|
        u.order() == t.order() && #[trigger] u.values@ == #[trigger] t.values@.update(
            i,
            v,
        ) implies u@ == t@.insert(t.order()[i], v) by {
        let m = t@.insert(t.order()[i], v);
        assert(t.order().contains(t.order()[i]));
        assert(u.order().to_set() =~= m.dom());
        assert forall|j: int| 0 <= j < u.order().len() implies u.values@[j] == m[#[trigger] u.order()[j]] by {
            t.lemma_value_at(j);
        }
        u.lemma_view_is(m);
    }
}

/// A text put between smaller and greater ones keeps the list ascending.
proof fn lemma_insert_ascending(s: Seq<Seq<char>>, i: int, x: Seq<char>)
    requires
        ascending(s),
        0 <= i <= s.len(),
        forall|j: int| 0 <= j < i ==> crate::text::precedes(#[trigger] s[j], x),
        forall|j: int| i <= j < s.len() ==> crate::text::precedes(x, #[trigger] s[j]),
    ensures
        ascending(s.insert(i, x)),
{
    let t = s.insert(i, x);
    assert forall|a: int, b: int| 0 <= a < b < t.len() implies crate::text::precedes(
        #[trigger] t[a],
        #[trigger] t[b],
    ) by {
        let from = if a < i { a } else { a - 1 };
        let to = if b < i { b } else { b - 1 };
        if a != i {
            assert(t[a] == s[from]);
        }
        if b != i {
            assert(t[b] == s[to]);
        }
    }
}

/// A sequence with an element put in holds that element and what it held before.
pub proof fn lemma_insert_contains<A>(s: Seq<A>, i: int, x: A, k: A)
    requires
        0 <= i <= s.len(),
    ensures
        s.insert(i, x).contains(k) <==> s.contains(k) || k == x,
{
    let t = s.insert(i, x);
    if s.contains(k) {
        let j = s.index_of(k);
        assert(t[if j < i { j } else { j + 1 }] == k);
    }
    assert(t[i] == x);
    if t.contains(k) && k != x {
        let j = t.index_of(k);
        assert(s[if j < i { j } else { j - 1 }] == k);
    }
}

proof fn lemma_remove_contains(s: Seq<Seq<char>>, i: int, k: Seq<char>)
    requires
        s.no_duplicates(),
        0 <= i < s.len(),
    ensures
        s.remove(i).contains(k) <==> s.contains(k) && k != s[i],
{
    let t = s.remove(i);
    if s.contains(k) && k != s[i] {
        let j = s.index_of(k);
        assert(t[if j < i { j } else { j - 1 }] == k);
    }
    if t.contains(k) {
        let j = t.index_of(k);
        assert(s[if j < i { j } else { j + 1 }] == k);
    }
}

/// Identifiers ascend if each comes before all that stand behind it; so none stands twice.
pub proof fn law_ascending_lists_do_not_repeat(s: Seq<Seq<char>>, i: int, j: int)
    requires
        ascending(s),
        0 <= i < j < s.len(),
    ensures
        crate::text::precedes(s[i], s[j]),
        s[i] != s[j],
{
    crate::text::lemma_precedes_asymmetric(s[i], s[j]);
}

} // verus!
