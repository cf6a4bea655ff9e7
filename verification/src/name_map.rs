//! A map keyed by names, kept as a list of entries in ascending
//! dictionary order of their keys.

use crate::order::lemma_sorted_unique;
use crate::text::{
    chars_lt, lemma_lex_irreflexive, lemma_lex_total, lemma_lex_transitive, lex_lt, to_chars,
};
use vstd::prelude::*;

verus! {

/// Whether every key comes before all the keys after it.
pub open spec fn ascending(keys: Seq<Seq<char>>) -> bool {
    forall|i: int, j: int| 0 <= i < j < keys.len() ==> lex_lt(#[trigger] keys[i], #[trigger] keys[j])
}

/// The keys of a list of entries, in order.
pub open spec fn keys_of<V>(pairs: Seq<(String, V)>) -> Seq<Seq<char>> {
    Seq::new(pairs.len(), |i: int| pairs[i].0@)
}

/// The views of the values of a list of entries, in order.
pub open spec fn vals_of<V: View>(pairs: Seq<(String, V)>) -> Seq<V::V> {
    Seq::new(pairs.len(), |i: int| pairs[i].1@)
}

/// The map that takes `keys[i]` to `vals[i]`.
pub open spec fn assoc<T>(keys: Seq<Seq<char>>, vals: Seq<T>) -> Map<Seq<char>, T> {
    Map::new(|k: Seq<char>| keys.contains(k), |k: Seq<char>| vals[keys.index_of(k)])
}

/// In an ascending list no key stands twice.
pub proof fn lemma_ascending_distinct(keys: Seq<Seq<char>>, i: int, j: int)
    requires
        ascending(keys),
        0 <= i < keys.len(),
        0 <= j < keys.len(),
        keys[i] == keys[j],
    ensures
        i == j,
{
    lemma_lex_irreflexive(keys[i]);
}

/// `assoc` of an ascending list of keys holds each key with the value at
/// its index, and nothing else.
pub proof fn lemma_assoc<T>(keys: Seq<Seq<char>>, vals: Seq<T>)
    requires
        ascending(keys),
        keys.len() == vals.len(),
    ensures
        forall|i: int|
            0 <= i < keys.len() ==> assoc(keys, vals).contains_key(#[trigger] keys[i]) && assoc(
                keys,
                vals,
            )[keys[i]] == vals[i],
        forall|k: Seq<char>| #[trigger]
            assoc(keys, vals).contains_key(k) ==> exists|i: int|
                0 <= i < keys.len() && keys[i] == k,
{
    assert forall|i: int| 0 <= i < keys.len() implies assoc(keys, vals).contains_key(
        #[trigger] keys[i],
    ) && assoc(keys, vals)[keys[i]] == vals[i] by {
        let k = keys[i];
        assert(keys.contains(k));
        lemma_ascending_distinct(keys, i, keys.index_of(k));
    }
}

/// The keys of `m` in ascending order.
pub open spec fn sorted_keys<T>(m: Map<Seq<char>, T>) -> Seq<Seq<char>> {
    choose|s: Seq<Seq<char>>| ascending(s) && forall|k: Seq<char>| s.contains(k) <==> m.contains_key(k)
}

/// An ascending list is the only ascending list of its keys.
pub proof fn lemma_ascending_unique(a: Seq<Seq<char>>, b: Seq<Seq<char>>)
    requires
        ascending(a),
        ascending(b),
        forall|k: Seq<char>| a.contains(k) <==> b.contains(k),
    ensures
        a == b,
{
    let lt = |x: Seq<char>, y: Seq<char>| lex_lt(x, y);
    assert forall|x: Seq<char>, y: Seq<char>| !(#[trigger] lt(x, y) && lt(y, x)) by {
        lemma_lex_total(x, y);
    }
    lemma_sorted_unique(a, b, lt);
}

/// The keys and values of an ascending list are those of its map, in
/// the ascending order of the keys.
pub proof fn lemma_assoc_sorted<T>(keys: Seq<Seq<char>>, vals: Seq<T>)
    requires
        ascending(keys),
        keys.len() == vals.len(),
    ensures
        sorted_keys(assoc(keys, vals)) == keys,
        forall|i: int| 0 <= i < keys.len() ==> assoc(keys, vals)[#[trigger] keys[i]] == vals[i],
{
    let m = assoc(keys, vals);
    lemma_assoc(keys, vals);
    assert forall|k: Seq<char>| keys.contains(k) <==> m.contains_key(k) by {}
    let s = sorted_keys(m);
    assert(ascending(s) && forall|k: Seq<char>| s.contains(k) <==> m.contains_key(k));
    lemma_ascending_unique(s, keys);
}

/// A map from names to values of `V`.
#[derive(Debug, PartialEq, Eq)]
pub struct NameMap<V> {
    entries: Vec<(String, V)>,
}

impl<V> NameMap<V> {
    /// The entries, in order.
    pub closed spec fn pairs(&self) -> Seq<(String, V)> {
        self.entries@
    }

    /// The keys, in order.
    pub open spec fn keys(&self) -> Seq<Seq<char>> {
        keys_of(self.pairs())
    }

    /// The keys are in ascending order: this holds of every map that
    /// executable code can hold.
    #[verifier::type_invariant]
    pub open spec fn wf(&self) -> bool {
        ascending(self.keys())
    }

    /// A map that holds nothing.
    pub fn new() -> (m: Self)
        ensures
            m.pairs() == Seq::<(String, V)>::empty(),
    {
        NameMap { entries: Vec::new() }
    }

    /// How many keys the map holds.
    pub fn len(&self) -> (n: usize)
        ensures
            n == self.pairs().len(),
            self.wf(),
    {
        proof {
            use_type_invariant(self);
        }
        self.entries.len()
    }

    /// The entry at index `i` in ascending order of the keys.
    pub fn entry(&self, i: usize) -> (r: Option<(&String, &V)>)
        ensures
            self.wf(),
            match r {
                Some((k, v)) => i < self.pairs().len() && *k == self.pairs()[i as int].0 && *v
                    == self.pairs()[i as int].1,
                None => i >= self.pairs().len(),
            },
    {
        proof {
            use_type_invariant(self);
        }
        if i < self.entries.len() {
            Some((&self.entries[i].0, &self.entries[i].1))
        } else {
            None
        }
    }

    /// The index at which `key` stands, or else the index at which it
    /// would have to be put.
    pub fn position(&self, key: &str) -> (r: Result<usize, usize>)
        ensures
            self.wf(),
            match r {
                Ok(i) => i < self.keys().len() && self.keys()[i as int] == key@,
                Err(i) => i <= self.keys().len() && !self.keys().contains(key@) && (forall|j: int|
                    0 <= j < i ==> lex_lt(#[trigger] self.keys()[j], key@)) && (forall|j: int|
                    i <= j < self.keys().len() ==> lex_lt(key@, #[trigger] self.keys()[j])),
            },
    {
        proof {
            use_type_invariant(self);
        }
        let ghost keys = self.keys();
        let needle = to_chars(key);
        let mut lo: usize = 0;
        let mut hi: usize = self.entries.len();
        while lo < hi
            invariant
                lo <= hi <= self.entries.len(),
                keys == keys_of(self.entries@),
                ascending(keys),
                needle@ == key@,
                forall|j: int| 0 <= j < lo ==> lex_lt(#[trigger] keys[j], key@),
                forall|j: int| hi <= j < keys.len() ==> lex_lt(key@, #[trigger] keys[j]),
            decreases hi - lo,
        {
            let mid = lo + (hi - lo) / 2;
            let held = to_chars(self.entries[mid].0.as_str());
            assert(held@ == keys[mid as int]);
            if chars_lt(held.as_slice(), needle.as_slice()) {
                proof {
                    assert forall|j: int| 0 <= j < mid + 1 implies lex_lt(
                        #[trigger] keys[j],
                        key@,
                    ) by {
                        if j < mid {
                            lemma_lex_transitive(keys[j], keys[mid as int], key@);
                        }
                    }
                }
                lo = mid + 1;
            } else if chars_lt(needle.as_slice(), held.as_slice()) {
                proof {
                    assert forall|j: int| mid <= j < keys.len() implies lex_lt(
                        key@,
                        #[trigger] keys[j],
                    ) by {
                        if j > mid {
                            lemma_lex_transitive(key@, keys[mid as int], keys[j]);
                        }
                    }
                }
                hi = mid;
            } else {
                proof {
                    lemma_lex_total(held@, key@);
                }
                return Ok(mid);
            }
        }
        proof {
            assert forall|j: int| 0 <= j < keys.len() implies keys[j] != key@ by {
                lemma_lex_irreflexive(key@);
            }
        }
        Err(lo)
    }
}

impl<V: View> View for NameMap<V> {
    type V = Map<Seq<char>, V::V>;

    /// The map from each key to the view of its value.
    open spec fn view(&self) -> Map<Seq<char>, V::V> {
        assoc(self.keys(), self.vals())
    }
}

impl<V: View> NameMap<V> {
    /// The views of the values, in the order of their keys.
    pub open spec fn vals(&self) -> Seq<V::V> {
        vals_of(self.pairs())
    }

    /// The keys and values of the map are those of its view, in the
    /// ascending order of the keys: maps with the same view hold the
    /// same entries in the same order.
    pub proof fn lemma_canonical(&self)
        requires
            self.wf(),
        ensures
            self.keys() == sorted_keys(self@),
            self.vals().len() == self.keys().len(),
            forall|i: int|
                0 <= i < self.keys().len() ==> self@.contains_key(#[trigger] self.keys()[i])
                    && self@[self.keys()[i]] == self.vals()[i],
    {
        lemma_assoc(self.keys(), self.vals());
        lemma_assoc_sorted(self.keys(), self.vals());
    }

    /// The value that `key` stands for.
    pub fn get(&self, key: &str) -> (r: Option<&V>)
        ensures
            match r {
                Some(v) => self@.contains_key(key@) && self@[key@] == v@,
                None => !self@.contains_key(key@),
            },
    {
        proof {
            use_type_invariant(self);
            lemma_assoc(self.keys(), self.vals());
        }
        match self.position(key) {
            Ok(i) => {
                assert(self.vals()[i as int] == self.entries@[i as int].1@);
                Some(&self.entries[i].1)
            },
            Err(_) => None,
        }
    }

    /// Puts `value` under `key`, in place of what stood there.
    pub fn insert(&mut self, key: String, value: V)
        ensures
            final(self)@ == old(self)@.insert(key@, value@),
            final(self).keys().len() == old(self).keys().len() + if old(self)@.contains_key(key@) {
                0int
            } else {
                1int
            },
    {
        proof {
            use_type_invariant(&*self);
        }
        let ghost before = self.entries@;
        let ghost k = key@;
        let ghost v = value@;
        proof {
            lemma_assoc(keys_of(before), vals_of(before));
        }
        match self.position(key.as_str()) {
            Ok(i) => {
                proof {
                    let after = before.update(i as int, (key, value));
                    assert(keys_of(after) =~= keys_of(before));
                    assert(vals_of(after) =~= vals_of(before).update(i as int, v));
                    lemma_assoc(keys_of(before), vals_of(before));
                    lemma_assoc(keys_of(after), vals_of(after));
                    assert(assoc(keys_of(after), vals_of(after)) =~= assoc(
                        keys_of(before),
                        vals_of(before),
                    ).insert(k, v)) by {
                        lemma_update_assoc(keys_of(before), vals_of(before), i as int, v);
                    }
                }
                let mut entries: Vec<(String, V)> = Vec::new();
                assert(keys_of(entries@) =~= Seq::<Seq<char>>::empty());
                core::mem::swap(&mut self.entries, &mut entries);
                entries[i] = (key, value);
                self.entries = entries;
            },
            Err(i) => {
                proof {
                    let after = before.insert(i as int, (key, value));
                    assert(keys_of(after) =~= keys_of(before).insert(i as int, k));
                    assert(vals_of(after) =~= vals_of(before).insert(i as int, v));
                    lemma_insert_assoc(keys_of(before), vals_of(before), i as int, k, v);
                }
                let mut entries: Vec<(String, V)> = Vec::new();
                assert(keys_of(entries@) =~= Seq::<Seq<char>>::empty());
                core::mem::swap(&mut self.entries, &mut entries);
                entries.insert(i, (key, value));
                self.entries = entries;
            },
        }
    }

    /// Takes `key` out of the map, with the value that it stood for.
    pub fn take(&mut self, key: &str) -> (r: Option<V>)
        ensures
            final(self)@ == old(self)@.remove(key@),
            match r {
                Some(v) => old(self)@.contains_key(key@) && old(self)@[key@] == v@,
                None => !old(self)@.contains_key(key@),
            },
    {
        proof {
            use_type_invariant(&*self);
            lemma_assoc(self.keys(), self.vals());
        }
        let ghost before = self.entries@;
        match self.position(key) {
            Ok(i) => {
                proof {
                    let after = before.remove(i as int);
                    assert(keys_of(after) =~= keys_of(before).remove(i as int));
                    assert(vals_of(after) =~= vals_of(before).remove(i as int));
                    lemma_remove_assoc(keys_of(before), vals_of(before), i as int);
                }
                let mut entries: Vec<(String, V)> = Vec::new();
                assert(keys_of(entries@) =~= Seq::<Seq<char>>::empty());
                core::mem::swap(&mut self.entries, &mut entries);
                let taken = entries.remove(i);
                self.entries = entries;
                Some(taken.1)
            },
            Err(_) => {
                assert(self@.remove(key@) =~= self@);
                None
            },
        }
    }
}

/// Taking out the entry at index `i` keeps the list ascending and takes
/// its key out of the map.
pub proof fn lemma_remove_assoc<T>(keys: Seq<Seq<char>>, vals: Seq<T>, i: int)
    requires
        ascending(keys),
        keys.len() == vals.len(),
        0 <= i < keys.len(),
    ensures
        ascending(keys.remove(i)),
        assoc(keys.remove(i), vals.remove(i)) == assoc(keys, vals).remove(keys[i]),
{
    let keys2 = keys.remove(i);
    let vals2 = vals.remove(i);
    assert forall|x: int, y: int| 0 <= x < y < keys2.len() implies lex_lt(
        #[trigger] keys2[x],
        #[trigger] keys2[y],
    ) by {
        let x0 = if x < i { x } else { x + 1 };
        let y0 = if y < i { y } else { y + 1 };
        assert(keys2[x] == keys[x0] && keys2[y] == keys[y0]);
    }
    let a = assoc(keys2, vals2);
    let b = assoc(keys, vals).remove(keys[i]);
    lemma_assoc(keys, vals);
    lemma_assoc(keys2, vals2);
    assert forall|q: Seq<char>| a.contains_key(q) <==> b.contains_key(q) by {
        if a.contains_key(q) {
            let j = choose|j: int| 0 <= j < keys2.len() && keys2[j] == q;
            let j0 = if j < i { j } else { j + 1 };
            assert(keys[j0] == q);
            lemma_lex_irreflexive(q);
        }
        if b.contains_key(q) {
            let j = choose|j: int| 0 <= j < keys.len() && keys[j] == q;
            if j < i {
                assert(keys2[j] == q);
            } else {
                assert(keys2[j - 1] == q);
            }
        }
    }
    assert forall|q: Seq<char>| a.contains_key(q) implies #[trigger] a[q] == b[q] by {
        let j = choose|j: int| 0 <= j < keys2.len() && keys2[j] == q;
        assert(a[keys2[j]] == vals2[j]);
        let j0 = if j < i { j } else { j + 1 };
        assert(keys[j0] == q);
        assert(assoc(keys, vals)[keys[j0]] == vals[j0]);
    }
    assert(a.dom() =~= b.dom());
    assert(a =~= b);
}

/// Replacing the value at index `i` is putting it under the key at `i`.
pub proof fn lemma_update_assoc<T>(keys: Seq<Seq<char>>, vals: Seq<T>, i: int, v: T)
    requires
        ascending(keys),
        keys.len() == vals.len(),
        0 <= i < keys.len(),
    ensures
        assoc(keys, vals.update(i, v)) == assoc(keys, vals).insert(keys[i], v),
{
    let a = assoc(keys, vals.update(i, v));
    let b = assoc(keys, vals).insert(keys[i], v);
    lemma_assoc(keys, vals);
    lemma_assoc(keys, vals.update(i, v));
    assert forall|k: Seq<char>| a.contains_key(k) implies #[trigger] a[k] == b[k] by {
        let j = choose|j: int| 0 <= j < keys.len() && keys[j] == k;
        assert(a[keys[j]] == vals.update(i, v)[j]);
        assert(assoc(keys, vals)[keys[j]] == vals[j]);
    }
    assert(a.dom() =~= b.dom()) by {
        assert(keys.contains(keys[i]));
    }
    assert(a =~= b);
}

/// Putting a new key at its place in an ascending list keeps the list
/// ascending and adds the key, with its value, to the map.
pub proof fn lemma_insert_assoc<T>(keys: Seq<Seq<char>>, vals: Seq<T>, i: int, k: Seq<char>, v: T)
    requires
        ascending(keys),
        keys.len() == vals.len(),
        0 <= i <= keys.len(),
        forall|j: int| 0 <= j < i ==> lex_lt(#[trigger] keys[j], k),
        forall|j: int| i <= j < keys.len() ==> lex_lt(k, #[trigger] keys[j]),
    ensures
        ascending(keys.insert(i, k)),
        assoc(keys.insert(i, k), vals.insert(i, v)) == assoc(keys, vals).insert(k, v),
{
    let keys2 = keys.insert(i, k);
    let vals2 = vals.insert(i, v);
    assert forall|x: int, y: int| 0 <= x < y < keys2.len() implies lex_lt(
        #[trigger] keys2[x],
        #[trigger] keys2[y],
    ) by {
        if x < i && y > i {
            lemma_lex_transitive(keys[x], k, keys[y - 1]);
        }
    }
    let a = assoc(keys2, vals2);
    let b = assoc(keys, vals).insert(k, v);
    lemma_assoc(keys, vals);
    lemma_assoc(keys2, vals2);
    assert(keys2[i] == k);
    assert forall|q: Seq<char>| a.contains_key(q) <==> b.contains_key(q) by {
        if a.contains_key(q) {
            let j = choose|j: int| 0 <= j < keys2.len() && keys2[j] == q;
            if j < i {
                assert(keys[j] == q);
            } else if j > i {
                assert(keys[j - 1] == q);
            }
        }
        if b.contains_key(q) && q != k {
            let j = choose|j: int| 0 <= j < keys.len() && keys[j] == q;
            if j < i {
                assert(keys2[j] == q);
            } else {
                assert(keys2[j + 1] == q);
            }
        }
    }
    assert forall|q: Seq<char>| a.contains_key(q) implies #[trigger] a[q] == b[q] by {
        let j = choose|j: int| 0 <= j < keys2.len() && keys2[j] == q;
        assert(a[keys2[j]] == vals2[j]);
        if j < i {
            assert(keys[j] == q);
            assert(assoc(keys, vals)[keys[j]] == vals[j]);
        } else if j > i {
            assert(keys[j - 1] == q);
            assert(assoc(keys, vals)[keys[j - 1]] == vals[j - 1]);
        }
    }
    assert(a.dom() =~= b.dom());
    assert(a =~= b);
}

} // verus!
