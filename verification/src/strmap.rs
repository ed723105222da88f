//! A map from strings to values that keeps its entries in insertion order.

use vstd::prelude::*;
use crate::text::str_eq;

verus! {

/// The map that a sequence of entries with distinct keys stands for.
pub open spec fn pairs_map<V>(s: Seq<(String, V)>) -> Map<Seq<char>, V>
    decreases s.len(),
{
    if s.len() == 0 {
        Map::empty()
    } else {
        pairs_map(s.drop_last()).insert(s.last().0@, s.last().1)
    }
}

/// No key occurs twice.
pub open spec fn keys_distinct<V>(s: Seq<(String, V)>) -> bool {
    forall|i: int, j: int| 0 <= i < j < s.len() ==> s[i].0@ != s[j].0@
}

/// The position of a key, when it occurs.
pub open spec fn key_index<V>(s: Seq<(String, V)>, k: Seq<char>) -> int {
    choose|i: int| 0 <= i < s.len() && s[i].0@ == k
}

/// The last position holding key `k`, or `-1`.
pub open spec fn key_pos<V>(s: Seq<(String, V)>, k: Seq<char>) -> int
    decreases s.len(),
{
    if s.len() == 0 {
        -1
    } else if s.last().0@ == k {
        s.len() - 1
    } else {
        key_pos(s.drop_last(), k)
    }
}

/// With distinct keys, `key_pos` finds the one entry holding a key.
pub proof fn lemma_key_pos<V>(s: Seq<(String, V)>, k: Seq<char>)
    ensures
        -1 <= key_pos(s, k) < s.len(),
        key_pos(s, k) >= 0 ==> s[key_pos(s, k)].0@ == k,
        key_pos(s, k) < 0 <==> !has_key(s, k),
        keys_distinct(s) ==> forall|i: int| 0 <= i < s.len() && s[i].0@ == k ==> i == key_pos(s, k),
    decreases s.len(),
{
    if s.len() > 0 {
        let init = s.drop_last();
        lemma_key_pos(init, k);
        if s.last().0@ != k {
            if has_key(s, k) {
                let i = choose|i: int| 0 <= i < s.len() && s[i].0@ == k;
                assert(init[i] == s[i]);
            }
            if has_key(init, k) {
                let i = choose|i: int| 0 <= i < init.len() && init[i].0@ == k;
                assert(init[i] == s[i]);
            }
            assert forall|i: int| 0 <= i < init.len() implies init[i] == s[i] by {}
            if keys_distinct(s) {
                assert(keys_distinct(init)) by {
                    assert forall|a: int, b: int| 0 <= a < b < init.len() implies init[a].0@ != init[b].0@ by {
                        assert(init[a] == s[a] && init[b] == s[b]);
                    }
                }
            }
        } else {
            assert(s[s.len() - 1].0@ == k);
        }
    }
}

pub open spec fn has_key<V>(s: Seq<(String, V)>, k: Seq<char>) -> bool {
    exists|i: int| 0 <= i < s.len() && s[i].0@ == k
}

/// Lookup in the map of a sequence agrees with the sequence.
pub proof fn lemma_pairs_map_lookup<V>(s: Seq<(String, V)>, k: Seq<char>)
    requires
        keys_distinct(s),
    ensures
        pairs_map(s).contains_key(k) <==> has_key(s, k),
        has_key(s, k) ==> {
            let i = key_index(s, k);
            &&& 0 <= i < s.len()
            &&& s[i].0@ == k
            &&& pairs_map(s)[k] == s[i].1
        },
    decreases s.len(),
{
    if s.len() > 0 {
        let init = s.drop_last();
        assert(keys_distinct(init)) by {
            assert forall|i: int, j: int| 0 <= i < j < init.len() implies init[i].0@ != init[j].0@ by {
                assert(init[i] == s[i] && init[j] == s[j]);
            }
        }
        lemma_pairs_map_lookup(init, k);
        if has_key(s, k) {
            let i = key_index(s, k);
            if i < s.len() - 1 {
                assert(init[i] == s[i]);
                assert(has_key(init, k));
                let i2 = key_index(init, k);
                assert(init[i2] == s[i2]);
                assert(i2 == i) by {
                    if i2 != i {
                        if i2 < i {
                            assert(s[i2].0@ != s[i].0@);
                        } else {
                            assert(s[i].0@ != s[i2].0@);
                        }
                    }
                }
                assert(s.last().0@ != k) by {
                    assert(s[i].0@ != s[s.len() - 1].0@);
                }
            }
        } else {
            if has_key(init, k) {
                let i2 = key_index(init, k);
                assert(s[i2] == init[i2]);
            }
            assert(s.last().0@ != k) by {
                if s.last().0@ == k {
                    assert(s[s.len() - 1].0@ == k);
                }
            }
        }
    }
}

proof fn lemma_keys_distinct_init<V>(s: Seq<(String, V)>)
    requires
        keys_distinct(s),
        s.len() > 0,
    ensures
        keys_distinct(s.drop_last()),
        !has_key(s.drop_last(), s.last().0@),
{
    let init = s.drop_last();
    assert forall|i: int, j: int| 0 <= i < j < init.len() implies init[i].0@ != init[j].0@ by {
        assert(init[i] == s[i] && init[j] == s[j]);
    }
    if has_key(init, s.last().0@) {
        let i = choose|i: int| 0 <= i < init.len() && init[i].0@ == s.last().0@;
        assert(s[i].0@ != s[s.len() - 1].0@);
    }
}

/// Replacing the value of an entry is inserting under its key.
pub proof fn lemma_pairs_map_update<V>(s: Seq<(String, V)>, i: int, e: (String, V))
    requires
        keys_distinct(s),
        0 <= i < s.len(),
        e.0@ == s[i].0@,
    ensures
        keys_distinct(s.update(i, e)),
        pairs_map(s.update(i, e)) == pairs_map(s).insert(e.0@, e.1),
    decreases s.len(),
{
    let t = s.update(i, e);
    assert forall|a: int, b: int| 0 <= a < b < t.len() implies t[a].0@ != t[b].0@ by {
        assert(s[a].0@ != s[b].0@);
    }
    lemma_keys_distinct_init(s);
    if i == s.len() - 1 {
        assert(t.drop_last() =~= s.drop_last());
        assert(!pairs_map(s.drop_last()).contains_key(e.0@)) by {
            lemma_pairs_map_lookup(s.drop_last(), e.0@);
        }
        assert(pairs_map(t) =~= pairs_map(s).insert(e.0@, e.1));
    } else {
        lemma_pairs_map_update(s.drop_last(), i, e);
        assert(t.drop_last() =~= s.drop_last().update(i, e));
        assert(s.last().0@ != e.0@) by {
            assert(s[i].0@ != s[s.len() - 1].0@);
        }
        assert(pairs_map(t) =~= pairs_map(s).insert(e.0@, e.1));
    }
}

/// Dropping an entry is removing its key.
pub proof fn lemma_pairs_map_remove<V>(s: Seq<(String, V)>, i: int)
    requires
        keys_distinct(s),
        0 <= i < s.len(),
    ensures
        keys_distinct(s.remove(i)),
        pairs_map(s.remove(i)) == pairs_map(s).remove(s[i].0@),
    decreases s.len(),
{
    let t = s.remove(i);
    assert forall|a: int, b: int| 0 <= a < b < t.len() implies t[a].0@ != t[b].0@ by {
        let a2 = if a < i { a } else { a + 1 };
        let b2 = if b < i { b } else { b + 1 };
        assert(t[a] == s[a2] && t[b] == s[b2]);
        assert(s[a2].0@ != s[b2].0@);
    }
    lemma_keys_distinct_init(s);
    let k = s[i].0@;
    if i == s.len() - 1 {
        assert(t =~= s.drop_last());
        lemma_pairs_map_lookup(s.drop_last(), k);
        assert(pairs_map(t) =~= pairs_map(s).remove(k));
    } else {
        lemma_pairs_map_remove(s.drop_last(), i);
        assert(t.drop_last() =~= s.drop_last().remove(i));
        assert(t.last() == s.last());
        assert(s.last().0@ != k) by {
            assert(s[i].0@ != s[s.len() - 1].0@);
        }
        assert(pairs_map(t) =~= pairs_map(s).remove(k));
    }
}

/// Appending an entry under a fresh key is inserting it.
pub proof fn lemma_pairs_map_push<V>(s: Seq<(String, V)>, e: (String, V))
    requires
        keys_distinct(s),
        !has_key(s, e.0@),
    ensures
        keys_distinct(s.push(e)),
        pairs_map(s.push(e)) == pairs_map(s).insert(e.0@, e.1),
{
    let t = s.push(e);
    assert(t.drop_last() =~= s);
    assert forall|a: int, b: int| 0 <= a < b < t.len() implies t[a].0@ != t[b].0@ by {
        if b == s.len() {
            assert(t[a] == s[a]);
        } else {
            assert(t[a] == s[a] && t[b] == s[b]);
        }
    }
}

/// Two entry sequences with the same keys in the same places stand for maps
/// with the same keys, each taking its value from the same place.
pub proof fn lemma_pairs_map_same_keys<V, W>(s: Seq<(String, V)>, t: Seq<(String, W)>)
    requires
        keys_distinct(s),
        s.len() == t.len(),
        forall|i: int| 0 <= i < s.len() ==> #[trigger] t[i].0@ == s[i].0@,
    ensures
        keys_distinct(t),
        forall|k: Seq<char>| #[trigger]
            pairs_map(t).contains_key(k) == pairs_map(s).contains_key(k),
        forall|i: int|
            0 <= i < s.len() ==> pairs_map(t)[#[trigger] s[i].0@] == t[i].1 && pairs_map(s)[s[i].0@]
                == s[i].1,
    decreases s.len(),
{
    assert forall|a: int, b: int| 0 <= a < b < t.len() implies t[a].0@ != t[b].0@ by {
        assert(s[a].0@ != s[b].0@);
    }
    if s.len() > 0 {
        let si = s.drop_last();
        let ti = t.drop_last();
        lemma_keys_distinct_init(s);
        assert forall|i: int| 0 <= i < si.len() implies #[trigger] ti[i].0@ == si[i].0@ by {
            assert(ti[i] == t[i] && si[i] == s[i]);
        }
        lemma_pairs_map_same_keys(si, ti);
        assert(t.last().0@ == s.last().0@) by {
            assert(t[t.len() - 1].0@ == s[s.len() - 1].0@);
        }
        assert forall|k: Seq<char>| #[trigger]
            pairs_map(t).contains_key(k) == pairs_map(s).contains_key(k) by {
            assert(pairs_map(ti).contains_key(k) == pairs_map(si).contains_key(k));
        }
        assert forall|i: int| 0 <= i < s.len() implies pairs_map(t)[#[trigger] s[i].0@] == t[i].1
            && pairs_map(s)[s[i].0@] == s[i].1 by {
            if i < s.len() - 1 {
                assert(si[i] == s[i] && ti[i] == t[i]);
                assert(s[i].0@ != s[s.len() - 1].0@);
            }
        }
    }
}

/// With distinct keys, the map has as many keys as there are entries.
pub proof fn lemma_pairs_map_len<V>(s: Seq<(String, V)>)
    requires
        keys_distinct(s),
    ensures
        pairs_map(s).dom().finite(),
        pairs_map(s).dom().len() == s.len(),
    decreases s.len(),
{
    if s.len() > 0 {
        lemma_keys_distinct_init(s);
        lemma_pairs_map_len(s.drop_last());
        lemma_pairs_map_lookup(s.drop_last(), s.last().0@);
    }
}

/// The elements of a vector in reverse order, so that popping yields them in order.
pub fn reversed<T>(v: Vec<T>) -> (r: Vec<T>)
    ensures
        r@.len() == v@.len(),
        forall|i: int| 0 <= i < v@.len() ==> #[trigger] r@[i] == v@[v@.len() - 1 - i],
{
    let mut src = v;
    let ghost orig = src@;
    let mut out: Vec<T> = Vec::new();
    while src.len() > 0
        invariant
            src@ == orig.take(src@.len() as int),
            out@.len() + src@.len() == orig.len(),
            forall|i: int| 0 <= i < out@.len() ==> #[trigger] out@[i] == orig[orig.len() - 1 - i],
        decreases src@.len(),
    {
        let ghost before = src@;
        let x = src.pop().unwrap();
        out.push(x);
        assert(src@ =~= orig.take(src@.len() as int));
    }
    out
}

/// A map from strings to values, with distinct keys, in insertion order.
#[derive(Debug)]
pub struct StrMap<V> {
    pub(crate) entries: Vec<(String, V)>,
}

impl<V> StrMap<V> {
    /// The entries, in order.
    pub closed spec fn pairs(&self) -> Seq<(String, V)> {
        self.entries@
    }

    /// The entries and their sequence are one and the same.
    pub(crate) proof fn lemma_pairs_entries(m: &StrMap<V>)
        ensures
            m.pairs() == m.entries@,
    {
    }

    /// Builds a map from entries whose keys are distinct.
    pub(crate) fn from_entries(entries: Vec<(String, V)>) -> (r: Self)
        requires
            keys_distinct(entries@),
        ensures
            r.pairs() == entries@,
    {
        StrMap { entries }
    }

    #[verifier::type_invariant]
    spec fn inv(&self) -> bool {
        keys_distinct(self.entries@)
    }


    pub open spec fn view(&self) -> Map<Seq<char>, V> {
        pairs_map(self.pairs())
    }

    /// The entries, in order, taking the map apart.
    pub fn into_entries(self) -> (r: Vec<(String, V)>)
        ensures
            r@ == self.pairs(),
            keys_distinct(r@),
    {
        proof { use_type_invariant(&self); }
        self.entries
    }

    pub fn new() -> (r: Self)
        ensures
            r.pairs() == Seq::<(String, V)>::empty(),
            r@ == Map::<Seq<char>, V>::empty(),
    {
        StrMap { entries: Vec::new() }
    }

    pub fn len(&self) -> (r: usize)
        ensures
            r == self.pairs().len(),
            keys_distinct(self.pairs()),
    {
        proof { use_type_invariant(self); }
        self.entries.len()
    }

    pub fn is_empty(&self) -> (r: bool)
        ensures
            r == (self.pairs().len() == 0),
    {
        self.entries.len() == 0
    }

    /// The key of entry `i`.
    pub fn key_at(&self, i: usize) -> (r: &String)
        requires
            i < self.pairs().len(),
        ensures
            *r == self.pairs()[i as int].0,
    {
        &self.entries[i].0
    }

    /// The value of entry `i`.
    pub fn value_at(&self, i: usize) -> (r: &V)
        requires
            i < self.pairs().len(),
        ensures
            *r == self.pairs()[i as int].1,
    {
        &self.entries[i].1
    }

    /// The position of key `k`, if present.
    pub fn find(&self, k: &str) -> (r: Option<usize>)
        ensures
            match r {
                Some(i) => i < self.pairs().len() && self.pairs()[i as int].0@ == k@
                    && self@.contains_key(k@),
                None => !has_key(self.pairs(), k@) && !self@.contains_key(k@),
            },
    {
        proof {
            use_type_invariant(&*self);
            lemma_pairs_map_lookup(self.pairs(), k@);
        }
        let mut i: usize = 0;
        while i < self.entries.len()
            invariant
                i <= self.entries@.len(),
                forall|j: int| 0 <= j < i ==> self.entries@[j].0@ != k@,
            decreases self.entries@.len() - i,
        {
            if str_eq(self.entries[i].0.as_str(), k) {
                proof {
                    use_type_invariant(&*self);
                    lemma_pairs_map_lookup(self.pairs(), k@);
                    assert(has_key(self.pairs(), k@));
                }
                return Some(i);
            }
            i = i + 1;
        }
        None
    }

    pub fn contains_key(&self, k: &str) -> (r: bool)
        ensures
            r == self@.contains_key(k@),
    {
        proof {
            use_type_invariant(&*self);
            lemma_pairs_map_lookup(self.pairs(), k@);
        }
        self.find(k).is_some()
    }

    pub fn get(&self, k: &str) -> (r: Option<&V>)
        ensures
            match r {
                Some(v) => self@.contains_key(k@) && *v == self@[k@],
                None => !self@.contains_key(k@),
            },
    {
        proof {
            use_type_invariant(&*self);
            lemma_pairs_map_lookup(self.pairs(), k@);
        }
        match self.find(k) {
            Some(i) => {
                proof {
                    let j = key_index(self.pairs(), k@);
                    if j != i {
                        if j < i {
                            assert(self.pairs()[j].0@ != self.pairs()[i as int].0@);
                        } else {
                            assert(self.pairs()[i as int].0@ != self.pairs()[j].0@);
                        }
                    }
                }
                Some(&self.entries[i].1)
            },
            None => None,
        }
    }

    /// The stored key equal to `k`, with its value, if present.
    pub fn get_key_value(&self, k: &str) -> (r: Option<(&String, &V)>)
        ensures
            match r {
                Some((kk, v)) => self@.contains_key(k@) && kk@ == k@ && *v == self@[k@],
                None => !self@.contains_key(k@),
            },
    {
        proof {
            use_type_invariant(&*self);
            lemma_pairs_map_lookup(self.pairs(), k@);
        }
        match self.find(k) {
            Some(i) => {
                proof {
                    let j = key_index(self.pairs(), k@);
                    if j != i {
                        if j < i {
                            assert(self.pairs()[j].0@ != self.pairs()[i as int].0@);
                        } else {
                            assert(self.pairs()[i as int].0@ != self.pairs()[j].0@);
                        }
                    }
                }
                Some((&self.entries[i].0, &self.entries[i].1))
            },
            None => None,
        }
    }

    /// The number of keys.
    pub fn key_count(&self) -> (r: usize)
        ensures
            r == self@.dom().len(),
            self@.dom().finite(),
    {
        proof {
            use_type_invariant(&*self);
            lemma_pairs_map_len(self.pairs());
        }
        self.entries.len()
    }

    /// The keys, in entry order: each key of the map exactly once.
    pub(crate) fn keys(&self) -> (r: Vec<String>)
        ensures
            r@.len() == self.pairs().len(),
            forall|i: int| 0 <= i < r@.len() ==> #[trigger] r@[i]@ == self.pairs()[i].0@,
            forall|i: int, j: int| 0 <= i < j < r@.len() ==> r@[i]@ != r@[j]@,
            forall|k: Seq<char>| self@.contains_key(k) <==> exists|i: int| 0 <= i < r@.len() && #[trigger] r@[i]@ == k,
    {
        proof {
            use_type_invariant(&*self);
        }
        let n = self.entries.len();
        let mut out: Vec<String> = Vec::new();
        let mut i: usize = 0;
        while i < n
            invariant
                n == self.pairs().len(),
                i <= n,
                out@.len() == i,
                forall|j: int| 0 <= j < i ==> #[trigger] out@[j]@ == self.pairs()[j].0@,
            decreases n - i,
        {
            out.push(self.entries[i].0.clone());
            i = i + 1;
        }
        proof {
            assert forall|k: Seq<char>| self@.contains_key(k) implies exists|i: int|
                0 <= i < out@.len() && #[trigger] out@[i]@ == k by {
                lemma_pairs_map_lookup(self.pairs(), k);
                let j = key_index(self.pairs(), k);
                assert(out@[j]@ == k);
            }
            assert forall|k: Seq<char>| (exists|i: int| 0 <= i < out@.len() && #[trigger] out@[i]@ == k) implies self@.contains_key(k) by {
                let i = choose|i: int| 0 <= i < out@.len() && #[trigger] out@[i]@ == k;
                lemma_pairs_map_lookup(self.pairs(), k);
                assert(has_key(self.pairs(), k));
            }
        }
        out
    }

    /// Inserts `v` under `k`; an existing entry keeps its place and key, a
    /// new one goes last. Returns the value it replaced.
    pub fn insert(&mut self, k: String, v: V) -> (r: Option<V>)
        ensures
            final(self)@ == old(self)@.insert(k@, v),
            match r {
                Some(o) => old(self)@.contains_key(k@) && o == old(self)@[k@],
                None => !old(self)@.contains_key(k@),
            },
            !has_key(old(self).pairs(), k@) ==> final(self).pairs() == old(self).pairs().push((k, v)),
            has_key(old(self).pairs(), k@) ==> {
                let i = key_index(old(self).pairs(), k@);
                final(self).pairs() == old(self).pairs().update(i, (old(self).pairs()[i].0, v))
            },
    {
        proof {
            use_type_invariant(&*self);
            lemma_pairs_map_lookup(self.pairs(), k@);
        }
        match self.find(k.as_str()) {
            Some(i) => {
                let ghost j = key_index(self.pairs(), k@);
                proof {
                    if j != i {
                        if j < i {
                            assert(self.pairs()[j].0@ != self.pairs()[i as int].0@);
                        } else {
                            assert(self.pairs()[i as int].0@ != self.pairs()[j].0@);
                        }
                    }
                }
                let mut val = v;
                let ghost newv = val;
                let mut entries: Vec<(String, V)> = Vec::new();
                std::mem::swap(&mut entries, &mut self.entries);
                std::mem::swap(&mut entries[i].1, &mut val);
                proof {
                    lemma_pairs_map_update(old(self).pairs(), i as int, (old(self).pairs()[i as int].0, newv));
                    assert(entries@ =~= old(self).entries@.update(i as int, (old(self).pairs()[i as int].0, newv)));
                }
                self.entries = entries;
                Some(val)
            },
            None => {
                proof { lemma_pairs_map_push(self.pairs(), (k, v)); }
                let mut entries: Vec<(String, V)> = Vec::new();
                std::mem::swap(&mut entries, &mut self.entries);
                entries.push((k, v));
                self.entries = entries;
                None
            },
        }
    }

    /// Removes the entry under `k`, if any; the others keep their order.
    pub fn remove(&mut self, k: &str) -> (r: Option<V>)
        ensures
            final(self)@ == old(self)@.remove(k@),
            match r {
                Some(o) => old(self)@.contains_key(k@) && o == old(self)@[k@],
                None => !old(self)@.contains_key(k@),
            },
            !has_key(old(self).pairs(), k@) ==> final(self).pairs() == old(self).pairs(),
            has_key(old(self).pairs(), k@) ==> final(self).pairs() == old(self).pairs().remove(
                key_index(old(self).pairs(), k@),
            ),
    {
        proof {
            use_type_invariant(&*self);
            lemma_pairs_map_lookup(self.pairs(), k@);
        }
        match self.find(k) {
            Some(i) => {
                proof {
                    let j = key_index(self.pairs(), k@);
                    if j != i {
                        if j < i {
                            assert(self.pairs()[j].0@ != self.pairs()[i as int].0@);
                        } else {
                            assert(self.pairs()[i as int].0@ != self.pairs()[j].0@);
                        }
                    }
                    lemma_pairs_map_remove(self.pairs(), i as int);
                }
                let mut entries: Vec<(String, V)> = Vec::new();
                std::mem::swap(&mut entries, &mut self.entries);
                let (_, v) = entries.remove(i);
                self.entries = entries;
                Some(v)
            },
            None => {
                proof {
                    assert(old(self)@.remove(k@) =~= old(self)@);
                }
                None
            },
        }
    }

    /// Replaces the value of entry `i`, returning the value it held.
    pub fn replace_at(&mut self, i: usize, v: V) -> (r: V)
        requires
            i < old(self).pairs().len(),
        ensures
            r == old(self).pairs()[i as int].1,
            old(self)@.contains_key(old(self).pairs()[i as int].0@),
            r == old(self)@[old(self).pairs()[i as int].0@],
            final(self).pairs().len() == old(self).pairs().len(),
            final(self).pairs() == old(self).pairs().update(i as int, (old(self).pairs()[i as int].0, v)),
            final(self)@ == old(self)@.insert(old(self).pairs()[i as int].0@, v),
    {
        proof {
            use_type_invariant(&*self);
            lemma_pairs_map_lookup(self.pairs(), self.pairs()[i as int].0@);
            let j = key_index(self.pairs(), self.pairs()[i as int].0@);
            if j != i {
                if j < i {
                    assert(self.pairs()[j].0@ != self.pairs()[i as int].0@);
                } else {
                    assert(self.pairs()[i as int].0@ != self.pairs()[j].0@);
                }
            }
        }
        let mut val = v;
        let mut entries: Vec<(String, V)> = Vec::new();
        std::mem::swap(&mut entries, &mut self.entries);
        std::mem::swap(&mut entries[i].1, &mut val);
        proof {
            lemma_pairs_map_update(old(self).pairs(), i as int, (old(self).pairs()[i as int].0, v));
            assert(entries@ =~= old(self).entries@.update(i as int, (old(self).pairs()[i as int].0, v)));
        }
        self.entries = entries;
        val
    }
}

} // verus!
