//! A table of values keyed by name, where each name occurs once.
use vstd::prelude::*;
use crate::text::str_eq;

verus! {

/// The keys of a list of entries.
pub open spec fn keys_of<V>(es: Seq<(String, V)>) -> Seq<Seq<char>> {
    es.map_values(|e: (String, V)| e.0@)
}

/// Whether no key occurs twice.
pub open spec fn keys_unique<V>(es: Seq<(String, V)>) -> bool {
    forall|i: int, j: int| 0 <= i < j < es.len() ==> es[i].0@ != es[j].0@
}

/// The map from key to value that a list of entries with unique keys stands for.
pub open spec fn entries_map<V>(es: Seq<(String, V)>) -> Map<Seq<char>, V>
    decreases es.len(),
{
    if es.len() == 0 {
        Map::empty()
    } else {
        entries_map(es.drop_last()).insert(es.last().0@, es.last().1)
    }
}

proof fn lemma_entries_map<V>(es: Seq<(String, V)>)
    requires
        keys_unique(es),
    ensures
        forall|k: Seq<char>| #[trigger]
            entries_map(es).contains_key(k) <==> exists|i: int| 0 <= i < es.len() && es[i].0@ == k,
        forall|i: int| 0 <= i < es.len() ==> #[trigger] entries_map(es)[es[i].0@] == es[i].1,
    decreases es.len(),
{
    if es.len() > 0 {
        let d = es.drop_last();
        let l = es.last();
        assert(keys_unique(d));
        lemma_entries_map(d);
        assert(entries_map(es) == entries_map(d).insert(l.0@, l.1));
        assert forall|k: Seq<char>| #[trigger]
            entries_map(es).contains_key(k) <==> exists|i: int| 0 <= i < es.len() && es[i].0@ == k by {
            if k == l.0@ {
                assert(es[es.len() - 1].0@ == k);
            } else {
                if entries_map(es).contains_key(k) {
                    assert(entries_map(d).contains_key(k));
                    let i = choose|i: int| 0 <= i < d.len() && d[i].0@ == k;
                    assert(es[i] == d[i]);
                }
                if exists|i: int| 0 <= i < es.len() && es[i].0@ == k {
                    let i = choose|i: int| 0 <= i < es.len() && es[i].0@ == k;
                    assert(i < es.len() - 1);
                    assert(d[i] == es[i]);
                    assert(entries_map(d).contains_key(k));
                }
            }
        }
        assert forall|i: int| 0 <= i < es.len() implies #[trigger] entries_map(es)[es[i].0@]
            == es[i].1 by {
            if i < es.len() - 1 {
                assert(d[i] == es[i]);
                assert(es[i].0@ != l.0@);
                assert(entries_map(d)[d[i].0@] == d[i].1);
            }
        }
    }
}

/// Two lists with unique keys and the same entries in the same places stand for
/// the same map when one of them has one more entry at `i`.
proof fn lemma_entries_map_remove<V>(es: Seq<(String, V)>, i: int)
    requires
        keys_unique(es),
        0 <= i < es.len(),
    ensures
        entries_map(es.remove(i)) == entries_map(es).remove(es[i].0@),
{
    let r = es.remove(i);
    assert(keys_unique(r)) by {
        assert forall|a: int, b: int| 0 <= a < b < r.len() implies r[a].0@ != r[b].0@ by {
            let a2 = if a < i { a } else { a + 1 };
            let b2 = if b < i { b } else { b + 1 };
            assert(r[a] == es[a2]);
            assert(r[b] == es[b2]);
        }
    }
    lemma_entries_map(es);
    lemma_entries_map(r);
    assert(entries_map(r) =~= entries_map(es).remove(es[i].0@)) by {
        assert forall|k: Seq<char>| #[trigger] entries_map(r).contains_key(k)
            <==> entries_map(es).remove(es[i].0@).contains_key(k) by {
            if entries_map(r).contains_key(k) {
                let j = choose|j: int| 0 <= j < r.len() && r[j].0@ == k;
                let j2 = if j < i { j } else { j + 1 };
                assert(r[j] == es[j2]);
            }
            if entries_map(es).remove(es[i].0@).contains_key(k) {
                let j = choose|j: int| 0 <= j < es.len() && es[j].0@ == k;
                assert(j != i);
                let j2 = if j < i { j } else { j - 1 };
                assert(r[j2] == es[j]);
            }
        }
        assert forall|k: Seq<char>| #[trigger] entries_map(r).contains_key(k) implies entries_map(
            r,
        )[k] == entries_map(es).remove(es[i].0@)[k] by {
            let j = choose|j: int| 0 <= j < r.len() && r[j].0@ == k;
            let j2 = if j < i { j } else { j + 1 };
            assert(r[j] == es[j2]);
        }
    }
}

/// Values keyed by name. Each name occurs once; entries are in the order in
/// which they were last set.
pub struct NameTable<V> {
    entries: Vec<(String, V)>,
}

impl<V> NameTable<V> {
    #[verifier::type_invariant]
    spec fn unique(self) -> bool {
        keys_unique(self.entries@)
    }

    /// The entries, in order.
    pub closed spec fn entries(self) -> Seq<(String, V)> {
        self.entries@
    }

    /// The map from name to value.
    pub open spec fn map(self) -> Map<Seq<char>, V> {
        entries_map(self.entries())
    }

    /// An empty table.
    pub fn new() -> (r: Self)
        ensures
            r.entries() == Seq::<(String, V)>::empty(),
            r.map() == Map::<Seq<char>, V>::empty(),
    {
        NameTable { entries: Vec::new() }
    }

    /// The number of entries. Each entry's name occurs once; the names are
    /// the keys of the map, and each entry holds the map's value for its name.
    pub fn len(&self) -> (r: usize)
        ensures
            r == self.entries().len(),
            keys_of(self.entries()).no_duplicates(),
            keys_of(self.entries()).to_set() == self.map().dom(),
            forall|i: int|
                0 <= i < self.entries().len() ==> #[trigger] self.map()[self.entries()[i].0@]
                    == self.entries()[i].1,
    {
        proof {
            use_type_invariant(self);
            lemma_entries_map(self.entries@);
            let ks = keys_of(self.entries@);
            assert forall|k: Seq<char>| ks.to_set().contains(k) <==> self.map().dom().contains(k) by {
                if ks.to_set().contains(k) {
                    let i = choose|i: int| 0 <= i < ks.len() && ks[i] == k;
                    assert(self.entries@[i].0@ == k);
                }
                if self.map().dom().contains(k) {
                    let i = choose|i: int| 0 <= i < self.entries@.len() && self.entries@[i].0@ == k;
                    assert(ks[i] == k);
                    assert(ks.contains(k));
                }
            }
            assert(ks.to_set() =~= self.map().dom());
            assert forall|i: int, j: int| 0 <= i < ks.len() && 0 <= j < ks.len() && i != j implies ks[i] != ks[j] by {
                if i < j {
                    assert(self.entries@[i].0@ != self.entries@[j].0@);
                } else {
                    assert(self.entries@[j].0@ != self.entries@[i].0@);
                }
            }
        }
        self.entries.len()
    }

    /// The value at position `i`.
    pub fn value_at(&self, i: usize) -> (r: &V)
        requires
            i < self.entries().len(),
        ensures
            *r == self.entries()[i as int].1,
    {
        &self.entries[i].1
    }

    /// The name at position `i`.
    pub fn name_at(&self, i: usize) -> (r: &String)
        requires
            i < self.entries().len(),
        ensures
            *r == self.entries()[i as int].0,
    {
        &self.entries[i].0
    }

    /// The position of `key`, if it is in the table.
    fn position(&self, key: &str) -> (r: Option<usize>)
        ensures
            match r {
                Some(i) => i < self.entries().len() && self.entries()[i as int].0@ == key@,
                None => forall|i: int|
                    0 <= i < self.entries().len() ==> self.entries()[i].0@ != key@,
            },
    {
        let mut i: usize = 0;
        while i < self.entries.len()
            invariant
                i <= self.entries@.len(),
                forall|j: int| 0 <= j < i ==> self.entries@[j].0@ != key@,
            decreases self.entries@.len() - i,
        {
            if str_eq(self.entries[i].0.as_str(), key) {
                return Some(i);
            }
            i = i + 1;
        }
        None
    }

    /// The value for `key`, if it is in the table.
    pub fn get(&self, key: &str) -> (r: Option<&V>)
        ensures
            match r {
                Some(v) => self.map().contains_key(key@) && self.map()[key@] == *v,
                None => !self.map().contains_key(key@),
            },
    {
        proof {
            use_type_invariant(self);
            lemma_entries_map(self.entries@);
        }
        match self.position(key) {
            Some(i) => Some(&self.entries[i].1),
            None => None,
        }
    }

    /// Sets the value for `key`, giving back the value it had. The entry for
    /// `key` goes last.
    pub fn insert(&mut self, key: String, value: V) -> (r: Option<V>)
        ensures
            final(self).map() == old(self).map().insert(key@, value),
            final(self).entries().len() > 0 && final(self).entries().last() == (key, value),
            match r {
                Some(v) => old(self).map().contains_key(key@) && old(self).map()[key@] == v,
                None => !old(self).map().contains_key(key@),
            },
    {
        proof {
            use_type_invariant(&*self);
            lemma_entries_map(self.entries@);
        }
        match self.position(key.as_str()) {
            Some(i) => {
                let ghost es = self.entries@;
                let mut v: Vec<(String, V)> = Vec::new();
                std::mem::swap(&mut v, &mut self.entries);
                let old_entry = v.remove(i);
                proof {
                    lemma_entries_map_remove(es, i as int);
                    assert(keys_unique(v@.push((key, value)))) by {
                        let r = es.remove(i as int);
                        assert forall|a: int, b: int|
                            0 <= a < b < r.len() + 1 implies r.push((key, value))[a].0@ != r.push(
                            (key, value),
                        )[b].0@ by {
                            let a2 = if a < i { a } else { a + 1 };
                            assert(r[a] == es[a2]);
                            if b < r.len() {
                                let b2 = if b < i { b } else { b + 1 };
                                assert(r[b] == es[b2]);
                            }
                        }
                    }
                    assert(entries_map(v@.push((key, value))) =~= entries_map(es).insert(
                        key@,
                        value,
                    )) by {
                        assert(v@.push((key, value)).drop_last() == v@);
                    }
                }
                v.push((key, value));
                self.entries = v;
                Some(old_entry.1)
            },
            None => {
                proof {
                    let es = self.entries@;
                    assert(es.push((key, value)).drop_last() == es);
                    assert(keys_unique(es.push((key, value)))) by {
                        assert forall|a: int, b: int|
                            0 <= a < b < es.len() + 1 implies es.push((key, value))[a].0@ != es.push(
                            (key, value),
                        )[b].0@ by {
                            if b < es.len() {
                            } else {
                                assert(es.push((key, value))[a] == es[a]);
                                assert(self.entries()[a].0@ != key@);
                            }
                        }
                    }
                }
                let mut v: Vec<(String, V)> = Vec::new();
                std::mem::swap(&mut v, &mut self.entries);
                v.push((key, value));
                self.entries = v;
                None
            },
        }
    }

    /// Removes `key`, giving back its value.
    pub fn remove(&mut self, key: &str) -> (r: Option<V>)
        ensures
            final(self).map() == old(self).map().remove(key@),
            match r {
                Some(v) => old(self).map().contains_key(key@) && old(self).map()[key@] == v,
                None => !old(self).map().contains_key(key@),
            },
    {
        proof {
            use_type_invariant(&*self);
            lemma_entries_map(self.entries@);
        }
        match self.position(key) {
            Some(i) => {
                let ghost es = self.entries@;
                proof {
                    lemma_entries_map_remove(es, i as int);
                }
                let mut v: Vec<(String, V)> = Vec::new();
                std::mem::swap(&mut v, &mut self.entries);
                let e = v.remove(i);
                proof {
                    let r = es.remove(i as int);
                    assert(keys_unique(r)) by {
                        assert forall|a: int, b: int| 0 <= a < b < r.len() implies r[a].0@ != r[b].0@ by {
                            let a2 = if a < i { a } else { a + 1 };
                            let b2 = if b < i { b } else { b + 1 };
                            assert(r[a] == es[a2]);
                            assert(r[b] == es[b2]);
                        }
                    }
                }
                self.entries = v;
                Some(e.1)
            },
            None => {
                assert(self.map().remove(key@) =~= self.map());
                None
            },
        }
    }
}

} // verus!
