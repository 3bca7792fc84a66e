//! A small map from text keys to values that keeps its entries in the order in
//! which their keys were first inserted; inserting a key again replaces its value.
use vstd::prelude::*;

use crate::text::same_text;
use crate::utils::Cookie;

verus! {

#[derive(Debug)]
pub struct Table<V> {
    entries: Vec<(String, V)>,
}

/// The index of the last entry with key `k`, or -1.
pub open spec fn key_index<V>(es: Seq<(Seq<char>, V)>, k: Seq<char>) -> int
    decreases es.len(),
{
    if es.len() == 0 {
        -1
    } else if es.last().0 == k {
        es.len() - 1
    } else {
        key_index(es.drop_last(), k)
    }
}

/// The value stored under `k`, if any.
pub open spec fn lookup<V>(es: Seq<(Seq<char>, V)>, k: Seq<char>) -> Option<V> {
    let i = key_index(es, k);
    if i >= 0 {
        Some(es[i].1)
    } else {
        None
    }
}

/// The entries after `k` is set to `v`: an entry with that key is replaced in
/// place, else a new one goes at the end.
pub open spec fn with_entry<V>(es: Seq<(Seq<char>, V)>, k: Seq<char>, v: V) -> Seq<(Seq<char>, V)> {
    let i = key_index(es, k);
    if i >= 0 {
        es.update(i, (k, v))
    } else {
        es.push((k, v))
    }
}

pub proof fn lemma_key_index_bounds<V>(es: Seq<(Seq<char>, V)>, k: Seq<char>)
    ensures
        -1 <= key_index(es, k) < es.len(),
        key_index(es, k) >= 0 ==> es[key_index(es, k)].0 == k,
        key_index(es, k) < 0 ==> forall|j: int| 0 <= j < es.len() ==> es[j].0 != k,
    decreases es.len(),
{
    if es.len() > 0 {
        lemma_key_index_bounds(es.drop_last(), k);
        if key_index(es, k) < 0 {
            assert forall|j: int| 0 <= j < es.len() implies es[j].0 != k by {
                if j < es.len() - 1 {
                    assert(es.drop_last()[j] == es[j]);
                }
            }
        }
    }
}

/// Looking up after setting `k` gives `v` for `k` and what it gave before for others.
pub proof fn lemma_lookup_with_entry<V>(es: Seq<(Seq<char>, V)>, k: Seq<char>, v: V, q: Seq<char>)
    ensures
        lookup(with_entry(es, k, v), q) == if q == k { Some(v) } else { lookup(es, q) },
{
    lemma_key_index_bounds(es, k);
    lemma_key_index_bounds(es, q);
    let i = key_index(es, k);
    if i >= 0 {
        lemma_key_index_update(es, i, k, v, q);
    } else {
        let es2 = es.push((k, v));
        assert(es2.drop_last() =~= es);
    }
}

/// Replacing an entry by one of the same key keeps every key's index.
pub proof fn lemma_key_index_update<V>(es: Seq<(Seq<char>, V)>, i: int, k: Seq<char>, v: V, q: Seq<char>)
    requires
        0 <= i < es.len(),
        es[i].0 == k,
    ensures
        key_index(es.update(i, (k, v)), q) == key_index(es, q),
    decreases es.len(),
{
    let es2 = es.update(i, (k, v));
    if i < es.len() - 1 {
        assert(es2.drop_last() =~= es.drop_last().update(i, (k, v)));
        lemma_key_index_update(es.drop_last(), i, k, v, q);
    } else {
        assert(es2.drop_last() =~= es.drop_last());
    }
}

/// Looking up in a list with one more pair at the end: the new pair wins for its key.
pub proof fn lemma_lookup_push<V>(es: Seq<(Seq<char>, V)>, p: (Seq<char>, V), q: Seq<char>)
    ensures
        lookup(es.push(p), q) == if q == p.0 { Some(p.1) } else { lookup(es, q) },
{
    lemma_key_index_bounds(es, q);
    assert(es.push(p).drop_last() =~= es);
}

impl<V: View> View for Table<V> {
    type V = Seq<(Seq<char>, V::V)>;

    closed spec fn view(&self) -> Seq<(Seq<char>, V::V)> {
        self.entries@.map_values(|e: (String, V)| (e.0@, e.1@))
    }
}

impl<V: View> Table<V> {
    pub fn new() -> (r: Table<V>)
        ensures
            r@ == Seq::<(Seq<char>, V::V)>::empty(),
    {
        let r = Table { entries: Vec::new() };
        assert(r@ =~= Seq::<(Seq<char>, V::V)>::empty());
        r
    }

    pub fn len(&self) -> (r: usize)
        ensures
            r == self@.len(),
    {
        self.entries.len()
    }

    /// The index of the last entry with key `k`.
    fn find(&self, k: &str) -> (r: Option<usize>)
        ensures
            match r {
                Some(i) => key_index(self@, k@) == i as int,
                None => key_index(self@, k@) == -1,
            },
    {
        let mut i: usize = self.entries.len();
        assert(self@.take(i as int) =~= self@);
        while i > 0
            invariant
                i <= self@.len(),
                self@.len() == self.entries@.len(),
                key_index(self@, k@) == key_index(self@.take(i as int), k@),
            decreases i,
        {
            assert(self@[i - 1].0 == self.entries@[i - 1].0@);
            assert(self@.take(i as int).drop_last() =~= self@.take(i - 1));
            if same_text(self.entries[i - 1].0.as_str(), k) {
                return Some(i - 1);
            }
            i = i - 1;
        }
        None
    }

    /// Sets the value under `k`.
    pub fn insert(&mut self, k: String, v: V)
        ensures
            final(self)@ == with_entry(old(self)@, k@, v@),
    {
        let ghost before = self@;
        proof {
            lemma_key_index_bounds(before, k@);
        }
        match self.find(k.as_str()) {
            Some(i) => {
                let ghost kv = k@;
                let ghost vv = v@;
                self.entries.set(i, (k, v));
                assert(self@ =~= before.update(i as int, (kv, vv)));
            },
            None => {
                let ghost kv = k@;
                let ghost vv = v@;
                self.entries.push((k, v));
                assert(self@ =~= before.push((kv, vv)));
            },
        }
    }

    /// The value under `k`, if any.
    pub fn get(&self, k: &str) -> (r: Option<&V>)
        ensures
            match r {
                Some(v) => lookup(self@, k@) == Some(v@),
                None => lookup(self@, k@) is None,
            },
    {
        proof {
            lemma_key_index_bounds(self@, k@);
        }
        match self.find(k) {
            Some(i) => Some(&self.entries[i].1),
            None => None,
        }
    }

    /// Whether some entry has key `k`.
    pub fn contains_key(&self, k: &str) -> (r: bool)
        ensures
            r == (lookup(self@, k@) is Some),
    {
        proof {
            lemma_key_index_bounds(self@, k@);
        }
        self.find(k).is_some()
    }

    /// The key and value of the entry at index `i`.
    pub fn entry(&self, i: usize) -> (r: (&String, &V))
        requires
            i < self@.len(),
        ensures
            r.0@ == self@[i as int].0,
            r.1@ == self@[i as int].1,
    {
        let e = &self.entries[i];
        (&e.0, &e.1)
    }
}

impl Clone for Table<String> {
    fn clone(&self) -> (r: Table<String>)
        ensures
            r@ == self@,
    {
        let mut entries: Vec<(String, String)> = Vec::new();
        let mut i: usize = 0;
        while i < self.entries.len()
            invariant
                i <= self.entries@.len(),
                entries@.len() == i,
                forall|j: int| 0 <= j < i ==> #[trigger] entries@[j] == self.entries@[j],
            decreases self.entries@.len() - i,
        {
            let e = &self.entries[i];
            entries.push((e.0.clone(), e.1.clone()));
            i = i + 1;
        }
        let r = Table { entries };
        assert(r.entries@ =~= self.entries@);
        r
    }
}

impl Clone for Table<Cookie> {
    fn clone(&self) -> (r: Table<Cookie>)
        ensures
            r@ == self@,
    {
        let mut entries: Vec<(String, Cookie)> = Vec::new();
        let mut i: usize = 0;
        while i < self.entries.len()
            invariant
                i <= self.entries@.len(),
                entries@.len() == i,
                forall|j: int| 0 <= j < i ==> #[trigger] entries@[j] == self.entries@[j],
            decreases self.entries@.len() - i,
        {
            let e = &self.entries[i];
            entries.push((e.0.clone(), e.1.clone()));
            i = i + 1;
        }
        let r = Table { entries };
        assert(r.entries@ =~= self.entries@);
        r
    }
}

} // verus!
