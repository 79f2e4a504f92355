//! The performance changes of a review session, keyed by card hash, kept in
//! memory until the session ends.
use vstd::prelude::*;
use crate::card::CardHash;

verus! {

/// Why a cache operation was refused.
#[derive(Clone, Copy, Debug, PartialEq, Eq, Structural)]
pub enum CacheError {
    /// The hash is in the cache already.
    AlreadyPresent,
    /// The hash is not in the cache.
    NotFound,
}

/// The value stored last under `k` in `es`.
pub open spec fn lookup<V>(es: Seq<(CardHash, V)>, k: Seq<u8>) -> Option<V>
    decreases es.len(),
{
    if es.len() == 0 {
        None
    } else if es.last().0@ == k {
        Some(es.last().1)
    } else {
        lookup(es.drop_last(), k)
    }
}

/// A map from card hashes to values, kept as a vector of entries with
/// distinct hashes, so that what each operation does to the map is proved.
pub struct Cache<V> {
    changes: Vec<(CardHash, V)>,
}

impl<V> View for Cache<V> {
    type V = Map<Seq<u8>, V>;

    closed spec fn view(&self) -> Map<Seq<u8>, V> {
        Map::new(|k: Seq<u8>| lookup(self.changes@, k) is Some, |k: Seq<u8>| lookup(self.changes@, k)->Some_0)
    }
}

proof fn lemma_lookup_push<V>(es: Seq<(CardHash, V)>, h: CardHash, v: V, k: Seq<u8>)
    ensures
        lookup(es.push((h, v)), k) == (if k == h@ { Some(v) } else { lookup(es, k) }),
{
    assert(es.push((h, v)).drop_last() =~= es);
}

proof fn lemma_lookup_set<V>(es: Seq<(CardHash, V)>, i: int, v: V, k: Seq<u8>)
    requires
        0 <= i < es.len(),
        forall|j: int| i < j < es.len() ==> (#[trigger] es[j]).0@ != es[i].0@,
    ensures
        lookup(es.update(i, (es[i].0, v)), k) == (if k == es[i].0@ { Some(v) } else { lookup(es, k) }),
    decreases es.len(),
{
    let n = es.update(i, (es[i].0, v));
    if i == es.len() - 1 {
        assert(n.drop_last() =~= es.drop_last());
    } else {
        assert(n.drop_last() =~= es.drop_last().update(i, (es[i].0, v)));
        assert forall|j: int| i < j < es.drop_last().len() implies (#[trigger] es.drop_last()[j]).0@ != es.drop_last()[i].0@ by {
            assert(es.drop_last()[j] == es[j]);
        }
        lemma_lookup_set(es.drop_last(), i, v, k);
    }
}

impl<V> Cache<V> {
    /// The entries in the order of insertion; a hash maps to its entry's value.
    pub closed spec fn spec_entries(&self) -> Seq<(CardHash, V)> {
        self.changes@
    }

    /// No hash has two entries.
    #[verifier::type_invariant]
    closed spec fn keys_distinct(&self) -> bool {
        distinct_keys(self.changes@)
    }
}

/// No two entries share a hash.
pub open spec fn distinct_keys<V>(es: Seq<(CardHash, V)>) -> bool {
    forall|i: int, j: int| 0 <= i < j < es.len() ==> (#[trigger] es[i]).0@ != (#[trigger] es[j]).0@
}

proof fn lemma_lookup_distinct<V>(es: Seq<(CardHash, V)>)
    requires
        distinct_keys(es),
    ensures
        forall|i: int| 0 <= i < es.len() ==> lookup(es, (#[trigger] es[i]).0@) == Some(es[i].1),
        forall|k: Seq<u8>| #[trigger] lookup(es, k) is Some ==> exists|i: int| 0 <= i < es.len() && es[i].0@ == k,
    decreases es.len(),
{
    if es.len() > 0 {
        let prev = es.drop_last();
        assert forall|i: int, j: int| 0 <= i < j < prev.len() implies (#[trigger] prev[i]).0@ != (#[trigger] prev[j]).0@ by {
            assert(prev[i] == es[i] && prev[j] == es[j]);
        }
        lemma_lookup_distinct(prev);
        assert forall|i: int| 0 <= i < es.len() implies lookup(es, (#[trigger] es[i]).0@) == Some(es[i].1) by {
            if i < es.len() - 1 {
                assert(es[i] == prev[i]);
                assert(es[i].0@ != es[es.len() - 1].0@);
            }
        }
        assert forall|k: Seq<u8>| #[trigger] lookup(es, k) is Some implies exists|i: int| 0 <= i < es.len() && es[i].0@ == k by {
            if es.last().0@ != k {
                assert(lookup(prev, k) is Some);
                let i = choose|i: int| 0 <= i < prev.len() && prev[i].0@ == k;
                assert(es[i] == prev[i]);
            } else {
                assert(es[es.len() - 1].0@ == k);
            }
        }
    }
}

impl<V: Copy> Cache<V> {
    /// An empty cache.
    pub fn new() -> (r: Cache<V>)
        ensures
            r@ == Map::<Seq<u8>, V>::empty(),
    {
        let r = Cache { changes: Vec::new() };
        assert(r@ =~= Map::<Seq<u8>, V>::empty());
        r
    }

    /// The position of the last entry with hash `h`.
    fn find(&self, h: &CardHash) -> (r: Option<usize>)
        ensures
            match r {
                Some(i) => i < self.changes@.len() && self.changes@[i as int].0@ == h@
                    && (forall|j: int| i < j < self.changes@.len() ==> (#[trigger] self.changes@[j]).0@ != h@)
                    && lookup(self.changes@, h@) == Some(self.changes@[i as int].1),
                None => lookup(self.changes@, h@) is None,
            },
    {
        let mut i = self.changes.len();
        assert(self.changes@.subrange(0, i as int) =~= self.changes@);
        while i > 0
            invariant
                i <= self.changes@.len(),
                forall|j: int| i <= j < self.changes@.len() ==> (#[trigger] self.changes@[j]).0@ != h@,
                lookup(self.changes@, h@) == lookup(self.changes@.subrange(0, i as int), h@),
            decreases i,
        {
            let ghost pre = self.changes@.subrange(0, i as int);
            assert(pre.drop_last() =~= self.changes@.subrange(0, i - 1));
            if self.changes[i - 1].0.same(h) {
                return Some(i - 1);
            }
            i = i - 1;
        }
        None
    }

    /// Adds the value of a hash that is not in the cache yet; a hash that is
    /// there already is refused and the cache left as it was.
    pub fn insert(&mut self, card_hash: CardHash, performance: V) -> (r: Result<(), CacheError>)
        ensures
            old(self)@.contains_key(card_hash@) ==> r == Err::<(), CacheError>(CacheError::AlreadyPresent)
                && final(self)@ == old(self)@,
            !old(self)@.contains_key(card_hash@) ==> r is Ok && final(self)@ == old(self)@.insert(card_hash@, performance),
    {
        proof {
            use_type_invariant(&*self);
        }
        match self.find(&card_hash) {
            Some(_) => Err(CacheError::AlreadyPresent),
            None => {
                let ghost before = self.changes@;
                let mut changes: Vec<(CardHash, V)> = Vec::new();
                std::mem::swap(&mut changes, &mut self.changes);
                changes.push((card_hash, performance));
                proof {
                    lemma_lookup_distinct(before);
                    assert forall|i: int, j: int| 0 <= i < j < changes@.len() implies (#[trigger] changes@[i]).0@ != (#[trigger] changes@[j]).0@ by {
                        if j == before.len() {
                            assert(changes@[i] == before[i]);
                            assert(lookup(before, before[i].0@) is Some);
                        } else {
                            assert(changes@[i] == before[i] && changes@[j] == before[j]);
                        }
                    }
                }
                self.changes = changes;
                proof {
                    assert forall|k: Seq<u8>| #[trigger] lookup(self.changes@, k) == (if k == card_hash@ { Some(performance) } else { lookup(before, k) }) by {
                        lemma_lookup_push(before, card_hash, performance, k);
                    }
                    assert(self@ =~= old(self)@.insert(card_hash@, performance));
                }
                Ok(())
            },
        }
    }

    /// The value of a hash, or an error if it is not in the cache.
    pub fn get(&self, card_hash: CardHash) -> (r: Result<V, CacheError>)
        ensures
            self@.contains_key(card_hash@) ==> r == Ok::<V, CacheError>(self@[card_hash@]),
            !self@.contains_key(card_hash@) ==> r == Err::<V, CacheError>(CacheError::NotFound),
    {
        match self.find(&card_hash) {
            Some(i) => Ok(self.changes[i].1),
            None => Err(CacheError::NotFound),
        }
    }

    /// Replaces the value of a hash in the cache; a hash that is not there
    /// is refused and the cache left as it was.
    pub fn update(&mut self, card_hash: CardHash, performance: V) -> (r: Result<(), CacheError>)
        ensures
            old(self)@.contains_key(card_hash@) ==> r is Ok && final(self)@ == old(self)@.insert(card_hash@, performance),
            !old(self)@.contains_key(card_hash@) ==> r == Err::<(), CacheError>(CacheError::NotFound)
                && final(self)@ == old(self)@,
    {
        proof {
            use_type_invariant(&*self);
        }
        match self.find(&card_hash) {
            Some(i) => {
                let ghost before = self.changes@;
                let key = self.changes[i].0;
                let mut changes: Vec<(CardHash, V)> = Vec::new();
                std::mem::swap(&mut changes, &mut self.changes);
                changes.set(i, (key, performance));
                proof {
                    assert forall|a: int, b: int| 0 <= a < b < changes@.len() implies (#[trigger] changes@[a]).0@ != (#[trigger] changes@[b]).0@ by {
                        assert(changes@[a].0 == before[a].0 && changes@[b].0 == before[b].0);
                    }
                }
                self.changes = changes;
                proof {
                    assert(self.changes@ == before.update(i as int, (before[i as int].0, performance)));
                    assert forall|k: Seq<u8>| #[trigger] lookup(self.changes@, k) == (if k == card_hash@ { Some(performance) } else { lookup(before, k) }) by {
                        lemma_lookup_set(before, i as int, performance, k);
                    }
                    assert(self@ =~= old(self)@.insert(card_hash@, performance));
                }
                Ok(())
            },
            None => Err(CacheError::NotFound),
        }
    }

    /// The entries of the cache, each hash once, in the order of insertion.
    pub fn iter(&self) -> (r: std::slice::Iter<'_, (CardHash, V)>)
        ensures
            vstd::std_specs::slice::into_iter_elts(r) == self.spec_entries(),
            distinct_keys(self.spec_entries()),
            forall|i: int|
                0 <= i < self.spec_entries().len() ==> self@.contains_key((#[trigger] self.spec_entries()[i]).0@)
                    && self@[self.spec_entries()[i].0@] == self.spec_entries()[i].1,
            forall|k: Seq<u8>|
                #[trigger] self@.contains_key(k) ==> exists|i: int|
                    0 <= i < self.spec_entries().len() && self.spec_entries()[i].0@ == k,
    {
        proof {
            use_type_invariant(self);
            lemma_lookup_distinct(self.changes@);
        }
        let s = self.changes.as_slice();
        let r = s.iter();
        proof {
            broadcast use vstd::std_specs::slice::axiom_spec_slice_iter;
            assert(s@.as_ref().unref() =~= s@);
        }
        r
    }
}

} // verus!
