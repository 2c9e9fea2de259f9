//! A finite relation between lookup keys and digests, held as a list of
//! pairs in which no pair occurs twice.

use crate::hash::Hash256;
use vstd::prelude::*;

verus! {

/// A key under which digests are filed.
pub trait LookupKey: Sized {
    /// The mathematical value of a key.
    type Model;

    /// The mathematical value of the key.
    spec fn model(&self) -> Self::Model;

    /// Whether two keys have the same value.
    fn same(&self, other: &Self) -> (same: bool)
        ensures
            same == (self.model() == other.model()),
    ;
}

impl LookupKey for Hash256 {
    type Model = Seq<u8>;

    open spec fn model(&self) -> Seq<u8> {
        self@
    }

    fn same(&self, other: &Self) -> (same: bool) {
        *self == *other
    }
}

impl LookupKey for (String, String) {
    type Model = (Seq<char>, Seq<char>);

    open spec fn model(&self) -> (Seq<char>, Seq<char>) {
        (self.0@, self.1@)
    }

    fn same(&self, other: &Self) -> (same: bool) {
        self.0 == other.0 && self.1 == other.1
    }
}

impl LookupKey for (String, Hash256) {
    type Model = (Seq<char>, Seq<u8>);

    open spec fn model(&self) -> (Seq<char>, Seq<u8>) {
        (self.0@, self.1@)
    }

    fn same(&self, other: &Self) -> (same: bool) {
        self.0 == other.0 && self.1 == other.1
    }
}

/// The mathematical values of a list of pairs.
pub open spec fn pairs_model<K: LookupKey>(pairs: Seq<(K, Hash256)>) -> Seq<(K::Model, Seq<u8>)> {
    Seq::new(pairs.len(), |i: int| (pairs[i].0.model(), pairs[i].1@))
}

/// The digests in `hashes`.
pub open spec fn digests_of(hashes: Seq<Hash256>) -> Seq<Seq<u8>> {
    Seq::new(hashes.len(), |i: int| hashes[i]@)
}

/// The digests that `pairs` files under `key`.
pub open spec fn filed_under<M>(pairs: Set<(M, Seq<u8>)>, key: M) -> Set<Seq<u8>> {
    Set::new(|digest: Seq<u8>| pairs.contains((key, digest)))
}

/// A finite set of pairs of a key and a digest.
#[derive(Debug)]
pub struct Relation<K: LookupKey> {
    pairs: Vec<(K, Hash256)>,
}

impl<K: LookupKey> View for Relation<K> {
    type V = Set<(K::Model, Seq<u8>)>;

    /// The pairs held.
    closed spec fn view(&self) -> Set<(K::Model, Seq<u8>)> {
        pairs_model(self.pairs@).to_set()
    }
}

impl<K: LookupKey> Relation<K> {
    /// No pair is held twice.
    #[verifier::type_invariant]
    spec fn inv(&self) -> bool {
        pairs_model(self.pairs@).no_duplicates()
    }

    /// The empty relation.
    pub fn new() -> (relation: Self)
        ensures
            relation@ == Set::<(K::Model, Seq<u8>)>::empty(),
    {
        Relation { pairs: Vec::new() }
    }

    /// The position of the pair of `key` and `digest`.
    fn position(&self, key: &K, digest: &Hash256) -> (found: Option<usize>)
        ensures
            match found {
                Some(i) => i < self.pairs@.len() && pairs_model(self.pairs@)[i as int] == (
                    key.model(),
                    digest@,
                ),
                None => !self@.contains((key.model(), digest@)),
            },
    {
        let ghost model = pairs_model(self.pairs@);
        let mut i: usize = 0;
        while i < self.pairs.len()
            invariant
                i <= self.pairs@.len(),
                model == pairs_model(self.pairs@),
                forall|k: int| 0 <= k < i ==> model[k] != (key.model(), digest@),
            decreases self.pairs@.len() - i,
        {
            if self.pairs[i].0.same(key) && self.pairs[i].1 == *digest {
                return Some(i);
            }
            i += 1;
        }
        None
    }

    /// Files `digest` under `key`.
    pub fn insert(&mut self, key: K, digest: Hash256)
        ensures
            final(self)@ == old(self)@.insert((key.model(), digest@)),
    {
        proof {
            use_type_invariant(&*self);
        }
        let ghost before = pairs_model(self.pairs@);
        let ghost pair = (key.model(), digest@);
        if self.position(&key, &digest).is_some() {
            assert(before.to_set().contains(pair));
            assert(self@ =~= old(self)@.insert(pair));
            return ;
        }
        let mut pairs: Vec<(K, Hash256)> = Vec::new();
        core::mem::swap(&mut pairs, &mut self.pairs);
        pairs.push((key, digest));
        proof {
            let after = pairs_model(pairs@);
            assert(after =~= before.push(pair));
            assert forall|i: int, j: int|
                0 <= i < after.len() && 0 <= j < after.len() && i != j implies after[i]
                != after[j] by {
                if i < before.len() {
                    assert(before.contains(before[i]));
                }
                if j < before.len() {
                    assert(before.contains(before[j]));
                }
            }
            assert forall|p: (K::Model, Seq<u8>)|
                after.to_set().contains(p) <==> before.to_set().insert(pair).contains(p) by {
                if before.contains(p) {
                    let i = choose|i: int| 0 <= i < before.len() && before[i] == p;
                    assert(after[i] == p);
                }
                assert(after[before.len() as int] == pair);
            }
            assert(after.to_set() =~= before.to_set().insert(pair));
        }
        self.pairs = pairs;
    }

    /// Takes `digest` out from under `key`.
    pub fn remove(&mut self, key: &K, digest: &Hash256)
        ensures
            final(self)@ == old(self)@.remove((key.model(), digest@)),
    {
        proof {
            use_type_invariant(&*self);
        }
        let ghost before = pairs_model(self.pairs@);
        let ghost pair = (key.model(), digest@);
        match self.position(key, digest) {
            None => {
                assert(self@ =~= old(self)@.remove(pair));
            },
            Some(i) => {
                let mut pairs: Vec<(K, Hash256)> = Vec::new();
                core::mem::swap(&mut pairs, &mut self.pairs);
                let _ = pairs.remove(i);
                proof {
                    let after = pairs_model(pairs@);
                    assert(after =~= before.remove(i as int));
                    assert forall|a: int, b: int|
                        0 <= a < after.len() && 0 <= b < after.len() && a != b implies after[a]
                        != after[b] by {
                        let a0 = if a < i {
                            a
                        } else {
                            a + 1
                        };
                        let b0 = if b < i {
                            b
                        } else {
                            b + 1
                        };
                        assert(after[a] == before[a0] && after[b] == before[b0]);
                    }
                    assert forall|p: (K::Model, Seq<u8>)|
                        after.to_set().contains(p) <==> before.to_set().remove(pair).contains(
                            p,
                        ) by {
                        if after.contains(p) {
                            let a = choose|a: int| 0 <= a < after.len() && after[a] == p;
                            let a0 = if a < i {
                                a
                            } else {
                                a + 1
                            };
                            assert(before[a0] == p);
                        }
                        if before.contains(p) && p != pair {
                            let b = choose|b: int| 0 <= b < before.len() && before[b] == p;
                            let b0 = if b < i {
                                b
                            } else {
                                b - 1
                            };
                            assert(after[b0] == p);
                        }
                    }
                    assert(after.to_set() =~= before.to_set().remove(pair));
                }
                self.pairs = pairs;
            },
        }
    }

    /// The digests filed under `key`, each once.
    pub fn lookup(&self, key: &K) -> (found: Vec<Hash256>)
        ensures
            digests_of(found@).no_duplicates(),
            digests_of(found@).to_set() == filed_under(self@, key.model()),
    {
        proof {
            use_type_invariant(self);
        }
        let ghost model = pairs_model(self.pairs@);
        let mut found: Vec<Hash256> = Vec::new();
        let mut i: usize = 0;
        while i < self.pairs.len()
            invariant
                i <= self.pairs@.len(),
                model == pairs_model(self.pairs@),
                model.no_duplicates(),
                digests_of(found@).no_duplicates(),
                forall|d: Seq<u8>| #[trigger]
                    digests_of(found@).contains(d) <==> model.take(i as int).contains(
                        (key.model(), d),
                    ),
            decreases self.pairs@.len() - i,
        {
            let ghost earlier = digests_of(found@);
            let ghost seen = model.take(i as int);
            if self.pairs[i].0.same(key) {
                found.push(self.pairs[i].1);
                proof {
                    let digest = self.pairs@[i as int].1@;
                    let now = digests_of(found@);
                    assert(now =~= earlier.push(digest));
                    assert(model[i as int] == (key.model(), digest));
                    assert(!earlier.contains(digest)) by {
                        if earlier.contains(digest) {
                            assert(seen.contains((key.model(), digest)));
                            let k = choose|k: int|
                                0 <= k < seen.len() && seen[k] == (key.model(), digest);
                            assert(model[k] == model[i as int]);
                        }
                    }
                    assert forall|a: int, b: int|
                        0 <= a < now.len() && 0 <= b < now.len() && a != b implies now[a]
                        != now[b] by {
                        if a < earlier.len() {
                            assert(earlier.contains(earlier[a]));
                        }
                        if b < earlier.len() {
                            assert(earlier.contains(earlier[b]));
                        }
                    }
                }
            }
            proof {
                let now = digests_of(found@);
                let next = model.take(i + 1);
                assert(next =~= seen.push(model[i as int]));
                assert forall|d: Seq<u8>| #[trigger]
                    now.contains(d) <==> next.contains((key.model(), d)) by {
                    if earlier.contains(d) {
                        let k = choose|k: int| 0 <= k < earlier.len() && earlier[k] == d;
                        assert(now[k] == d);
                        let m = choose|m: int| 0 <= m < seen.len() && seen[m] == (key.model(), d);
                        assert(next[m] == (key.model(), d));
                    }
                    if now.contains(d) && !earlier.contains(d) {
                        let k = choose|k: int| 0 <= k < now.len() && now[k] == d;
                        assert(k == earlier.len());
                        assert(next[i as int] == (key.model(), d));
                    }
                    if next.contains((key.model(), d)) {
                        let m = choose|m: int| 0 <= m < next.len() && next[m] == (key.model(), d);
                        if m < i {
                            assert(seen[m] == (key.model(), d));
                        } else {
                            assert(now[earlier.len() as int] == d);
                        }
                    }
                }
            }
            i += 1;
        }
        proof {
            assert(model.take(i as int) =~= model);
            assert(digests_of(found@).to_set() =~= filed_under(self@, key.model()));
        }
        found
    }
}

} // verus!
