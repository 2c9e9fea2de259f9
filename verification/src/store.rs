//! The content-addressed store: canonical encodings, each under the
//! SHA-256 digest of its bytes.

use crate::decoding::{decode, spec_decode, DecodeError};
use crate::encoding::{encode, spec_digest, spec_encode};
use crate::envelope::{well_formed, Envelope, EnvelopeView};
use crate::error::Error;
use crate::hash::{spec_hex_encode, spec_sha256, Hash256};
use crate::laws::{canonical_form, law_decode_encode};
use vstd::prelude::*;
use vstd::seq_lib::seq_to_set_is_finite;

verus! {

/// Whether `bytes` is the canonical encoding of some well-formed envelope.
pub open spec fn is_encoding(bytes: Seq<u8>) -> bool {
    exists|e: EnvelopeView| well_formed(e) && #[trigger] spec_encode(e) == bytes
}

/// Whether `objects` is what a store can hold: finitely many objects, each
/// the encoding of a well-formed envelope under the digest of its bytes.
pub open spec fn consistent(objects: Map<Seq<u8>, Seq<u8>>) -> bool {
    &&& objects.dom().finite()
    &&& forall|k: Seq<u8>| #[trigger]
        objects.contains_key(k) ==> k == spec_sha256(objects[k]) && is_encoding(objects[k])
}

/// The store after `e` was put into `objects`: a new object under the
/// digest of its encoding, or `objects` as it was where that digest is
/// taken.
pub open spec fn spec_put(objects: Map<Seq<u8>, Seq<u8>>, e: EnvelopeView) -> Map<
    Seq<u8>,
    Seq<u8>,
> {
    if objects.contains_key(spec_digest(e)) {
        objects
    } else {
        objects.insert(spec_digest(e), spec_encode(e))
    }
}

/// The digests of stored objects, in the order in which they were stored.
pub open spec fn stored_digests(objects: Seq<(Hash256, Vec<u8>)>) -> Seq<Seq<u8>> {
    Seq::new(objects.len(), |i: int| objects[i].0@)
}

/// The digests in `hashes`.
pub open spec fn digests_view(hashes: Seq<Hash256>) -> Seq<Seq<u8>> {
    Seq::new(hashes.len(), |i: int| hashes[i]@)
}

/// An in-memory content-addressed store of envelopes.
///
/// Each object is held as its canonical encoding, under the digest of
/// those bytes. Objects are never changed or removed.
#[derive(Debug)]
pub struct Store {
    objects: Vec<(Hash256, Vec<u8>)>,
}

impl View for Store {
    type V = Map<Seq<u8>, Seq<u8>>;

    /// The stored encodings by digest.
    closed spec fn view(&self) -> Map<Seq<u8>, Seq<u8>> {
        let digests = stored_digests(self.objects@);
        Map::new(
            |k: Seq<u8>| digests.contains(k),
            |k: Seq<u8>| self.objects@[digests.index_of(k)].1@,
        )
    }
}

impl Default for Store {
    fn default() -> (store: Self)
        ensures
            store@ == Map::<Seq<u8>, Seq<u8>>::empty(),
    {
        Store::new()
    }
}

impl Store {
    /// No digest is stored twice, each object is stored under the digest of
    /// its bytes, and each is the encoding of a well-formed envelope.
    #[verifier::type_invariant]
    spec fn inv(&self) -> bool {
        &&& stored_digests(self.objects@).no_duplicates()
        &&& forall|i: int|
            0 <= i < self.objects@.len() ==> (#[trigger] self.objects@[i]).0@ == spec_sha256(
                self.objects@[i].1@,
            )
        &&& forall|i: int|
            0 <= i < self.objects@.len() ==> is_encoding((#[trigger] self.objects@[i]).1@)
    }

    /// An empty store.
    pub fn new() -> (store: Self)
        ensures
            store@ == Map::<Seq<u8>, Seq<u8>>::empty(),
    {
        Store { objects: Vec::new() }
    }

    /// The position of the object stored under `hash`.
    fn position(&self, hash: &Hash256) -> (found: Option<usize>)
        ensures
            match found {
                Some(i) => i < self.objects@.len() && self.objects@[i as int].0@ == hash@
                    && self@.contains_key(hash@) && self@[hash@] == self.objects@[i as int].1@,
                None => !self@.contains_key(hash@),
            },
    {
        proof {
            use_type_invariant(self);
        }
        let ghost digests = stored_digests(self.objects@);
        let mut i: usize = 0;
        while i < self.objects.len()
            invariant
                i <= self.objects@.len(),
                digests == stored_digests(self.objects@),
                digests.no_duplicates(),
                forall|k: int| 0 <= k < i ==> digests[k] != hash@,
            decreases self.objects@.len() - i,
        {
            if self.objects[i].0 == *hash {
                assert(digests[i as int] == hash@);
                return Some(i);
            }
            i += 1;
        }
        None
    }

    /// Stores `envelope` under the digest of its canonical encoding and
    /// returns that digest. Storing content that is already there changes
    /// nothing. An envelope that is not well formed is refused with
    /// `InvalidEnvelope`.
    pub fn put(&mut self, envelope: &Envelope) -> (res: Result<Hash256, Error>)
        ensures
            match res {
                Ok(digest) => {
                    &&& envelope.wf()
                    &&& digest@ == spec_digest(envelope@)
                    &&& final(self)@ == spec_put(old(self)@, envelope@)
                },
                Err(e) => !envelope.wf() && e.is_refusal() && final(self)@ == old(self)@,
            },
            consistent(final(self)@),
    {
        proof {
            use_type_invariant(&*self);
            self.lemma_consistent();
        }
        let bytes = match encode(envelope) {
            Ok(bytes) => bytes,
            Err(e) => {
                return Err(e);
            },
        };
        let hash = Hash256::hash(bytes.as_slice());
        if self.position(&hash).is_some() {
            return Ok(hash);
        }
        proof {
            law_put_keeps_consistent(self@, envelope@);
        }
        let ghost before = self.objects@;
        let ghost old_digests = stored_digests(before);
        assert(!old_digests.contains(hash@));
        let mut objects: Vec<(Hash256, Vec<u8>)> = Vec::new();
        core::mem::swap(&mut objects, &mut self.objects);
        objects.push((hash, bytes));
        proof {
            let after = objects@;
            let digests = stored_digests(after);
            assert(digests =~= old_digests.push(hash@));
            assert forall|i: int| 0 <= i < after.len() implies (#[trigger] after[i]).0@
                == spec_sha256(after[i].1@) && is_encoding(after[i].1@) by {
                if i < before.len() {
                    assert(after[i] == before[i]);
                } else {
                    assert(well_formed(envelope@) && spec_encode(envelope@) == bytes@);
                }
            }
            assert forall|i: int, j: int|
                0 <= i < digests.len() && 0 <= j < digests.len() && i != j implies digests[i]
                != digests[j] by {
                if i < before.len() {
                    assert(digests[i] == old_digests[i]);
                }
                if j < before.len() {
                    assert(digests[j] == old_digests[j]);
                }
            }
        }
        self.objects = objects;
        proof {
            let after = self.objects@;
            let digests = stored_digests(after);
            assert(forall|i: int| 0 <= i < before.len() ==> after[i] == before[i]);
            assert forall|k: Seq<u8>| #[trigger]
                self@.contains_key(k) <==> spec_put(old(self)@, envelope@).contains_key(k) by {
                if old_digests.contains(k) {
                    let i = old_digests.index_of(k);
                    assert(digests[i] == k);
                }
                if digests.contains(k) && k != hash@ {
                    let i = digests.index_of(k);
                    assert(old_digests[i] == k);
                }
                assert(digests[before.len() as int] == hash@);
            }
            assert forall|k: Seq<u8>| #[trigger] self@.contains_key(k) implies self@[k] == spec_put(
                old(self)@,
                envelope@,
            )[k] by {
                let i = digests.index_of(k);
                if i < before.len() {
                    assert(old_digests[i] == k);
                    let j = old_digests.index_of(k);
                    assert(digests[j] == k);
                } else {
                    assert(digests[i] == hash@);
                }
            }
            assert(self@ =~= spec_put(old(self)@, envelope@));
        }
        Ok(hash)
    }

    /// The envelope stored under `hash`, read back from its encoding, or
    /// `NotFound` with the digest in hex where nothing is stored under it.
    pub fn get(&self, hash: &Hash256) -> (res: Result<Envelope, Error>)
        ensures
            self@.contains_key(hash@) ==> (res matches Ok(envelope) && spec_decode(self@[hash@])
                == Ok::<EnvelopeView, DecodeError>(envelope@)),
            !self@.contains_key(hash@) ==> (res matches Err(Error::NotFound(text)) && text@
                == spec_hex_encode(hash@)),
            consistent(self@),
    {
        proof {
            use_type_invariant(self);
            self.lemma_consistent();
        }
        match self.position(hash) {
            Some(i) => {
                proof {
                    let bytes = self.objects@[i as int].1@;
                    lemma_encoding_decodes(bytes);
                }
                match decode(self.objects[i].1.as_slice()) {
                    Ok(envelope) => Ok(envelope),
                    Err(e) => Err(Error::from(e)),
                }
            },
            None => Err(Error::NotFound(hash.to_hex())),
        }
    }

    /// Whether an object is stored under `hash`.
    pub fn contains(&self, hash: &Hash256) -> (found: bool)
        ensures
            found == self@.contains_key(hash@),
    {
        self.position(hash).is_some()
    }

    /// The number of stored objects.
    pub fn len(&self) -> (count: usize)
        ensures
            consistent(self@),
            count == self@.len(),
    {
        proof {
            use_type_invariant(self);
            self.lemma_consistent();
            let digests = stored_digests(self.objects@);
            digests.unique_seq_to_set();
        }
        self.objects.len()
    }

    /// What the invariant says of the objects by digest.
    proof fn lemma_consistent(self)
        requires
            self.inv(),
        ensures
            consistent(self@),
    {
        let digests = stored_digests(self.objects@);
        seq_to_set_is_finite(digests);
        assert forall|k: Seq<u8>| #[trigger] self@.contains_key(k) implies k == spec_sha256(
            self@[k],
        ) && is_encoding(self@[k]) by {}
    }

    /// Whether nothing is stored.
    pub fn is_empty(&self) -> (empty: bool)
        ensures
            empty == (self@ == Map::<Seq<u8>, Seq<u8>>::empty()),
    {
        proof {
            if self.objects@.len() == 0 {
                assert(self@ =~= Map::<Seq<u8>, Seq<u8>>::empty());
            } else {
                let digests = stored_digests(self.objects@);
                assert(self@.contains_key(digests[0]));
            }
        }
        self.objects.len() == 0
    }

    /// The digests of all stored objects, each once.
    pub fn hashes(&self) -> (all: Vec<Hash256>)
        ensures
            digests_view(all@).no_duplicates(),
            digests_view(all@).to_set() == self@.dom(),
    {
        proof {
            use_type_invariant(self);
        }
        let ghost digests = stored_digests(self.objects@);
        let mut all: Vec<Hash256> = Vec::new();
        let mut i: usize = 0;
        while i < self.objects.len()
            invariant
                i <= self.objects@.len(),
                digests == stored_digests(self.objects@),
                digests_view(all@) == digests.take(i as int),
            decreases self.objects@.len() - i,
        {
            let ghost earlier = all@;
            all.push(self.objects[i].0);
            assert(earlier.len() == digests_view(earlier).len());
            assert forall|k: int| 0 <= k < i + 1 implies digests_view(all@)[k] == digests[k] by {
                if k < i {
                    assert(digests_view(earlier)[k] == digests.take(i as int)[k]);
                }
            }
            i += 1;
        }
        proof {
            assert(digests.take(i as int) =~= digests);
        }
        all
    }
}

/// What encodes a well-formed envelope can be read back.
pub proof fn lemma_encoding_decodes(bytes: Seq<u8>)
    requires
        is_encoding(bytes),
    ensures
        spec_decode(bytes) is Ok,
{
    let e = choose|e: EnvelopeView| well_formed(e) && #[trigger] spec_encode(e) == bytes;
    law_decode_encode(e);
}

/// Putting a well-formed envelope into a consistent store leaves it
/// consistent.
pub proof fn law_put_keeps_consistent(objects: Map<Seq<u8>, Seq<u8>>, e: EnvelopeView)
    requires
        consistent(objects),
        well_formed(e),
    ensures
        consistent(spec_put(objects, e)),
{
    let after = spec_put(objects, e);
    assert forall|k: Seq<u8>| #[trigger] after.contains_key(k) implies k == spec_sha256(after[k])
        && is_encoding(after[k]) by {
        if !objects.contains_key(k) {
            assert(after[k] == spec_encode(e));
        } else {
            assert(after[k] == objects[k]);
        }
    }
}

/// Putting an envelope changes no object that is already stored: earlier
/// versions stay as they are.
pub proof fn law_put_keeps_objects(objects: Map<Seq<u8>, Seq<u8>>, e: EnvelopeView)
    ensures
        forall|k: Seq<u8>| #[trigger]
            objects.contains_key(k) ==> spec_put(objects, e).contains_key(k) && spec_put(
                objects,
                e,
            )[k] == objects[k],
        spec_put(objects, e).contains_key(spec_digest(e)),
{
}

/// Two envelopes with the same canonical encoding are stored as one
/// object: they get the same digest, the second put changes nothing, and
/// the two puts together add one object to a store that did not hold it.
pub proof fn law_put_twice(objects: Map<Seq<u8>, Seq<u8>>, a: EnvelopeView, b: EnvelopeView)
    requires
        objects.dom().finite(),
        spec_encode(a) == spec_encode(b),
    ensures
        spec_digest(a) == spec_digest(b),
        spec_put(spec_put(objects, a), b) == spec_put(objects, a),
        spec_put(objects, a).dom().finite(),
        !objects.contains_key(spec_digest(a)) ==> spec_put(spec_put(objects, a), b).len()
            == objects.len() + 1,
        objects.contains_key(spec_digest(a)) ==> spec_put(spec_put(objects, a), b) == objects,
{
}

/// What was put into a store that did not hold its digest is read back in
/// canonical form.
pub proof fn law_get_after_put(objects: Map<Seq<u8>, Seq<u8>>, e: EnvelopeView)
    requires
        well_formed(e),
        !objects.contains_key(spec_digest(e)),
    ensures
        spec_decode(spec_put(objects, e)[spec_digest(e)]) == Ok::<EnvelopeView, DecodeError>(
            canonical_form(e),
        ),
{
    law_decode_encode(e);
}

} // verus!
