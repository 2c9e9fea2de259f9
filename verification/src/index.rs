//! The index engine: four lookup structures derived from the structured
//! fields of stored envelopes, and a store that keeps them up to date.

use crate::canonical::{entry_order, lemma_sort_same_items, relationship_order};
use crate::decoding::{spec_decode, DecodeError};
use crate::encoding::{spec_digest, spec_encode};
use crate::envelope::{
    well_formed, EntryView, Envelope, EnvelopeView, IndexValue, IndexValueView,
    RelationshipView,
};
use crate::error::Error;
use crate::hash::{spec_hex_encode, Hash256};
use crate::laws::{canonical_form, law_decode_encode};
use crate::relation::{digests_of, filed_under, Relation};
use crate::store::{spec_put, Store};
use vstd::prelude::*;

verus! {

/// The mathematical value of an [`Index`]: four sets of pairs, each pair a
/// lookup key and the digest of an envelope filed under it.
pub struct IndexView {
    /// The envelopes of a type: type digest, then envelope.
    pub by_type: Set<(Seq<u8>, Seq<u8>)>,
    /// The envelopes with a text field: key and value, then envelope.
    pub by_field: Set<((Seq<char>, Seq<char>), Seq<u8>)>,
    /// The envelopes with a relationship: kind and target, then source.
    pub by_relationship: Set<((Seq<char>, Seq<u8>), Seq<u8>)>,
    /// The envelopes that refer to a target in any way: target, then source.
    pub references_to: Set<(Seq<u8>, Seq<u8>)>,
}

/// The text fields among `entries`, filed for the envelope `digest`.
pub open spec fn field_pairs(digest: Seq<u8>, entries: Seq<EntryView>) -> Set<
    ((Seq<char>, Seq<char>), Seq<u8>),
> {
    Set::new(
        |pair: ((Seq<char>, Seq<char>), Seq<u8>)|
            pair.1 == digest && entries.contains((pair.0.0, IndexValueView::String(pair.0.1))),
    )
}

/// The relationships `rels`, filed for the source `digest`.
pub open spec fn relationship_pairs(digest: Seq<u8>, rels: Seq<RelationshipView>) -> Set<
    ((Seq<char>, Seq<u8>), Seq<u8>),
> {
    Set::new(
        |pair: ((Seq<char>, Seq<u8>), Seq<u8>)|
            pair.1 == digest && rels.contains(
                RelationshipView { rel_type: pair.0.0, target: pair.0.1 },
            ),
    )
}

/// The targets of `rels`, filed for the source `digest`.
pub open spec fn reference_pairs(digest: Seq<u8>, rels: Seq<RelationshipView>) -> Set<
    (Seq<u8>, Seq<u8>),
> {
    Set::new(
        |pair: (Seq<u8>, Seq<u8>)|
            pair.1 == digest && exists|i: int|
                0 <= i < rels.len() && (#[trigger] rels[i]).target == pair.0,
    )
}

/// What one more index field adds to the pairs filed: a pair if it is a
/// text field, nothing otherwise.
pub proof fn lemma_field_pairs_step(digest: Seq<u8>, entries: Seq<EntryView>, i: int)
    requires
        0 <= i < entries.len(),
    ensures
        field_pairs(digest, entries.take(i + 1)) == match entries[i].1 {
            IndexValueView::String(text) => field_pairs(digest, entries.take(i)).insert(
                ((entries[i].0, text), digest),
            ),
            _ => field_pairs(digest, entries.take(i)),
        },
{
    let earlier = entries.take(i);
    let next = entries.take(i + 1);
    let stepped = match entries[i].1 {
        IndexValueView::String(text) => field_pairs(digest, earlier).insert(
            ((entries[i].0, text), digest),
        ),
        _ => field_pairs(digest, earlier),
    };
    assert(next =~= earlier.push(entries[i]));
    assert forall|pair: ((Seq<char>, Seq<char>), Seq<u8>)|
        field_pairs(digest, next).contains(pair) <==> stepped.contains(pair) by {
        let entry = (pair.0.0, IndexValueView::String(pair.0.1));
        if earlier.contains(entry) {
            let k = choose|k: int| 0 <= k < earlier.len() && earlier[k] == entry;
            assert(next[k] == entry);
        }
        if next.contains(entry) {
            let k = choose|k: int| 0 <= k < next.len() && next[k] == entry;
            if k < i {
                assert(earlier[k] == entry);
            }
        }
        assert(next[i] == entries[i]);
    }
    assert(field_pairs(digest, next) =~= stepped);
}

/// What one more relationship adds to the pairs filed: its kind and
/// target, and its target alone.
pub proof fn lemma_relationship_pairs_step(digest: Seq<u8>, rels: Seq<RelationshipView>, i: int)
    requires
        0 <= i < rels.len(),
    ensures
        relationship_pairs(digest, rels.take(i + 1)) == relationship_pairs(
            digest,
            rels.take(i),
        ).insert(((rels[i].rel_type, rels[i].target), digest)),
        reference_pairs(digest, rels.take(i + 1)) == reference_pairs(digest, rels.take(i)).insert(
            (rels[i].target, digest),
        ),
{
    let earlier = rels.take(i);
    let next = rels.take(i + 1);
    assert(next =~= earlier.push(rels[i]));
    assert forall|pair: ((Seq<char>, Seq<u8>), Seq<u8>)|
        relationship_pairs(digest, next).contains(pair) <==> relationship_pairs(
            digest,
            earlier,
        ).insert(((rels[i].rel_type, rels[i].target), digest)).contains(pair) by {
        let item = RelationshipView { rel_type: pair.0.0, target: pair.0.1 };
        if earlier.contains(item) {
            let k = choose|k: int| 0 <= k < earlier.len() && earlier[k] == item;
            assert(next[k] == item);
        }
        if next.contains(item) {
            let k = choose|k: int| 0 <= k < next.len() && next[k] == item;
            if k < i {
                assert(earlier[k] == item);
            }
        }
        assert(next[i] == rels[i]);
    }
    assert(relationship_pairs(digest, next) =~= relationship_pairs(digest, earlier).insert(
        ((rels[i].rel_type, rels[i].target), digest),
    ));
    assert forall|pair: (Seq<u8>, Seq<u8>)|
        reference_pairs(digest, next).contains(pair) <==> reference_pairs(digest, earlier).insert(
            (rels[i].target, digest),
        ).contains(pair) by {
        if reference_pairs(digest, earlier).contains(pair) {
            let k = choose|k: int|
                0 <= k < earlier.len() && (#[trigger] earlier[k]).target == pair.0;
            assert(next[k].target == pair.0);
        }
        if reference_pairs(digest, next).contains(pair) {
            let k = choose|k: int| 0 <= k < next.len() && (#[trigger] next[k]).target == pair.0;
            if k < i {
                assert(earlier[k].target == pair.0);
            }
        }
        assert(next[i] == rels[i]);
    }
    assert(reference_pairs(digest, next) =~= reference_pairs(digest, earlier).insert(
        (rels[i].target, digest),
    ));
}

impl IndexView {
    /// The index with nothing filed.
    pub open spec fn empty() -> IndexView {
        IndexView {
            by_type: Set::empty(),
            by_field: Set::empty(),
            by_relationship: Set::empty(),
            references_to: Set::empty(),
        }
    }

    /// The index after the envelope `e` was filed under `digest`.
    pub open spec fn add(self, digest: Seq<u8>, e: EnvelopeView) -> IndexView {
        IndexView {
            by_type: self.by_type.insert((e.type_hash, digest)),
            by_field: self.by_field.union(field_pairs(digest, e.index)),
            by_relationship: self.by_relationship.union(
                relationship_pairs(digest, e.relationships),
            ),
            references_to: self.references_to.union(reference_pairs(digest, e.relationships)),
        }
    }

    /// The index after what `e` files under `digest` was taken out.
    pub open spec fn remove(self, digest: Seq<u8>, e: EnvelopeView) -> IndexView {
        IndexView {
            by_type: self.by_type.remove((e.type_hash, digest)),
            by_field: self.by_field.difference(field_pairs(digest, e.index)),
            by_relationship: self.by_relationship.difference(
                relationship_pairs(digest, e.relationships),
            ),
            references_to: self.references_to.difference(
                reference_pairs(digest, e.relationships),
            ),
        }
    }

    /// The envelopes of the type `type_hash`.
    pub open spec fn of_type(self, type_hash: Seq<u8>) -> Set<Seq<u8>> {
        filed_under(self.by_type, type_hash)
    }

    /// The envelopes in which the field `key` is the text `value`.
    pub open spec fn with_field(self, key: Seq<char>, value: Seq<char>) -> Set<Seq<u8>> {
        filed_under(self.by_field, (key, value))
    }

    /// The envelopes with a relationship of kind `rel_type` to `target`.
    pub open spec fn related_to(self, rel_type: Seq<char>, target: Seq<u8>) -> Set<Seq<u8>> {
        filed_under(self.by_relationship, (rel_type, target))
    }

    /// The envelopes with a relationship of any kind to `target`.
    pub open spec fn referring_to(self, target: Seq<u8>) -> Set<Seq<u8>> {
        filed_under(self.references_to, target)
    }

    /// Whether every envelope filed is among `digests`.
    pub open spec fn within(self, digests: Set<Seq<u8>>) -> bool {
        &&& forall|pair: (Seq<u8>, Seq<u8>)| #[trigger]
            self.by_type.contains(pair) ==> digests.contains(pair.1)
        &&& forall|pair: ((Seq<char>, Seq<char>), Seq<u8>)| #[trigger]
            self.by_field.contains(pair) ==> digests.contains(pair.1)
        &&& forall|pair: ((Seq<char>, Seq<u8>), Seq<u8>)| #[trigger]
            self.by_relationship.contains(pair) ==> digests.contains(pair.1)
        &&& forall|pair: (Seq<u8>, Seq<u8>)| #[trigger]
            self.references_to.contains(pair) ==> digests.contains(pair.1)
    }
}

/// An index over envelopes: by type, by text field, by relationship and by
/// target of any relationship.
///
/// The index holds digests only. It is told what to file and what to take
/// out; it keeps no envelope.
#[derive(Debug)]
pub struct Index {
    by_type: Relation<Hash256>,
    by_string_field: Relation<(String, String)>,
    by_relationship: Relation<(String, Hash256)>,
    references_to: Relation<Hash256>,
}

impl View for Index {
    type V = IndexView;

    closed spec fn view(&self) -> IndexView {
        IndexView {
            by_type: self.by_type@,
            by_field: self.by_string_field@,
            by_relationship: self.by_relationship@,
            references_to: self.references_to@,
        }
    }
}

impl Default for Index {
    fn default() -> (index: Self)
        ensures
            index@ == IndexView::empty(),
    {
        Index::new()
    }
}

impl Index {
    /// An index with nothing filed.
    pub fn new() -> (index: Self)
        ensures
            index@ == IndexView::empty(),
    {
        Index {
            by_type: Relation::new(),
            by_string_field: Relation::new(),
            by_relationship: Relation::new(),
            references_to: Relation::new(),
        }
    }

    /// Files `envelope` under `hash`: by its type, by each text field, and
    /// by each relationship and its target.
    pub fn add(&mut self, hash: Hash256, envelope: &Envelope)
        ensures
            final(self)@ == old(self)@.add(hash@, envelope@),
    {
        let ghost e = envelope@;
        let ghost before = self@;
        self.by_type.insert(envelope.type_hash, hash);

        let mut i: usize = 0;
        assert(self.by_string_field@ =~= before.by_field.union(
            field_pairs(hash@, e.index.take(0)),
        ));
        while i < envelope.index.len()
            invariant
                i <= envelope.index@.len(),
                e == envelope@,
                self.by_type@ == before.by_type.insert((e.type_hash, hash@)),
                self.by_relationship@ == before.by_relationship,
                self.references_to@ == before.references_to,
                self.by_string_field@ == before.by_field.union(
                    field_pairs(hash@, e.index.take(i as int)),
                ),
            decreases envelope.index@.len() - i,
        {
            assert(e.index[i as int] == (envelope.index@[i as int].0@, envelope.index@[i as int].1@));
            if let IndexValue::String(text) = &envelope.index[i].1 {
                self.by_string_field.insert((envelope.index[i].0.clone(), text.clone()), hash);
            }
            proof {
                lemma_field_pairs_step(hash@, e.index, i as int);
                assert(self.by_string_field@ =~= before.by_field.union(
                    field_pairs(hash@, e.index.take(i + 1)),
                ));
            }
            i += 1;
        }
        assert(e.index.take(i as int) =~= e.index);

        let mut i: usize = 0;
        assert(self.by_relationship@ =~= before.by_relationship.union(
            relationship_pairs(hash@, e.relationships.take(0)),
        ));
        assert(self.references_to@ =~= before.references_to.union(
            reference_pairs(hash@, e.relationships.take(0)),
        ));
        while i < envelope.relationships.len()
            invariant
                i <= envelope.relationships@.len(),
                e == envelope@,
                self.by_type@ == before.by_type.insert((e.type_hash, hash@)),
                self.by_string_field@ == before.by_field.union(field_pairs(hash@, e.index)),
                self.by_relationship@ == before.by_relationship.union(
                    relationship_pairs(hash@, e.relationships.take(i as int)),
                ),
                self.references_to@ == before.references_to.union(
                    reference_pairs(hash@, e.relationships.take(i as int)),
                ),
            decreases envelope.relationships@.len() - i,
        {
            let rel = &envelope.relationships[i];
            assert(e.relationships[i as int] == rel@);
            self.by_relationship.insert((rel.rel_type.clone(), rel.target), hash);
            self.references_to.insert(rel.target, hash);
            proof {
                lemma_relationship_pairs_step(hash@, e.relationships, i as int);
                assert(self.by_relationship@ =~= before.by_relationship.union(
                    relationship_pairs(hash@, e.relationships.take(i + 1)),
                ));
                assert(self.references_to@ =~= before.references_to.union(
                    reference_pairs(hash@, e.relationships.take(i + 1)),
                ));
            }
            i += 1;
        }
        assert(e.relationships.take(i as int) =~= e.relationships);
    }

    /// Takes out what `envelope` files under `hash`. The envelope must be
    /// the one that was filed under `hash`: the index cannot tell.
    pub fn remove(&mut self, hash: &Hash256, envelope: &Envelope)
        ensures
            final(self)@ == old(self)@.remove(hash@, envelope@),
    {
        let ghost e = envelope@;
        let ghost before = self@;
        self.by_type.remove(&envelope.type_hash, hash);

        let mut i: usize = 0;
        assert(self.by_string_field@ =~= before.by_field.difference(
            field_pairs(hash@, e.index.take(0)),
        ));
        while i < envelope.index.len()
            invariant
                i <= envelope.index@.len(),
                e == envelope@,
                self.by_type@ == before.by_type.remove((e.type_hash, hash@)),
                self.by_relationship@ == before.by_relationship,
                self.references_to@ == before.references_to,
                self.by_string_field@ == before.by_field.difference(
                    field_pairs(hash@, e.index.take(i as int)),
                ),
            decreases envelope.index@.len() - i,
        {
            assert(e.index[i as int] == (envelope.index@[i as int].0@, envelope.index@[i as int].1@));
            if let IndexValue::String(text) = &envelope.index[i].1 {
                let key = (envelope.index[i].0.clone(), text.clone());
                self.by_string_field.remove(&key, hash);
            }
            proof {
                lemma_field_pairs_step(hash@, e.index, i as int);
                assert(self.by_string_field@ =~= before.by_field.difference(
                    field_pairs(hash@, e.index.take(i + 1)),
                ));
            }
            i += 1;
        }
        assert(e.index.take(i as int) =~= e.index);

        let mut i: usize = 0;
        assert(self.by_relationship@ =~= before.by_relationship.difference(
            relationship_pairs(hash@, e.relationships.take(0)),
        ));
        assert(self.references_to@ =~= before.references_to.difference(
            reference_pairs(hash@, e.relationships.take(0)),
        ));
        while i < envelope.relationships.len()
            invariant
                i <= envelope.relationships@.len(),
                e == envelope@,
                self.by_type@ == before.by_type.remove((e.type_hash, hash@)),
                self.by_string_field@ == before.by_field.difference(field_pairs(hash@, e.index)),
                self.by_relationship@ == before.by_relationship.difference(
                    relationship_pairs(hash@, e.relationships.take(i as int)),
                ),
                self.references_to@ == before.references_to.difference(
                    reference_pairs(hash@, e.relationships.take(i as int)),
                ),
            decreases envelope.relationships@.len() - i,
        {
            let rel = &envelope.relationships[i];
            assert(e.relationships[i as int] == rel@);
            let key = (rel.rel_type.clone(), rel.target);
            self.by_relationship.remove(&key, hash);
            self.references_to.remove(&rel.target, hash);
            proof {
                lemma_relationship_pairs_step(hash@, e.relationships, i as int);
                assert(self.by_relationship@ =~= before.by_relationship.difference(
                    relationship_pairs(hash@, e.relationships.take(i + 1)),
                ));
                assert(self.references_to@ =~= before.references_to.difference(
                    reference_pairs(hash@, e.relationships.take(i + 1)),
                ));
            }
            i += 1;
        }
        assert(e.relationships.take(i as int) =~= e.relationships);
    }

    /// The envelopes of the type `type_hash`, each once.
    pub fn by_type(&self, type_hash: &Hash256) -> (found: Vec<Hash256>)
        ensures
            digests_of(found@).no_duplicates(),
            digests_of(found@).to_set() == self@.of_type(type_hash@),
    {
        self.by_type.lookup(type_hash)
    }

    /// The envelopes in which the field `field` is the text `value`, each
    /// once.
    pub fn by_field(&self, field: &str, value: &str) -> (found: Vec<Hash256>)
        ensures
            digests_of(found@).no_duplicates(),
            digests_of(found@).to_set() == self@.with_field(field@, value@),
    {
        let key = (field.to_owned(), value.to_owned());
        self.by_string_field.lookup(&key)
    }

    /// The envelopes with a relationship of any kind to `target`, each once.
    pub fn references_to(&self, target: &Hash256) -> (found: Vec<Hash256>)
        ensures
            digests_of(found@).no_duplicates(),
            digests_of(found@).to_set() == self@.referring_to(target@),
    {
        self.references_to.lookup(target)
    }

    /// The envelopes with a relationship of kind `rel_type` to `target`,
    /// each once.
    pub fn by_relationship(&self, rel_type: &str, target: &Hash256) -> (found: Vec<Hash256>)
        ensures
            digests_of(found@).no_duplicates(),
            digests_of(found@).to_set() == self@.related_to(rel_type@, target@),
    {
        let key = (rel_type.to_owned(), *target);
        self.by_relationship.lookup(&key)
    }
}

/// The mathematical value of an [`IndexedStore`].
pub struct IndexedStoreView {
    /// The stored encodings by digest.
    pub objects: Map<Seq<u8>, Seq<u8>>,
    /// What the index files.
    pub index: IndexView,
}

/// A store that keeps an index of what it holds.
///
/// Every envelope put into the store is filed in the index before `put`
/// returns, and the index files no digest that the store does not hold.
#[derive(Debug)]
pub struct IndexedStore {
    store: Store,
    index: Index,
}

impl View for IndexedStore {
    type V = IndexedStoreView;

    closed spec fn view(&self) -> IndexedStoreView {
        IndexedStoreView { objects: self.store@, index: self.index@ }
    }
}

impl Default for IndexedStore {
    fn default() -> (store: Self)
        ensures
            store@.objects == Map::<Seq<u8>, Seq<u8>>::empty(),
            store@.index == IndexView::empty(),
    {
        IndexedStore::new()
    }
}

impl IndexedStore {
    /// Every digest that the index files is the digest of a stored object.
    #[verifier::type_invariant]
    spec fn inv(&self) -> bool {
        self.index@.within(self.store@.dom())
    }

    /// An empty store with an empty index.
    pub fn new() -> (store: Self)
        ensures
            store@.objects == Map::<Seq<u8>, Seq<u8>>::empty(),
            store@.index == IndexView::empty(),
    {
        IndexedStore { store: Store::new(), index: Index::new() }
    }

    /// Stores `envelope` and files it in the index under its digest, which
    /// is returned. An envelope that is not well formed is refused with
    /// `InvalidEnvelope`, and nothing changes.
    pub fn put(&mut self, envelope: &Envelope) -> (res: Result<Hash256, Error>)
        ensures
            match res {
                Ok(digest) => {
                    &&& envelope.wf()
                    &&& digest@ == spec_digest(envelope@)
                    &&& final(self)@.objects == spec_put(old(self)@.objects, envelope@)
                    &&& final(self)@.index == old(self)@.index.add(digest@, envelope@)
                },
                Err(e) => !envelope.wf() && e.is_refusal() && final(self)@ == old(self)@,
            },
            final(self)@.index.within(final(self)@.objects.dom()),
    {
        proof {
            use_type_invariant(&*self);
        }
        let mut taken = IndexedStore::new();
        core::mem::swap(self, &mut taken);
        let IndexedStore { mut store, mut index } = taken;
        let res = store.put(envelope);
        if let Ok(hash) = &res {
            index.add(*hash, envelope);
        }
        *self = IndexedStore { store, index };
        res
    }

    /// The envelope stored under `hash`, read back from its encoding, or
    /// `NotFound` with the digest in hex where nothing is stored under it.
    pub fn get(&self, hash: &Hash256) -> (res: Result<Envelope, Error>)
        ensures
            self@.objects.contains_key(hash@) ==> (res matches Ok(envelope) && spec_decode(
                self@.objects[hash@],
            ) == Ok::<EnvelopeView, DecodeError>(envelope@)),
            !self@.objects.contains_key(hash@) ==> (res matches Err(Error::NotFound(text)) && text@
                == spec_hex_encode(hash@)),
    {
        self.store.get(hash)
    }

    /// Whether an object is stored under `hash`.
    pub fn contains(&self, hash: &Hash256) -> (found: bool)
        ensures
            found == self@.objects.contains_key(hash@),
    {
        self.store.contains(hash)
    }

    /// The stored envelopes of the type `type_hash`, each once.
    pub fn query_by_type(&self, type_hash: &Hash256) -> (found: Vec<Hash256>)
        ensures
            digests_of(found@).no_duplicates(),
            digests_of(found@).to_set() == self@.index.of_type(type_hash@),
            self@.index.of_type(type_hash@).subset_of(self@.objects.dom()),
    {
        proof {
            use_type_invariant(self);
            assert forall|d: Seq<u8>| self@.index.of_type(type_hash@).contains(d) implies self@
                .objects.dom().contains(d) by {
                assert(self@.index.by_type.contains((type_hash@, d)));
            }
        }
        self.index.by_type(type_hash)
    }

    /// The stored envelopes in which the field `field` is the text `value`,
    /// each once.
    pub fn query_by_field(&self, field: &str, value: &str) -> (found: Vec<Hash256>)
        ensures
            digests_of(found@).no_duplicates(),
            digests_of(found@).to_set() == self@.index.with_field(field@, value@),
            self@.index.with_field(field@, value@).subset_of(self@.objects.dom()),
    {
        proof {
            use_type_invariant(self);
            assert forall|d: Seq<u8>|
                self@.index.with_field(field@, value@).contains(d) implies self@.objects.dom()
                .contains(d) by {
                assert(self@.index.by_field.contains(((field@, value@), d)));
            }
        }
        self.index.by_field(field, value)
    }

    /// The stored envelopes with a relationship of any kind to `target`,
    /// each once.
    pub fn query_references_to(&self, target: &Hash256) -> (found: Vec<Hash256>)
        ensures
            digests_of(found@).no_duplicates(),
            digests_of(found@).to_set() == self@.index.referring_to(target@),
            self@.index.referring_to(target@).subset_of(self@.objects.dom()),
    {
        proof {
            use_type_invariant(self);
            assert forall|d: Seq<u8>| self@.index.referring_to(target@).contains(d) implies self@
                .objects.dom().contains(d) by {
                assert(self@.index.references_to.contains((target@, d)));
            }
        }
        self.index.references_to(target)
    }

    /// The number of stored objects.
    pub fn len(&self) -> (count: usize)
        ensures
            self@.objects.dom().finite(),
            count == self@.objects.len(),
    {
        self.store.len()
    }

    /// Whether nothing is stored.
    pub fn is_empty(&self) -> (empty: bool)
        ensures
            empty == (self@.objects == Map::<Seq<u8>, Seq<u8>>::empty()),
    {
        self.store.is_empty()
    }
}

/// Filing keeps the index within the store: after an envelope was put and
/// filed under its digest, the index files no digest that the store does
/// not hold.
pub proof fn law_index_within_store(
    objects: Map<Seq<u8>, Seq<u8>>,
    index: IndexView,
    e: EnvelopeView,
)
    requires
        index.within(objects.dom()),
    ensures
        index.add(spec_digest(e), e).within(spec_put(objects, e).dom()),
{
}

/// A relationship is found in both directions and leaves them together:
/// after an envelope was filed, its source is found under the target of
/// each of its relationships, by kind and target and by target alone; after
/// it was taken out, it is found under neither.
pub proof fn law_reverse_index(index: IndexView, source: Seq<u8>, e: EnvelopeView, i: int)
    requires
        0 <= i < e.relationships.len(),
    ensures
        ({
            let rel = e.relationships[i];
            let added = index.add(source, e);
            let removed = added.remove(source, e);
            &&& added.referring_to(rel.target).contains(source)
            &&& added.related_to(rel.rel_type, rel.target).contains(source)
            &&& !removed.referring_to(rel.target).contains(source)
            &&& !removed.related_to(rel.rel_type, rel.target).contains(source)
            &&& !index.remove(source, e).referring_to(rel.target).contains(source)
            &&& !index.remove(source, e).related_to(rel.rel_type, rel.target).contains(source)
        }),
{
    let rel = e.relationships[i];
    assert(e.relationships.contains(rel));
    assert(reference_pairs(source, e.relationships).contains((rel.target, source)));
    assert(relationship_pairs(source, e.relationships).contains(
        ((rel.rel_type, rel.target), source),
    ));
}

/// Filing an envelope twice under one digest is filing it once.
pub proof fn law_add_twice(index: IndexView, source: Seq<u8>, e: EnvelopeView)
    ensures
        index.add(source, e).add(source, e) == index.add(source, e),
{
    let once = index.add(source, e);
    let twice = once.add(source, e);
    assert(twice.by_type =~= once.by_type);
    assert(twice.by_field =~= once.by_field);
    assert(twice.by_relationship =~= once.by_relationship);
    assert(twice.references_to =~= once.references_to);
}

/// What was filed and taken out again leaves no trace, if none of it was
/// filed before.
pub proof fn law_remove_undoes_add(index: IndexView, source: Seq<u8>, e: EnvelopeView)
    requires
        !index.by_type.contains((e.type_hash, source)),
        index.by_field.disjoint(field_pairs(source, e.index)),
        index.by_relationship.disjoint(relationship_pairs(source, e.relationships)),
        index.references_to.disjoint(reference_pairs(source, e.relationships)),
    ensures
        index.add(source, e).remove(source, e) == index,
{
    let back = index.add(source, e).remove(source, e);
    assert(back.by_type =~= index.by_type);
    assert(back.by_field =~= index.by_field);
    assert(back.by_relationship =~= index.by_relationship);
    assert(back.references_to =~= index.references_to);
}

/// The envelope that is stored under `digest`, if one is.
pub open spec fn stored_envelope(objects: Map<Seq<u8>, Seq<u8>>, digest: Seq<u8>) -> Option<
    EnvelopeView,
> {
    if objects.contains_key(digest) {
        match spec_decode(objects[digest]) {
            Ok(e) => Some(e),
            Err(_) => None,
        }
    } else {
        None
    }
}

/// The index of exactly what is stored: each stored envelope, as it is
/// read back, filed under its digest.
pub open spec fn index_of_store(objects: Map<Seq<u8>, Seq<u8>>) -> IndexView {
    IndexView {
        by_type: Set::new(
            |pair: (Seq<u8>, Seq<u8>)|
                stored_envelope(objects, pair.1) matches Some(e) && e.type_hash == pair.0,
        ),
        by_field: Set::new(
            |pair: ((Seq<char>, Seq<char>), Seq<u8>)|
                stored_envelope(objects, pair.1) matches Some(e) && field_pairs(
                    pair.1,
                    e.index,
                ).contains(pair),
        ),
        by_relationship: Set::new(
            |pair: ((Seq<char>, Seq<u8>), Seq<u8>)|
                stored_envelope(objects, pair.1) matches Some(e) && relationship_pairs(
                    pair.1,
                    e.relationships,
                ).contains(pair),
        ),
        references_to: Set::new(
            |pair: (Seq<u8>, Seq<u8>)|
                stored_envelope(objects, pair.1) matches Some(e) && reference_pairs(
                    pair.1,
                    e.relationships,
                ).contains(pair),
        ),
    }
}

/// An envelope files what its canonical form files: the index does not
/// see the order of relationships and index fields.
pub proof fn lemma_canonical_form_files_alike(digest: Seq<u8>, e: EnvelopeView)
    ensures
        field_pairs(digest, canonical_form(e).index) == field_pairs(digest, e.index),
        relationship_pairs(digest, canonical_form(e).relationships) == relationship_pairs(
            digest,
            e.relationships,
        ),
        reference_pairs(digest, canonical_form(e).relationships) == reference_pairs(
            digest,
            e.relationships,
        ),
{
    let c = canonical_form(e);
    lemma_sort_same_items(e.index, entry_order());
    lemma_sort_same_items(e.relationships, relationship_order());
    assert(field_pairs(digest, c.index) =~= field_pairs(digest, e.index));
    assert(relationship_pairs(digest, c.relationships) =~= relationship_pairs(
        digest,
        e.relationships,
    ));
    assert forall|pair: (Seq<u8>, Seq<u8>)|
        reference_pairs(digest, c.relationships).contains(pair) <==> reference_pairs(
            digest,
            e.relationships,
        ).contains(pair) by {
        if reference_pairs(digest, c.relationships).contains(pair) {
            let i = choose|i: int|
                0 <= i < c.relationships.len() && (#[trigger] c.relationships[i]).target
                    == pair.0;
            assert(c.relationships.contains(c.relationships[i]));
            assert(e.relationships.contains(c.relationships[i]));
            let j = choose|j: int|
                0 <= j < e.relationships.len() && e.relationships[j] == c.relationships[i];
            assert(e.relationships[j].target == pair.0);
        }
        if reference_pairs(digest, e.relationships).contains(pair) {
            let i = choose|i: int|
                0 <= i < e.relationships.len() && (#[trigger] e.relationships[i]).target
                    == pair.0;
            assert(e.relationships.contains(e.relationships[i]));
            assert(c.relationships.contains(e.relationships[i]));
            let j = choose|j: int|
                0 <= j < c.relationships.len() && c.relationships[j] == e.relationships[i];
            assert(c.relationships[j].target == pair.0);
        }
    }
    assert(reference_pairs(digest, c.relationships) =~= reference_pairs(
        digest,
        e.relationships,
    ));
}

/// The index follows the store: where the index holds exactly what is
/// stored, it does so again after an envelope was put and filed, unless
/// another object is already stored under the digest of the envelope.
pub proof fn law_index_follows_store(objects: Map<Seq<u8>, Seq<u8>>, e: EnvelopeView)
    requires
        well_formed(e),
        objects.contains_key(spec_digest(e)) ==> objects[spec_digest(e)] == spec_encode(e),
    ensures
        index_of_store(spec_put(objects, e)) == index_of_store(objects).add(spec_digest(e), e),
{
    let d = spec_digest(e);
    let after = spec_put(objects, e);
    let left = index_of_store(after);
    let right = index_of_store(objects).add(d, e);
    law_decode_encode(e);
    lemma_canonical_form_files_alike(d, e);
    assert(stored_envelope(after, d) == Some(canonical_form(e)));
    assert forall|k: Seq<u8>| k != d implies #[trigger] stored_envelope(after, k)
        == stored_envelope(objects, k) by {}
    assert(objects.contains_key(d) ==> stored_envelope(objects, d) == Some(canonical_form(e)));
    assert forall|pair: (Seq<u8>, Seq<u8>)|
        left.by_type.contains(pair) <==> right.by_type.contains(pair) by {
        assert(stored_envelope(after, pair.1) == if pair.1 == d {
            Some(canonical_form(e))
        } else {
            stored_envelope(objects, pair.1)
        });
    }
    assert(left.by_type =~= right.by_type);
    assert forall|pair: ((Seq<char>, Seq<char>), Seq<u8>)|
        left.by_field.contains(pair) <==> right.by_field.contains(pair) by {
        assert(stored_envelope(after, pair.1) == if pair.1 == d {
            Some(canonical_form(e))
        } else {
            stored_envelope(objects, pair.1)
        });
    }
    assert(left.by_field =~= right.by_field);
    assert forall|pair: ((Seq<char>, Seq<u8>), Seq<u8>)|
        left.by_relationship.contains(pair) <==> right.by_relationship.contains(pair) by {
        assert(stored_envelope(after, pair.1) == if pair.1 == d {
            Some(canonical_form(e))
        } else {
            stored_envelope(objects, pair.1)
        });
    }
    assert(left.by_relationship =~= right.by_relationship);
    assert forall|pair: (Seq<u8>, Seq<u8>)|
        left.references_to.contains(pair) <==> right.references_to.contains(pair) by {
        assert(stored_envelope(after, pair.1) == if pair.1 == d {
            Some(canonical_form(e))
        } else {
            stored_envelope(objects, pair.1)
        });
    }
    assert(left.references_to =~= right.references_to);
}

} // verus!
