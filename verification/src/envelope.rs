//! The envelope model: relationships, index values, envelopes and their
//! builder, each with its mathematical view.

use crate::hash::{lemma_digest_len, Hash256};
use crate::wire::MAX_LEN;
use vstd::prelude::*;
use vstd::utf8::encode_utf8;

verus! {

/// A typed reference to another envelope.
#[derive(Debug, Clone, PartialEq, Eq)]
pub struct Relationship {
    /// The kind of relationship, such as "author" or "parent".
    pub rel_type: String,
    /// The digest of the envelope referred to.
    pub target: Hash256,
}

/// The mathematical value of a [`Relationship`].
pub struct RelationshipView {
    pub rel_type: Seq<char>,
    pub target: Seq<u8>,
}

impl View for Relationship {
    type V = RelationshipView;

    open spec fn view(&self) -> RelationshipView {
        RelationshipView { rel_type: self.rel_type@, target: self.target@ }
    }
}

impl Relationship {
    /// A relationship of kind `rel_type` to `target`.
    pub fn new(rel_type: &str, target: Hash256) -> (rel: Self)
        ensures
            rel@ == (RelationshipView { rel_type: rel_type@, target: target@ }),
    {
        Relationship { rel_type: rel_type.to_owned(), target }
    }
}

/// The value of an index field.
#[derive(Debug, Clone, PartialEq, Eq)]
pub enum IndexValue {
    String(String),
    Int64(i64),
    /// A 64-bit IEEE-754 number, held as its bit pattern.
    Float64(u64),
    Bool(bool),
    Hash(Hash256),
    /// Seconds since the epoch.
    Timestamp(i64),
}

/// The mathematical value of an [`IndexValue`].
pub enum IndexValueView {
    String(Seq<char>),
    Int64(i64),
    Float64(u64),
    Bool(bool),
    Hash(Seq<u8>),
    Timestamp(i64),
}

impl View for IndexValue {
    type V = IndexValueView;

    open spec fn view(&self) -> IndexValueView {
        match self {
            IndexValue::String(s) => IndexValueView::String(s@),
            IndexValue::Int64(v) => IndexValueView::Int64(*v),
            IndexValue::Float64(bits) => IndexValueView::Float64(*bits),
            IndexValue::Bool(b) => IndexValueView::Bool(*b),
            IndexValue::Hash(h) => IndexValueView::Hash(h@),
            IndexValue::Timestamp(t) => IndexValueView::Timestamp(*t),
        }
    }
}

impl From<&str> for IndexValue {
    fn from(s: &str) -> (value: Self)
        ensures
            value@ == IndexValueView::String(s@),
    {
        IndexValue::String(s.to_owned())
    }
}

impl vstd::std_specs::convert::FromSpecImpl<&str> for IndexValue {
    /// The conversion is specified by its value, through the contract of
    /// `from`: which owned text it allocates cannot be named.
    open spec fn obeys_from_spec() -> bool {
        false
    }

    /// Some text value that reads as `s`.
    open spec fn from_spec(s: &str) -> Self {
        choose|value: IndexValue| value@ == IndexValueView::String(s@)
    }
}

impl From<String> for IndexValue {
    fn from(s: String) -> (value: Self) {
        IndexValue::String(s)
    }
}

impl vstd::std_specs::convert::FromSpecImpl<String> for IndexValue {
    open spec fn obeys_from_spec() -> bool {
        true
    }

    open spec fn from_spec(s: String) -> Self {
        IndexValue::String(s)
    }
}

impl From<i64> for IndexValue {
    fn from(v: i64) -> (value: Self) {
        IndexValue::Int64(v)
    }
}

impl vstd::std_specs::convert::FromSpecImpl<i64> for IndexValue {
    open spec fn obeys_from_spec() -> bool {
        true
    }

    open spec fn from_spec(v: i64) -> Self {
        IndexValue::Int64(v)
    }
}

impl From<bool> for IndexValue {
    fn from(v: bool) -> (value: Self) {
        IndexValue::Bool(v)
    }
}

impl vstd::std_specs::convert::FromSpecImpl<bool> for IndexValue {
    open spec fn obeys_from_spec() -> bool {
        true
    }

    open spec fn from_spec(v: bool) -> Self {
        IndexValue::Bool(v)
    }
}

impl From<Hash256> for IndexValue {
    fn from(v: Hash256) -> (value: Self) {
        IndexValue::Hash(v)
    }
}

impl vstd::std_specs::convert::FromSpecImpl<Hash256> for IndexValue {
    open spec fn obeys_from_spec() -> bool {
        true
    }

    open spec fn from_spec(v: Hash256) -> Self {
        IndexValue::Hash(v)
    }
}

/// An index field: its key and its value.
pub type EntryView = (Seq<char>, IndexValueView);

/// Whether no key occurs twice in `entries`.
pub open spec fn distinct_keys(entries: Seq<EntryView>) -> bool {
    forall|i: int, j: int|
        0 <= i < j < entries.len() ==> (#[trigger] entries[i]).0 != (#[trigger] entries[j]).0
}

/// Whether some entry of `entries` has the key `key`.
pub open spec fn has_key(entries: Seq<EntryView>, key: Seq<char>) -> bool {
    exists|i: int| 0 <= i < entries.len() && (#[trigger] entries[i]).0 == key
}

/// Whether `i` is the position of the first entry with the key `key`.
pub open spec fn first_with_key(entries: Seq<EntryView>, key: Seq<char>, i: int) -> bool {
    &&& 0 <= i < entries.len()
    &&& entries[i].0 == key
    &&& forall|j: int| 0 <= j < i ==> (#[trigger] entries[j]).0 != key
}

/// `entries` with `key` set to `value`: the entry that has the key is
/// replaced where it stands, and a new key is added at the end.
pub open spec fn upsert(entries: Seq<EntryView>, key: Seq<char>, value: IndexValueView) -> Seq<
    EntryView,
> {
    if has_key(entries, key) {
        entries.update(choose|i: int| first_with_key(entries, key, i), (key, value))
    } else {
        entries.push((key, value))
    }
}

/// A key that some entry has is the key of a first entry.
pub proof fn lemma_first_with_key(entries: Seq<EntryView>, key: Seq<char>, at: int)
    requires
        0 <= at < entries.len(),
        entries[at].0 == key,
    ensures
        exists|i: int| first_with_key(entries, key, i),
    decreases at,
{
    if exists|j: int| 0 <= j < at && (#[trigger] entries[j]).0 == key {
        let j = choose|j: int| 0 <= j < at && (#[trigger] entries[j]).0 == key;
        lemma_first_with_key(entries, key, j);
    } else {
        assert(first_with_key(entries, key, at));
    }
}

/// Setting a key where no key occurs twice leaves no key occurring twice.
pub proof fn lemma_upsert_keeps_distinct(
    entries: Seq<EntryView>,
    key: Seq<char>,
    value: IndexValueView,
)
    requires
        distinct_keys(entries),
    ensures
        distinct_keys(upsert(entries, key, value)),
{
    if has_key(entries, key) {
        let some = choose|i: int| 0 <= i < entries.len() && (#[trigger] entries[i]).0 == key;
        lemma_first_with_key(entries, key, some);
    }
}

/// The mathematical value of a list of index fields.
pub open spec fn entries_view(entries: Seq<(String, IndexValue)>) -> Seq<EntryView> {
    Seq::new(entries.len(), |i: int| (entries[i].0@, entries[i].1@))
}

/// The mathematical value of a list of relationships.
pub open spec fn relationships_view(rels: Seq<Relationship>) -> Seq<RelationshipView> {
    Seq::new(rels.len(), |i: int| rels[i]@)
}

/// The mathematical value of an optional digest.
pub open spec fn optional_hash_view(h: Option<Hash256>) -> Option<Seq<u8>> {
    match h {
        Some(h) => Some(h@),
        None => None,
    }
}

/// The mathematical value of an optional text.
pub open spec fn optional_text_view(s: Option<String>) -> Option<Seq<char>> {
    match s {
        Some(s) => Some(s@),
        None => None,
    }
}

/// Sets `key` to `value` in `entries`, replacing the entry that has the key
/// or adding one at the end.
pub fn upsert_entry(entries: &mut Vec<(String, IndexValue)>, key: String, value: IndexValue)
    ensures
        entries_view(final(entries)@) == upsert(entries_view(old(entries)@), key@, value@),
{
    let ghost before = entries_view(entries@);
    let mut i: usize = 0;
    while i < entries.len()
        invariant
            i <= entries@.len(),
            entries@ == old(entries)@,
            before == entries_view(entries@),
            forall|j: int| 0 <= j < i ==> (#[trigger] before[j]).0 != key@,
        decreases entries@.len() - i,
    {
        if entries[i].0 == key {
            assert(first_with_key(before, key@, i as int));
            entries[i] = (key, value);
            return ;
        }
        i += 1;
    }
    entries.push((key, value));
}

/// A self-describing record: a type reference, relationships to other
/// envelopes, index fields, an optional link to the version it replaces,
/// an optional creation time, and an opaque payload.
#[derive(Debug, Clone, PartialEq, Eq)]
pub struct Envelope {
    /// The digest of the type schema.
    pub type_hash: Hash256,
    /// A human-readable label of the type, for display.
    pub type_label: Option<String>,
    /// The outgoing relationships.
    pub relationships: Vec<Relationship>,
    /// The index fields; no key occurs twice in a well-formed envelope.
    pub index: Vec<(String, IndexValue)>,
    /// The digest of the version that this one replaces.
    pub previous: Option<Hash256>,
    /// The creation time, in seconds since the epoch.
    pub created_at: Option<i64>,
    /// The payload, opaque to this library.
    pub payload: Vec<u8>,
}

/// The mathematical value of an [`Envelope`].
pub struct EnvelopeView {
    pub type_hash: Seq<u8>,
    pub type_label: Option<Seq<char>>,
    pub relationships: Seq<RelationshipView>,
    pub index: Seq<EntryView>,
    pub previous: Option<Seq<u8>>,
    pub created_at: Option<i64>,
    pub payload: Seq<u8>,
}

impl View for Envelope {
    type V = EnvelopeView;

    open spec fn view(&self) -> EnvelopeView {
        EnvelopeView {
            type_hash: self.type_hash@,
            type_label: optional_text_view(self.type_label),
            relationships: relationships_view(self.relationships@),
            index: entries_view(self.index@),
            previous: optional_hash_view(self.previous),
            created_at: self.created_at,
            payload: self.payload@,
        }
    }
}

/// Whether a length or count fits a 32-bit prefix.
pub open spec fn fits_prefix(len: nat) -> bool {
    len <= MAX_LEN
}

/// Whether a relationship can be encoded: its target is a digest and the
/// length of its kind fits a 32-bit prefix.
pub open spec fn relationship_well_formed(rel: RelationshipView) -> bool {
    &&& rel.target.len() == 32
    &&& fits_prefix(encode_utf8(rel.rel_type).len())
}

/// Whether an index value can be encoded: a digest has 32 bytes and the
/// length of a text fits a 32-bit prefix.
pub open spec fn value_well_formed(value: IndexValueView) -> bool {
    match value {
        IndexValueView::String(s) => fits_prefix(encode_utf8(s).len()),
        IndexValueView::Hash(h) => h.len() == 32,
        _ => true,
    }
}

/// Whether an index field can be encoded.
pub open spec fn entry_well_formed(entry: EntryView) -> bool {
    &&& fits_prefix(encode_utf8(entry.0).len())
    &&& value_well_formed(entry.1)
}

/// Whether an envelope is well formed: its digests have 32 bytes, no index
/// key occurs twice, and every length and count fits a 32-bit prefix.
pub open spec fn well_formed(e: EnvelopeView) -> bool {
    &&& e.type_hash.len() == 32
    &&& (e.type_label matches Some(name) ==> fits_prefix(encode_utf8(name).len()))
    &&& fits_prefix(e.relationships.len())
    &&& forall|i: int|
        0 <= i < e.relationships.len() ==> relationship_well_formed(#[trigger] e.relationships[i])
    &&& fits_prefix(e.index.len())
    &&& forall|i: int| 0 <= i < e.index.len() ==> entry_well_formed(#[trigger] e.index[i])
    &&& distinct_keys(e.index)
    &&& (e.previous matches Some(p) ==> p.len() == 32)
    &&& fits_prefix(e.payload.len())
}

/// Whether the UTF-8 length of `text` fits a 32-bit prefix.
pub fn text_fits(text: &str) -> (ok: bool)
    ensures
        ok == fits_prefix(encode_utf8(text@).len()),
{
    text.as_bytes().len() <= MAX_LEN
}

/// Whether no key occurs twice in `entries`.
pub fn keys_are_distinct(entries: &Vec<(String, IndexValue)>) -> (ok: bool)
    ensures
        ok == distinct_keys(entries_view(entries@)),
{
    let ghost keys = entries_view(entries@);
    let mut j: usize = 0;
    while j < entries.len()
        invariant
            j <= entries@.len(),
            keys == entries_view(entries@),
            forall|a: int, b: int|
                0 <= a < b < j ==> (#[trigger] keys[a]).0 != (#[trigger] keys[b]).0,
        decreases entries@.len() - j,
    {
        let mut i: usize = 0;
        while i < j
            invariant
                i <= j < entries@.len(),
                keys == entries_view(entries@),
                forall|a: int| 0 <= a < i ==> (#[trigger] keys[a]).0 != keys[j as int].0,
            decreases j - i,
        {
            if entries[i].0 == entries[j].0 {
                assert(keys[i as int].0 == keys[j as int].0);
                return false;
            }
            i += 1;
        }
        j += 1;
    }
    true
}

impl Envelope {
    /// Whether the envelope is well formed.
    pub open spec fn wf(&self) -> bool {
        well_formed(self@)
    }

    /// Whether the envelope is well formed: no index key occurs twice, and
    /// every length and count fits a 32-bit prefix.
    pub fn is_well_formed(&self) -> (ok: bool)
        ensures
            ok == self.wf(),
    {
        proof {
            lemma_digest_len(self.type_hash);
            if let Some(p) = self.previous {
                lemma_digest_len(p);
            }
        }
        if let Some(label) = &self.type_label {
            if !text_fits(label.as_str()) {
                return false;
            }
        }
        if self.relationships.len() > MAX_LEN || self.index.len() > MAX_LEN || self.payload.len()
            > MAX_LEN {
            return false;
        }
        let mut i: usize = 0;
        while i < self.relationships.len()
            invariant
                i <= self.relationships@.len(),
                forall|k: int|
                    0 <= k < i ==> relationship_well_formed(#[trigger] self@.relationships[k]),
            decreases self.relationships@.len() - i,
        {
            assert(self@.relationships[i as int] == self.relationships@[i as int]@);
            if !text_fits(self.relationships[i].rel_type.as_str()) {
                return false;
            }
            proof {
                lemma_digest_len(self.relationships@[i as int].target);
            }
            i += 1;
        }
        let mut i: usize = 0;
        while i < self.index.len()
            invariant
                i <= self.index@.len(),
                forall|k: int| 0 <= k < i ==> entry_well_formed(#[trigger] self@.index[k]),
            decreases self.index@.len() - i,
        {
            let fits = text_fits(self.index[i].0.as_str()) && match &self.index[i].1 {
                IndexValue::String(s) => text_fits(s.as_str()),
                _ => true,
            };
            assert(self@.index[i as int] == (self.index@[i as int].0@, self.index@[i as int].1@));
            if !fits {
                return false;
            }
            proof {
                if let IndexValue::Hash(h) = self.index@[i as int].1 {
                    lemma_digest_len(h);
                }
            }
            i += 1;
        }
        keys_are_distinct(&self.index)
    }

    /// Starts an envelope of type `type_hash` around `payload`.
    pub fn builder(type_hash: Hash256, payload: Vec<u8>) -> (builder: EnvelopeBuilder)
        ensures
            builder@ == (EnvelopeView {
                type_hash: type_hash@,
                type_label: None,
                relationships: Seq::empty(),
                index: Seq::empty(),
                previous: None,
                created_at: None,
                payload: payload@,
            }),
    {
        let builder = EnvelopeBuilder {
            type_hash,
            type_label: None,
            relationships: Vec::new(),
            index: Vec::new(),
            previous: None,
            created_at: None,
            payload,
        };
        assert(builder@.relationships =~= Seq::empty());
        assert(builder@.index =~= Seq::empty());
        builder
    }
}

/// Collects the fields of an envelope step by step.
#[derive(Debug)]
pub struct EnvelopeBuilder {
    type_hash: Hash256,
    type_label: Option<String>,
    relationships: Vec<Relationship>,
    index: Vec<(String, IndexValue)>,
    previous: Option<Hash256>,
    created_at: Option<i64>,
    payload: Vec<u8>,
}

impl View for EnvelopeBuilder {
    type V = EnvelopeView;

    /// The envelope that `build` would give.
    closed spec fn view(&self) -> EnvelopeView {
        EnvelopeView {
            type_hash: self.type_hash@,
            type_label: optional_text_view(self.type_label),
            relationships: relationships_view(self.relationships@),
            index: entries_view(self.index@),
            previous: optional_hash_view(self.previous),
            created_at: self.created_at,
            payload: self.payload@,
        }
    }
}

impl EnvelopeBuilder {
    /// No index key is held twice.
    #[verifier::type_invariant]
    spec fn inv(&self) -> bool {
        distinct_keys(entries_view(self.index@))
    }

    /// Sets the type label.
    pub fn type_label(self, name: &str) -> (builder: Self)
        ensures
            builder@ == (EnvelopeView { type_label: Some(name@), ..self@ }),
    {
        proof {
            use_type_invariant(&self);
        }
        EnvelopeBuilder {
            type_hash: self.type_hash,
            type_label: Some(name.to_owned()),
            relationships: self.relationships,
            index: self.index,
            previous: self.previous,
            created_at: self.created_at,
            payload: self.payload,
        }
    }

    /// Adds a relationship after those already there.
    pub fn relationship(self, rel_type: &str, target: Hash256) -> (builder: Self)
        ensures
            builder@ == (EnvelopeView {
                relationships: self@.relationships.push(
                    RelationshipView { rel_type: rel_type@, target: target@ },
                ),
                ..self@
            }),
    {
        proof {
            use_type_invariant(&self);
        }
        let mut relationships = self.relationships;
        let ghost before = relationships_view(relationships@);
        relationships.push(Relationship::new(rel_type, target));
        assert(relationships_view(relationships@) =~= before.push(
            RelationshipView { rel_type: rel_type@, target: target@ },
        ));
        EnvelopeBuilder {
            type_hash: self.type_hash,
            type_label: self.type_label,
            relationships,
            index: self.index,
            previous: self.previous,
            created_at: self.created_at,
            payload: self.payload,
        }
    }

    /// Sets the index field `key` to `value`, replacing an earlier value of
    /// the same key.
    pub fn index(self, key: &str, value: IndexValue) -> (builder: Self)
        ensures
            builder@ == (EnvelopeView { index: upsert(self@.index, key@, value@), ..self@ }),
    {
        proof {
            use_type_invariant(&self);
            lemma_upsert_keeps_distinct(entries_view(self.index@), key@, value@);
        }
        let mut index = self.index;
        upsert_entry(&mut index, key.to_owned(), value);
        EnvelopeBuilder {
            type_hash: self.type_hash,
            type_label: self.type_label,
            relationships: self.relationships,
            index,
            previous: self.previous,
            created_at: self.created_at,
            payload: self.payload,
        }
    }

    /// Sets the version that this one replaces.
    pub fn previous(self, hash: Hash256) -> (builder: Self)
        ensures
            builder@ == (EnvelopeView { previous: Some(hash@), ..self@ }),
    {
        proof {
            use_type_invariant(&self);
        }
        EnvelopeBuilder {
            type_hash: self.type_hash,
            type_label: self.type_label,
            relationships: self.relationships,
            index: self.index,
            previous: Some(hash),
            created_at: self.created_at,
            payload: self.payload,
        }
    }

    /// Sets the creation time, in seconds since the epoch.
    pub fn created_at(self, timestamp: i64) -> (builder: Self)
        ensures
            builder@ == (EnvelopeView { created_at: Some(timestamp), ..self@ }),
    {
        proof {
            use_type_invariant(&self);
        }
        EnvelopeBuilder {
            type_hash: self.type_hash,
            type_label: self.type_label,
            relationships: self.relationships,
            index: self.index,
            previous: self.previous,
            created_at: Some(timestamp),
            payload: self.payload,
        }
    }

    /// The envelope with the fields collected. No index key occurs twice
    /// in it.
    pub fn build(self) -> (envelope: Envelope)
        ensures
            envelope@ == self@,
            distinct_keys(envelope@.index),
    {
        proof {
            use_type_invariant(&self);
        }
        Envelope {
            type_hash: self.type_hash,
            type_label: self.type_label,
            relationships: self.relationships,
            index: self.index,
            previous: self.previous,
            created_at: self.created_at,
            payload: self.payload,
        }
    }
}

} // verus!
