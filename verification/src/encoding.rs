//! The canonical encoding of an envelope: a fixed little-endian layout with
//! a length or count in front of everything of variable size.
//!
//! The encoding is the content that is hashed and stored. Relationships and
//! index fields are written in canonical order, so envelopes that differ
//! only in the order in which they were filled encode to the same bytes.

use crate::canonical::{
    canonical_index, canonical_relationships, entry_refs_view, lemma_canonical_index,
    lemma_canonical_relationships, relationship_refs_view, sorted_entries, sorted_relationships,
};
use crate::envelope::{
    entries_view, entry_well_formed, optional_hash_view, optional_text_view,
    relationship_well_formed, relationships_view, EntryView, Envelope, EnvelopeView, IndexValue,
    IndexValueView, Relationship, RelationshipView,
};
use crate::error::Error;
use crate::hash::{spec_sha256, Hash256};
use crate::wire::{i64_bits, le32, le64, put_bytes, put_i64, put_u32, put_u64};
use vstd::prelude::*;
use vstd::utf8::encode_utf8;

verus! {

/// The tag of an index value that is a text.
pub const TAG_STRING: u8 = 0;

/// The tag of an index value that is a signed 64-bit number.
pub const TAG_INT64: u8 = 1;

/// The tag of an index value that is a 64-bit IEEE-754 number.
pub const TAG_FLOAT64: u8 = 2;

/// The tag of an index value that is a truth value.
pub const TAG_BOOL: u8 = 3;

/// The tag of an index value that is a digest.
pub const TAG_HASH: u8 = 4;

/// The tag of an index value that is a time.
pub const TAG_TIMESTAMP: u8 = 5;

/// A text: the length of its UTF-8 bytes, then those bytes.
pub open spec fn encode_text(text: Seq<char>) -> Seq<u8> {
    le32(encode_utf8(text).len() as u32) + encode_utf8(text)
}

/// A relationship: its kind as text, then the 32 bytes of its target.
pub open spec fn encode_relationship(rel: RelationshipView) -> Seq<u8> {
    encode_text(rel.rel_type) + rel.target
}

/// Relationships one after the other.
pub open spec fn encode_relationships(rels: Seq<RelationshipView>) -> Seq<u8>
    decreases rels.len(),
{
    if rels.len() == 0 {
        Seq::empty()
    } else {
        encode_relationship(rels[0]) + encode_relationships(rels.drop_first())
    }
}

/// An index value: the tag of its variant, then a text with its length,
/// eight bytes of a number or a time, one byte of a truth value, or the 32
/// bytes of a digest.
pub open spec fn encode_value(value: IndexValueView) -> Seq<u8> {
    match value {
        IndexValueView::String(s) => seq![TAG_STRING] + encode_text(s),
        IndexValueView::Int64(v) => seq![TAG_INT64] + le64(i64_bits(v)),
        IndexValueView::Float64(bits) => seq![TAG_FLOAT64] + le64(bits),
        IndexValueView::Bool(b) => seq![TAG_BOOL, if b { 1u8 } else { 0u8 }],
        IndexValueView::Hash(h) => seq![TAG_HASH] + h,
        IndexValueView::Timestamp(t) => seq![TAG_TIMESTAMP] + le64(i64_bits(t)),
    }
}

/// An index field: its key as text, then its value.
pub open spec fn encode_entry(entry: EntryView) -> Seq<u8> {
    encode_text(entry.0) + encode_value(entry.1)
}

/// Index fields one after the other.
pub open spec fn encode_entries(entries: Seq<EntryView>) -> Seq<u8>
    decreases entries.len(),
{
    if entries.len() == 0 {
        Seq::empty()
    } else {
        encode_entry(entries[0]) + encode_entries(entries.drop_first())
    }
}

/// An optional digest: a presence byte, then the 32 bytes if present.
pub open spec fn encode_optional_hash(hash: Option<Seq<u8>>) -> Seq<u8> {
    match hash {
        Some(h) => seq![1u8] + h,
        None => seq![0u8],
    }
}

/// An optional time: a presence byte, then eight bytes if present.
pub open spec fn encode_optional_time(time: Option<i64>) -> Seq<u8> {
    match time {
        Some(t) => seq![1u8] + le64(i64_bits(t)),
        None => seq![0u8],
    }
}

/// A payload: its length, then its bytes.
pub open spec fn encode_payload(payload: Seq<u8>) -> Seq<u8> {
    le32(payload.len() as u32) + payload
}

/// The text written for a type label: the label, or nothing where there is
/// none. An empty label and no label are written alike.
pub open spec fn label_text(label: Option<Seq<char>>) -> Seq<char> {
    match label {
        Some(text) => text,
        None => Seq::empty(),
    }
}

/// What follows the relationships in the encoding: the index fields in
/// canonical order with their count, the link to the earlier version, the
/// creation time and the payload.
pub open spec fn encode_tail(e: EnvelopeView) -> Seq<u8> {
    le32(e.index.len() as u32) + (encode_entries(canonical_index(e.index)) + (encode_optional_hash(
        e.previous,
    ) + (encode_optional_time(e.created_at) + encode_payload(e.payload))))
}

/// The canonical encoding of an envelope: the type digest, the type label,
/// the relationships in canonical order with their count, and the rest.
pub open spec fn spec_encode(e: EnvelopeView) -> Seq<u8> {
    e.type_hash + (encode_text(label_text(e.type_label)) + (le32(e.relationships.len() as u32)
        + (encode_relationships(canonical_relationships(e.relationships)) + encode_tail(e))))
}

/// The digest under which an envelope is stored: that of its encoding.
pub open spec fn spec_digest(e: EnvelopeView) -> Seq<u8> {
    spec_sha256(spec_encode(e))
}

/// Relationships encoded one after the other, seen from the end.
pub proof fn lemma_encode_relationships_push(rels: Seq<RelationshipView>, rel: RelationshipView)
    ensures
        encode_relationships(rels.push(rel)) == encode_relationships(rels) + encode_relationship(
            rel,
        ),
    decreases rels.len(),
{
    if rels.len() == 0 {
        assert(rels.push(rel).drop_first() =~= Seq::empty());
        assert(encode_relationships(Seq::<RelationshipView>::empty()) =~= Seq::<u8>::empty());
    } else {
        lemma_encode_relationships_push(rels.drop_first(), rel);
        assert(rels.push(rel).drop_first() =~= rels.drop_first().push(rel));
    }
}

/// Index fields encoded one after the other, seen from the end.
pub proof fn lemma_encode_entries_push(entries: Seq<EntryView>, entry: EntryView)
    ensures
        encode_entries(entries.push(entry)) == encode_entries(entries) + encode_entry(entry),
    decreases entries.len(),
{
    if entries.len() == 0 {
        assert(entries.push(entry).drop_first() =~= Seq::empty());
        assert(encode_entries(Seq::<EntryView>::empty()) =~= Seq::<u8>::empty());
    } else {
        lemma_encode_entries_push(entries.drop_first(), entry);
        assert(entries.push(entry).drop_first() =~= entries.drop_first().push(entry));
    }
}

/// Appends a text: the length of its UTF-8 bytes, then those bytes.
fn put_text(buf: &mut Vec<u8>, text: &str)
    requires
        encode_utf8(text@).len() <= u32::MAX,
    ensures
        final(buf)@ == old(buf)@ + encode_text(text@),
{
    let bytes = text.as_bytes();
    put_u32(buf, bytes.len() as u32);
    put_bytes(buf, bytes);
}

/// Appends an index value: its tag, then its content.
fn put_value(buf: &mut Vec<u8>, value: &IndexValue)
    requires
        value@ matches IndexValueView::String(s) ==> encode_utf8(s).len() <= u32::MAX,
    ensures
        final(buf)@ == old(buf)@ + encode_value(value@),
{
    match value {
        IndexValue::String(s) => {
            buf.push(TAG_STRING);
            put_text(buf, s.as_str());
        },
        IndexValue::Int64(v) => {
            buf.push(TAG_INT64);
            put_i64(buf, *v);
        },
        IndexValue::Float64(bits) => {
            buf.push(TAG_FLOAT64);
            put_u64(buf, *bits);
        },
        IndexValue::Bool(b) => {
            buf.push(TAG_BOOL);
            buf.push(if *b { 1u8 } else { 0u8 });
        },
        IndexValue::Hash(h) => {
            buf.push(TAG_HASH);
            put_bytes(buf, h.as_bytes().as_slice());
        },
        IndexValue::Timestamp(t) => {
            buf.push(TAG_TIMESTAMP);
            put_i64(buf, *t);
        },
    }
}

/// Appends the relationships in canonical order.
fn put_relationships(buf: &mut Vec<u8>, rels: &Vec<Relationship>)
    requires
        forall|k: int|
            0 <= k < rels@.len() ==> relationship_well_formed(
                #[trigger] relationships_view(rels@)[k],
            ),
    ensures
        final(buf)@ == old(buf)@ + encode_relationships(
            canonical_relationships(relationships_view(rels@)),
        ),
{
    let sorted = sorted_relationships(rels);
    let ghost views = canonical_relationships(relationships_view(rels@));
    proof {
        lemma_canonical_relationships(relationships_view(rels@));
    }
    let mut i: usize = 0;
    while i < sorted.len()
        invariant
            i <= sorted@.len(),
            views == relationship_refs_view(sorted@),
            forall|k: int| 0 <= k < views.len() ==> relationship_well_formed(#[trigger] views[k]),
            buf@ == old(buf)@ + encode_relationships(views.take(i as int)),
        decreases sorted@.len() - i,
    {
        let rel = sorted[i];
        assert(rel@ == views[i as int]);
        put_text(buf, rel.rel_type.as_str());
        put_bytes(buf, rel.target.as_bytes().as_slice());
        proof {
            lemma_encode_relationships_push(views.take(i as int), views[i as int]);
            assert(views.take(i + 1) =~= views.take(i as int).push(views[i as int]));
        }
        i += 1;
    }
    assert(views.take(i as int) =~= views);
}

/// Appends the index fields in canonical order.
fn put_entries(buf: &mut Vec<u8>, entries: &Vec<(String, IndexValue)>)
    requires
        forall|k: int|
            0 <= k < entries@.len() ==> entry_well_formed(#[trigger] entries_view(entries@)[k]),
    ensures
        final(buf)@ == old(buf)@ + encode_entries(canonical_index(entries_view(entries@))),
{
    let sorted = sorted_entries(entries);
    let ghost views = canonical_index(entries_view(entries@));
    proof {
        lemma_canonical_index(entries_view(entries@));
    }
    let mut i: usize = 0;
    while i < sorted.len()
        invariant
            i <= sorted@.len(),
            views == entry_refs_view(sorted@),
            forall|k: int| 0 <= k < views.len() ==> entry_well_formed(#[trigger] views[k]),
            buf@ == old(buf)@ + encode_entries(views.take(i as int)),
        decreases sorted@.len() - i,
    {
        let entry = sorted[i];
        assert((entry.0@, entry.1@) == views[i as int]);
        put_text(buf, entry.0.as_str());
        put_value(buf, &entry.1);
        proof {
            lemma_encode_entries_push(views.take(i as int), views[i as int]);
            assert(views.take(i + 1) =~= views.take(i as int).push(views[i as int]));
        }
        i += 1;
    }
    assert(views.take(i as int) =~= views);
}

/// Appends an optional digest: a presence byte, then the digest.
fn put_optional_hash(buf: &mut Vec<u8>, hash: &Option<Hash256>)
    ensures
        final(buf)@ == old(buf)@ + encode_optional_hash(optional_hash_view(*hash)),
{
    match hash {
        Some(h) => {
            buf.push(1u8);
            put_bytes(buf, h.as_bytes().as_slice());
        },
        None => {
            buf.push(0u8);
        },
    }
}

/// Appends an optional time: a presence byte, then the time.
fn put_optional_time(buf: &mut Vec<u8>, time: Option<i64>)
    ensures
        final(buf)@ == old(buf)@ + encode_optional_time(time),
{
    match time {
        Some(t) => {
            buf.push(1u8);
            put_i64(buf, t);
        },
        None => {
            buf.push(0u8);
        },
    }
}

/// Appends the type label, or an empty text where there is none.
fn put_label(buf: &mut Vec<u8>, label: &Option<String>)
    requires
        optional_text_view(*label) matches Some(text) ==> encode_utf8(text).len() <= u32::MAX,
    ensures
        final(buf)@ == old(buf)@ + encode_text(label_text(optional_text_view(*label))),
{
    match label {
        Some(text) => {
            put_text(buf, text.as_str());
        },
        None => {
            put_u32(buf, 0);
        },
    }
}

/// Appends a payload: its length, then its bytes.
fn put_payload(buf: &mut Vec<u8>, payload: &Vec<u8>)
    requires
        payload@.len() <= u32::MAX,
    ensures
        final(buf)@ == old(buf)@ + encode_payload(payload@),
{
    put_u32(buf, payload.len() as u32);
    put_bytes(buf, payload.as_slice());
}

/// Five runs of bytes joined one after the other are the same bytes
/// however the joining is grouped.
proof fn lemma_join_five(a: Seq<u8>, b: Seq<u8>, c: Seq<u8>, d: Seq<u8>, e: Seq<u8>)
    ensures
        a + b + c + d + e == a + (b + (c + (d + e))),
{
    assert(a + b + c + d + e =~= a + (b + (c + (d + e))));
}

/// Six runs of bytes joined one after the other are the same bytes
/// however the joining is grouped.
proof fn lemma_join_six(a: Seq<u8>, b: Seq<u8>, c: Seq<u8>, d: Seq<u8>, e: Seq<u8>, f: Seq<u8>)
    ensures
        a + b + c + d + e + f == a + (b + (c + (d + (e + f)))),
{
    assert(a + b + c + d + e + f =~= a + (b + (c + (d + (e + f)))));
}

/// Appends what follows the relationships: the index fields with their
/// count, the link to the earlier version, the creation time and the
/// payload.
fn put_tail(buf: &mut Vec<u8>, envelope: &Envelope)
    requires
        envelope.wf(),
    ensures
        final(buf)@ == old(buf)@ + encode_tail(envelope@),
{
    let ghost e = envelope@;
    put_u32(buf, envelope.index.len() as u32);
    put_entries(buf, &envelope.index);
    put_optional_hash(buf, &envelope.previous);
    put_optional_time(buf, envelope.created_at);
    put_payload(buf, &envelope.payload);
    proof {
        lemma_join_six(
            old(buf)@,
            le32(e.index.len() as u32),
            encode_entries(canonical_index(e.index)),
            encode_optional_hash(e.previous),
            encode_optional_time(e.created_at),
            encode_payload(e.payload),
        );
    }
}

/// The canonical encoding of `envelope`, or `InvalidEnvelope` for one that
/// is not well formed.
pub fn encode(envelope: &Envelope) -> (res: Result<Vec<u8>, Error>)
    ensures
        match res {
            Ok(bytes) => envelope.wf() && bytes@ == spec_encode(envelope@),
            Err(e) => !envelope.wf() && e.is_refusal(),
        },
{
    if !envelope.is_well_formed() {
        return Err(Error::refusal());
    }
    let ghost e = envelope@;
    let mut buf: Vec<u8> = Vec::new();
    put_bytes(&mut buf, envelope.type_hash.as_bytes().as_slice());
    put_label(&mut buf, &envelope.type_label);
    put_u32(&mut buf, envelope.relationships.len() as u32);
    put_relationships(&mut buf, &envelope.relationships);
    put_tail(&mut buf, envelope);
    proof {
        lemma_join_five(
            e.type_hash,
            encode_text(label_text(e.type_label)),
            le32(e.relationships.len() as u32),
            encode_relationships(canonical_relationships(e.relationships)),
            encode_tail(e),
        );
    }
    Ok(buf)
}

impl Envelope {
    /// The digest of the envelope: that of its canonical encoding, or
    /// `InvalidEnvelope` for an envelope that is not well formed.
    pub fn hash(&self) -> (res: Result<Hash256, Error>)
        ensures
            match res {
                Ok(digest) => self.wf() && digest@ == spec_digest(self@),
                Err(e) => !self.wf() && e.is_refusal(),
            },
    {
        match encode(self) {
            Ok(bytes) => Ok(Hash256::hash(bytes.as_slice())),
            Err(e) => Err(e),
        }
    }
}

} // verus!
