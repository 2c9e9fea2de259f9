//! What holds of encoding and decoding together: reading back what was
//! written gives the envelope in canonical form, and the order in which an
//! envelope was filled leaves no trace in its encoding.

use crate::canonical::{
    canonical_index, canonical_relationships, connected_on, entry_order, lemma_canonical_index,
    lemma_canonical_relationships, lemma_entry_order, lemma_ordered_unique,
    lemma_relationship_order, relationship_order,
};
use crate::decoding::{
    spec_decode, take_block, take_bytes, take_entries, take_entry, take_label,
    take_optional_hash, take_optional_time, take_relationship, take_relationship_list,
    take_relationships, take_tagged, take_tail, take_text, take_u32, take_u64, take_value,
    DecodeError, Field,
};
use crate::encoding::{
    encode_entries, encode_entry, encode_optional_hash, encode_optional_time, encode_payload,
    encode_relationship, encode_relationships, encode_tail, encode_text, encode_value,
    label_text, spec_digest, spec_encode,
};
use crate::envelope::{
    distinct_keys, entry_well_formed, fits_prefix, has_key, relationship_well_formed, upsert,
    value_well_formed, well_formed, EntryView, EnvelopeView, IndexValueView, RelationshipView,
};
use crate::wire::{
    i64_bits, le32, le64, lemma_i64_bits, lemma_le32_value, lemma_le64_value, lemma_text_of_utf8,
};
use vstd::prelude::*;
use vstd::seq_lib::to_multiset_len;
use vstd::utf8::encode_utf8;

verus! {

/// The envelope as it is read back from its encoding: relationships and
/// index fields in canonical order, and an empty type label as none.
pub open spec fn canonical_form(e: EnvelopeView) -> EnvelopeView {
    EnvelopeView {
        type_hash: e.type_hash,
        type_label: if label_text(e.type_label).len() == 0 {
            None
        } else {
            e.type_label
        },
        relationships: canonical_relationships(e.relationships),
        index: canonical_index(e.index),
        previous: e.previous,
        created_at: e.created_at,
        payload: e.payload,
    }
}

/// Bytes in front of a buffer are read back as they are.
pub proof fn lemma_take_bytes(part: Seq<u8>, rest: Seq<u8>, field: Field)
    ensures
        take_bytes(part + rest, part.len(), field) == Ok::<(Seq<u8>, Seq<u8>), DecodeError>(
            (part, rest),
        ),
{
    assert((part + rest).take(part.len() as int) =~= part);
    assert((part + rest).skip(part.len() as int) =~= rest);
}

/// A 32-bit number in front of a buffer is read back as it is.
pub proof fn lemma_take_u32(v: u32, rest: Seq<u8>, field: Field)
    ensures
        take_u32(le32(v) + rest, field) == Ok::<(u32, Seq<u8>), DecodeError>((v, rest)),
{
    lemma_le32_value(v, rest);
    assert((le32(v) + rest).skip(4) =~= rest);
}

/// A 64-bit number in front of a buffer is read back as it is.
pub proof fn lemma_take_u64(v: u64, rest: Seq<u8>, field: Field)
    ensures
        take_u64(le64(v) + rest, field) == Ok::<(u64, Seq<u8>), DecodeError>((v, rest)),
{
    lemma_le64_value(v, rest);
    assert((le64(v) + rest).skip(8) =~= rest);
}

/// A run of bytes behind its length is read back as it is.
pub proof fn lemma_take_block(block: Seq<u8>, rest: Seq<u8>, field: Field)
    requires
        fits_prefix(block.len()),
    ensures
        take_block(le32(block.len() as u32) + block + rest, field) == Ok::<
            (Seq<u8>, Seq<u8>),
            DecodeError,
        >((block, rest)),
{
    let len = block.len() as u32;
    assert(le32(len) + block + rest =~= le32(len) + (block + rest));
    lemma_take_u32(len, block + rest, field);
    lemma_take_bytes(block, rest, field);
}

/// A text is read back as it is.
pub proof fn lemma_take_text(text: Seq<char>, rest: Seq<u8>, field: Field)
    requires
        fits_prefix(encode_utf8(text).len()),
    ensures
        take_text(encode_text(text) + rest, field) == Ok::<(Seq<char>, Seq<u8>), DecodeError>(
            (text, rest),
        ),
{
    lemma_take_block(encode_utf8(text), rest, field);
    lemma_text_of_utf8(text);
}

/// A relationship is read back as it is.
pub proof fn lemma_take_relationship(rel: RelationshipView, rest: Seq<u8>)
    requires
        relationship_well_formed(rel),
    ensures
        take_relationship(encode_relationship(rel) + rest) == Ok::<
            (RelationshipView, Seq<u8>),
            DecodeError,
        >((rel, rest)),
{
    assert(encode_relationship(rel) + rest =~= encode_text(rel.rel_type) + (rel.target + rest));
    lemma_take_text(rel.rel_type, rel.target + rest, Field::RelationshipType);
    lemma_take_bytes(rel.target, rest, Field::RelationshipTarget);
}

/// Relationships are read back as they are, in the order written.
pub proof fn lemma_take_relationships(
    rels: Seq<RelationshipView>,
    rest: Seq<u8>,
    acc: Seq<RelationshipView>,
)
    requires
        forall|i: int| 0 <= i < rels.len() ==> relationship_well_formed(#[trigger] rels[i]),
    ensures
        take_relationships(encode_relationships(rels) + rest, rels.len(), acc) == Ok::<
            (Seq<RelationshipView>, Seq<u8>),
            DecodeError,
        >((acc + rels, rest)),
    decreases rels.len(),
{
    if rels.len() == 0 {
        assert(encode_relationships(rels) + rest =~= rest);
    } else {
        let first = rels[0];
        let others = rels.drop_first();
        assert(encode_relationships(rels) + rest =~= encode_relationship(first) + (
        encode_relationships(others) + rest));
        lemma_take_relationship(first, encode_relationships(others) + rest);
        assert forall|i: int| 0 <= i < others.len() implies relationship_well_formed(
            #[trigger] others[i],
        ) by {
            assert(others[i] == rels[i + 1]);
        }
        lemma_take_relationships(others, rest, acc.push(first));
        assert(acc.push(first) + others =~= acc + rels);
    }
}

/// An index value is read back as it is.
pub proof fn lemma_take_value(value: IndexValueView, rest: Seq<u8>)
    requires
        value_well_formed(value),
    ensures
        take_value(encode_value(value) + rest) == Ok::<(IndexValueView, Seq<u8>), DecodeError>(
            (value, rest),
        ),
{
    let tag = encode_value(value)[0];
    let content = encode_value(value).skip(1);
    assert(encode_value(value) + rest =~= seq![tag] + (content + rest));
    lemma_take_bytes(seq![tag], content + rest, Field::IndexTag);
    assert(take_value(encode_value(value) + rest) == take_tagged(tag, content + rest));
    match value {
        IndexValueView::String(s) => {
            assert(content =~= encode_text(s));
            lemma_take_text(s, rest, Field::IndexValue);
        },
        IndexValueView::Int64(v) => {
            assert(content =~= le64(i64_bits(v)));
            lemma_take_u64(i64_bits(v), rest, Field::IndexValue);
            lemma_i64_bits(v);
        },
        IndexValueView::Float64(bits) => {
            assert(content =~= le64(bits));
            lemma_take_u64(bits, rest, Field::IndexValue);
        },
        IndexValueView::Bool(b) => {
            let byte = if b {
                1u8
            } else {
                0u8
            };
            assert(content =~= seq![byte]);
            lemma_take_bytes(seq![byte], rest, Field::IndexValue);
        },
        IndexValueView::Hash(h) => {
            assert(content =~= h);
            lemma_take_bytes(h, rest, Field::IndexValue);
        },
        IndexValueView::Timestamp(t) => {
            assert(content =~= le64(i64_bits(t)));
            lemma_take_u64(i64_bits(t), rest, Field::IndexValue);
            lemma_i64_bits(t);
        },
    }
}

/// An index field is read back as it is.
pub proof fn lemma_take_entry(entry: EntryView, rest: Seq<u8>)
    requires
        entry_well_formed(entry),
    ensures
        take_entry(encode_entry(entry) + rest) == Ok::<(EntryView, Seq<u8>), DecodeError>(
            (entry, rest),
        ),
{
    assert(encode_entry(entry) + rest =~= encode_text(entry.0) + (encode_value(entry.1) + rest));
    lemma_take_text(entry.0, encode_value(entry.1) + rest, Field::IndexKey);
    lemma_take_value(entry.1, rest);
}

/// A field whose key stands nowhere in front of it is added at the end.
proof fn lemma_upsert_new_key(acc: Seq<EntryView>, entries: Seq<EntryView>)
    requires
        entries.len() > 0,
        distinct_keys(acc + entries),
    ensures
        upsert(acc, entries[0].0, entries[0].1) == acc.push(entries[0]),
{
    let all = acc + entries;
    let first = entries[0];
    if has_key(acc, first.0) {
        let i = choose|i: int| 0 <= i < acc.len() && (#[trigger] acc[i]).0 == first.0;
        assert(all[i] == acc[i]);
        assert(all[acc.len() as int] == first);
    }
}

/// Index fields of which no two share a key are read back as they are, in
/// the order written.
pub proof fn lemma_take_entries(entries: Seq<EntryView>, rest: Seq<u8>, acc: Seq<EntryView>)
    requires
        forall|i: int| 0 <= i < entries.len() ==> entry_well_formed(#[trigger] entries[i]),
        distinct_keys(acc + entries),
    ensures
        take_entries(encode_entries(entries) + rest, entries.len(), acc) == Ok::<
            (Seq<EntryView>, Seq<u8>),
            DecodeError,
        >((acc + entries, rest)),
    decreases entries.len(),
{
    if entries.len() == 0 {
        assert(encode_entries(entries) + rest =~= rest);
    } else {
        let first = entries[0];
        let others = entries.drop_first();
        let tail = encode_entries(others) + rest;
        assert(encode_entries(entries) + rest =~= encode_entry(first) + tail);
        lemma_take_entry(first, tail);
        lemma_upsert_new_key(acc, entries);
        assert forall|i: int| 0 <= i < others.len() implies entry_well_formed(
            #[trigger] others[i],
        ) by {
            assert(others[i] == entries[i + 1]);
        }
        assert(acc.push(first) + others =~= acc + entries);
        lemma_take_entries(others, rest, acc.push(first));
    }
}

/// An optional digest is read back as it is.
pub proof fn lemma_take_optional_hash(hash: Option<Seq<u8>>, rest: Seq<u8>, field: Field)
    requires
        hash matches Some(h) ==> h.len() == 32,
    ensures
        take_optional_hash(encode_optional_hash(hash) + rest, field) == Ok::<
            (Option<Seq<u8>>, Seq<u8>),
            DecodeError,
        >((hash, rest)),
{
    match hash {
        Some(h) => {
            assert(encode_optional_hash(hash) + rest =~= seq![1u8] + (h + rest));
            lemma_take_bytes(seq![1u8], h + rest, field);
            lemma_take_bytes(h, rest, field);
        },
        None => {
            lemma_take_bytes(seq![0u8], rest, field);
        },
    }
}

/// An optional time is read back as it is.
pub proof fn lemma_take_optional_time(time: Option<i64>, rest: Seq<u8>, field: Field)
    ensures
        take_optional_time(encode_optional_time(time) + rest, field) == Ok::<
            (Option<i64>, Seq<u8>),
            DecodeError,
        >((time, rest)),
{
    match time {
        Some(t) => {
            assert(encode_optional_time(time) + rest =~= seq![1u8] + (le64(i64_bits(t)) + rest));
            lemma_take_bytes(seq![1u8], le64(i64_bits(t)) + rest, field);
            lemma_take_u64(i64_bits(t), rest, field);
            lemma_i64_bits(t);
        },
        None => {
            lemma_take_bytes(seq![0u8], rest, field);
        },
    }
}

/// What follows the relationships is read back in canonical form.
proof fn lemma_take_tail(e: EnvelopeView)
    requires
        well_formed(e),
    ensures
        take_tail(encode_tail(e)) == Ok::<
            (Seq<EntryView>, Option<Seq<u8>>, Option<i64>, Seq<u8>),
            DecodeError,
        >((canonical_index(e.index), e.previous, e.created_at, e.payload)),
{
    let index = canonical_index(e.index);
    let after_payload = Seq::<u8>::empty();
    let after_time = encode_payload(e.payload);
    let after_previous = encode_optional_time(e.created_at) + after_time;
    let after_index = encode_optional_hash(e.previous) + after_previous;
    lemma_canonical_index(e.index);
    lemma_take_u32(e.index.len() as u32, encode_entries(index) + after_index, Field::IndexCount);
    lemma_take_entries(index, after_index, Seq::empty());
    lemma_take_optional_hash(e.previous, after_previous, Field::Previous);
    lemma_take_optional_time(e.created_at, after_time, Field::CreatedAt);
    lemma_take_block(e.payload, after_payload, Field::Payload);
}

/// Reading back the encoding of a well-formed envelope gives the envelope
/// in canonical form.
pub proof fn law_decode_encode(e: EnvelopeView)
    requires
        well_formed(e),
    ensures
        spec_decode(spec_encode(e)) == Ok::<EnvelopeView, DecodeError>(canonical_form(e)),
{
    let rels = canonical_relationships(e.relationships);
    let label = encode_utf8(label_text(e.type_label));
    let after_rels = encode_tail(e);
    let after_count = encode_relationships(rels) + after_rels;
    let after_label = le32(e.relationships.len() as u32) + after_count;
    let after_hash = encode_text(label_text(e.type_label)) + after_label;
    lemma_take_bytes(e.type_hash, after_hash, Field::TypeHash);
    assert(encode_utf8(Seq::<char>::empty()) =~= Seq::<u8>::empty());
    assert(after_hash =~= le32(label.len() as u32) + label + after_label);
    lemma_take_block(label, after_label, Field::TypeLabel);
    lemma_text_of_utf8(label_text(e.type_label));
    assert(take_label(after_hash) == Ok::<(Option<Seq<char>>, Seq<u8>), DecodeError>(
        (canonical_form(e).type_label, after_label),
    )) by {
        if label_text(e.type_label).len() > 0 {
            assert(label.len() > 0);
        } else {
            assert(label_text(e.type_label) =~= Seq::<char>::empty());
        }
    }
    lemma_canonical_relationships(e.relationships);
    lemma_take_u32(e.relationships.len() as u32, after_count, Field::RelationshipCount);
    assert(Seq::<RelationshipView>::empty() + rels =~= rels);
    lemma_take_relationships(rels, after_rels, Seq::empty());
    assert(take_relationship_list(after_label) == Ok::<
        (Seq<RelationshipView>, Seq<u8>),
        DecodeError,
    >((rels, after_rels)));
    lemma_take_tail(e);
}

/// Reading back the encoding of a well-formed envelope gives every field
/// as it was, the relationships and the index fields as often as they were
/// and in canonical order. An envelope with an empty type label is left
/// out: an empty label is written like none.
pub proof fn law_round_trip(e: EnvelopeView)
    requires
        well_formed(e),
        e.type_label != Some(Seq::<char>::empty()),
    ensures
        spec_decode(spec_encode(e)) matches Ok(d) && {
            &&& d.type_hash == e.type_hash
            &&& d.type_label == e.type_label
            &&& d.relationships.to_multiset() == e.relationships.to_multiset()
            &&& d.index.to_multiset() == e.index.to_multiset()
            &&& d.previous == e.previous
            &&& d.created_at == e.created_at
            &&& d.payload == e.payload
        },
{
    law_decode_encode(e);
    lemma_canonical_relationships(e.relationships);
    lemma_canonical_index(e.index);
    match e.type_label {
        Some(text) => {
            assert(text.len() > 0) by {
                if text.len() == 0 {
                    assert(text =~= Seq::<char>::empty());
                }
            }
        },
        None => {},
    }
}

/// Two envelopes that differ only in the order of their relationships and
/// of their index fields have the same encoding, and so the same digest.
pub proof fn law_encoding_ignores_order(a: EnvelopeView, b: EnvelopeView)
    requires
        distinct_keys(a.index),
        a.type_hash == b.type_hash,
        a.type_label == b.type_label,
        a.relationships.to_multiset() == b.relationships.to_multiset(),
        a.index.to_multiset() == b.index.to_multiset(),
        a.previous == b.previous,
        a.created_at == b.created_at,
        a.payload == b.payload,
    ensures
        spec_encode(a) == spec_encode(b),
        spec_digest(a) == spec_digest(b),
{
    lemma_same_canonical_relationships(a.relationships, b.relationships);
    lemma_same_canonical_index(a.index, b.index);
    to_multiset_len(a.relationships);
    to_multiset_len(b.relationships);
    to_multiset_len(a.index);
    to_multiset_len(b.index);
}

/// Relationships that differ only in order have one canonical order.
pub proof fn lemma_same_canonical_relationships(
    a: Seq<RelationshipView>,
    b: Seq<RelationshipView>,
)
    requires
        a.to_multiset() == b.to_multiset(),
    ensures
        canonical_relationships(a) == canonical_relationships(b),
{
    lemma_canonical_relationships(a);
    lemma_canonical_relationships(b);
    lemma_relationship_order();
    lemma_ordered_unique(
        canonical_relationships(a),
        canonical_relationships(b),
        relationship_order(),
    );
}

/// Index fields without a repeated key that differ only in order have one
/// canonical order.
pub proof fn lemma_same_canonical_index(a: Seq<EntryView>, b: Seq<EntryView>)
    requires
        distinct_keys(a),
        a.to_multiset() == b.to_multiset(),
    ensures
        canonical_index(a) == canonical_index(b),
{
    lemma_canonical_index(a);
    lemma_canonical_index(b);
    lemma_entry_order();
    let x = canonical_index(a);
    assert(connected_on(x, entry_order())) by {
        assert forall|i: int, j: int|
            0 <= i < x.len() && 0 <= j < x.len() && !entry_order()(#[trigger] x[i], #[trigger] x[j])
                && !entry_order()(x[j], x[i]) implies x[i] == x[j] by {
            assert(x[i].0 == x[j].0);
            if i < j {
                assert(x[i].0 != x[j].0);
            } else if j < i {
                assert(x[j].0 != x[i].0);
            }
        }
    }
    lemma_ordered_unique(x, canonical_index(b), entry_order());
}

/// The canonical form of an envelope whose index keys are distinct has the
/// encoding of the envelope itself: what was read back is stored under the
/// digest it was found under.
pub proof fn law_canonical_form_encodes_alike(e: EnvelopeView)
    requires
        distinct_keys(e.index),
    ensures
        spec_encode(canonical_form(e)) == spec_encode(e),
        spec_digest(canonical_form(e)) == spec_digest(e),
{
    let c = canonical_form(e);
    lemma_canonical_relationships(e.relationships);
    lemma_canonical_index(e.index);
    lemma_same_canonical_relationships(c.relationships, e.relationships);
    lemma_same_canonical_index(e.index, c.index);
    assert(label_text(c.type_label) == label_text(e.type_label)) by {
        if label_text(e.type_label).len() == 0 {
            assert(label_text(e.type_label) =~= Seq::<char>::empty());
        }
    }
}

/// Content identity: two well-formed envelopes have the same encoding,
/// and so the same digest, exactly when they have the same canonical form.
pub proof fn law_content_identity(a: EnvelopeView, b: EnvelopeView)
    requires
        well_formed(a),
        well_formed(b),
    ensures
        spec_encode(a) == spec_encode(b) <==> canonical_form(a) == canonical_form(b),
{
    law_decode_encode(a);
    law_decode_encode(b);
    law_canonical_form_encodes_alike(a);
    law_canonical_form_encodes_alike(b);
}

} // verus!
