//! Reading an envelope back from its encoding.
//!
//! Reading is tolerant where the layout allows it: bytes that are not valid
//! UTF-8 are read as text with replacements, a presence byte other than 1
//! means absent, a repeated index key keeps its last value, and bytes after
//! the payload are ignored. It fails where the buffer ends inside a field
//! or an index value carries an unknown tag.

use crate::encoding::{TAG_BOOL, TAG_FLOAT64, TAG_HASH, TAG_INT64, TAG_STRING, TAG_TIMESTAMP};
use crate::envelope::{
    distinct_keys, entries_view, lemma_upsert_keeps_distinct, relationships_view, upsert,
    upsert_entry, EntryView, Envelope, EnvelopeView, IndexValue, IndexValueView, Relationship,
    RelationshipView,
};
use crate::error::Error;
use crate::hash::Hash256;
use crate::wire::{
    get_i64, get_u32, get_u64, i64_of_bits, le32_value, le64_value, read_text, sub_bytes, text_of,
};
use vstd::prelude::*;
use vstd::string::StringExecFns;

verus! {

/// A field of the layout.
#[derive(Clone, Copy, Debug, PartialEq, Eq)]
pub enum Field {
    TypeHash,
    TypeLabel,
    RelationshipCount,
    RelationshipType,
    RelationshipTarget,
    IndexCount,
    IndexKey,
    IndexTag,
    IndexValue,
    Previous,
    CreatedAt,
    Payload,
}

/// Why bytes are not the encoding of an envelope.
#[derive(Clone, Copy, Debug, PartialEq, Eq)]
pub enum DecodeError {
    /// The buffer ends inside the field, or a length prefix of the field
    /// announces more than is left.
    Truncated(Field),
    /// An index value carries this tag, which names no variant.
    UnknownTag(u8),
}

impl Field {
    /// The name of the field.
    pub open spec fn spec_name(self) -> Seq<char> {
        match self {
            Field::TypeHash => "type_hash"@,
            Field::TypeLabel => "type_label"@,
            Field::RelationshipCount => "relationship count"@,
            Field::RelationshipType => "relationship type"@,
            Field::RelationshipTarget => "relationship target"@,
            Field::IndexCount => "index count"@,
            Field::IndexKey => "index key"@,
            Field::IndexTag => "index tag"@,
            Field::IndexValue => "index value"@,
            Field::Previous => "previous"@,
            Field::CreatedAt => "created_at"@,
            Field::Payload => "payload"@,
        }
    }

    /// The name of the field.
    pub fn name(self) -> (text: &'static str)
        ensures
            text@ == self.spec_name(),
    {
        match self {
            Field::TypeHash => "type_hash",
            Field::TypeLabel => "type_label",
            Field::RelationshipCount => "relationship count",
            Field::RelationshipType => "relationship type",
            Field::RelationshipTarget => "relationship target",
            Field::IndexCount => "index count",
            Field::IndexKey => "index key",
            Field::IndexTag => "index tag",
            Field::IndexValue => "index value",
            Field::Previous => "previous",
            Field::CreatedAt => "created_at",
            Field::Payload => "payload",
        }
    }
}

impl DecodeError {
    /// What the error says: the field at which reading stopped, or that a
    /// tag is unknown.
    pub open spec fn spec_message(self) -> Seq<char> {
        match self {
            DecodeError::Truncated(field) => "truncated at "@ + field.spec_name(),
            DecodeError::UnknownTag(_) => "unknown index value tag"@,
        }
    }

    /// What the error says.
    pub fn message(&self) -> (text: String)
        ensures
            text@ == self.spec_message(),
    {
        match self {
            DecodeError::Truncated(field) => String::from_str("truncated at ").concat(field.name()),
            DecodeError::UnknownTag(_) => String::from_str("unknown index value tag"),
        }
    }
}

impl From<DecodeError> for Error {
    /// The library's error for bytes that cannot be read: `Serialization`
    /// with what the decoding error says.
    fn from(e: DecodeError) -> (error: Self)
        ensures
            error.is_unreadable(e.spec_message()),
    {
        Error::Serialization(e.message())
    }
}

impl vstd::std_specs::convert::FromSpecImpl<DecodeError> for Error {
    /// The conversion is specified by its value, through the contract of
    /// `from`: which owned text it allocates cannot be named.
    open spec fn obeys_from_spec() -> bool {
        false
    }

    /// Some `Serialization` error that says what `e` says.
    open spec fn from_spec(e: DecodeError) -> Self {
        choose|error: Error| error.is_unreadable(e.spec_message())
    }
}

/// The first `n` bytes of `s` and what follows them.
pub open spec fn take_bytes(s: Seq<u8>, n: nat, field: Field) -> Result<
    (Seq<u8>, Seq<u8>),
    DecodeError,
> {
    if n <= s.len() {
        Ok((s.take(n as int), s.skip(n as int)))
    } else {
        Err(DecodeError::Truncated(field))
    }
}

/// A 32-bit number at the front of `s` and what follows it.
pub open spec fn take_u32(s: Seq<u8>, field: Field) -> Result<(u32, Seq<u8>), DecodeError> {
    if 4 <= s.len() {
        Ok((le32_value(s), s.skip(4)))
    } else {
        Err(DecodeError::Truncated(field))
    }
}

/// A 64-bit number at the front of `s` and what follows it.
pub open spec fn take_u64(s: Seq<u8>, field: Field) -> Result<(u64, Seq<u8>), DecodeError> {
    if 8 <= s.len() {
        Ok((le64_value(s), s.skip(8)))
    } else {
        Err(DecodeError::Truncated(field))
    }
}

/// A length-prefixed run of bytes at the front of `s` and what follows it.
pub open spec fn take_block(s: Seq<u8>, field: Field) -> Result<(Seq<u8>, Seq<u8>), DecodeError> {
    match take_u32(s, field) {
        Ok((len, rest)) => take_bytes(rest, len as nat, field),
        Err(e) => Err(e),
    }
}

/// A text at the front of `s` and what follows it.
pub open spec fn take_text(s: Seq<u8>, field: Field) -> Result<(Seq<char>, Seq<u8>), DecodeError> {
    match take_block(s, field) {
        Ok((bytes, rest)) => Ok((text_of(bytes), rest)),
        Err(e) => Err(e),
    }
}

/// A type label at the front of `s` and what follows it: a text, or none
/// where the length is zero.
pub open spec fn take_label(s: Seq<u8>) -> Result<(Option<Seq<char>>, Seq<u8>), DecodeError> {
    match take_block(s, Field::TypeLabel) {
        Ok((bytes, rest)) => if bytes.len() == 0 {
            Ok((None, rest))
        } else {
            Ok((Some(text_of(bytes)), rest))
        },
        Err(e) => Err(e),
    }
}

/// A relationship at the front of `s` and what follows it.
pub open spec fn take_relationship(s: Seq<u8>) -> Result<(RelationshipView, Seq<u8>), DecodeError> {
    match take_text(s, Field::RelationshipType) {
        Ok((rel_type, rest)) => match take_bytes(rest, 32, Field::RelationshipTarget) {
            Ok((target, rest)) => Ok((RelationshipView { rel_type, target }, rest)),
            Err(e) => Err(e),
        },
        Err(e) => Err(e),
    }
}

/// `count` relationships at the front of `s`, added to `acc` in the order
/// read, and what follows them.
pub open spec fn take_relationships(s: Seq<u8>, count: nat, acc: Seq<RelationshipView>) -> Result<
    (Seq<RelationshipView>, Seq<u8>),
    DecodeError,
>
    decreases count,
{
    if count == 0 {
        Ok((acc, s))
    } else {
        match take_relationship(s) {
            Ok((rel, rest)) => take_relationships(rest, (count - 1) as nat, acc.push(rel)),
            Err(e) => Err(e),
        }
    }
}

/// The content of an index value with the tag `tag` at the front of `s`,
/// and what follows it. A truth value is true for any byte but 0.
pub open spec fn take_tagged(tag: u8, s: Seq<u8>) -> Result<
    (IndexValueView, Seq<u8>),
    DecodeError,
> {
    if tag == TAG_STRING {
        match take_text(s, Field::IndexValue) {
            Ok((text, rest)) => Ok((IndexValueView::String(text), rest)),
            Err(e) => Err(e),
        }
    } else if tag == TAG_INT64 {
        match take_u64(s, Field::IndexValue) {
            Ok((bits, rest)) => Ok((IndexValueView::Int64(i64_of_bits(bits)), rest)),
            Err(e) => Err(e),
        }
    } else if tag == TAG_FLOAT64 {
        match take_u64(s, Field::IndexValue) {
            Ok((bits, rest)) => Ok((IndexValueView::Float64(bits), rest)),
            Err(e) => Err(e),
        }
    } else if tag == TAG_BOOL {
        match take_bytes(s, 1, Field::IndexValue) {
            Ok((byte, rest)) => Ok((IndexValueView::Bool(byte[0] != 0), rest)),
            Err(e) => Err(e),
        }
    } else if tag == TAG_HASH {
        match take_bytes(s, 32, Field::IndexValue) {
            Ok((hash, rest)) => Ok((IndexValueView::Hash(hash), rest)),
            Err(e) => Err(e),
        }
    } else if tag == TAG_TIMESTAMP {
        match take_u64(s, Field::IndexValue) {
            Ok((bits, rest)) => Ok((IndexValueView::Timestamp(i64_of_bits(bits)), rest)),
            Err(e) => Err(e),
        }
    } else {
        Err(DecodeError::UnknownTag(tag))
    }
}

/// An index value at the front of `s` and what follows it.
pub open spec fn take_value(s: Seq<u8>) -> Result<(IndexValueView, Seq<u8>), DecodeError> {
    match take_bytes(s, 1, Field::IndexTag) {
        Ok((tag, rest)) => take_tagged(tag[0], rest),
        Err(e) => Err(e),
    }
}

/// An index field at the front of `s` and what follows it.
pub open spec fn take_entry(s: Seq<u8>) -> Result<(EntryView, Seq<u8>), DecodeError> {
    match take_text(s, Field::IndexKey) {
        Ok((key, rest)) => match take_value(rest) {
            Ok((value, rest)) => Ok(((key, value), rest)),
            Err(e) => Err(e),
        },
        Err(e) => Err(e),
    }
}

/// `count` index fields at the front of `s`, set in `acc` in the order
/// read, and what follows them.
pub open spec fn take_entries(s: Seq<u8>, count: nat, acc: Seq<EntryView>) -> Result<
    (Seq<EntryView>, Seq<u8>),
    DecodeError,
>
    decreases count,
{
    if count == 0 {
        Ok((acc, s))
    } else {
        match take_entry(s) {
            Ok((entry, rest)) => take_entries(
                rest,
                (count - 1) as nat,
                upsert(acc, entry.0, entry.1),
            ),
            Err(e) => Err(e),
        }
    }
}

/// An optional digest at the front of `s` and what follows it: present
/// where the presence byte is 1.
pub open spec fn take_optional_hash(s: Seq<u8>, field: Field) -> Result<
    (Option<Seq<u8>>, Seq<u8>),
    DecodeError,
> {
    match take_bytes(s, 1, field) {
        Ok((flag, rest)) => if flag[0] == 1 {
            match take_bytes(rest, 32, field) {
                Ok((hash, rest)) => Ok((Some(hash), rest)),
                Err(e) => Err(e),
            }
        } else {
            Ok((None, rest))
        },
        Err(e) => Err(e),
    }
}

/// An optional time at the front of `s` and what follows it: present where
/// the presence byte is 1.
pub open spec fn take_optional_time(s: Seq<u8>, field: Field) -> Result<
    (Option<i64>, Seq<u8>),
    DecodeError,
> {
    match take_bytes(s, 1, field) {
        Ok((flag, rest)) => if flag[0] == 1 {
            match take_u64(rest, field) {
                Ok((bits, rest)) => Ok((Some(i64_of_bits(bits)), rest)),
                Err(e) => Err(e),
            }
        } else {
            Ok((None, rest))
        },
        Err(e) => Err(e),
    }
}

/// The relationships with their count at the front of `s`, and what
/// follows them.
pub open spec fn take_relationship_list(s: Seq<u8>) -> Result<
    (Seq<RelationshipView>, Seq<u8>),
    DecodeError,
> {
    match take_u32(s, Field::RelationshipCount) {
        Ok((count, rest)) => take_relationships(rest, count as nat, Seq::empty()),
        Err(e) => Err(e),
    }
}

/// The index fields with their count at the front of `s`, and what follows
/// them.
pub open spec fn take_entry_list(s: Seq<u8>) -> Result<(Seq<EntryView>, Seq<u8>), DecodeError> {
    match take_u32(s, Field::IndexCount) {
        Ok((count, rest)) => take_entries(rest, count as nat, Seq::empty()),
        Err(e) => Err(e),
    }
}

/// What the encoding holds after the relationships: the index fields, the
/// link to the earlier version, the creation time and the payload.
pub open spec fn take_tail(s: Seq<u8>) -> Result<
    (Seq<EntryView>, Option<Seq<u8>>, Option<i64>, Seq<u8>),
    DecodeError,
> {
    match take_entry_list(s) {
        Ok((index, rest)) => match take_optional_hash(rest, Field::Previous) {
            Ok((previous, rest)) => match take_optional_time(rest, Field::CreatedAt) {
                Ok((created_at, rest)) => match take_block(rest, Field::Payload) {
                    Ok((payload, _)) => Ok((index, previous, created_at, payload)),
                    Err(e) => Err(e),
                },
                Err(e) => Err(e),
            },
            Err(e) => Err(e),
        },
        Err(e) => Err(e),
    }
}

/// The envelope that `s` encodes, or the reason why it encodes none.
pub open spec fn spec_decode(s: Seq<u8>) -> Result<EnvelopeView, DecodeError> {
    match take_bytes(s, 32, Field::TypeHash) {
        Ok((type_hash, rest)) => match take_label(rest) {
            Ok((type_label, rest)) => match take_relationship_list(rest) {
                Ok((relationships, rest)) => match take_tail(rest) {
                    Ok((index, previous, created_at, payload)) => Ok(
                        EnvelopeView {
                            type_hash,
                            type_label,
                            relationships,
                            index,
                            previous,
                            created_at,
                            payload,
                        },
                    ),
                    Err(e) => Err(e),
                },
                Err(e) => Err(e),
            },
            Err(e) => Err(e),
        },
        Err(e) => Err(e),
    }
}

/// Index fields that were read hold no key twice, if those they were added
/// to held none twice.
pub proof fn lemma_take_entries_distinct(s: Seq<u8>, count: nat, acc: Seq<EntryView>)
    requires
        distinct_keys(acc),
    ensures
        take_entries(s, count, acc) matches Ok((entries, _)) ==> distinct_keys(entries),
    decreases count,
{
    if count > 0 {
        match take_entry(s) {
            Ok((entry, rest)) => {
                lemma_upsert_keeps_distinct(acc, entry.0, entry.1);
                lemma_take_entries_distinct(
                    rest,
                    (count - 1) as nat,
                    upsert(acc, entry.0, entry.1),
                );
            },
            Err(_) => {},
        }
    }
}

/// An envelope that was read holds no index key twice.
pub proof fn law_decoded_keys_distinct(s: Seq<u8>)
    ensures
        spec_decode(s) matches Ok(e) ==> distinct_keys(e.index),
{
    if let Ok((_, rest)) = take_bytes(s, 32, Field::TypeHash) {
        if let Ok((_, rest)) = take_label(rest) {
            if let Ok((_, rest)) = take_relationship_list(rest) {
                if let Ok((count, rest)) = take_u32(rest, Field::IndexCount) {
                    lemma_take_entries_distinct(rest, count as nat, Seq::empty());
                }
            }
        }
    }
}

/// A position in a buffer that is being read.
struct Reader<'a> {
    bytes: &'a [u8],
    pos: usize,
}

impl<'a> Reader<'a> {
    /// What is left to read.
    spec fn rest(&self) -> Seq<u8> {
        self.bytes@.skip(self.pos as int)
    }

    /// Whether the position lies within the buffer.
    spec fn valid(&self) -> bool {
        self.pos <= self.bytes@.len()
    }

    /// A reader at the start of `bytes`.
    fn new(bytes: &'a [u8]) -> (reader: Self)
        ensures
            reader.valid(),
            reader.rest() == bytes@,
    {
        Reader { bytes, pos: 0 }
    }

    /// Reads `n` bytes.
    fn bytes(&mut self, n: usize, field: Field) -> (res: Result<&'a [u8], DecodeError>)
        requires
            old(self).valid(),
        ensures
            final(self).valid(),
            match take_bytes(old(self).rest(), n as nat, field) {
                Ok((part, rest)) => res matches Ok(got) && got@ == part && final(self).rest()
                    == rest,
                Err(e) => res matches Err(got) && got == e,
            },
    {
        if n > self.bytes.len() - self.pos {
            return Err(DecodeError::Truncated(field));
        }
        let part = sub_bytes(self.bytes, self.pos, self.pos + n);
        proof {
            let rest = self.rest();
        }
        self.pos = self.pos + n;
        Ok(part)
    }

    /// Reads a 32-bit number.
    fn u32(&mut self, field: Field) -> (res: Result<u32, DecodeError>)
        requires
            old(self).valid(),
        ensures
            final(self).valid(),
            match take_u32(old(self).rest(), field) {
                Ok((v, rest)) => res == Ok::<u32, DecodeError>(v) && final(self).rest() == rest,
                Err(e) => res == Err::<u32, DecodeError>(e),
            },
    {
        if 4 > self.bytes.len() - self.pos {
            return Err(DecodeError::Truncated(field));
        }
        let v = get_u32(self.bytes, self.pos);
        proof {
            assert(self.bytes@.skip(self.pos + 4) =~= self.rest().skip(4));
        }
        self.pos = self.pos + 4;
        Ok(v)
    }

    /// Reads a 64-bit number.
    fn u64(&mut self, field: Field) -> (res: Result<u64, DecodeError>)
        requires
            old(self).valid(),
        ensures
            final(self).valid(),
            match take_u64(old(self).rest(), field) {
                Ok((v, rest)) => res == Ok::<u64, DecodeError>(v) && final(self).rest() == rest,
                Err(e) => res == Err::<u64, DecodeError>(e),
            },
    {
        if 8 > self.bytes.len() - self.pos {
            return Err(DecodeError::Truncated(field));
        }
        let v = get_u64(self.bytes, self.pos);
        proof {
            assert(self.bytes@.skip(self.pos + 8) =~= self.rest().skip(8));
        }
        self.pos = self.pos + 8;
        Ok(v)
    }

    /// Reads a signed 64-bit number.
    fn i64(&mut self, field: Field) -> (res: Result<i64, DecodeError>)
        requires
            old(self).valid(),
        ensures
            final(self).valid(),
            match take_u64(old(self).rest(), field) {
                Ok((v, rest)) => res == Ok::<i64, DecodeError>(i64_of_bits(v)) && final(self).rest() == rest,
                Err(e) => res == Err::<i64, DecodeError>(e),
            },
    {
        if 8 > self.bytes.len() - self.pos {
            return Err(DecodeError::Truncated(field));
        }
        let v = get_i64(self.bytes, self.pos);
        proof {
            assert(self.bytes@.skip(self.pos + 8) =~= self.rest().skip(8));
        }
        self.pos = self.pos + 8;
        Ok(v)
    }

    /// Reads a length-prefixed run of bytes.
    fn block(&mut self, field: Field) -> (res: Result<&'a [u8], DecodeError>)
        requires
            old(self).valid(),
        ensures
            final(self).valid(),
            match take_block(old(self).rest(), field) {
                Ok((part, rest)) => res matches Ok(got) && got@ == part && final(self).rest()
                    == rest,
                Err(e) => res matches Err(got) && got == e,
            },
    {
        match self.u32(field) {
            Ok(len) => self.bytes(len as usize, field),
            Err(e) => Err(e),
        }
    }

    /// Reads a text.
    fn text(&mut self, field: Field) -> (res: Result<String, DecodeError>)
        requires
            old(self).valid(),
        ensures
            final(self).valid(),
            match take_text(old(self).rest(), field) {
                Ok((text, rest)) => res matches Ok(got) && got@ == text && final(self).rest()
                    == rest,
                Err(e) => res matches Err(got) && got == e,
            },
    {
        match self.block(field) {
            Ok(bytes) => Ok(read_text(bytes)),
            Err(e) => Err(e),
        }
    }

    /// Reads a digest.
    fn hash(&mut self, field: Field) -> (res: Result<Hash256, DecodeError>)
        requires
            old(self).valid(),
        ensures
            final(self).valid(),
            match take_bytes(old(self).rest(), 32, field) {
                Ok((part, rest)) => res matches Ok(got) && got@ == part && final(self).rest()
                    == rest,
                Err(e) => res matches Err(got) && got == e,
            },
    {
        match self.bytes(32, field) {
            Ok(part) => {
                let mut bytes = [0u8; 32];
                for i in 0..32usize
                    invariant
                        part@.len() == 32,
                        forall|k: int| 0 <= k < i ==> bytes@[k] == part@[k],
                {
                    bytes[i] = part[i];
                }
                Ok(Hash256::from_bytes(bytes))
            },
            Err(e) => Err(e),
        }
    }
}

/// Reads `count` relationships.
fn read_relationships(reader: &mut Reader, count: u32) -> (res: Result<
    Vec<Relationship>,
    DecodeError,
>)
    requires
        old(reader).valid(),
    ensures
        final(reader).valid(),
        match take_relationships(old(reader).rest(), count as nat, Seq::empty()) {
            Ok((rels, rest)) => res matches Ok(got) && relationships_view(got@) == rels && final(reader).rest() == rest,
            Err(e) => res matches Err(got) && got == e,
        },
{
    let mut rels: Vec<Relationship> = Vec::new();
    let mut i: u32 = 0;
    assert(relationships_view(rels@) =~= Seq::empty());
    while i < count
        invariant
            i <= count,
            reader.valid(),
            take_relationships(old(reader).rest(), count as nat, Seq::empty())
                == take_relationships(reader.rest(), (count - i) as nat, relationships_view(rels@)),
        decreases count - i,
    {
        let ghost acc = relationships_view(rels@);
        let rel_type = match reader.text(Field::RelationshipType) {
            Ok(text) => text,
            Err(e) => {
                return Err(e);
            },
        };
        let target = match reader.hash(Field::RelationshipTarget) {
            Ok(hash) => hash,
            Err(e) => {
                return Err(e);
            },
        };
        rels.push(Relationship { rel_type, target });
        assert(relationships_view(rels@) =~= acc.push(
            RelationshipView { rel_type: rel_type@, target: target@ },
        ));
        i += 1;
    }
    Ok(rels)
}

/// Reads an index value.
fn read_value(reader: &mut Reader) -> (res: Result<IndexValue, DecodeError>)
    requires
        old(reader).valid(),
    ensures
        final(reader).valid(),
        match take_value(old(reader).rest()) {
            Ok((value, rest)) => res matches Ok(got) && got@ == value && final(reader).rest()
                == rest,
            Err(e) => res matches Err(got) && got == e,
        },
{
    let tag = match reader.bytes(1, Field::IndexTag) {
        Ok(byte) => byte[0],
        Err(e) => {
            return Err(e);
        },
    };
    if tag == TAG_STRING {
        match reader.text(Field::IndexValue) {
            Ok(text) => Ok(IndexValue::String(text)),
            Err(e) => Err(e),
        }
    } else if tag == TAG_INT64 {
        match reader.i64(Field::IndexValue) {
            Ok(v) => Ok(IndexValue::Int64(v)),
            Err(e) => Err(e),
        }
    } else if tag == TAG_FLOAT64 {
        match reader.u64(Field::IndexValue) {
            Ok(bits) => Ok(IndexValue::Float64(bits)),
            Err(e) => Err(e),
        }
    } else if tag == TAG_BOOL {
        match reader.bytes(1, Field::IndexValue) {
            Ok(byte) => Ok(IndexValue::Bool(byte[0] != 0)),
            Err(e) => Err(e),
        }
    } else if tag == TAG_HASH {
        match reader.hash(Field::IndexValue) {
            Ok(hash) => Ok(IndexValue::Hash(hash)),
            Err(e) => Err(e),
        }
    } else if tag == TAG_TIMESTAMP {
        match reader.i64(Field::IndexValue) {
            Ok(t) => Ok(IndexValue::Timestamp(t)),
            Err(e) => Err(e),
        }
    } else {
        Err(DecodeError::UnknownTag(tag))
    }
}

/// Reads `count` index fields.
fn read_entries(reader: &mut Reader, count: u32) -> (res: Result<
    Vec<(String, IndexValue)>,
    DecodeError,
>)
    requires
        old(reader).valid(),
    ensures
        final(reader).valid(),
        match take_entries(old(reader).rest(), count as nat, Seq::empty()) {
            Ok((entries, rest)) => res matches Ok(got) && entries_view(got@) == entries && final(reader).rest() == rest,
            Err(e) => res matches Err(got) && got == e,
        },
{
    let mut entries: Vec<(String, IndexValue)> = Vec::new();
    let mut i: u32 = 0;
    assert(entries_view(entries@) =~= Seq::empty());
    while i < count
        invariant
            i <= count,
            reader.valid(),
            take_entries(old(reader).rest(), count as nat, Seq::empty()) == take_entries(
                reader.rest(),
                (count - i) as nat,
                entries_view(entries@),
            ),
        decreases count - i,
    {
        let key = match reader.text(Field::IndexKey) {
            Ok(text) => text,
            Err(e) => {
                return Err(e);
            },
        };
        let value = match read_value(reader) {
            Ok(value) => value,
            Err(e) => {
                return Err(e);
            },
        };
        upsert_entry(&mut entries, key, value);
        i += 1;
    }
    Ok(entries)
}

/// Reads an optional digest.
fn read_optional_hash(reader: &mut Reader, field: Field) -> (res: Result<
    Option<Hash256>,
    DecodeError,
>)
    requires
        old(reader).valid(),
    ensures
        final(reader).valid(),
        match take_optional_hash(old(reader).rest(), field) {
            Ok((hash, rest)) => res matches Ok(got) && crate::envelope::optional_hash_view(got)
                == hash && final(reader).rest() == rest,
            Err(e) => res matches Err(got) && got == e,
        },
{
    let flag = match reader.bytes(1, field) {
        Ok(byte) => byte[0],
        Err(e) => {
            return Err(e);
        },
    };
    if flag == 1 {
        match reader.hash(field) {
            Ok(hash) => Ok(Some(hash)),
            Err(e) => Err(e),
        }
    } else {
        Ok(None)
    }
}

/// Reads an optional time.
fn read_optional_time(reader: &mut Reader, field: Field) -> (res: Result<Option<i64>, DecodeError>)
    requires
        old(reader).valid(),
    ensures
        final(reader).valid(),
        match take_optional_time(old(reader).rest(), field) {
            Ok((time, rest)) => res == Ok::<Option<i64>, DecodeError>(time) && final(reader).rest() == rest,
            Err(e) => res == Err::<Option<i64>, DecodeError>(e),
        },
{
    let flag = match reader.bytes(1, field) {
        Ok(byte) => byte[0],
        Err(e) => {
            return Err(e);
        },
    };
    if flag == 1 {
        match reader.i64(field) {
            Ok(time) => Ok(Some(time)),
            Err(e) => Err(e),
        }
    } else {
        Ok(None)
    }
}

/// The mathematical value of the result of reading an envelope.
pub open spec fn decoded_view(res: Result<Envelope, DecodeError>) -> Result<
    EnvelopeView,
    DecodeError,
> {
    match res {
        Ok(envelope) => Ok(envelope@),
        Err(e) => Err(e),
    }
}

/// Reads an envelope from `bytes`. No index key occurs twice in it.
pub fn decode(bytes: &[u8]) -> (res: Result<Envelope, DecodeError>)
    ensures
        decoded_view(res) == spec_decode(bytes@),
        res matches Ok(envelope) ==> distinct_keys(envelope@.index),
{
    proof {
        law_decoded_keys_distinct(bytes@);
    }
    let mut reader = Reader::new(bytes);
    let type_hash = match reader.hash(Field::TypeHash) {
        Ok(hash) => hash,
        Err(e) => {
            return Err(e);
        },
    };
    let type_label = match reader.block(Field::TypeLabel) {
        Ok(label) => if label.len() == 0 {
            None
        } else {
            Some(read_text(label))
        },
        Err(e) => {
            return Err(e);
        },
    };
    let relationships = match reader.u32(Field::RelationshipCount) {
        Ok(count) => match read_relationships(&mut reader, count) {
            Ok(rels) => rels,
            Err(e) => {
                return Err(e);
            },
        },
        Err(e) => {
            return Err(e);
        },
    };
    let index = match reader.u32(Field::IndexCount) {
        Ok(count) => match read_entries(&mut reader, count) {
            Ok(entries) => entries,
            Err(e) => {
                return Err(e);
            },
        },
        Err(e) => {
            return Err(e);
        },
    };
    let previous = match read_optional_hash(&mut reader, Field::Previous) {
        Ok(hash) => hash,
        Err(e) => {
            return Err(e);
        },
    };
    let created_at = match read_optional_time(&mut reader, Field::CreatedAt) {
        Ok(time) => time,
        Err(e) => {
            return Err(e);
        },
    };
    let payload = match reader.block(Field::Payload) {
        Ok(block) => vstd::slice::slice_to_vec(block),
        Err(e) => {
            return Err(e);
        },
    };
    Ok(Envelope { type_hash, type_label, relationships, index, previous, created_at, payload })
}

} // verus!
