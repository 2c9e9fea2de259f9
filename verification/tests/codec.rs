use envelope::decoding::{decode, DecodeError, Field};
use envelope::encoding::encode;
use envelope::envelope::{IndexValue, Relationship};
use envelope::{Envelope, Error, Hash256};

fn minimal() -> Envelope {
    Envelope::builder(Hash256::from_bytes([7u8; 32]), vec![1, 2, 3]).build()
}

fn minimal_bytes() -> Vec<u8> {
    let mut bytes = vec![7u8; 32];
    bytes.extend_from_slice(&[0, 0, 0, 0]); // no type label
    bytes.extend_from_slice(&[0, 0, 0, 0]); // no relationships
    bytes.extend_from_slice(&[0, 0, 0, 0]); // no index fields
    bytes.push(0); // no previous version
    bytes.push(0); // no creation time
    bytes.extend_from_slice(&[3, 0, 0, 0]);
    bytes.extend_from_slice(&[1, 2, 3]);
    bytes
}

fn full() -> Envelope {
    Envelope::builder(Hash256::from_bytes([7u8; 32]), vec![9])
        .type_label("T")
        .relationship("a", Hash256::from_bytes([1u8; 32]))
        .index("k", IndexValue::from("v"))
        .previous(Hash256::from_bytes([2u8; 32]))
        .created_at(1)
        .build()
}

fn full_bytes() -> Vec<u8> {
    let mut bytes = vec![7u8; 32];
    bytes.extend_from_slice(&[1, 0, 0, 0, b'T']);
    bytes.extend_from_slice(&[1, 0, 0, 0]);
    bytes.extend_from_slice(&[1, 0, 0, 0, b'a']);
    bytes.extend_from_slice(&[1u8; 32]);
    bytes.extend_from_slice(&[1, 0, 0, 0]);
    bytes.extend_from_slice(&[1, 0, 0, 0, b'k']);
    bytes.push(0);
    bytes.extend_from_slice(&[1, 0, 0, 0, b'v']);
    bytes.push(1);
    bytes.extend_from_slice(&[2u8; 32]);
    bytes.push(1);
    bytes.extend_from_slice(&[1, 0, 0, 0, 0, 0, 0, 0]);
    bytes.extend_from_slice(&[1, 0, 0, 0]);
    bytes.push(9);
    bytes
}

#[test]
fn a_minimal_envelope_encodes_to_the_fixed_layout() {
    assert_eq!(encode(&minimal()).unwrap(), minimal_bytes());
    assert_eq!(minimal_bytes().len(), 53);
}

#[test]
fn every_field_encodes_where_the_layout_puts_it() {
    assert_eq!(encode(&full()).unwrap(), full_bytes());
}

#[test]
fn decoding_reverses_encoding() {
    assert_eq!(decode(&minimal_bytes()), Ok(minimal()));
    assert_eq!(decode(&full_bytes()), Ok(full()));
}

#[test]
fn each_index_value_has_its_tag_and_content() {
    let cases: Vec<(IndexValue, Vec<u8>)> = vec![
        (IndexValue::String("hi".to_string()), vec![0, 2, 0, 0, 0, b'h', b'i']),
        (IndexValue::Int64(-2), vec![1, 0xfe, 0xff, 0xff, 0xff, 0xff, 0xff, 0xff, 0xff]),
        (IndexValue::Float64(1.5f64.to_bits()), vec![2, 0, 0, 0, 0, 0, 0, 0xf8, 0x3f]),
        (IndexValue::Bool(true), vec![3, 1]),
        (IndexValue::Bool(false), vec![3, 0]),
        (IndexValue::Hash(Hash256::from_bytes([5u8; 32])), {
            let mut bytes = vec![4u8];
            bytes.extend_from_slice(&[5u8; 32]);
            bytes
        }),
        (IndexValue::Timestamp(258), vec![5, 2, 1, 0, 0, 0, 0, 0, 0]),
    ];
    for (value, content) in cases {
        let env = Envelope::builder(Hash256::from_bytes([7u8; 32]), vec![])
            .index("k", value.clone())
            .build();
        let mut expected = vec![7u8; 32];
        expected.extend_from_slice(&[0, 0, 0, 0]);
        expected.extend_from_slice(&[0, 0, 0, 0]);
        expected.extend_from_slice(&[1, 0, 0, 0]);
        expected.extend_from_slice(&[1, 0, 0, 0, b'k']);
        expected.extend_from_slice(&content);
        expected.extend_from_slice(&[0, 0]);
        expected.extend_from_slice(&[0, 0, 0, 0]);
        let bytes = encode(&env).unwrap();
        assert_eq!(bytes, expected);
        let back = decode(&bytes).unwrap();
        assert_eq!(back.index, vec![("k".to_string(), value)]);
    }
}

#[test]
fn lengths_are_little_endian() {
    let env = Envelope::builder(Hash256::from_bytes([0u8; 32]), vec![0xAA; 258]).build();
    let bytes = encode(&env).unwrap();
    assert_eq!(&bytes[46..50], &[2, 1, 0, 0]);
    assert_eq!(bytes.len(), 50 + 258);
    assert_eq!(decode(&bytes).unwrap().payload, vec![0xAA; 258]);
}

#[test]
fn times_are_twos_complement() {
    for time in [0i64, 1, -1, i64::MAX, i64::MIN, 1_708_523_400] {
        let env = Envelope::builder(Hash256::from_bytes([0u8; 32]), vec![])
            .created_at(time)
            .index("t", IndexValue::Timestamp(time))
            .index("n", IndexValue::Int64(time))
            .build();
        let bytes = encode(&env).unwrap();
        let back = decode(&bytes).unwrap();
        assert_eq!(back.created_at, Some(time));
        assert_eq!(
            back.index,
            vec![
                ("n".to_string(), IndexValue::Int64(time)),
                ("t".to_string(), IndexValue::Timestamp(time)),
            ]
        );
    }
    let env = Envelope::builder(Hash256::from_bytes([0u8; 32]), vec![])
        .created_at(-1)
        .build();
    let bytes = encode(&env).unwrap();
    assert_eq!(&bytes[45..54], &[1, 0xff, 0xff, 0xff, 0xff, 0xff, 0xff, 0xff, 0xff]);
}

#[test]
fn relationships_are_encoded_by_kind_then_target() {
    let low = Hash256::from_bytes([1u8; 32]);
    let high = Hash256::from_bytes([2u8; 32]);
    let env = Envelope::builder(Hash256::from_bytes([0u8; 32]), vec![])
        .relationship("b", low)
        .relationship("a", high)
        .relationship("ab", low)
        .relationship("a", low)
        .relationship("B", high)
        .build();
    let back = decode(&encode(&env).unwrap()).unwrap();
    assert_eq!(
        back.relationships,
        vec![
            Relationship::new("B", high),
            Relationship::new("a", low),
            Relationship::new("a", high),
            Relationship::new("ab", low),
            Relationship::new("b", low),
        ]
    );
}

#[test]
fn index_fields_are_encoded_by_key() {
    let env = Envelope::builder(Hash256::from_bytes([0u8; 32]), vec![])
        .index("title", IndexValue::from("x"))
        .index("", IndexValue::from(1i64))
        .index("count", IndexValue::from(2i64))
        .index("\u{e9}", IndexValue::from(true))
        .index("z", IndexValue::from(false))
        .build();
    let back = decode(&encode(&env).unwrap()).unwrap();
    let keys: Vec<&str> = back.index.iter().map(|(k, _)| k.as_str()).collect();
    assert_eq!(keys, vec!["", "count", "title", "z", "\u{e9}"]);
}

#[test]
fn encoding_ignores_the_order_of_filling() {
    let x = Hash256::hash(b"x");
    let y = Hash256::hash(b"y");
    let one = Envelope::builder(Hash256::hash(b"T"), vec![1])
        .relationship("tag", x)
        .relationship("author", y)
        .index("a", IndexValue::from("1"))
        .index("b", IndexValue::from(2i64))
        .build();
    let other = Envelope::builder(Hash256::hash(b"T"), vec![1])
        .index("b", IndexValue::from(2i64))
        .relationship("author", y)
        .index("a", IndexValue::from("1"))
        .relationship("tag", x)
        .build();
    assert_ne!(one, other);
    assert_eq!(encode(&one).unwrap(), encode(&other).unwrap());
}

#[test]
fn what_was_read_back_encodes_to_the_same_bytes() {
    let env = Envelope::builder(Hash256::hash(b"T"), vec![1, 2])
        .type_label("Label")
        .relationship("z", Hash256::hash(b"1"))
        .relationship("a", Hash256::hash(b"2"))
        .index("k2", IndexValue::from("v"))
        .index("k1", IndexValue::from(false))
        .previous(Hash256::hash(b"p"))
        .created_at(99)
        .build();
    let bytes = encode(&env).unwrap();
    let back = decode(&bytes).unwrap();
    assert_eq!(back.type_hash, env.type_hash);
    assert_eq!(back.type_label, env.type_label);
    assert_eq!(back.previous, env.previous);
    assert_eq!(back.created_at, env.created_at);
    assert_eq!(back.payload, env.payload);
    assert_eq!(back.relationships.len(), 2);
    assert_eq!(back.index.len(), 2);
    assert_eq!(encode(&back).unwrap(), bytes);
    assert_eq!(decode(&encode(&back).unwrap()), Ok(back));
}

#[test]
fn an_empty_type_label_is_read_back_as_none() {
    let env = Envelope::builder(Hash256::hash(b"T"), vec![])
        .type_label("")
        .build();
    let plain = Envelope::builder(Hash256::hash(b"T"), vec![]).build();
    assert_eq!(encode(&env).unwrap(), encode(&plain).unwrap());
    assert_eq!(decode(&encode(&env).unwrap()).unwrap().type_label, None);
}

#[test]
fn text_is_encoded_as_utf8_with_its_byte_length() {
    let env = Envelope::builder(Hash256::from_bytes([0u8; 32]), vec![])
        .type_label("h\u{e9}\u{20ac}")
        .build();
    let bytes = encode(&env).unwrap();
    assert_eq!(&bytes[32..36], &[6, 0, 0, 0]);
    assert_eq!(&bytes[36..42], &[b'h', 0xc3, 0xa9, 0xe2, 0x82, 0xac]);
    assert_eq!(
        decode(&bytes).unwrap().type_label,
        Some("h\u{e9}\u{20ac}".to_string())
    );
}

#[test]
fn an_envelope_with_a_repeated_key_is_refused() {
    let mut env = minimal();
    env.index.push(("k".to_string(), IndexValue::from("1")));
    env.index.push(("k".to_string(), IndexValue::from("2")));
    assert!(matches!(encode(&env), Err(Error::InvalidEnvelope(_))));
}

fn cut(bytes: &[u8], len: usize) -> Result<Envelope, DecodeError> {
    decode(&bytes[..len])
}

#[test]
fn a_truncated_buffer_names_the_field_it_ends_in() {
    let bytes = full_bytes();
    // type digest: 0..32
    assert_eq!(cut(&bytes, 0), Err(DecodeError::Truncated(Field::TypeHash)));
    assert_eq!(cut(&bytes, 31), Err(DecodeError::Truncated(Field::TypeHash)));
    // type label: 32..37
    assert_eq!(cut(&bytes, 32), Err(DecodeError::Truncated(Field::TypeLabel)));
    assert_eq!(cut(&bytes, 36), Err(DecodeError::Truncated(Field::TypeLabel)));
    // relationship count: 37..41
    assert_eq!(
        cut(&bytes, 37),
        Err(DecodeError::Truncated(Field::RelationshipCount))
    );
    assert_eq!(
        cut(&bytes, 40),
        Err(DecodeError::Truncated(Field::RelationshipCount))
    );
    // relationship kind: 41..46, target: 46..78
    assert_eq!(
        cut(&bytes, 41),
        Err(DecodeError::Truncated(Field::RelationshipType))
    );
    assert_eq!(
        cut(&bytes, 45),
        Err(DecodeError::Truncated(Field::RelationshipType))
    );
    assert_eq!(
        cut(&bytes, 46),
        Err(DecodeError::Truncated(Field::RelationshipTarget))
    );
    assert_eq!(
        cut(&bytes, 77),
        Err(DecodeError::Truncated(Field::RelationshipTarget))
    );
    // index count: 78..82
    assert_eq!(cut(&bytes, 78), Err(DecodeError::Truncated(Field::IndexCount)));
    assert_eq!(cut(&bytes, 81), Err(DecodeError::Truncated(Field::IndexCount)));
    // key: 82..87, tag: 87, value: 88..93
    assert_eq!(cut(&bytes, 82), Err(DecodeError::Truncated(Field::IndexKey)));
    assert_eq!(cut(&bytes, 86), Err(DecodeError::Truncated(Field::IndexKey)));
    assert_eq!(cut(&bytes, 87), Err(DecodeError::Truncated(Field::IndexTag)));
    assert_eq!(cut(&bytes, 88), Err(DecodeError::Truncated(Field::IndexValue)));
    assert_eq!(cut(&bytes, 92), Err(DecodeError::Truncated(Field::IndexValue)));
    // previous: 93..126
    assert_eq!(cut(&bytes, 93), Err(DecodeError::Truncated(Field::Previous)));
    assert_eq!(cut(&bytes, 125), Err(DecodeError::Truncated(Field::Previous)));
    // creation time: 126..135
    assert_eq!(cut(&bytes, 126), Err(DecodeError::Truncated(Field::CreatedAt)));
    assert_eq!(cut(&bytes, 134), Err(DecodeError::Truncated(Field::CreatedAt)));
    // payload: 135..140
    assert_eq!(cut(&bytes, 135), Err(DecodeError::Truncated(Field::Payload)));
    assert_eq!(cut(&bytes, 139), Err(DecodeError::Truncated(Field::Payload)));
    assert_eq!(bytes.len(), 140);
    assert_eq!(cut(&bytes, 140), Ok(full()));
}

#[test]
fn a_length_that_exceeds_the_buffer_is_refused() {
    let mut bytes = minimal_bytes();
    bytes[32] = 200; // a type label of 200 bytes in a buffer of 53
    assert_eq!(decode(&bytes), Err(DecodeError::Truncated(Field::TypeLabel)));
    let mut bytes = minimal_bytes();
    bytes[36] = 1; // one relationship, of which nothing is left
    assert!(decode(&bytes).is_err());
    let mut bytes = minimal_bytes();
    bytes[49] = 0xff; // a payload of nearly 4 GiB
    assert_eq!(decode(&bytes), Err(DecodeError::Truncated(Field::Payload)));
}

#[test]
fn an_unknown_tag_is_refused_with_the_tag() {
    let mut bytes = full_bytes();
    assert_eq!(bytes[87], 0);
    bytes[87] = 6;
    assert_eq!(decode(&bytes), Err(DecodeError::UnknownTag(6)));
    bytes[87] = 255;
    assert_eq!(decode(&bytes), Err(DecodeError::UnknownTag(255)));
}

#[test]
fn invalid_utf8_is_read_with_replacements() {
    let mut bytes = full_bytes();
    assert_eq!(bytes[36], b'T');
    bytes[36] = 0xff;
    let back = decode(&bytes).unwrap();
    assert_eq!(back.type_label, Some("\u{fffd}".to_string()));
    assert_eq!(back.payload, vec![9]);
}

#[test]
fn a_presence_byte_other_than_one_means_absent() {
    let mut bytes = minimal_bytes();
    bytes[44] = 2; // previous
    bytes[45] = 0xff; // creation time
    assert_eq!(decode(&bytes), Ok(minimal()));
}

#[test]
fn a_truth_value_is_true_for_any_byte_but_zero() {
    let env = Envelope::builder(Hash256::from_bytes([7u8; 32]), vec![])
        .index("k", IndexValue::Bool(true))
        .build();
    let mut bytes = encode(&env).unwrap();
    assert_eq!(&bytes[49..51], &[3, 1]);
    bytes[50] = 2;
    assert_eq!(decode(&bytes), Ok(env));
}

#[test]
fn a_repeated_key_keeps_its_last_value_when_read() {
    let mut bytes = vec![7u8; 32];
    bytes.extend_from_slice(&[0, 0, 0, 0]);
    bytes.extend_from_slice(&[0, 0, 0, 0]);
    bytes.extend_from_slice(&[3, 0, 0, 0]);
    bytes.extend_from_slice(&[1, 0, 0, 0, b'k', 3, 1]);
    bytes.extend_from_slice(&[1, 0, 0, 0, b'j', 3, 0]);
    bytes.extend_from_slice(&[1, 0, 0, 0, b'k', 3, 0]);
    bytes.extend_from_slice(&[0, 0]);
    bytes.extend_from_slice(&[0, 0, 0, 0]);
    let back = decode(&bytes).unwrap();
    assert_eq!(
        back.index,
        vec![
            ("k".to_string(), IndexValue::Bool(false)),
            ("j".to_string(), IndexValue::Bool(false)),
        ]
    );
}

#[test]
fn relationships_are_read_in_the_order_written() {
    let mut bytes = vec![7u8; 32];
    bytes.extend_from_slice(&[0, 0, 0, 0]);
    bytes.extend_from_slice(&[2, 0, 0, 0]);
    bytes.extend_from_slice(&[1, 0, 0, 0, b'z']);
    bytes.extend_from_slice(&[9u8; 32]);
    bytes.extend_from_slice(&[1, 0, 0, 0, b'a']);
    bytes.extend_from_slice(&[8u8; 32]);
    bytes.extend_from_slice(&[0, 0, 0, 0]);
    bytes.extend_from_slice(&[0, 0]);
    bytes.extend_from_slice(&[0, 0, 0, 0]);
    let back = decode(&bytes).unwrap();
    assert_eq!(
        back.relationships,
        vec![
            Relationship::new("z", Hash256::from_bytes([9u8; 32])),
            Relationship::new("a", Hash256::from_bytes([8u8; 32])),
        ]
    );
}

#[test]
fn bytes_after_the_payload_are_ignored() {
    let mut bytes = minimal_bytes();
    bytes.extend_from_slice(&[1, 2, 3, 4]);
    assert_eq!(decode(&bytes), Ok(minimal()));
}

#[test]
fn a_decoding_error_says_where_reading_stopped() {
    assert_eq!(
        DecodeError::Truncated(Field::TypeHash).message(),
        "truncated at type_hash"
    );
    assert_eq!(
        DecodeError::Truncated(Field::RelationshipTarget).message(),
        "truncated at relationship target"
    );
    assert_eq!(
        DecodeError::Truncated(Field::Payload).message(),
        "truncated at payload"
    );
    assert_eq!(
        DecodeError::UnknownTag(9).message(),
        "unknown index value tag"
    );
    assert_eq!(Field::IndexKey.name(), "index key");
}

#[test]
fn a_decoding_error_becomes_a_serialization_error() {
    assert_eq!(
        Error::from(DecodeError::Truncated(Field::Payload)),
        Error::Serialization("truncated at payload".to_string())
    );
    assert_eq!(
        Error::from(DecodeError::UnknownTag(7)),
        Error::Serialization("unknown index value tag".to_string())
    );
    let read: Result<Envelope, Error> = decode(&[1, 2, 3]).map_err(Error::from);
    assert_eq!(
        read,
        Err(Error::Serialization("truncated at type_hash".to_string()))
    );
}
