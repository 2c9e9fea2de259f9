use envelope::envelope::{IndexValue, Relationship};
use envelope::{Envelope, Error, Hash256};

#[test]
fn test_build_envelope() {
    let type_hash = Hash256::hash(b"TestType");
    let payload = vec![1, 2, 3, 4];

    let env = Envelope::builder(type_hash, payload)
        .type_label("TestType")
        .index("title", IndexValue::from("Hello World"))
        .index("count", IndexValue::from(42i64))
        .build();

    assert_eq!(env.type_label, Some("TestType".to_string()));
    assert_eq!(env.index.len(), 2);
}

#[test]
fn test_envelope_hash_deterministic() {
    let type_hash = Hash256::hash(b"TestType");
    let payload = vec![1, 2, 3, 4];

    let env1 = Envelope::builder(type_hash, payload.clone())
        .index("a", IndexValue::from("1"))
        .index("b", IndexValue::from("2"))
        .build();

    // Same envelope, different insertion order
    let env2 = Envelope::builder(type_hash, payload)
        .index("b", IndexValue::from("2"))
        .index("a", IndexValue::from("1"))
        .build();

    assert_eq!(env1.hash(), env2.hash());
    assert!(env1.hash().is_ok());
}

#[test]
fn builder_starts_with_the_required_fields_only() {
    let type_hash = Hash256::hash(b"T");
    let env = Envelope::builder(type_hash, vec![9]).build();
    assert_eq!(env.type_hash, type_hash);
    assert_eq!(env.type_label, None);
    assert!(env.relationships.is_empty());
    assert!(env.index.is_empty());
    assert_eq!(env.previous, None);
    assert_eq!(env.created_at, None);
    assert_eq!(env.payload, vec![9]);
}

#[test]
fn builder_keeps_relationships_in_the_order_given() {
    let a = Hash256::hash(b"a");
    let b = Hash256::hash(b"b");
    let env = Envelope::builder(Hash256::hash(b"T"), vec![])
        .relationship("tag", b)
        .relationship("author", a)
        .relationship("tag", b)
        .build();
    assert_eq!(
        env.relationships,
        vec![
            Relationship::new("tag", b),
            Relationship::new("author", a),
            Relationship::new("tag", b),
        ]
    );
}

#[test]
fn builder_replaces_the_value_of_a_repeated_key_in_place() {
    let env = Envelope::builder(Hash256::hash(b"T"), vec![])
        .index("a", IndexValue::from("1"))
        .index("b", IndexValue::from(true))
        .index("a", IndexValue::from(7i64))
        .build();
    assert_eq!(
        env.index,
        vec![
            ("a".to_string(), IndexValue::Int64(7)),
            ("b".to_string(), IndexValue::Bool(true)),
        ]
    );
    assert!(env.is_well_formed());
}

#[test]
fn builder_sets_previous_and_creation_time() {
    let earlier = Hash256::hash(b"earlier");
    let env = Envelope::builder(Hash256::hash(b"T"), vec![])
        .previous(earlier)
        .created_at(-5)
        .build();
    assert_eq!(env.previous, Some(earlier));
    assert_eq!(env.created_at, Some(-5));
}

#[test]
fn index_values_come_from_plain_values() {
    assert_eq!(IndexValue::from("x"), IndexValue::String("x".to_string()));
    assert_eq!(
        IndexValue::from("x".to_string()),
        IndexValue::String("x".to_string())
    );
    assert_eq!(IndexValue::from(-3i64), IndexValue::Int64(-3));
    assert_eq!(IndexValue::from(false), IndexValue::Bool(false));
    let h = Hash256::hash(b"h");
    assert_eq!(IndexValue::from(h), IndexValue::Hash(h));
    assert_eq!(
        IndexValue::Float64(1.5f64.to_bits()),
        IndexValue::Float64(0x3ff8_0000_0000_0000)
    );
}

#[test]
fn an_envelope_with_a_repeated_key_is_not_well_formed() {
    let mut env = Envelope::builder(Hash256::hash(b"T"), vec![])
        .index("a", IndexValue::from("1"))
        .build();
    assert!(env.is_well_formed());
    env.index.push(("b".to_string(), IndexValue::from("2")));
    assert!(env.is_well_formed());
    env.index.push(("a".to_string(), IndexValue::from("3")));
    assert!(!env.is_well_formed());
    assert_eq!(
        env.hash(),
        Err(Error::InvalidEnvelope(
            "a repeated index key or an oversized field".to_string()
        ))
    );
}

#[test]
fn the_digest_of_an_envelope_is_that_of_its_encoding() {
    let env = Envelope::builder(Hash256::from_bytes([7u8; 32]), vec![1, 2, 3]).build();
    let bytes = envelope::encoding::encode(&env).unwrap();
    assert_eq!(env.hash().unwrap(), Hash256::hash(&bytes));
    assert_eq!(
        env.hash().unwrap().to_hex(),
        "29df0c9feb997808aff997fb30bbabda24a0f16210c65067f5d8d98b0d43c20c"
    );
}

#[test]
fn relationships_in_another_order_give_the_same_digest() {
    let x = Hash256::hash(b"x");
    let y = Hash256::hash(b"y");
    let one = Envelope::builder(Hash256::hash(b"T"), vec![1])
        .relationship("tag", x)
        .relationship("author", y)
        .relationship("tag", y)
        .build();
    let other = Envelope::builder(Hash256::hash(b"T"), vec![1])
        .relationship("tag", y)
        .relationship("tag", x)
        .relationship("author", y)
        .build();
    assert_eq!(one.hash(), other.hash());
    let fewer = Envelope::builder(Hash256::hash(b"T"), vec![1])
        .relationship("tag", x)
        .relationship("author", y)
        .build();
    assert_ne!(one.hash(), fewer.hash());
}

#[test]
fn a_repeated_relationship_counts() {
    let x = Hash256::hash(b"x");
    let once = Envelope::builder(Hash256::hash(b"T"), vec![])
        .relationship("tag", x)
        .build();
    let twice = Envelope::builder(Hash256::hash(b"T"), vec![])
        .relationship("tag", x)
        .relationship("tag", x)
        .build();
    assert_ne!(once.hash(), twice.hash());
}

#[test]
fn every_field_is_part_of_the_digest() {
    let base = || Envelope::builder(Hash256::hash(b"T"), vec![1]);
    let plain = base().build().hash().unwrap();
    let differing = vec![
        Envelope::builder(Hash256::hash(b"U"), vec![1]).build(),
        Envelope::builder(Hash256::hash(b"T"), vec![2]).build(),
        base().type_label("T").build(),
        base().relationship("r", Hash256::hash(b"x")).build(),
        base().index("k", IndexValue::from("v")).build(),
        base().index("k", IndexValue::Int64(1)).build(),
        base().index("k", IndexValue::Float64(1)).build(),
        base().index("k", IndexValue::Bool(true)).build(),
        base().index("k", IndexValue::Hash(Hash256::hash(b"x"))).build(),
        base().index("k", IndexValue::Timestamp(1)).build(),
        base().previous(Hash256::hash(b"p")).build(),
        base().created_at(0).build(),
    ];
    let mut digests = vec![plain];
    for env in &differing {
        let digest = env.hash().unwrap();
        assert!(!digests.contains(&digest));
        digests.push(digest);
    }
}
