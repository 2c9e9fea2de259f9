use envelope::envelope::IndexValue;
use envelope::{Envelope, Error, Hash256, Store};

#[test]
fn test_store_roundtrip() {
    let mut store = Store::new();

    let type_hash = Hash256::hash(b"TestType");
    let envelope = Envelope::builder(type_hash, vec![1, 2, 3, 4])
        .type_label("TestType")
        .index("title", IndexValue::from("Hello"))
        .build();

    let hash = store.put(&envelope).unwrap();
    let retrieved = store.get(&hash).unwrap();

    assert_eq!(retrieved.type_label, envelope.type_label);
    assert_eq!(retrieved.payload, envelope.payload);
}

#[test]
fn test_store_deduplication() {
    let mut store = Store::new();

    let type_hash = Hash256::hash(b"TestType");
    let payload = vec![1, 2, 3, 4];

    let env1 = Envelope::builder(type_hash, payload.clone()).build();
    let env2 = Envelope::builder(type_hash, payload).build();

    let hash1 = store.put(&env1).unwrap();
    let hash2 = store.put(&env2).unwrap();

    // Same content = same hash = deduplicated
    assert_eq!(hash1, hash2);
    assert_eq!(store.len(), 1);
}

#[test]
fn a_new_store_is_empty() {
    let store = Store::new();
    assert!(store.is_empty());
    assert_eq!(store.len(), 0);
    assert!(store.hashes().is_empty());
    let other = Store::default();
    assert!(other.is_empty());
}

#[test]
fn put_returns_the_digest_of_the_encoding() {
    let mut store = Store::new();
    let env = Envelope::builder(Hash256::from_bytes([7u8; 32]), vec![1, 2, 3]).build();
    let hash = store.put(&env).unwrap();
    assert_eq!(
        hash.to_hex(),
        "29df0c9feb997808aff997fb30bbabda24a0f16210c65067f5d8d98b0d43c20c"
    );
    assert_eq!(hash, env.hash().unwrap());
    assert!(store.contains(&hash));
    assert!(!store.is_empty());
    assert_eq!(store.hashes(), vec![hash]);
}

#[test]
fn content_in_another_order_is_stored_once() {
    let mut store = Store::new();
    let x = Hash256::hash(b"x");
    let y = Hash256::hash(b"y");
    let one = Envelope::builder(Hash256::hash(b"T"), vec![1])
        .index("a", IndexValue::from("1"))
        .index("b", IndexValue::from("2"))
        .relationship("r", x)
        .relationship("r", y)
        .build();
    let other = Envelope::builder(Hash256::hash(b"T"), vec![1])
        .relationship("r", y)
        .index("b", IndexValue::from("2"))
        .relationship("r", x)
        .index("a", IndexValue::from("1"))
        .build();
    let before = store.len();
    let first = store.put(&one).unwrap();
    let second = store.put(&other).unwrap();
    assert_eq!(first, second);
    assert_eq!(store.len(), before + 1);
}

#[test]
fn get_of_an_unknown_digest_is_not_found() {
    let mut store = Store::new();
    let unknown = Hash256::hash(b"never written");
    assert_eq!(
        store.get(&unknown),
        Err(Error::NotFound(unknown.to_hex()))
    );
    let env = Envelope::builder(Hash256::hash(b"T"), vec![1]).build();
    store.put(&env).unwrap();
    assert_eq!(
        store.get(&unknown),
        Err(Error::NotFound(unknown.to_hex()))
    );
    assert_eq!(store.get(&Hash256::default()), Err(Error::NotFound("0".repeat(64))));
    assert!(!store.contains(&unknown));
}

#[test]
fn get_returns_what_was_put_in_canonical_order() {
    let mut store = Store::new();
    let x = Hash256::from_bytes([1u8; 32]);
    let y = Hash256::from_bytes([2u8; 32]);
    let env = Envelope::builder(Hash256::hash(b"T"), vec![5, 6])
        .type_label("Post")
        .relationship("tag", y)
        .relationship("author", x)
        .relationship("tag", x)
        .index("title", IndexValue::from("Zero"))
        .index("count", IndexValue::from(3i64))
        .previous(x)
        .created_at(1_708_523_400)
        .build();
    let hash = store.put(&env).unwrap();
    let back = store.get(&hash).unwrap();
    let expected = Envelope::builder(Hash256::hash(b"T"), vec![5, 6])
        .type_label("Post")
        .relationship("author", x)
        .relationship("tag", x)
        .relationship("tag", y)
        .index("count", IndexValue::from(3i64))
        .index("title", IndexValue::from("Zero"))
        .previous(x)
        .created_at(1_708_523_400)
        .build();
    assert_eq!(back, expected);
    assert_eq!(back.hash().unwrap(), hash);
}

#[test]
fn an_earlier_version_stays_as_it_was() {
    let mut store = Store::new();
    let a = Envelope::builder(Hash256::hash(b"Post"), b"first".to_vec())
        .index("words", IndexValue::from("1500"))
        .build();
    let hash_a = store.put(&a).unwrap();
    let before = store.get(&hash_a).unwrap();

    let b = Envelope::builder(Hash256::hash(b"Post"), b"second".to_vec())
        .index("words", IndexValue::from("1600"))
        .previous(hash_a)
        .build();
    let hash_b = store.put(&b).unwrap();

    assert_ne!(hash_b, hash_a);
    assert_eq!(store.get(&hash_a).unwrap(), before);
    assert_eq!(store.get(&hash_a).unwrap(), a);
    assert_eq!(store.get(&hash_b).unwrap().previous, Some(hash_a));
    assert_eq!(store.len(), 2);
}

#[test]
fn an_envelope_that_is_not_well_formed_is_refused_and_nothing_stored() {
    let mut store = Store::new();
    let mut env = Envelope::builder(Hash256::hash(b"T"), vec![]).build();
    env.index.push(("k".to_string(), IndexValue::from("1")));
    env.index.push(("k".to_string(), IndexValue::from("2")));
    assert!(matches!(store.put(&env), Err(Error::InvalidEnvelope(_))));
    assert!(store.is_empty());
}

#[test]
fn hashes_lists_every_stored_digest_once() {
    let mut store = Store::new();
    let mut expected = Vec::new();
    for i in 0u8..5 {
        let env = Envelope::builder(Hash256::hash(b"T"), vec![i]).build();
        expected.push(store.put(&env).unwrap());
        store.put(&env).unwrap();
    }
    let mut listed = store.hashes();
    assert_eq!(listed.len(), 5);
    assert_eq!(store.len(), 5);
    listed.sort_by_key(|h| h.to_hex());
    expected.sort_by_key(|h| h.to_hex());
    assert_eq!(listed, expected);
}

#[test]
fn an_error_says_its_kind_and_its_detail() {
    assert_eq!(
        Error::InvalidEnvelope("x".to_string()).message(),
        "Invalid envelope: x"
    );
    assert_eq!(
        Error::HashMismatch {
            expected: "ab".to_string(),
            actual: "cd".to_string()
        }
        .message(),
        "Hash mismatch: expected ab, got cd"
    );
    assert_eq!(
        Error::NotFound("00ff".to_string()).message(),
        "Object not found: 00ff"
    );
    assert_eq!(Error::Storage("full".to_string()).message(), "Storage error: full");
    assert_eq!(
        Error::Serialization("truncated at payload".to_string()).message(),
        "Serialization error: truncated at payload"
    );
    let store = Store::new();
    let unknown = Hash256::default();
    assert_eq!(
        store.get(&unknown).unwrap_err().message(),
        format!("Object not found: {}", "0".repeat(64))
    );
}
