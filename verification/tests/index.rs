use envelope::envelope::IndexValue;
use envelope::index::{Index, IndexedStore};
use envelope::{Envelope, Error, Hash256};

#[test]
fn test_indexed_store() {
    let mut store = IndexedStore::new();

    let author_type = Hash256::hash(b"Author");
    let post_type = Hash256::hash(b"Post");

    // Create author
    let author = Envelope::builder(author_type, b"Alice".to_vec())
        .index("name", IndexValue::from("Alice"))
        .build();
    let author_hash = store.put(&author).unwrap();

    // Create posts by that author
    let post1 = Envelope::builder(post_type, b"Post 1".to_vec())
        .index("title", IndexValue::from("First Post"))
        .relationship("author", author_hash)
        .build();
    let post1_hash = store.put(&post1).unwrap();

    let post2 = Envelope::builder(post_type, b"Post 2".to_vec())
        .index("title", IndexValue::from("Second Post"))
        .relationship("author", author_hash)
        .build();
    let post2_hash = store.put(&post2).unwrap();

    // Query by type
    let authors: Vec<_> = store.query_by_type(&author_type);
    assert_eq!(authors.len(), 1);
    assert!(authors.contains(&author_hash));

    let posts: Vec<_> = store.query_by_type(&post_type);
    assert_eq!(posts.len(), 2);

    // Query by field
    let alice_results: Vec<_> = store.query_by_field("name", "Alice");
    assert_eq!(alice_results.len(), 1);

    // Reverse query: who references the author?
    let referencing: Vec<_> = store.query_references_to(&author_hash);
    assert_eq!(referencing.len(), 2);
    assert!(referencing.contains(&post1_hash));
    assert!(referencing.contains(&post2_hash));
}

#[test]
fn a_text_field_finds_exactly_its_envelope() {
    let mut store = IndexedStore::new();
    let alice = Envelope::builder(Hash256::hash(b"Author"), b"a".to_vec())
        .index("name", IndexValue::from("Alice"))
        .build();
    let bob = Envelope::builder(Hash256::hash(b"Author"), b"b".to_vec())
        .index("name", IndexValue::from("Bob"))
        .index("alias", IndexValue::from("Alice"))
        .build();
    let alice_hash = store.put(&alice).unwrap();
    let bob_hash = store.put(&bob).unwrap();
    assert_eq!(store.query_by_field("name", "Alice"), vec![alice_hash]);
    assert_eq!(store.query_by_field("name", "Bob"), vec![bob_hash]);
    assert_eq!(store.query_by_field("alias", "Alice"), vec![bob_hash]);
    assert!(store.query_by_field("name", "alice").is_empty());
    assert!(store.query_by_field("Alice", "name").is_empty());
}

#[test]
fn only_text_fields_are_indexed_by_field() {
    let mut index = Index::new();
    let digest = Hash256::hash(b"d");
    let env = Envelope::builder(Hash256::hash(b"T"), vec![])
        .index("n", IndexValue::Int64(1))
        .index("b", IndexValue::Bool(true))
        .index("t", IndexValue::Timestamp(1))
        .index("f", IndexValue::Float64(1))
        .index("h", IndexValue::Hash(Hash256::hash(b"x")))
        .index("s", IndexValue::from("1"))
        .build();
    index.add(digest, &env);
    assert_eq!(index.by_field("s", "1"), vec![digest]);
    assert!(index.by_field("n", "1").is_empty());
    assert!(index.by_field("b", "true").is_empty());
    assert!(index.by_field("t", "1").is_empty());
}

#[test]
fn a_new_index_finds_nothing() {
    let index = Index::new();
    let any = Hash256::hash(b"any");
    assert!(index.by_type(&any).is_empty());
    assert!(index.by_field("k", "v").is_empty());
    assert!(index.references_to(&any).is_empty());
    assert!(index.by_relationship("r", &any).is_empty());
    let other = Index::default();
    assert!(other.by_type(&any).is_empty());
}

#[test]
fn a_relationship_is_found_from_its_target_and_leaves_with_its_source() {
    let mut index = Index::new();
    let source = Hash256::hash(b"source");
    let target = Hash256::hash(b"target");
    let other = Hash256::hash(b"other");
    let env = Envelope::builder(Hash256::hash(b"T"), vec![])
        .relationship("author", target)
        .relationship("tag", other)
        .build();
    index.add(source, &env);
    assert_eq!(index.references_to(&target), vec![source]);
    assert_eq!(index.by_relationship("author", &target), vec![source]);
    assert_eq!(index.references_to(&other), vec![source]);
    assert_eq!(index.by_relationship("tag", &other), vec![source]);
    assert!(index.by_relationship("tag", &target).is_empty());
    assert!(index.by_relationship("author", &other).is_empty());
    assert_eq!(index.by_type(&Hash256::hash(b"T")), vec![source]);

    index.remove(&source, &env);
    assert!(index.references_to(&target).is_empty());
    assert!(index.by_relationship("author", &target).is_empty());
    assert!(index.references_to(&other).is_empty());
    assert!(index.by_relationship("tag", &other).is_empty());
    assert!(index.by_type(&Hash256::hash(b"T")).is_empty());
}

#[test]
fn references_are_gathered_over_all_kinds_and_each_source_once() {
    let mut index = Index::new();
    let target = Hash256::hash(b"target");
    let one = Hash256::hash(b"one");
    let two = Hash256::hash(b"two");
    let first = Envelope::builder(Hash256::hash(b"T"), vec![])
        .relationship("author", target)
        .relationship("editor", target)
        .relationship("author", target)
        .build();
    let second = Envelope::builder(Hash256::hash(b"T"), vec![])
        .relationship("editor", target)
        .build();
    index.add(one, &first);
    index.add(two, &second);
    index.add(one, &first);
    let mut found = index.references_to(&target);
    found.sort_by_key(|h| h.to_hex());
    let mut expected = vec![one, two];
    expected.sort_by_key(|h| h.to_hex());
    assert_eq!(found, expected);
    assert_eq!(index.by_relationship("author", &target), vec![one]);
    assert_eq!(index.by_relationship("editor", &target).len(), 2);
    assert_eq!(index.by_type(&Hash256::hash(b"T")).len(), 2);
}

#[test]
fn removing_one_envelope_leaves_the_others_filed() {
    let mut index = Index::new();
    let target = Hash256::hash(b"target");
    let one = Hash256::hash(b"one");
    let two = Hash256::hash(b"two");
    let env = Envelope::builder(Hash256::hash(b"T"), vec![])
        .index("name", IndexValue::from("same"))
        .relationship("author", target)
        .build();
    index.add(one, &env);
    index.add(two, &env);
    index.remove(&one, &env);
    assert_eq!(index.by_field("name", "same"), vec![two]);
    assert_eq!(index.references_to(&target), vec![two]);
    assert_eq!(index.by_relationship("author", &target), vec![two]);
    assert_eq!(index.by_type(&Hash256::hash(b"T")), vec![two]);
    index.remove(&one, &env);
    assert_eq!(index.by_field("name", "same"), vec![two]);
}

#[test]
fn an_indexed_store_starts_empty() {
    let store = IndexedStore::new();
    assert!(store.is_empty());
    assert_eq!(store.len(), 0);
    let other = IndexedStore::default();
    assert!(other.is_empty());
    assert!(!store.contains(&Hash256::default()));
}

#[test]
fn an_indexed_store_reads_back_what_it_holds() {
    let mut store = IndexedStore::new();
    let env = Envelope::builder(Hash256::hash(b"T"), vec![1]).build();
    let hash = store.put(&env).unwrap();
    assert!(store.contains(&hash));
    assert_eq!(store.get(&hash), Ok(env));
    assert_eq!(store.len(), 1);
    assert!(!store.is_empty());
    let unknown = Hash256::hash(b"unknown");
    assert_eq!(store.get(&unknown), Err(Error::NotFound(unknown.to_hex())));
}

#[test]
fn every_query_result_is_stored() {
    let mut store = IndexedStore::new();
    let target = Hash256::hash(b"outside the store");
    for i in 0u8..4 {
        let env = Envelope::builder(Hash256::hash(b"T"), vec![i])
            .index("k", IndexValue::from("v"))
            .relationship("r", target)
            .build();
        store.put(&env).unwrap();
    }
    let by_type = store.query_by_type(&Hash256::hash(b"T"));
    let by_field = store.query_by_field("k", "v");
    let by_target = store.query_references_to(&target);
    assert_eq!(by_type.len(), 4);
    assert_eq!(by_field.len(), 4);
    assert_eq!(by_target.len(), 4);
    for digest in by_type.iter().chain(&by_field).chain(&by_target) {
        assert!(store.contains(digest));
    }
    assert!(!store.contains(&target));
}

#[test]
fn an_envelope_that_is_refused_is_not_filed() {
    let mut store = IndexedStore::new();
    let mut env = Envelope::builder(Hash256::hash(b"T"), vec![]).build();
    env.index.push(("k".to_string(), IndexValue::from("v")));
    env.index.push(("k".to_string(), IndexValue::from("w")));
    assert!(matches!(store.put(&env), Err(Error::InvalidEnvelope(_))));
    assert!(store.is_empty());
    assert!(store.query_by_type(&Hash256::hash(b"T")).is_empty());
    assert!(store.query_by_field("k", "v").is_empty());
}

#[test]
fn putting_the_same_content_twice_files_it_once() {
    let mut store = IndexedStore::new();
    let env = Envelope::builder(Hash256::hash(b"T"), vec![1])
        .index("k", IndexValue::from("v"))
        .build();
    let first = store.put(&env).unwrap();
    let second = store.put(&env).unwrap();
    assert_eq!(first, second);
    assert_eq!(store.len(), 1);
    assert_eq!(store.query_by_type(&Hash256::hash(b"T")), vec![first]);
    assert_eq!(store.query_by_field("k", "v"), vec![first]);
}
