use envelope::hash::HexError;
use envelope::Hash256;

#[test]
fn test_hash_deterministic() {
    let data = b"hello world";
    let h1 = Hash256::hash(data);
    let h2 = Hash256::hash(data);
    assert_eq!(h1, h2);
}

#[test]
fn test_hash_differs() {
    let h1 = Hash256::hash(b"hello");
    let h2 = Hash256::hash(b"world");
    assert_ne!(h1, h2);
}

#[test]
fn test_hex_roundtrip() {
    let h = Hash256::hash(b"test");
    let hex = h.to_hex();
    let h2 = Hash256::from_hex(&hex).unwrap();
    assert_eq!(h, h2);
}

#[test]
fn hash_of_hello_is_its_sha256_digest() {
    let h = Hash256::hash(b"hello");
    assert_eq!(
        h.to_hex(),
        "2cf24dba5fb0a30e26e83b2ac5b9e29e1b161e5c1fa7425e73043362938b9824"
    );
    let again = Hash256::hash(&[b'h', b'e', b'l', b'l', b'o']);
    assert_eq!(h, again);
}

#[test]
fn hash_of_nothing_is_the_empty_digest() {
    assert_eq!(
        Hash256::hash(b"").to_hex(),
        "e3b0c44298fc1c149afbf4c8996fb92427ae41e4649b934ca495991b7852b855"
    );
    assert_eq!(Hash256::hash_parts(&[]), Hash256::hash(b""));
}

#[test]
fn hash_parts_hashes_the_concatenation() {
    let parts: Vec<&[u8]> = vec![b"hello", b"", b"world"];
    let joined = Hash256::hash_parts(&parts);
    assert_eq!(joined, Hash256::hash(b"helloworld"));
    assert_eq!(
        joined.to_hex(),
        "936a185caaa266bb9cbe981e9e05cb78cd732b0b3280eb944412bb6f8f8f07af"
    );
    assert_ne!(joined, Hash256::hash(b"hello"));
    assert_ne!(joined, Hash256::hash(b"world"));
}

#[test]
fn hash_parts_keeps_the_order_of_parts() {
    let forward: Vec<&[u8]> = vec![b"ab", b"cd"];
    let backward: Vec<&[u8]> = vec![b"cd", b"ab"];
    let regrouped: Vec<&[u8]> = vec![b"a", b"bcd"];
    assert_ne!(Hash256::hash_parts(&forward), Hash256::hash_parts(&backward));
    assert_eq!(Hash256::hash_parts(&forward), Hash256::hash_parts(&regrouped));
}

#[test]
fn from_bytes_and_as_bytes_are_exact() {
    let mut raw = [0u8; 32];
    for (i, byte) in raw.iter_mut().enumerate() {
        *byte = i as u8;
    }
    let h = Hash256::from_bytes(raw);
    assert_eq!(h.as_bytes(), &raw);
    assert_eq!(
        h.to_hex(),
        "000102030405060708090a0b0c0d0e0f101112131415161718191a1b1c1d1e1f"
    );
}

#[test]
fn to_hex_is_lowercase_and_short_is_its_first_eight_digits() {
    let h = Hash256::from_bytes([0xAB; 32]);
    assert_eq!(h.to_hex(), "ab".repeat(32));
    assert_eq!(h.short(), "abababab");
    let hello = Hash256::hash(b"hello");
    assert_eq!(hello.short(), "2cf24dba");
    assert_eq!(hello.short().len(), 8);
}

#[test]
fn from_hex_reads_either_case() {
    let lower = Hash256::from_hex(&"ab".repeat(32)).unwrap();
    let upper = Hash256::from_hex(&"AB".repeat(32)).unwrap();
    let mixed = Hash256::from_hex(&"aB".repeat(32)).unwrap();
    assert_eq!(lower, Hash256::from_bytes([0xAB; 32]));
    assert_eq!(upper, lower);
    assert_eq!(mixed, lower);
}

#[test]
fn from_hex_refuses_an_odd_length_first() {
    assert_eq!(Hash256::from_hex("abc"), Err(HexError::OddLength));
    assert_eq!(Hash256::from_hex("zzz"), Err(HexError::OddLength));
}

#[test]
fn from_hex_reports_the_first_invalid_character() {
    assert_eq!(
        Hash256::from_hex("0g"),
        Err(HexError::InvalidHexCharacter { c: 'g', index: 1 })
    );
    assert_eq!(
        Hash256::from_hex("ab!dzz"),
        Err(HexError::InvalidHexCharacter { c: '!', index: 2 })
    );
    let mut text = "00".repeat(32);
    text.replace_range(10..11, "x");
    assert_eq!(
        Hash256::from_hex(&text),
        Err(HexError::InvalidHexCharacter { c: 'x', index: 10 })
    );
}

#[test]
fn from_hex_reads_bytes_not_characters() {
    // One two-byte character: an even number of bytes, the first no digit.
    assert_eq!(
        Hash256::from_hex("\u{e9}"),
        Err(HexError::InvalidHexCharacter { c: '\u{c3}', index: 0 })
    );
}

#[test]
fn from_hex_refuses_another_length_than_a_digest() {
    assert_eq!(Hash256::from_hex(""), Err(HexError::InvalidStringLength));
    assert_eq!(Hash256::from_hex("abcd"), Err(HexError::InvalidStringLength));
    assert_eq!(
        Hash256::from_hex(&"00".repeat(33)),
        Err(HexError::InvalidStringLength)
    );
}

#[test]
fn default_digest_is_all_zero() {
    assert_eq!(Hash256::default(), Hash256::from_bytes([0u8; 32]));
    assert_eq!(Hash256::default().to_hex(), "0".repeat(64));
}
