//! 256-bit content digests: SHA-256 over bytes, with a lowercase hex form.

use vstd::prelude::*;
use vstd::string::StrSliceExecFns;
use vstd::utf8::{encode_utf8, is_ascii_chars, is_ascii_chars_encode_utf8};

verus! {

/// The SHA-256 digest of a message, as the `sha2` crate computes it.
pub uninterp spec fn spec_sha256(message: Seq<u8>) -> Seq<u8>;

/// The bytes that a running SHA-256 computation has taken in so far.
pub uninterp spec fn absorbed(state: Sha256State) -> Seq<u8>;

/// A running SHA-256 computation of the `sha2` crate.
///
/// `sha2::Sha256` is a generic type bounded by traits of the `digest`
/// crate, which the verifier does not take in a declaration, so the value
/// is held opaquely.
#[verifier::external_body]
pub struct Sha256State {
    inner: sha2::Sha256,
}

/// `sha2::Digest::new` for `Sha256`: a computation that has taken in nothing.
#[verifier::external_body]
fn sha256_start() -> (state: Sha256State)
    ensures
        absorbed(state) == Seq::<u8>::empty(),
{
    Sha256State { inner: <sha2::Sha256 as sha2::Digest>::new() }
}

/// `sha2::Digest::update`: the computation takes in `data` after what it
/// already holds.
#[verifier::external_body]
fn sha256_absorb(state: &mut Sha256State, data: &[u8])
    ensures
        absorbed(*final(state)) == absorbed(*old(state)) + data@,
{
    sha2::Digest::update(&mut state.inner, data);
}

/// `sha2::Digest::finalize`: the 32-byte SHA-256 digest of everything taken
/// in.
#[verifier::external_body]
fn sha256_finish(state: Sha256State) -> (digest: [u8; 32])
    ensures
        digest@ == spec_sha256(absorbed(state)),
{
    sha2::Digest::finalize(state.inner).into()
}

/// The concatenation of `parts`, in order.
pub open spec fn concat_all(parts: Seq<Seq<u8>>) -> Seq<u8>
    decreases parts.len(),
{
    if parts.len() == 0 {
        Seq::empty()
    } else {
        concat_all(parts.drop_last()) + parts.last()
    }
}

/// The byte contents of a sequence of slices.
pub open spec fn slices_view(parts: Seq<&[u8]>) -> Seq<Seq<u8>> {
    Seq::new(parts.len(), |i: int| parts[i]@)
}

/// The lowercase hex digit for a value below sixteen.
pub open spec fn hex_digit(nibble: int) -> char {
    if nibble < 10 {
        (nibble + 48) as char
    } else {
        (nibble + 87) as char
    }
}

/// The lowercase hex text of `bytes`: two digits per byte, high nibble first.
pub open spec fn spec_hex_encode(bytes: Seq<u8>) -> Seq<char> {
    Seq::new(
        2 * bytes.len(),
        |i: int|
            if i % 2 == 0 {
                hex_digit(bytes[i / 2] as int / 16)
            } else {
                hex_digit(bytes[i / 2] as int % 16)
            },
    )
}

/// The value of an ASCII hex digit of either case, if `c` is one.
pub open spec fn hex_value(c: u8) -> Option<int> {
    if 48 <= c <= 57 {
        Some(c as int - 48)
    } else if 97 <= c <= 102 {
        Some(c as int - 87)
    } else if 65 <= c <= 70 {
        Some(c as int - 55)
    } else {
        None
    }
}

/// Whether `i` is the position of the first byte of `text` that is no hex
/// digit.
pub open spec fn first_non_hex(text: Seq<u8>, i: int) -> bool {
    &&& 0 <= i < text.len()
    &&& hex_value(text[i]) is None
    &&& forall|j: int| 0 <= j < i ==> hex_value(text[j]) is Some
}

/// Why a text is not the hex form of a digest.
#[derive(Clone, Copy, Debug, PartialEq, Eq)]
pub enum HexError {
    /// A byte that is no hex digit, with its position in the text.
    InvalidHexCharacter { c: char, index: usize },
    /// An odd number of digits.
    OddLength,
    /// A number of digits other than sixty-four.
    InvalidStringLength,
}

/// Whether `text` is hex text: an even number of hex digits of either case.
pub open spec fn is_hex_text(text: Seq<u8>) -> bool {
    &&& text.len() % 2 == 0
    &&& forall|i: int| 0 <= i < text.len() ==> hex_value(#[trigger] text[i]) is Some
}

/// The bytes that hex text stands for: one for each two digits, the high
/// nibble first.
pub open spec fn hex_bytes(text: Seq<u8>) -> Seq<u8> {
    Seq::new(
        text.len() / 2,
        |k: int| (16 * hex_value(text[2 * k])->0 + hex_value(text[2 * k + 1])->0) as u8,
    )
}

/// The bytes that hex text stands for, or why it stands for none: an odd
/// length is reported first, then the first byte that is no hex digit.
pub open spec fn spec_hex_decode(text: Seq<u8>) -> Result<Seq<u8>, HexError> {
    if text.len() % 2 != 0 {
        Err(HexError::OddLength)
    } else if exists|i: int| first_non_hex(text, i) {
        let i = choose|i: int| first_non_hex(text, i);
        Err(HexError::InvalidHexCharacter { c: text[i] as char, index: i as usize })
    } else {
        Ok(hex_bytes(text))
    }
}

/// The digest that hex text stands for: sixty-four hex digits.
pub open spec fn spec_from_hex(text: Seq<u8>) -> Result<Seq<u8>, HexError> {
    match spec_hex_decode(text) {
        Ok(bytes) => if bytes.len() == 32 {
            Ok(bytes)
        } else {
            Err(HexError::InvalidStringLength)
        },
        Err(e) => Err(e),
    }
}

/// The error of the `hex` crate.
#[verifier::external_type_specification]
#[verifier::external_body]
pub struct ExFromHexError(hex::FromHexError);

/// `hex::encode`: two lowercase hex digits for each byte, high nibble first.
#[verifier::external_body]
fn hex_encode(bytes: &[u8]) -> (text: String)
    ensures
        text@ == spec_hex_encode(bytes@),
{
    hex::encode(bytes)
}

/// `hex::decode`: succeeds on an even number of hex digits of either case,
/// and then gives one byte for each two digits, the high nibble first.
#[verifier::external_body]
fn hex_decode(text: &[u8]) -> (res: Result<Vec<u8>, hex::FromHexError>)
    ensures
        res is Ok <==> is_hex_text(text@),
        res matches Ok(bytes) ==> bytes@ == hex_bytes(text@),
{
    hex::decode(text)
}

/// Whether `byte` is an ASCII hex digit of either case.
pub fn is_hex_digit(byte: u8) -> (digit: bool)
    ensures
        digit == (hex_value(byte) is Some),
{
    (48 <= byte && byte <= 57) || (97 <= byte && byte <= 102) || (65 <= byte && byte <= 70)
}

/// Why `text` is no hex text: its odd length, or else its first byte that
/// is no hex digit.
fn hex_fault(text: &[u8]) -> (fault: HexError)
    requires
        !is_hex_text(text@),
    ensures
        spec_hex_decode(text@) == Err::<Seq<u8>, HexError>(fault),
{
    if text.len() % 2 != 0 {
        return HexError::OddLength;
    }
    let mut i: usize = 0;
    while i < text.len()
        invariant
            i <= text@.len(),
            text@.len() % 2 == 0,
            forall|j: int| 0 <= j < i ==> hex_value(#[trigger] text@[j]) is Some,
        decreases text@.len() - i,
    {
        if !is_hex_digit(text[i]) {
            assert(first_non_hex(text@, i as int));
            return HexError::InvalidHexCharacter { c: text[i] as char, index: i };
        }
        i += 1;
    }
    // an even number of hex digits is hex text
    unreached()
}

/// A 256-bit content digest.
///
/// Digests are equal when their 32 bytes are equal.
#[derive(Clone, Copy, Debug, Eq, Hash)]
pub struct Hash256 {
    bytes: [u8; 32],
}

impl View for Hash256 {
    type V = Seq<u8>;

    closed spec fn view(&self) -> Seq<u8> {
        self.bytes@
    }
}

impl PartialEq for Hash256 {
    fn eq(&self, other: &Self) -> (same: bool) {
        let mut i: usize = 0;
        while i < 32
            invariant
                i <= 32,
                forall|k: int| 0 <= k < i ==> self.bytes@[k] == other.bytes@[k],
            decreases 32 - i,
        {
            if self.bytes[i] != other.bytes[i] {
                return false;
            }
            i += 1;
        }
        assert(self.bytes@ =~= other.bytes@);
        true
    }
}

impl vstd::std_specs::cmp::PartialEqSpecImpl for Hash256 {
    open spec fn obeys_eq_spec() -> bool {
        true
    }

    open spec fn eq_spec(&self, other: &Self) -> bool {
        self@ == other@
    }
}

impl Default for Hash256 {
    /// The digest of 32 zero bytes.
    fn default() -> (digest: Self)
        ensures
            digest@ == Seq::new(32, |i: int| 0u8),
    {
        Hash256 { bytes: [0u8; 32] }
    }
}

/// Every digest has 32 bytes.
pub proof fn lemma_digest_len(digest: Hash256)
    ensures
        digest@.len() == 32,
{
}

impl Hash256 {
    /// Wraps 32 raw bytes as a digest.
    pub fn from_bytes(bytes: [u8; 32]) -> (digest: Self)
        ensures
            digest@ == bytes@,
    {
        Hash256 { bytes }
    }

    /// The 32 raw bytes of the digest.
    pub fn as_bytes(&self) -> (bytes: &[u8; 32])
        ensures
            bytes@ == self@,
    {
        &self.bytes
    }

    /// The SHA-256 digest of `data`.
    pub fn hash(data: &[u8]) -> (digest: Self)
        ensures
            digest@ == spec_sha256(data@),
    {
        let mut state = sha256_start();
        sha256_absorb(&mut state, data);
        Hash256 { bytes: sha256_finish(state) }
    }

    /// The SHA-256 digest of the concatenation of `parts`, which is taken in
    /// part by part and never assembled.
    pub fn hash_parts(parts: &[&[u8]]) -> (digest: Self)
        ensures
            digest@ == spec_sha256(concat_all(slices_view(parts@))),
    {
        let mut state = sha256_start();
        let ghost all = slices_view(parts@);
        for i in 0..parts.len()
            invariant
                all == slices_view(parts@),
                absorbed(state) == concat_all(all.take(i as int)),
        {
            assert(all.take(i + 1).drop_last() =~= all.take(i as int));
            sha256_absorb(&mut state, parts[i]);
        }
        assert(all.take(parts.len() as int) =~= all);
        Hash256 { bytes: sha256_finish(state) }
    }

    /// Reads a digest from its hex form: sixty-four hex digits of either
    /// case, taken from the UTF-8 bytes of `s`.
    pub fn from_hex(s: &str) -> (res: Result<Self, HexError>)
        ensures
            match res {
                Ok(digest) => spec_from_hex(encode_utf8(s@)) == Ok::<Seq<u8>, HexError>(digest@),
                Err(e) => spec_from_hex(encode_utf8(s@)) == Err::<Seq<u8>, HexError>(e),
            },
    {
        let text = s.as_bytes();
        match hex_decode(text) {
            Ok(decoded) => {
                if decoded.len() != 32 {
                    return Err(HexError::InvalidStringLength);
                }
                let mut bytes = [0u8; 32];
                for i in 0..32usize
                    invariant
                        decoded.len() == 32,
                        forall|k: int| 0 <= k < i ==> bytes@[k] == decoded@[k],
                {
                    bytes[i] = decoded[i];
                }
                assert(bytes@ =~= decoded@);
                Ok(Hash256 { bytes })
            },
            Err(_) => Err(hex_fault(text)),
        }
    }

    /// The lowercase hex form of the digest: sixty-four digits.
    pub fn to_hex(&self) -> (text: String)
        ensures
            text@ == spec_hex_encode(self@),
    {
        hex_encode(self.bytes.as_slice())
    }

    /// The first eight digits of the hex form, for display only.
    pub fn short(&self) -> (text: String)
        ensures
            text@ == spec_hex_encode(self@).take(8),
    {
        let full = self.to_hex();
        proof {
            lemma_hex_encode_is_ascii(self@);
        }
        full.as_str().substring_ascii(0, 8).to_owned()
    }
}

/// Hex text is ASCII: each digit is one of `0`-`9`, `a`-`f`.
pub proof fn lemma_hex_encode_is_ascii(bytes: Seq<u8>)
    ensures
        is_ascii_chars(spec_hex_encode(bytes)),
        spec_hex_encode(bytes).len() == 2 * bytes.len(),
{
}

/// Reading back the hex form of any bytes gives those bytes.
pub proof fn law_hex_decode_encode(bytes: Seq<u8>)
    ensures
        spec_hex_decode(encode_utf8(spec_hex_encode(bytes))) == Ok::<Seq<u8>, HexError>(bytes),
{
    let chars = spec_hex_encode(bytes);
    let text = encode_utf8(chars);
    lemma_hex_encode_is_ascii(bytes);
    is_ascii_chars_encode_utf8(chars);
    assert forall|i: int| 0 <= i < text.len() implies hex_value(#[trigger] text[i]) == Some(
        if i % 2 == 0 {
            bytes[i / 2] as int / 16
        } else {
            bytes[i / 2] as int % 16
        },
    ) by {
        assert(text[i] == chars[i] as u8);
    }
    assert(!exists|i: int| first_non_hex(text, i));
    assert(spec_hex_decode(text)->Ok_0 =~= bytes);
}

/// Reading back the hex form of a digest gives that digest.
pub proof fn law_from_hex_to_hex(digest: Hash256)
    ensures
        spec_from_hex(encode_utf8(spec_hex_encode(digest@))) == Ok::<Seq<u8>, HexError>(digest@),
{
    law_hex_decode_encode(digest@);
}

} // verus!
