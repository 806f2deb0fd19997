//! The object codec: the byte form of an object, its hash, and hex text.
//!
//! An object is stored as `<kind> <length>`, a NUL byte, and the content.
//! Its hash is the SHA-256 digest of those bytes in lowercase hex.

use crate::bytes::{
    ascii, copy_range, decimal, decimal_bytes, extend, find, find_byte, lemma_decimal_digits,
    lemma_find_at, push_text, NUL, SPACE,
};
use crate::error::Error;
use vstd::prelude::*;

verus! {

#[verifier::external_type_specification]
#[verifier::external_body]
pub struct ExFromHexError(hex::FromHexError);

/// The three kinds of object.
#[derive(Clone, Copy, Debug, PartialEq, Eq, Structural)]
pub enum ObjectKind {
    /// The raw bytes of one file.
    Blob,
    /// The entries of one directory.
    Tree,
    /// One snapshot with its ancestry and metadata.
    Commit,
}

impl ObjectKind {
    /// The name under which the kind stands in an object's header.
    pub open spec fn name(self) -> Seq<u8> {
        match self {
            ObjectKind::Blob => ascii("blob"@),
            ObjectKind::Tree => ascii("tree"@),
            ObjectKind::Commit => ascii("commit"@),
        }
    }
}

/// The header of an object of `len` content bytes, without its closing NUL.
pub open spec fn header(kind: ObjectKind, len: nat) -> Seq<u8> {
    kind.name() + seq![SPACE] + decimal(len)
}

/// The store bytes of an object: header, NUL, content.
pub open spec fn encoded(kind: ObjectKind, content: Seq<u8>) -> Seq<u8> {
    header(kind, content.len()) + seq![NUL] + content
}

/// Store bytes split at their first NUL into header and content, if there
/// is a NUL.
pub open spec fn decoded(store: Seq<u8>) -> Option<(Seq<u8>, Seq<u8>)> {
    let n = find(store, NUL);
    if n < store.len() {
        Some((store.take(n), store.skip(n + 1)))
    } else {
        None
    }
}

/// The two lowercase hex digits' worth of `v`, for `v` below 16.
pub open spec fn hex_digit(v: int) -> u8 {
    if v < 10 {
        (48 + v) as u8
    } else {
        (87 + v) as u8
    }
}

/// What a hex digit stands for; upper and lower case both count.
pub open spec fn hex_value(c: u8) -> Option<int> {
    if 48 <= c <= 57 {
        Some(c - 48)
    } else if 97 <= c <= 102 {
        Some(c - 87)
    } else if 65 <= c <= 70 {
        Some(c - 55)
    } else {
        None
    }
}

/// Lowercase hex text: two digits for each byte, high half first.
pub open spec fn hex_lower(data: Seq<u8>) -> Seq<u8> {
    Seq::new(
        (2 * data.len()) as nat,
        |i: int|
            if i % 2 == 0 {
                hex_digit(data[i / 2] as int / 16)
            } else {
                hex_digit(data[i / 2] as int % 16)
            },
    )
}

/// Whether `text` is a string of hex digit pairs.
pub open spec fn is_hex(text: Seq<u8>) -> bool {
    &&& text.len() % 2 == 0
    &&& forall|i: int| 0 <= i < text.len() ==> hex_value(#[trigger] text[i]) is Some
}

/// The bytes that hex text stands for.
pub open spec fn hex_bytes(text: Seq<u8>) -> Seq<u8> {
    Seq::new(
        (text.len() / 2) as nat,
        |i: int| (16 * hex_value(text[2 * i]).unwrap() + hex_value(text[2 * i + 1]).unwrap()) as u8,
    )
}

/// The SHA-256 digest of a byte string.
pub uninterp spec fn sha256(data: Seq<u8>) -> Seq<u8>;

/// The digest as the 32 bytes that it always is. (Zeros stand where the
/// named function would have another length, which the hasher never gives.)
pub open spec fn digest(data: Seq<u8>) -> Seq<u8> {
    if sha256(data).len() == 32 {
        sha256(data)
    } else {
        Seq::new(32, |i: int| 0u8)
    }
}

/// The hash of an object: the digest of its store bytes in lowercase hex.
pub open spec fn object_id(store: Seq<u8>) -> Seq<u8> {
    hex_lower(digest(store))
}

/// The bytes of the three kind names.
pub proof fn lemma_kind_names()
    ensures
        ObjectKind::Blob.name() == seq![98u8, 108, 111, 98],
        ObjectKind::Tree.name() == seq![116u8, 114, 101, 101],
        ObjectKind::Commit.name() == seq![99u8, 111, 109, 109, 105, 116],
{
    reveal_strlit("blob");
    reveal_strlit("tree");
    reveal_strlit("commit");
    assert(ObjectKind::Blob.name() =~= seq![98u8, 108, 111, 98]);
    assert(ObjectKind::Tree.name() =~= seq![116u8, 114, 101, 101]);
    assert(ObjectKind::Commit.name() =~= seq![99u8, 111, 109, 109, 105, 116]);
}

/// Decoding undoes encoding: the content comes back byte for byte.
pub proof fn lemma_decode_encode(kind: ObjectKind, content: Seq<u8>)
    ensures
        decoded(encoded(kind, content)) == Some((header(kind, content.len()), content)),
{
    let h = header(kind, content.len());
    let s = encoded(kind, content);
    lemma_kind_names();
    lemma_decimal_digits(content.len());
    let name = kind.name();
    assert forall|j: int| 0 <= j < h.len() implies h[j] != NUL by {
        if j < name.len() {
            assert(h[j] == name[j]);
        } else if j == name.len() {
            assert(h[j] == SPACE);
        } else {
            assert(h[j] == decimal(content.len())[j - name.len() - 1]);
        }
    }
    assert forall|j: int| 0 <= j < h.len() implies s[j] != NUL by {
        assert(s[j] == h[j]);
    }
    assert(s[h.len() as int] == NUL);
    lemma_find_at(s, NUL, h.len() as int);
    assert(s.take(h.len() as int) =~= h);
    assert(s.skip(h.len() as int + 1) =~= content);
}

/// Objects with the same store bytes are of the same kind and content.
pub proof fn lemma_encoded_injective(k1: ObjectKind, c1: Seq<u8>, k2: ObjectKind, c2: Seq<u8>)
    requires
        encoded(k1, c1) == encoded(k2, c2),
    ensures
        k1 == k2,
        c1 == c2,
{
    lemma_decode_encode(k1, c1);
    lemma_decode_encode(k2, c2);
    lemma_kind_names();
    let h1 = header(k1, c1.len());
    let h2 = header(k2, c2.len());
    assert(h1 == h2);
    assert(h1[0] == k1.name()[0]);
    assert(h2[0] == k2.name()[0]);
}

/// Decoding hex undoes encoding it, and what `hex_lower` gives is hex.
pub proof fn lemma_hex_round_trip(data: Seq<u8>)
    ensures
        is_hex(hex_lower(data)),
        hex_bytes(hex_lower(data)) == data,
        hex_lower(data).len() == 2 * data.len(),
{
    let text = hex_lower(data);
    assert forall|i: int| 0 <= i < text.len() implies hex_value(#[trigger] text[i]) is Some by {
        let x = data[i / 2] as int;
        assert(0 <= x / 16 < 16 && 0 <= x % 16 < 16);
    }
    assert forall|i: int| 0 <= i < data.len() implies hex_bytes(text)[i] == data[i] by {
        let x = data[i] as int;
        assert((2 * i) / 2 == i && (2 * i) % 2 == 0);
        assert((2 * i + 1) / 2 == i && (2 * i + 1) % 2 == 1);
        assert(text[2 * i] == hex_digit(x / 16));
        assert(text[2 * i + 1] == hex_digit(x % 16));
        assert(0 <= x / 16 < 16 && 0 <= x % 16 < 16);
        assert(16 * (x / 16) + x % 16 == x);
    }
    assert(hex_bytes(text) =~= data);
}

/// Content addressing. Objects of the same kind and content have the same
/// store bytes and so the same hash, whatever path or call they came from;
/// objects that differ have different store bytes; and two hashes are equal
/// exactly when the SHA-256 digests of the store bytes are.
pub proof fn lemma_content_addressing(k1: ObjectKind, c1: Seq<u8>, k2: ObjectKind, c2: Seq<u8>)
    ensures
        encoded(k1, c1) == encoded(k2, c2) <==> k1 == k2 && c1 == c2,
        object_id(encoded(k1, c1)) == object_id(encoded(k2, c2)) <==> digest(encoded(k1, c1))
            == digest(encoded(k2, c2)),
{
    if encoded(k1, c1) == encoded(k2, c2) {
        lemma_encoded_injective(k1, c1, k2, c2);
    }
    lemma_hex_round_trip(digest(encoded(k1, c1)));
    lemma_hex_round_trip(digest(encoded(k2, c2)));
}

/// A hash is 64 lowercase hex digits.
pub proof fn lemma_object_id(store: Seq<u8>)
    ensures
        object_id(store).len() == 64,
        is_hex(object_id(store)),
        hex_bytes(object_id(store)) == digest(store),
        forall|i: int|
            0 <= i < 64 ==> 48 <= #[trigger] object_id(store)[i] <= 57 || 97 <= object_id(
                store,
            )[i] <= 102,
{
    lemma_hex_round_trip(digest(store));
    assert forall|i: int| 0 <= i < 64 implies 48 <= #[trigger] object_id(store)[i] <= 57 || 97
        <= object_id(store)[i] <= 102 by {
        let x = digest(store)[i / 2] as int;
        assert(0 <= x / 16 < 16 && 0 <= x % 16 < 16);
    }
}

/// Calls `sha2::Sha256::digest`, the one-shot form of the hasher.
/// Believed of it: the digest depends on the data alone, which `sha256`
/// names, and is 32 bytes long.
#[verifier::external_body]
fn sha256_digest(data: &[u8]) -> (digest: Vec<u8>)
    ensures
        digest@ == sha256(data@),
        digest@.len() == 32,
{
    <sha2::Sha256 as sha2::Digest>::digest(data).to_vec()
}

/// Calls `hex::encode`. Believed of it: each byte becomes two lowercase
/// hex digits, the high half first.
#[verifier::external_body]
fn hex_encode(data: &[u8]) -> (text: Vec<u8>)
    ensures
        text@ == hex_lower(data@),
{
    hex::encode(data).into_bytes()
}

/// Calls `hex::decode`. Believed of it: it succeeds exactly on an even
/// number of hex digits of either case, and then gives one byte for each
/// pair, the first digit being the high half.
#[verifier::external_body]
fn hex_decode(text: &[u8]) -> (r: Result<Vec<u8>, hex::FromHexError>)
    ensures
        r is Ok <==> is_hex(text@),
        r matches Ok(data) ==> data@ == hex_bytes(text@),
{
    hex::decode(text)
}

/// Encodes an object into its store bytes.
pub fn encode(kind: ObjectKind, content: &[u8]) -> (store: Vec<u8>)
    ensures
        store@ == encoded(kind, content@),
{
    let mut store: Vec<u8> = Vec::new();
    proof {
        reveal_strlit("blob");
        reveal_strlit("tree");
        reveal_strlit("commit");
    }
    match kind {
        ObjectKind::Blob => push_text(&mut store, "blob"),
        ObjectKind::Tree => push_text(&mut store, "tree"),
        ObjectKind::Commit => push_text(&mut store, "commit"),
    }
    store.push(SPACE);
    let digits = decimal_bytes(content.len() as u64);
    extend(&mut store, digits.as_slice());
    store.push(NUL);
    extend(&mut store, content);
    assert(store@ =~= encoded(kind, content@));
    store
}

/// Splits store bytes at the first NUL into the header and the content,
/// which is returned verbatim. Store bytes without a NUL are corrupt.
pub fn decode(store: &[u8]) -> (r: Result<(Vec<u8>, Vec<u8>), Error>)
    ensures
        match r {
            Ok(parts) => decoded(store@) == Some((parts.0@, parts.1@)),
            Err(e) => e == Error::CorruptObject && decoded(store@) is None,
        },
{
    let n = find_byte(store, NUL);
    if n < store.len() {
        let head = copy_range(store, 0, n);
        let content = copy_range(store, n + 1, store.len());
        Ok((head, content))
    } else {
        Err(Error::CorruptObject)
    }
}

/// The hash of store bytes: 64 lowercase hex digits.
pub fn hash(store: &[u8]) -> (id: Vec<u8>)
    ensures
        id@ == object_id(store@),
        id@.len() == 64,
        digest(store@) == sha256(store@),
{
    let digest = sha256_digest(store);
    hex_encode(digest.as_slice())
}

/// Lowercase hex text for `data`.
pub fn to_hex(data: &[u8]) -> (text: Vec<u8>)
    ensures
        text@ == hex_lower(data@),
{
    hex_encode(data)
}

/// The bytes that `text` stands for, if it is a string of hex digit pairs.
pub fn from_hex(text: &[u8]) -> (r: Result<Vec<u8>, Error>)
    ensures
        match r {
            Ok(data) => is_hex(text@) && data@ == hex_bytes(text@),
            Err(e) => e == Error::InvalidHash && !is_hex(text@),
        },
{
    match hex_decode(text) {
        Ok(data) => Ok(data),
        Err(_) => Err(Error::InvalidHash),
    }
}

} // verus!
