//! The key under which a client's bucket is stored. It is a digest of the
//! client's identity, so the store never holds the identity itself.

use sha2::{Digest, Sha256};
use vstd::prelude::*;
use vstd::string::*;

verus! {

/// The SHA-256 digest of `data`.
pub uninterp spec fn sha256(data: Seq<u8>) -> Seq<u8>;

/// `Sha256::digest` of the `sha2` crate. Trusted: the result is the SHA-256
/// digest of the input, which has 32 bytes.
#[verifier::external_body]
fn sha256_digest(data: &[u8]) -> (digest: Vec<u8>)
    ensures
        digest@ == sha256(data@),
        digest@.len() == 32,
{
    Sha256::digest(data).to_vec()
}

/// What every key starts with, to keep it apart from other users of the
/// same store: `bucket:`.
pub open spec fn key_prefix() -> Seq<char> {
    seq!['b', 'u', 'c', 'k', 'e', 't', ':']
}

/// The sixteen hexadecimal digits in lower case, by value.
pub open spec fn hex_digits() -> Seq<char> {
    seq!['0', '1', '2', '3', '4', '5', '6', '7', '8', '9', 'a', 'b', 'c', 'd', 'e', 'f']
}

/// Two lower-case hexadecimal digits per byte, high half first.
pub open spec fn hex_lower(data: Seq<u8>) -> Seq<char> {
    Seq::new(
        2 * data.len(),
        |i: int|
            if i % 2 == 0 {
                hex_digits()[data[i / 2] as int / 16]
            } else {
                hex_digits()[data[i / 2] as int % 16]
            },
    )
}

/// The key of the client with this identity.
pub open spec fn bucket_key(identity: Seq<char>) -> Seq<char> {
    key_prefix() + hex_lower(sha256(vstd::utf8::encode_utf8(identity)))
}

fn hex_digit(nibble: u8) -> (text: &'static str)
    requires
        nibble < 16,
    ensures
        text@ == seq![hex_digits()[nibble as int]],
{
    proof {
        reveal_strlit("0");
        reveal_strlit("1");
        reveal_strlit("2");
        reveal_strlit("3");
        reveal_strlit("4");
        reveal_strlit("5");
        reveal_strlit("6");
        reveal_strlit("7");
        reveal_strlit("8");
        reveal_strlit("9");
        reveal_strlit("a");
        reveal_strlit("b");
        reveal_strlit("c");
        reveal_strlit("d");
        reveal_strlit("e");
        reveal_strlit("f");
    }
    let text = match nibble {
        0 => "0",
        1 => "1",
        2 => "2",
        3 => "3",
        4 => "4",
        5 => "5",
        6 => "6",
        7 => "7",
        8 => "8",
        9 => "9",
        10 => "a",
        11 => "b",
        12 => "c",
        13 => "d",
        14 => "e",
        _ => "f",
    };
    assert(text@ =~= seq![hex_digits()[nibble as int]]);
    text
}

/// Derives the store key of a client: the prefix, then the SHA-256 digest
/// of the identity's UTF-8 bytes in lower-case hexadecimal. The same
/// identity always gives the same key.
pub fn generate_bucket_key(identity: &str) -> (key: String)
    ensures
        key@ == bucket_key(identity@),
        key@.len() == 71,
{
    let digest = sha256_digest(identity.as_bytes());
    let mut key = "bucket:".to_owned();
    proof {
        reveal_strlit("bucket:");
        assert(key@ =~= key_prefix());
    }
    let mut i: usize = 0;
    while i < digest.len()
        invariant
            i <= digest@.len(),
            key@ == key_prefix() + hex_lower(digest@).take(2 * i),
        decreases digest@.len() - i,
    {
        let byte: u8 = digest[i];
        key.append(hex_digit(byte / 16));
        key.append(hex_digit(byte % 16));
        i = i + 1;
        assert(key@ =~= key_prefix() + hex_lower(digest@).take(2 * i));
    }
    assert(hex_lower(digest@).take(2 * i) =~= hex_lower(digest@));
    key
}


/// Different bytes have different hexadecimal text.
proof fn lemma_hex_lower_injective(x: Seq<u8>, y: Seq<u8>)
    requires
        hex_lower(x) == hex_lower(y),
    ensures
        x == y,
{
    assert(hex_lower(x).len() == 2 * x.len());
    assert(hex_lower(y).len() == 2 * y.len());
    assert forall|p: int, q: int| 0 <= p < 16 && 0 <= q < 16 && hex_digits()[p] == hex_digits()[q]
        implies p == q by {}
    assert forall|i: int| 0 <= i < x.len() implies x[i] == y[i] by {
        let hi_x = x[i] as int / 16;
        let hi_y = y[i] as int / 16;
        let lo_x = x[i] as int % 16;
        let lo_y = y[i] as int % 16;
        assert(hex_lower(x)[2 * i] == hex_digits()[hi_x]);
        assert(hex_lower(y)[2 * i] == hex_digits()[hi_y]);
        assert(hex_lower(x)[2 * i + 1] == hex_digits()[lo_x]);
        assert(hex_lower(y)[2 * i + 1] == hex_digits()[lo_y]);
        assert(hi_x == hi_y);
        assert(lo_x == lo_y);
    }
    assert(x =~= y);
}

/// The key gives away nothing but the digest, and loses nothing of it: two
/// clients share a key only if their identities, which differ as bytes, have
/// the same SHA-256 digest.
pub proof fn law_keys_collide_only_with_digests(a: Seq<char>, b: Seq<char>)
    requires
        bucket_key(a) == bucket_key(b),
        a != b,
    ensures
        vstd::utf8::encode_utf8(a) != vstd::utf8::encode_utf8(b),
        sha256(vstd::utf8::encode_utf8(a)) == sha256(vstd::utf8::encode_utf8(b)),
{
    let x = sha256(vstd::utf8::encode_utf8(a));
    let y = sha256(vstd::utf8::encode_utf8(b));
    assert(hex_lower(x) =~= bucket_key(a).subrange(7, bucket_key(a).len() as int));
    assert(hex_lower(y) =~= bucket_key(b).subrange(7, bucket_key(b).len() as int));
    lemma_hex_lower_injective(x, y);
    vstd::utf8::encode_utf8_decode_utf8(a);
    vstd::utf8::encode_utf8_decode_utf8(b);
}

} // verus!
