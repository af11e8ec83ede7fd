//! The stored form of a bucket: one line of text that names both fields,
//! `{"tokens":9,"last_refill":1700000000000000000}`. The decoder takes this
//! form and nothing else.

use vstd::prelude::*;
use crate::bucket::BucketState;
use crate::decimal::{
    decimal, delimited_at, lemma_delimited_unique, parse_decimal, push_decimal,
};
use crate::time::Timestamp;

verus! {

/// Why stored bytes were not taken for a bucket.
#[derive(Clone, Copy, Debug, PartialEq, Eq, Structural)]
pub enum DecodeError {
    /// The bytes are not a record in the stored form: written by something
    /// else, cut short, or altered.
    CorruptState,
}

/// `{"tokens":`
pub const TOKENS_LABEL: [u8; 10] = [123, 34, 116, 111, 107, 101, 110, 115, 34, 58];

/// `,"last_refill":`
pub const REFILL_LABEL: [u8; 15] = [
    44,
    34,
    108,
    97,
    115,
    116,
    95,
    114,
    101,
    102,
    105,
    108,
    108,
    34,
    58,
];

/// `}`
pub const CLOSING: [u8; 1] = [125];

/// The stored form of `s`.
pub open spec fn encode_spec(s: BucketState) -> Seq<u8> {
    TOKENS_LABEL@ + decimal(s.tokens as int) + REFILL_LABEL@ + decimal(s.last_refill.nanos as int)
        + CLOSING@
}

/// The bucket that `bytes` are the stored form of, if they are one.
pub open spec fn decode_spec(bytes: Seq<u8>) -> Option<BucketState> {
    if exists|s: BucketState| bytes == encode_spec(s) {
        Some(choose|s: BucketState| bytes == encode_spec(s))
    } else {
        None
    }
}

/// Where the parts of a stored form lie.
proof fn lemma_encode_layout(s: BucketState)
    ensures
        ({
            let b = encode_spec(s);
            let t = decimal(s.tokens as int);
            let n = decimal(s.last_refill.nanos as int);
            let tl = t.len() as int;
            let nl = n.len() as int;
            &&& b.len() == 26 + tl + nl
            &&& b.subrange(0, 10) == TOKENS_LABEL@
            &&& delimited_at(b, 10, t)
            &&& b.subrange(10 + tl, 25 + tl) == REFILL_LABEL@
            &&& delimited_at(b, 25 + tl, n)
            &&& b.subrange(25 + tl + nl, 26 + tl + nl) == CLOSING@
        }),
{
    let b = encode_spec(s);
    let t = decimal(s.tokens as int);
    let n = decimal(s.last_refill.nanos as int);
    let tl = t.len() as int;
    let nl = n.len() as int;
    assert(b.subrange(0, 10) =~= TOKENS_LABEL@);
    assert(b.subrange(10, 10 + tl) =~= t);
    assert(b.subrange(10 + tl, 25 + tl) =~= REFILL_LABEL@);
    assert(b.subrange(25 + tl, 25 + tl + nl) =~= n);
    assert(b.subrange(25 + tl + nl, 26 + tl + nl) =~= CLOSING@);
    assert(b[10 + tl] == REFILL_LABEL@[0]);
    assert(b[25 + tl + nl] == CLOSING@[0]);
}

/// Two buckets with one stored form are one bucket.
pub proof fn lemma_encode_injective(a: BucketState, b: BucketState)
    requires
        encode_spec(a) == encode_spec(b),
    ensures
        a == b,
{
    lemma_encode_layout(a);
    lemma_encode_layout(b);
    let bytes = encode_spec(a);
    lemma_delimited_unique(bytes, 10, a.tokens as int, b.tokens as int);
    let t = decimal(a.tokens as int);
    lemma_delimited_unique(
        bytes,
        25 + t.len() as int,
        a.last_refill.nanos as int,
        b.last_refill.nanos as int,
    );
}

/// Reading back what was written gives the bucket that was written.
pub proof fn lemma_round_trip(s: BucketState)
    ensures
        decode_spec(encode_spec(s)) == Some(s),
{
    let bytes = encode_spec(s);
    assert(exists|x: BucketState| bytes == encode_spec(x));
    let chosen = choose|x: BucketState| bytes == encode_spec(x);
    lemma_encode_injective(chosen, s);
}

fn push_all(out: &mut Vec<u8>, text: &[u8])
    ensures
        final(out)@ == old(out)@ + text@,
{
    let mut i: usize = 0;
    while i < text.len()
        invariant
            i <= text@.len(),
            out@ == old(out)@ + text@.take(i as int),
        decreases text@.len() - i,
    {
        out.push(text[i]);
        i = i + 1;
        assert(out@ =~= old(out)@ + text@.take(i as int));
    }
    assert(text@.take(i as int) =~= text@);
}

/// Whether `text` stands in `bytes` at `at`.
fn stands_at(bytes: &[u8], at: usize, text: &[u8]) -> (found: bool)
    ensures
        found == (at + text@.len() <= bytes@.len() && bytes@.subrange(
            at as int,
            at + text@.len(),
        ) == text@),
{
    if text.len() > bytes.len() || at > bytes.len() - text.len() {
        return false;
    }
    let mut i: usize = 0;
    while i < text.len()
        invariant
            at + text@.len() <= bytes@.len() <= usize::MAX,
            i <= text@.len(),
            bytes@.subrange(at as int, at + i) == text@.take(i as int),
        decreases text@.len() - i,
    {
        if bytes[at + i] != text[i] {
            assert(bytes@.subrange(at as int, at + text@.len())[i as int] != text@[i as int]);
            return false;
        }
        i = i + 1;
        assert(bytes@.subrange(at as int, at + i) =~= text@.take(i as int)) by {
            assert(bytes@.subrange(at as int, at + i).drop_last() =~= bytes@.subrange(
                at as int,
                at + i - 1,
            ));
            assert(text@.take(i as int).drop_last() =~= text@.take(i - 1));
        }
    }
    assert(text@.take(i as int) =~= text@);
    true
}

/// Writes `state` in its stored form.
pub fn encode(state: &BucketState) -> (bytes: Vec<u8>)
    ensures
        bytes@ == encode_spec(*state),
        decode_spec(bytes@) == Some(*state),
{
    let mut out: Vec<u8> = Vec::new();
    push_all(&mut out, TOKENS_LABEL.as_slice());
    push_decimal(&mut out, state.tokens);
    push_all(&mut out, REFILL_LABEL.as_slice());
    push_decimal(&mut out, state.last_refill.nanos);
    push_all(&mut out, CLOSING.as_slice());
    proof {
        assert(out@ =~= encode_spec(*state));
        lemma_round_trip(*state);
    }
    out
}

/// Reads a bucket from its stored form. Bytes in any other form are
/// `CorruptState`; they are never taken for an empty or a full bucket.
pub fn decode(bytes: &[u8]) -> (r: Result<BucketState, DecodeError>)
    ensures
        match r {
            Ok(s) => bytes@ == encode_spec(s) && decode_spec(bytes@) == Some(s),
            Err(e) => e == DecodeError::CorruptState && decode_spec(bytes@) is None,
        },
{
    let total = bytes.len();
    if !stands_at(bytes, 0, TOKENS_LABEL.as_slice()) {
        proof {
            assert forall|s: BucketState| bytes@ != encode_spec(s) by {
                lemma_encode_layout(s);
            }
        }
        return Err(DecodeError::CorruptState);
    }
    let (tokens, after_tokens) = match parse_decimal(bytes, 10) {
        Some(found) => found,
        None => {
            proof {
                assert forall|s: BucketState| bytes@ != encode_spec(s) by {
                    lemma_encode_layout(s);
                    assert(!delimited_at(bytes@, 10, decimal(s.tokens as int)));
                }
            }
            return Err(DecodeError::CorruptState);
        },
    };
    if !stands_at(bytes, after_tokens, REFILL_LABEL.as_slice()) {
        proof {
            assert forall|s: BucketState| bytes@ != encode_spec(s) by {
                lemma_encode_layout(s);
                if bytes@ == encode_spec(s) {
                    lemma_delimited_unique(bytes@, 10, tokens as int, s.tokens as int);
                }
            }
        }
        return Err(DecodeError::CorruptState);
    }
    assert(REFILL_LABEL@.len() == 15);
    let (nanos, after_nanos) = match parse_decimal(bytes, after_tokens + 15) {
        Some(found) => found,
        None => {
            proof {
                assert forall|s: BucketState| bytes@ != encode_spec(s) by {
                    lemma_encode_layout(s);
                    if bytes@ == encode_spec(s) {
                        lemma_delimited_unique(bytes@, 10, tokens as int, s.tokens as int);
                        assert(!delimited_at(
                            bytes@,
                            after_tokens + 15,
                            decimal(s.last_refill.nanos as int),
                        ));
                    }
                }
            }
            return Err(DecodeError::CorruptState);
        },
    };
    assert(CLOSING@.len() == 1);
    if !stands_at(bytes, after_nanos, CLOSING.as_slice()) || total - after_nanos != 1 {
        proof {
            assert forall|s: BucketState| bytes@ != encode_spec(s) by {
                lemma_encode_layout(s);
                if bytes@ == encode_spec(s) {
                    lemma_delimited_unique(bytes@, 10, tokens as int, s.tokens as int);
                    lemma_delimited_unique(
                        bytes@,
                        after_tokens + 15,
                        nanos as int,
                        s.last_refill.nanos as int,
                    );
                }
            }
        }
        return Err(DecodeError::CorruptState);
    }
    let state = BucketState { tokens, last_refill: Timestamp { nanos } };
    proof {
        let t = decimal(tokens as int);
        let n = decimal(nanos as int);
        let tl = t.len() as int;
        let nl = n.len() as int;
        assert(bytes@ =~= encode_spec(state)) by {
            let e = encode_spec(state);
            assert(e.len() == bytes@.len());
            assert forall|i: int| 0 <= i < e.len() implies bytes@[i] == e[i] by {
                if i < 10 {
                    assert(bytes@.subrange(0, 10)[i] == TOKENS_LABEL@[i]);
                } else if i < 10 + tl {
                    assert(bytes@.subrange(10, 10 + tl)[i - 10] == t[i - 10]);
                } else if i < 25 + tl {
                    assert(bytes@.subrange(after_tokens as int, after_tokens + 15)[i - 10 - tl]
                        == REFILL_LABEL@[i - 10 - tl]);
                } else if i < 25 + tl + nl {
                    assert(bytes@.subrange(after_tokens + 15, after_tokens + 15 + nl)[i - 25 - tl]
                        == n[i - 25 - tl]);
                } else {
                    assert(bytes@.subrange(after_nanos as int, after_nanos + 1)[0] == CLOSING@[0]);
                }
            }
        }
        lemma_round_trip(state);
    }
    Ok(state)
}

} // verus!
