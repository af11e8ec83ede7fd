//! What the store answers, and what an answer means for a bucket.

use vstd::prelude::*;
use crate::bucket::BucketState;
use crate::codec::{decode, decode_spec};

verus! {

/// An answer of the store, in the shapes that matter here.
#[derive(Debug, PartialEq, Eq)]
pub enum StoreReply {
    /// No value: the key is absent, or a transaction was not applied.
    Nil,
    /// The status answer of a command that was carried out.
    Okay,
    /// The bytes stored under a key.
    Bulk(Vec<u8>),
    /// The answers to the commands of one pipeline.
    Array(Vec<StoreReply>),
    /// Any other kind of answer.
    Other,
}

/// An answer, read for what it says about the bucket.
#[derive(Clone, Copy, Debug, PartialEq, Eq, Structural)]
pub enum Reading {
    /// The command was carried out.
    Okay,
    /// Nothing is there.
    Nil,
    /// A stored bucket.
    Record(BucketState),
    /// Bytes that are no bucket.
    Corrupt,
    /// An answer that fits no command of this library.
    Unexpected,
}

/// The meaning of an answer. A pipeline of one command stands for its only
/// answer, at any depth.
pub open spec fn reading_of(reply: StoreReply) -> Reading
    decreases reply,
{
    match reply {
        StoreReply::Nil => Reading::Nil,
        StoreReply::Okay => Reading::Okay,
        StoreReply::Bulk(bytes) => match decode_spec(bytes@) {
            Some(s) => Reading::Record(s),
            None => Reading::Corrupt,
        },
        StoreReply::Array(items) => if items@.len() == 1 {
            reading_of(items@[0])
        } else {
            Reading::Unexpected
        },
        StoreReply::Other => Reading::Unexpected,
    }
}

/// Reads an answer of the store.
pub fn interpret(reply: &StoreReply) -> (r: Reading)
    ensures
        r == reading_of(*reply),
    decreases reply,
{
    match reply {
        StoreReply::Nil => Reading::Nil,
        StoreReply::Okay => Reading::Okay,
        StoreReply::Bulk(bytes) => match decode(bytes.as_slice()) {
            Ok(s) => Reading::Record(s),
            Err(_) => Reading::Corrupt,
        },
        StoreReply::Array(items) => if items.len() == 1 {
            interpret(&items[0])
        } else {
            Reading::Unexpected
        },
        StoreReply::Other => Reading::Unexpected,
    }
}

} // verus!
