use leaky_bucket::bucket::BucketState;
use leaky_bucket::codec::encode;
use leaky_bucket::reply::{interpret, Reading, StoreReply};
use leaky_bucket::time::Timestamp;

fn sample() -> BucketState {
    BucketState { tokens: 4, last_refill: Timestamp::from_nanos(1_700_000_000_000_000_000) }
}

#[test]
fn plain_answers_are_read_as_they_are() {
    assert_eq!(interpret(&StoreReply::Nil), Reading::Nil);
    assert_eq!(interpret(&StoreReply::Okay), Reading::Okay);
    assert_eq!(interpret(&StoreReply::Other), Reading::Unexpected);
}

#[test]
fn stored_bytes_are_decoded() {
    assert_eq!(interpret(&StoreReply::Bulk(encode(&sample()))), Reading::Record(sample()));
}

#[test]
fn bytes_that_are_no_record_are_corrupt() {
    assert_eq!(interpret(&StoreReply::Bulk(b"garbage".to_vec())), Reading::Corrupt);
    assert_eq!(interpret(&StoreReply::Bulk(Vec::new())), Reading::Corrupt);
    assert_eq!(interpret(&StoreReply::Bulk(b"OK".to_vec())), Reading::Corrupt);
}

#[test]
fn a_pipeline_of_one_stands_for_its_answer() {
    assert_eq!(interpret(&StoreReply::Array(vec![StoreReply::Okay])), Reading::Okay);
    assert_eq!(interpret(&StoreReply::Array(vec![StoreReply::Nil])), Reading::Nil);
    assert_eq!(
        interpret(&StoreReply::Array(vec![StoreReply::Bulk(encode(&sample()))])),
        Reading::Record(sample())
    );
    assert_eq!(
        interpret(&StoreReply::Array(vec![StoreReply::Array(vec![StoreReply::Okay])])),
        Reading::Okay
    );
}

#[test]
fn other_pipelines_fit_nothing() {
    assert_eq!(interpret(&StoreReply::Array(Vec::new())), Reading::Unexpected);
    assert_eq!(
        interpret(&StoreReply::Array(vec![StoreReply::Okay, StoreReply::Okay])),
        Reading::Unexpected
    );
    assert_eq!(interpret(&StoreReply::Array(vec![StoreReply::Other])), Reading::Unexpected);
}
