use leaky_bucket::bucket::BucketState;
use leaky_bucket::codec::{decode, encode, DecodeError};
use leaky_bucket::decimal::{parse_decimal, push_decimal};
use leaky_bucket::time::Timestamp;

fn bucket(tokens: i64, nanos: i64) -> BucketState {
    BucketState { tokens, last_refill: Timestamp::from_nanos(nanos) }
}

#[test]
fn encodes_both_fields_by_name() {
    let bytes = encode(&bucket(9, 1_700_000_000_000_000_000));
    assert_eq!(
        String::from_utf8(bytes).unwrap(),
        "{\"tokens\":9,\"last_refill\":1700000000000000000}"
    );
}

#[test]
fn encodes_zero_and_negative_numbers() {
    assert_eq!(
        String::from_utf8(encode(&bucket(0, 0))).unwrap(),
        "{\"tokens\":0,\"last_refill\":0}"
    );
    assert_eq!(
        String::from_utf8(encode(&bucket(-7, -1))).unwrap(),
        "{\"tokens\":-7,\"last_refill\":-1}"
    );
    assert_eq!(
        String::from_utf8(encode(&bucket(i64::MIN, i64::MAX))).unwrap(),
        "{\"tokens\":-9223372036854775808,\"last_refill\":9223372036854775807}"
    );
}

#[test]
fn the_stored_form_is_json() {
    let bytes = encode(&bucket(9, 1_700_000_000_123_456_789));
    let value: serde_json::Value = serde_json::from_slice(&bytes).unwrap();
    assert_eq!(value.get("tokens").and_then(|v| v.as_i64()), Some(9));
    assert_eq!(value.get("last_refill").and_then(|v| v.as_i64()), Some(1_700_000_000_123_456_789));
    assert_eq!(value.as_object().map(|o| o.len()), Some(2));
}

#[test]
fn decode_reads_back_what_encode_wrote() {
    let samples = [
        bucket(0, 0),
        bucket(9, 1_700_000_000_000_000_000),
        bucket(10, 1),
        bucket(1, -1),
        bucket(-1, 10),
        bucket(100, 1_000_000_007),
        bucket(i64::MAX, i64::MIN),
        bucket(i64::MIN, i64::MAX),
        bucket(1_000_000, -9_000_000_000_000_000_000),
    ];
    for s in samples {
        assert_eq!(decode(&encode(&s)), Ok(s));
    }
}

#[test]
fn round_trip_over_a_grid_of_values() {
    for tokens in -12..=120 {
        for k in 0..40 {
            let nanos = (k as i64 - 20) * 987_654_321_987;
            let s = bucket(tokens, nanos);
            assert_eq!(decode(&encode(&s)), Ok(s));
        }
    }
}

#[test]
fn decode_takes_the_exact_text() {
    assert_eq!(decode(b"{\"tokens\":3,\"last_refill\":42}"), Ok(bucket(3, 42)));
    assert_eq!(decode(b"{\"tokens\":-3,\"last_refill\":-42}"), Ok(bucket(-3, -42)));
}

#[test]
fn foreign_bytes_are_corrupt() {
    let cases: [&[u8]; 24] = [
        b"",
        b"{}",
        b"null",
        b"10",
        b"not json at all",
        b"{\"tokens\":3}",
        b"{\"last_refill\":42,\"tokens\":3}",
        b"{\"tokens\":3,\"last_refill\":42",
        b"{\"tokens\":3,\"last_refill\":42}}",
        b"{\"tokens\":3,\"last_refill\":42} ",
        b" {\"tokens\":3,\"last_refill\":42}",
        b"{\"tokens\": 3,\"last_refill\":42}",
        b"{\"tokens\":3, \"last_refill\":42}",
        b"{\"tokens\":,\"last_refill\":42}",
        b"{\"tokens\":3,\"last_refill\":}",
        b"{\"tokens\":03,\"last_refill\":42}",
        b"{\"tokens\":3,\"last_refill\":042}",
        b"{\"tokens\":-0,\"last_refill\":42}",
        b"{\"tokens\":+3,\"last_refill\":42}",
        b"{\"tokens\":3.0,\"last_refill\":42}",
        b"{\"tokens\":\"3\",\"last_refill\":42}",
        b"{\"tokens\":3,\"last_refill\":\"2024-01-01T00:00:00Z\"}",
        b"{\"tokens\":9223372036854775808,\"last_refill\":42}",
        b"{\"tokens\":3,\"last_refill\":-9223372036854775809}",
    ];
    for bytes in cases {
        assert_eq!(decode(bytes), Err(DecodeError::CorruptState), "{:?}", bytes);
    }
}

#[test]
fn a_cut_record_is_corrupt() {
    let whole = encode(&bucket(9, 1_700_000_000_000_000_000));
    for cut in 0..whole.len() {
        assert_eq!(decode(&whole[..cut]), Err(DecodeError::CorruptState));
    }
}

#[test]
fn a_record_with_one_byte_changed_never_decodes_to_what_was_written() {
    let written = bucket(9, 1_700_000_000_000_000_000);
    let whole = encode(&written);
    for i in 0..whole.len() {
        let mut altered = whole.clone();
        altered[i] = if altered[i] == b'1' { b'2' } else { b'1' };
        match decode(&altered) {
            Ok(s) => {
                assert_ne!(s, written);
                assert_eq!(encode(&s), altered);
            }
            Err(e) => assert_eq!(e, DecodeError::CorruptState),
        }
    }
}

#[test]
fn push_decimal_appends_the_text() {
    let mut out = b"x=".to_vec();
    push_decimal(&mut out, 1234567890);
    assert_eq!(out, b"x=1234567890");
    push_decimal(&mut out, -5);
    assert_eq!(out, b"x=1234567890-5");
    let mut out = Vec::new();
    push_decimal(&mut out, 0);
    assert_eq!(out, b"0");
}

#[test]
fn parse_decimal_stops_at_the_first_byte_that_is_no_digit() {
    assert_eq!(parse_decimal(b"123,rest", 0), Some((123, 3)));
    assert_eq!(parse_decimal(b"ab-45}", 2), Some((-45, 5)));
    assert_eq!(parse_decimal(b"7", 0), Some((7, 1)));
    assert_eq!(parse_decimal(b"0", 0), Some((0, 1)));
    assert_eq!(parse_decimal(b"9223372036854775807", 0), Some((i64::MAX, 19)));
    assert_eq!(parse_decimal(b"-9223372036854775808", 0), Some((i64::MIN, 20)));
}

#[test]
fn parse_decimal_turns_down_what_is_not_canonical() {
    assert_eq!(parse_decimal(b"", 0), None);
    assert_eq!(parse_decimal(b"12", 2), None);
    assert_eq!(parse_decimal(b"12", 5), None);
    assert_eq!(parse_decimal(b"x", 0), None);
    assert_eq!(parse_decimal(b"-", 0), None);
    assert_eq!(parse_decimal(b"-x", 0), None);
    assert_eq!(parse_decimal(b"--1", 0), None);
    assert_eq!(parse_decimal(b"00", 0), None);
    assert_eq!(parse_decimal(b"012", 0), None);
    assert_eq!(parse_decimal(b"-0", 0), None);
    assert_eq!(parse_decimal(b"-01", 0), None);
    assert_eq!(parse_decimal(b"9223372036854775808", 0), None);
    assert_eq!(parse_decimal(b"-9223372036854775809", 0), None);
    assert_eq!(parse_decimal(b"99999999999999999999999999999999999999999999", 0), None);
}
