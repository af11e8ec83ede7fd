//! Integers as decimal text, the way the stored record spells them: an
//! optional minus sign, then digits without padding.

use vstd::prelude::*;

verus! {

/// ASCII `0`.
pub const ZERO: u8 = 48;

/// ASCII `-`.
pub const MINUS: u8 = 45;

/// ASCII `0` to `9`.
pub open spec fn is_digit(b: u8) -> bool {
    48 <= b <= 57
}

/// The digits of a natural number, most significant first.
pub open spec fn digits_of(n: nat) -> Seq<u8>
    decreases n,
{
    if n < 10 {
        seq![(48 + n) as u8]
    } else {
        digits_of(n / 10).push((48 + n % 10) as u8)
    }
}

/// The distance of an integer from zero.
pub open spec fn magnitude(v: int) -> nat {
    if v < 0 {
        (-v) as nat
    } else {
        v as nat
    }
}

/// The decimal text of an integer.
pub open spec fn decimal(v: int) -> Seq<u8> {
    if v < 0 {
        seq![45u8] + digits_of(magnitude(v))
    } else {
        digits_of(magnitude(v))
    }
}

/// The number that a run of digits spells.
pub open spec fn value_of(d: Seq<u8>) -> int
    decreases d.len(),
{
    if d.len() == 0 {
        0
    } else {
        value_of(d.drop_last()) * 10 + (d.last() - 48)
    }
}

/// Every byte of the run is a digit.
pub open spec fn all_digits(d: Seq<u8>) -> bool {
    forall|i: int| 0 <= i < d.len() ==> is_digit(#[trigger] d[i])
}

/// A run of digits as `digits_of` writes it: not empty, and no leading zero
/// unless it is the single digit zero.
pub open spec fn canonical(d: Seq<u8>) -> bool {
    &&& d.len() >= 1
    &&& all_digits(d)
    &&& (d.len() >= 2 ==> d[0] != 48)
}

/// `text` stands in `b` at `start` and no digit follows it.
pub open spec fn delimited_at(b: Seq<u8>, start: int, text: Seq<u8>) -> bool {
    &&& 0 <= start
    &&& start + text.len() <= b.len()
    &&& b.subrange(start, start + text.len()) == text
    &&& (start + text.len() < b.len() ==> !is_digit(b[start + text.len()]))
}

/// The digits of a number are canonical and spell that number; they start
/// with a zero only for zero itself.
pub proof fn lemma_digits_of_shape(n: nat)
    ensures
        canonical(digits_of(n)),
        value_of(digits_of(n)) == n,
        digits_of(n)[0] == 48 <==> n == 0,
    decreases n,
{
    let d = digits_of(n);
    if n < 10 {
        assert(d.drop_last() =~= Seq::<u8>::empty());
        assert(value_of(d.drop_last()) == 0);
    } else {
        lemma_digits_of_shape(n / 10);
        let head = digits_of(n / 10);
        assert(d.drop_last() =~= head);
        assert(d[0] == head[0]);
        assert forall|i: int| 0 <= i < d.len() implies is_digit(#[trigger] d[i]) by {
            if i < head.len() {
                assert(d[i] == head[i]);
            }
        }
    }
}

/// A canonical run is the digits of the number that it spells.
pub proof fn lemma_value_of_canonical(d: Seq<u8>)
    requires
        canonical(d),
    ensures
        digits_of(value_of(d) as nat) == d,
        value_of(d) >= 0,
        d.len() >= 2 ==> value_of(d) >= 10,
        d[0] != 48 ==> value_of(d) >= 1,
    decreases d.len(),
{
    let x = d.last() - 48;
    assert(is_digit(d[d.len() - 1]));
    if d.len() == 1 {
        assert(d.drop_last() =~= Seq::<u8>::empty());
        assert(value_of(d.drop_last()) == 0);
        assert(digits_of(value_of(d) as nat) =~= d);
    } else {
        let head = d.drop_last();
        assert forall|i: int| 0 <= i < head.len() implies is_digit(#[trigger] head[i]) by {
            assert(head[i] == d[i]);
        }
        assert(head[0] == d[0]);
        lemma_value_of_canonical(head);
        let hv = value_of(head);
        assert(value_of(d) == hv * 10 + x);
        assert(hv >= 1);
        assert((hv * 10 + x) / 10 == hv && (hv * 10 + x) % 10 == x) by (nonlinear_arith)
            requires
                0 <= x <= 9,
                hv >= 1,
        ;
        assert(digits_of(value_of(d) as nat) =~= head.push(d.last()));
        assert(head.push(d.last()) =~= d);
    }
}

/// A run of digits spells no negative number.
pub proof fn lemma_value_of_nonnegative(d: Seq<u8>)
    requires
        all_digits(d),
    ensures
        value_of(d) >= 0,
    decreases d.len(),
{
    if d.len() > 0 {
        let head = d.drop_last();
        assert forall|i: int| 0 <= i < head.len() implies is_digit(#[trigger] head[i]) by {
            assert(head[i] == d[i]);
        }
        lemma_value_of_nonnegative(head);
        assert(is_digit(d[d.len() - 1]));
    }
}

/// The first digits of a run never spell more than the whole run.
pub proof fn lemma_value_of_prefix(d: Seq<u8>, k: int)
    requires
        all_digits(d),
        0 <= k <= d.len(),
    ensures
        value_of(d.take(k)) <= value_of(d),
    decreases d.len() - k,
{
    if k == d.len() {
        assert(d.take(k) =~= d);
    } else {
        let head = d.drop_last();
        assert forall|i: int| 0 <= i < head.len() implies is_digit(#[trigger] head[i]) by {
            assert(head[i] == d[i]);
        }
        lemma_value_of_prefix(head, k);
        assert(head.take(k) =~= d.take(k));
        lemma_value_of_nonnegative(head);
        assert(is_digit(d[d.len() - 1]));
    }
}

/// The text of an integer is not empty, and starts with the sign exactly
/// where the integer is negative.
pub proof fn lemma_decimal_shape(v: int)
    ensures
        decimal(v).len() >= 1,
        decimal(v)[0] == 45 <==> v < 0,
{
    lemma_digits_of_shape(magnitude(v));
    assert(is_digit(digits_of(magnitude(v))[0]));
}

/// Where the digits of a text start that stands at `start` in `b`.
pub open spec fn digits_start(b: Seq<u8>, start: int) -> int {
    if b[start] == 45 {
        start + 1
    } else {
        start
    }
}

/// What the bytes are like where the text of `v` stands delimited at
/// `start`: the sign is there exactly for a negative `v`, and right after
/// it the digits of the magnitude stand delimited.
proof fn lemma_spelled_shape(b: Seq<u8>, start: int, v: int)
    requires
        delimited_at(b, start, decimal(v)),
    ensures
        ({
            let first = digits_start(b, start);
            let d = digits_of(magnitude(v));
            &&& start < b.len()
            &&& (b[start] == 45 <==> v < 0)
            &&& delimited_at(b, first, d)
            &&& canonical(d)
            &&& value_of(d) == magnitude(v)
            &&& first < b.len()
            &&& b[first] == d[0]
            &&& (d[0] == 48 <==> v == 0)
            &&& (v == 0 ==> d.len() == 1)
        }),
{
    let t = decimal(v);
    let d = digits_of(magnitude(v));
    let first = digits_start(b, start);
    lemma_decimal_shape(v);
    lemma_digits_of_shape(magnitude(v));
    assert(b.subrange(start, start + t.len())[0] == t[0]);
    if v < 0 {
        assert(t.len() == d.len() + 1);
        assert(b.subrange(first, first + d.len()) =~= d) by {
            assert forall|i: int| 0 <= i < d.len() implies b.subrange(first, first + d.len())[i]
                == d[i] by {
                assert(b.subrange(start, start + t.len())[i + 1] == t[i + 1]);
            }
        }
    }
    assert(b.subrange(first, first + d.len())[0] == d[0]);
}

/// Two runs of digits that both stand delimited at one place are one run.
proof fn lemma_delimited_digits_unique(b: Seq<u8>, first: int, d1: Seq<u8>, d2: Seq<u8>)
    requires
        all_digits(d1),
        all_digits(d2),
        delimited_at(b, first, d1),
        delimited_at(b, first, d2),
    ensures
        d1 == d2,
{
    if d1.len() < d2.len() {
        assert(b.subrange(first, first + d2.len())[d1.len() as int] == d2[d1.len() as int]);
        assert(is_digit(d2[d1.len() as int]));
    } else if d2.len() < d1.len() {
        assert(b.subrange(first, first + d1.len())[d2.len() as int] == d1[d2.len() as int]);
        assert(is_digit(d1[d2.len() as int]));
    }
}

/// No two integers have texts that stand delimited at the same place.
pub proof fn lemma_delimited_unique(b: Seq<u8>, start: int, v1: int, v2: int)
    requires
        delimited_at(b, start, decimal(v1)),
        delimited_at(b, start, decimal(v2)),
    ensures
        v1 == v2,
{
    lemma_spelled_shape(b, start, v1);
    lemma_spelled_shape(b, start, v2);
    lemma_delimited_digits_unique(
        b,
        digits_start(b, start),
        digits_of(magnitude(v1)),
        digits_of(magnitude(v2)),
    );
}

/// A run of digits that goes on past a delimited text of `v` is none of
/// its own: where digits stand from `first` up to and with `i`, the digits
/// of `v` reach as far, and spell at least as much.
proof fn lemma_spelled_reaches(b: Seq<u8>, start: int, v: int, i: int)
    requires
        delimited_at(b, start, decimal(v)),
        digits_start(b, start) <= i < b.len(),
        all_digits(b.subrange(digits_start(b, start), i + 1)),
    ensures
        digits_start(b, start) + digits_of(magnitude(v)).len() > i,
        value_of(b.subrange(digits_start(b, start), i + 1)) <= magnitude(v),
{
    let first = digits_start(b, start);
    let d = digits_of(magnitude(v));
    let run = b.subrange(first, i + 1);
    lemma_spelled_shape(b, start, v);
    if first + d.len() <= i {
        let e = first + d.len();
        assert(run[e - first] == b[e]);
        assert(is_digit(run[e - first]));
    }
    assert(d.take(i + 1 - first) =~= run) by {
        assert forall|k: int| 0 <= k < run.len() implies d.take(i + 1 - first)[k] == run[k] by {
            assert(b.subrange(first, first + d.len())[k] == d[k]);
        }
    }
    lemma_value_of_prefix(d, i + 1 - first);
}

/// Appends the digits of `n`.
fn push_digits(out: &mut Vec<u8>, n: u64)
    ensures
        final(out)@ == old(out)@ + digits_of(n as nat),
    decreases n,
{
    if n >= 10 {
        push_digits(out, n / 10);
    }
    out.push(ZERO + (n % 10) as u8);
    assert(final(out)@ =~= old(out)@ + digits_of(n as nat)) by {
        if n >= 10 {
            assert(digits_of(n as nat) == digits_of((n / 10) as nat).push((48 + n % 10) as u8));
        }
    }
}

/// Appends the decimal text of `v`.
pub fn push_decimal(out: &mut Vec<u8>, v: i64)
    ensures
        final(out)@ == old(out)@ + decimal(v as int),
{
    if v < 0 {
        out.push(MINUS);
        let magnitude: u64 = (-(v as i128)) as u64;
        push_digits(out, magnitude);
        assert(final(out)@ =~= old(out)@ + decimal(v as int));
    } else {
        push_digits(out, v as u64);
    }
}

/// Reads the integer whose text stands at `start`, up to the first byte that
/// is no digit. Answers the integer and the index of that byte, or `None`
/// where no 64-bit integer is spelled there in canonical form.
pub fn parse_decimal(bytes: &[u8], start: usize) -> (r: Option<(i64, usize)>)
    ensures
        match r {
            Some((v, end)) => delimited_at(bytes@, start as int, decimal(v as int)) && end == start
                + decimal(v as int).len(),
            None => forall|v: int|
                i64::MIN <= v <= i64::MAX ==> !delimited_at(
                    bytes@,
                    start as int,
                    #[trigger] decimal(v),
                ),
        },
{
    let len = bytes.len();
    if start >= len {
        proof {
            assert forall|v: int| i64::MIN <= v <= i64::MAX implies !delimited_at(
                bytes@,
                start as int,
                #[trigger] decimal(v),
            ) by {
                lemma_decimal_shape(v);
            }
        }
        return None;
    }
    let negative = bytes[start] == MINUS;
    let first: usize = if negative {
        start + 1
    } else {
        start
    };
    let limit: u128 = if negative {
        9_223_372_036_854_775_808
    } else {
        9_223_372_036_854_775_807
    };
    let mut i: usize = first;
    let mut acc: u128 = 0;
    assert(bytes@.subrange(first as int, i as int) =~= Seq::<u8>::empty());
    while i < len && ZERO <= bytes[i] && bytes[i] <= 57
        invariant
            len == bytes@.len(),
            start < len,
            negative == (bytes@[start as int] == 45),
            first == digits_start(bytes@, start as int),
            first <= i <= len,
            limit == if negative {
                9_223_372_036_854_775_808u128
            } else {
                9_223_372_036_854_775_807u128
            },
            all_digits(bytes@.subrange(first as int, i as int)),
            i > first ==> canonical(bytes@.subrange(first as int, i as int)),
            acc == value_of(bytes@.subrange(first as int, i as int)),
            acc <= limit,
        decreases len - i,
    {
        let digit: u128 = (bytes[i] - ZERO) as u128;
        let ghost run = bytes@.subrange(first as int, i as int);
        let ghost longer = bytes@.subrange(first as int, i + 1);
        proof {
            assert(longer.drop_last() =~= run);
            assert(longer.last() == bytes@[i as int]);
            assert(value_of(longer) == acc * 10 + digit);
            assert forall|k: int| 0 <= k < longer.len() implies is_digit(#[trigger] longer[k]) by {
                if k < run.len() {
                    assert(run[k] == longer[k]);
                }
            }
        }
        if i > first && acc == 0 {
            // A zero with more digits behind it.
            proof {
                lemma_value_of_canonical(run);
                assert(run[0] == bytes@[first as int]);
                assert forall|v: int| i64::MIN <= v <= i64::MAX implies !delimited_at(
                    bytes@,
                    start as int,
                    #[trigger] decimal(v),
                ) by {
                    if delimited_at(bytes@, start as int, decimal(v)) {
                        lemma_spelled_shape(bytes@, start as int, v);
                    }
                }
            }
            return None;
        }
        if acc * 10 + digit > limit {
            // More than 64 bits hold.
            proof {
                assert forall|v: int| i64::MIN <= v <= i64::MAX implies !delimited_at(
                    bytes@,
                    start as int,
                    #[trigger] decimal(v),
                ) by {
                    if delimited_at(bytes@, start as int, decimal(v)) {
                        lemma_spelled_shape(bytes@, start as int, v);
                        lemma_spelled_reaches(bytes@, start as int, v, i as int);
                    }
                }
            }
            return None;
        }
        acc = acc * 10 + digit;
        i = i + 1;
        proof {
            if longer.len() >= 2 {
                if run.len() == 1 {
                    assert(value_of(run.drop_last()) == 0) by {
                        assert(run.drop_last() =~= Seq::<u8>::empty());
                    }
                }
                assert(longer[0] == run[0]);
            }
        }
    }
    let ghost run = bytes@.subrange(first as int, i as int);
    if i == first {
        // No digit at all.
        proof {
            assert forall|v: int| i64::MIN <= v <= i64::MAX implies !delimited_at(
                bytes@,
                start as int,
                #[trigger] decimal(v),
            ) by {
                if delimited_at(bytes@, start as int, decimal(v)) {
                    lemma_spelled_shape(bytes@, start as int, v);
                    assert(is_digit(digits_of(magnitude(v))[0]));
                }
            }
        }
        return None;
    }
    if negative && acc == 0 {
        // A negative zero.
        proof {
            lemma_value_of_canonical(run);
            assert(run[0] == bytes@[first as int]);
            assert forall|v: int| i64::MIN <= v <= i64::MAX implies !delimited_at(
                bytes@,
                start as int,
                #[trigger] decimal(v),
            ) by {
                if delimited_at(bytes@, start as int, decimal(v)) {
                    lemma_spelled_shape(bytes@, start as int, v);
                }
            }
        }
        return None;
    }
    let value: i64 = if negative {
        (-(acc as i128)) as i64
    } else {
        acc as i64
    };
    proof {
        lemma_value_of_canonical(run);
        let text = decimal(value as int);
        if negative {
            assert(text =~= seq![45u8] + run);
        } else {
            assert(text =~= run);
        }
        assert(bytes@.subrange(start as int, start + text.len()) =~= text);
    }
    Some((value, i))
}

} // verus!
