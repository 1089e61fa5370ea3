//! Unsigned integers as ASCII decimal digits, most significant digit first.
use vstd::prelude::*;

verus! {

/// ASCII code of the digit zero.
pub const ZERO: u8 = 48;

/// ASCII code of the digit nine.
pub const NINE: u8 = 57;

/// Whether `b` is the ASCII code of a decimal digit.
pub open spec fn is_digit(b: u8) -> bool {
    ZERO <= b <= NINE
}

/// The decimal digits of `n`, without leading zeros; zero is written as one digit.
pub open spec fn decimal(n: nat) -> Seq<u8>
    decreases n,
{
    if n < 10 {
        seq![(ZERO + n) as u8]
    } else {
        decimal(n / 10).push((ZERO + n % 10) as u8)
    }
}

/// The number that the digits `d` denote, read with the most significant digit first.
pub open spec fn decimal_value(d: Seq<u8>) -> nat
    decreases d.len(),
{
    if d.len() == 0 {
        0
    } else {
        decimal_value(d.drop_last()) * 10 + (d.last() - ZERO) as nat
    }
}

/// Whether every byte of `d` is a decimal digit.
pub open spec fn all_digits(d: Seq<u8>) -> bool {
    forall|i: int| 0 <= i < d.len() ==> is_digit(#[trigger] d[i])
}

/// Whether `d` is the way some number is written: at least one digit, only digits, and
/// no zero in front of another digit.
pub open spec fn is_decimal(d: Seq<u8>) -> bool {
    &&& d.len() > 0
    &&& all_digits(d)
    &&& d.len() > 1 ==> d[0] != ZERO
}

/// What `decimal` writes is well formed.
pub proof fn lemma_decimal_is_decimal(n: nat)
    ensures
        is_decimal(decimal(n)),
        n < 10 ==> decimal(n).len() == 1,
        decimal(n)[0] == ZERO <==> n == 0,
    decreases n,
{
    if n >= 10 {
        lemma_decimal_is_decimal(n / 10);
    }
}

/// Reading back what `decimal` wrote gives the number that was written.
pub proof fn lemma_value_of_decimal(n: nat)
    ensures
        decimal_value(decimal(n)) == n,
    decreases n,
{
    let d = decimal(n);
    if n < 10 {
        assert(d.drop_last() =~= Seq::<u8>::empty());
        assert(decimal_value(d.drop_last()) == 0);
    } else {
        lemma_value_of_decimal(n / 10);
        assert(d.drop_last() =~= decimal(n / 10));
    }
}

/// Digits that do not start with a zero denote a positive number.
proof fn lemma_value_positive(d: Seq<u8>)
    requires
        d.len() > 0,
        all_digits(d),
        d[0] != ZERO,
    ensures
        decimal_value(d) > 0,
    decreases d.len(),
{
    if d.len() == 1 {
        assert(d.drop_last() =~= Seq::<u8>::empty());
        assert(decimal_value(d.drop_last()) == 0);
    } else {
        lemma_value_positive(d.drop_last());
    }
}

/// Writing the number that well-formed digits denote gives back those digits.
pub proof fn lemma_decimal_of_value(d: Seq<u8>)
    requires
        is_decimal(d),
    ensures
        decimal(decimal_value(d)) == d,
    decreases d.len(),
{
    let head = d.drop_last();
    if d.len() == 1 {
        assert(head =~= Seq::<u8>::empty());
        assert(decimal_value(head) == 0);
        assert(decimal(decimal_value(d)) =~= d);
    } else {
        lemma_value_positive(head);
        lemma_decimal_of_value(head);
        assert(decimal(decimal_value(d)) =~= d);
    }
}

/// Two numbers that are written alike are the same number.
pub proof fn lemma_decimal_injective(a: nat, b: nat)
    requires
        decimal(a) == decimal(b),
    ensures
        a == b,
{
    lemma_value_of_decimal(a);
    lemma_value_of_decimal(b);
}

/// Digits denote at least as much as any of their prefixes.
pub proof fn lemma_value_of_prefix(d: Seq<u8>, len: int)
    requires
        0 <= len <= d.len(),
    ensures
        decimal_value(d.subrange(0, len)) <= decimal_value(d),
    decreases d.len(),
{
    if len < d.len() {
        lemma_value_of_prefix(d.drop_last(), len);
        assert(d.drop_last().subrange(0, len) =~= d.subrange(0, len));
    } else {
        assert(d.subrange(0, len) =~= d);
    }
}

/// Whether `value` is written in `s` from position `start` up to, but not including,
/// position `end`, and no further digit follows it.
pub open spec fn number_at(s: Seq<u8>, start: int, value: nat, end: int) -> bool {
    &&& 0 <= start < end <= s.len()
    &&& s.subrange(start, end) == decimal(value)
    &&& end < s.len() ==> !is_digit(s[end])
}

/// The number that is written in `s` from position `start` on, together with the
/// position behind its last digit, if a number is written there.
pub open spec fn number_from(s: Seq<u8>, start: int) -> Option<(nat, int)> {
    if exists|value: nat, end: int| number_at(s, start, value, end) {
        Some(choose|value: nat, end: int| number_at(s, start, value, end))
    } else {
        None
    }
}

/// A run of digits ends where the number that is written there ends.
proof fn lemma_number_end(s: Seq<u8>, start: int, value: nat, end: int, stop: int)
    requires
        number_at(s, start, value, end),
        start <= stop <= s.len(),
        forall|j: int| start <= j < stop ==> is_digit(#[trigger] s[j]),
        stop < s.len() ==> !is_digit(s[stop]),
    ensures
        end == stop,
{
    lemma_decimal_is_decimal(value);
    let d = decimal(value);
    if stop < end {
        assert(is_digit(d[stop - start]));
        assert(d[stop - start] == s[stop]);
    }
}

/// At most one number is written at a given position.
pub proof fn lemma_number_unique(s: Seq<u8>, start: int, v1: nat, e1: int, v2: nat, e2: int)
    requires
        number_at(s, start, v1, e1),
        number_at(s, start, v2, e2),
    ensures
        v1 == v2,
        e1 == e2,
{
    lemma_decimal_is_decimal(v2);
    assert forall|j: int| start <= j < e2 implies is_digit(#[trigger] s[j]) by {
        assert(decimal(v2)[j - start] == s[j]);
    }
    lemma_number_end(s, start, v1, e1, e2);
    lemma_decimal_injective(v1, v2);
}

/// A number that is written at a position is the one that `number_from` finds there.
pub proof fn lemma_number_from(s: Seq<u8>, start: int, value: nat, end: int)
    requires
        number_at(s, start, value, end),
    ensures
        number_from(s, start) == Some((value, end)),
{
    let t = choose|v: nat, e: int| number_at(s, start, v, e);
    lemma_number_unique(s, start, value, end, t.0, t.1);
}

/// A number that follows its own digits is found again, whatever comes behind it, as
/// long as that does not start with a digit.
pub proof fn lemma_number_round_trip(value: nat, rest: Seq<u8>)
    requires
        rest.len() > 0 ==> !is_digit(rest[0]),
    ensures
        number_from(decimal(value) + rest, 0) == Some((value, decimal(value).len() as int)),
{
    let d = decimal(value);
    lemma_decimal_is_decimal(value);
    assert((d + rest).subrange(0, d.len() as int) =~= d);
    lemma_number_from(d + rest, 0, value, d.len() as int);
}

/// A number and the position behind it, where both fit the machine's word.
pub open spec fn in_words(found: Option<(nat, int)>) -> Option<(usize, usize)> {
    match found {
        Some((value, end)) => if value <= usize::MAX && 0 <= end <= usize::MAX {
            Some((value as usize, end as usize))
        } else {
            None
        },
        None => None,
    }
}

/// Reads the number that is written in `bytes` from position `start` on: all the
/// digits up to the first byte that is no digit, or up to the end. Returns the number
/// and the position behind its last digit. There is no number where no digit stands,
/// where a zero stands in front of another digit, and where the digits denote more
/// than `usize::MAX`.
pub fn parse_decimal(bytes: &[u8], start: usize) -> (r: Option<(usize, usize)>)
    ensures
        r == in_words(number_from(bytes@, start as int)),
{
    let ghost s = bytes@;
    let len: usize = bytes.len();
    let mut end: usize = start;
    while end < len && ZERO <= bytes[end] && bytes[end] <= NINE
        invariant
            len == s.len(),
            s == bytes@,
            start <= end,
            end <= len || end == start,
            forall|j: int| start <= j < end ==> is_digit(#[trigger] s[j]),
        decreases len - end,
    {
        end += 1;
    }
    if end == start {
        proof {
            assert forall|value: nat, e: int| !number_at(s, start as int, value, e) by {
                if number_at(s, start as int, value, e) {
                    lemma_decimal_is_decimal(value);
                    assert(decimal(value)[0] == s[start as int]);
                }
            }
        }
        return None;
    }
    if bytes[start] == ZERO && end - start > 1 {
        proof {
            assert forall|value: nat, e: int| !number_at(s, start as int, value, e) by {
                if number_at(s, start as int, value, e) {
                    lemma_number_end(s, start as int, value, e, end as int);
                    lemma_decimal_is_decimal(value);
                    assert(decimal(value)[0] == s[start as int]);
                }
            }
        }
        return None;
    }
    let ghost digits = s.subrange(start as int, end as int);
    proof {
        lemma_decimal_of_value(digits);
        lemma_number_from(s, start as int, decimal_value(digits), end as int);
        assert(digits.subrange(0, 0) =~= Seq::<u8>::empty());
    }
    let mut value: usize = 0;
    for i in start..end
        invariant
            len == s.len(),
            s == bytes@,
            start < end <= len,
            digits == s.subrange(start as int, end as int),
            all_digits(digits),
            number_from(s, start as int) == Some((decimal_value(digits), end as int)),
            value == decimal_value(digits.subrange(0, i - start)),
    {
        assert(is_digit(digits[i - start]) && digits[i - start] == bytes[i as int]);
        let digit: usize = (bytes[i] - ZERO) as usize;
        proof {
            let longer = digits.subrange(0, i - start + 1);
            assert(longer.drop_last() =~= digits.subrange(0, i - start));
            assert(longer.last() == s[i as int]);
            assert(decimal_value(longer) == value * 10 + digit);
            lemma_value_of_prefix(digits, i - start + 1);
        }
        match value.checked_mul(10) {
            None => {
                return None;
            },
            Some(tens) => match tens.checked_add(digit) {
                None => {
                    return None;
                },
                Some(next) => {
                    value = next;
                },
            },
        }
    }
    assert(digits.subrange(0, end - start) =~= digits);
    Some((value, end))
}

/// Appends the decimal digits of `n` to `out`.
pub fn push_decimal(out: &mut Vec<u8>, n: usize)
    ensures
        final(out)@ == old(out)@ + decimal(n as nat),
    decreases n,
{
    if n >= 10 {
        push_decimal(out, n / 10);
    }
    let digit: u8 = (n % 10) as u8;
    out.push(ZERO + digit);
    assert(out@ =~= old(out)@ + decimal(n as nat));
}

} // verus!
