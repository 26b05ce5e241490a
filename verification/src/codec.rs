//! The decimal text codec for post identifiers: a post-id travels through
//! the key/value substrate as its ASCII decimal string.

use vstd::prelude::*;

verus! {

/// Whether a byte is an ASCII decimal digit.
pub open spec fn is_decimal_digit(b: u8) -> bool {
    48 <= b <= 57  // '0' to '9'
}

/// Whether a byte string is one or more ASCII decimal digits.
pub open spec fn all_decimal_digits(s: Seq<u8>) -> bool {
    forall|i: int| 0 <= i < s.len() ==> is_decimal_digit(#[trigger] s[i])
}

/// The numeric value of a digit string (most significant digit first).
pub open spec fn decimal_value(s: Seq<u8>) -> int
    decreases s.len(),
{
    if s.len() == 0 {
        0
    } else {
        decimal_value(s.drop_last()) * 10 + (s.last() - 48)
    }
}

/// Whether a byte string parses as a `u32`: nonempty, digits only, value in
/// range.
pub open spec fn parses_to_u32(s: Seq<u8>) -> bool {
    &&& s.len() > 0
    &&& all_decimal_digits(s)
    &&& decimal_value(s) <= u32::MAX
}

/// The canonical decimal digits of a number (no sign, no leading zero).
pub open spec fn decimal_digits(n: u32) -> Seq<u8>
    decreases n,
{
    if n < 10 {
        seq![(48 + n) as u8]
    } else {
        decimal_digits(n / 10).push((48 + n % 10) as u8)
    }
}

/// The value of a digit string is never negative.
pub proof fn lemma_decimal_value_nonneg(s: Seq<u8>)
    requires
        all_decimal_digits(s),
    ensures
        decimal_value(s) >= 0,
    decreases s.len(),
{
    if s.len() == 0 {
    } else {
        assert(all_decimal_digits(s.drop_last())) by {
            assert(forall|i: int|
                0 <= i < s.len() - 1 ==> s.drop_last()[i] == #[trigger] s[i]);
        }
        lemma_decimal_value_nonneg(s.drop_last());
    }
}

/// Extending a digit string to the right never lowers its value.
pub proof fn lemma_decimal_value_prefix_le(s: Seq<u8>, i: int)
    requires
        all_decimal_digits(s),
        0 <= i <= s.len(),
    ensures
        decimal_value(s.take(i)) <= decimal_value(s),
    decreases s.len() - i,
{
    if i == s.len() {
        assert(s.take(i) =~= s);
    } else {
        lemma_decimal_value_prefix_le(s, i + 1);
        let shorter = s.take(i);
        let longer = s.take(i + 1);
        assert(longer.drop_last() =~= shorter);
        assert(longer.last() == s[i]);
        assert(all_decimal_digits(shorter)) by {
            assert(forall|k: int| 0 <= k < i ==> shorter[k] == #[trigger] s[k]);
        }
        lemma_decimal_value_nonneg(shorter);
        assert(decimal_value(longer) == decimal_value(shorter) * 10 + (s[i] - 48));
        assert(decimal_value(shorter) * 10 >= decimal_value(shorter));
    }
}

/// The canonical digits of a number are digits, and their value is the
/// number: formatting and parsing are mutually inverse.
pub proof fn lemma_decimal_digits_value(n: u32)
    ensures
        all_decimal_digits(decimal_digits(n)),
        decimal_value(decimal_digits(n)) == n,
        decimal_digits(n).len() > 0,
    decreases n,
{
    if n < 10 {
        let d = decimal_digits(n);
        assert(d == seq![(48 + n) as u8]);
        assert(d.drop_last() =~= Seq::<u8>::empty());
        assert(decimal_value(Seq::<u8>::empty()) == 0);
        assert(decimal_value(d) == 0 * 10 + ((48 + n) as u8 - 48));
    } else {
        lemma_decimal_digits_value(n / 10);
        let whole = decimal_digits(n);
        let head = decimal_digits(n / 10);
        assert(whole.drop_last() =~= head);
        assert(whole.last() == (48 + n % 10) as u8);
        assert(decimal_value(whole) == decimal_value(whole.drop_last()) * 10 + (whole.last()
            - 48));
        assert(decimal_value(whole.drop_last()) == n / 10);
        assert(whole.last() - 48 == n % 10);
        assert(n / 10 * 10 + n % 10 == n);
        assert(forall|i: int|
            0 <= i < whole.len() ==> is_decimal_digit(#[trigger] whole[i]) == if i < head.len() {
                is_decimal_digit(head[i])
            } else {
                is_decimal_digit((48 + n % 10) as u8)
            });
    }
}

/// Formats a post-id as its ASCII decimal digits.
pub fn format_post_id(n: u32) -> (digits: Vec<u8>)
    ensures
        digits@ == decimal_digits(n),
    decreases n,
{
    if n < 10 {
        let mut digits: Vec<u8> = Vec::new();
        digits.push(48 + (n as u8));
        proof {
            assert(digits@ =~= decimal_digits(n));
        }
        digits
    } else {
        let mut digits = format_post_id(n / 10);
        digits.push(48 + ((n % 10) as u8));
        digits
    }
}

/// Parses an ASCII decimal byte string as a post-id. Returns `None` — and
/// only then — when the string is empty, holds a non-digit, or its value
/// does not fit in 32 bits.
pub fn parse_post_id(s: &Vec<u8>) -> (parsed: Option<u32>)
    ensures
        match parsed {
            Some(v) => parses_to_u32(s@) && v == decimal_value(s@),
            None => !parses_to_u32(s@),
        },
{
    if s.len() == 0 {
        return None;
    }
    let mut acc: u64 = 0;
    let mut i: usize = 0;
    while i < s.len()
        invariant
            i <= s@.len(),
            s@.len() > 0,
            acc <= u32::MAX,
            acc == decimal_value(s@.take(i as int)),
            all_decimal_digits(s@.take(i as int)),
        decreases s@.len() - i,
    {
        let b = s[i];
        if b < 48 || b > 57 {
            proof {
                assert(!is_decimal_digit(s@[i as int]));
            }
            return None;
        }
        acc = acc * 10 + ((b - 48) as u64);
        proof {
            assert(s@.take(i + 1).drop_last() =~= s@.take(i as int));
            assert(s@.take(i + 1).last() == s@[i as int]);
            assert(forall|k: int|
                0 <= k < i + 1 ==> is_decimal_digit(#[trigger] s@.take(i + 1)[k]));
        }
        if acc > 0xffff_ffff {
            proof {
                assert(decimal_value(s@.take(i + 1)) > u32::MAX);
                if all_decimal_digits(s@) {
                    lemma_decimal_value_prefix_le(s@, i + 1);
                }
            }
            return None;
        }
        i += 1;
    }
    proof {
        assert(s@.take(s@.len() as int) =~= s@);
    }
    Some(acc as u32)
}

} // verus!
