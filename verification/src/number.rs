//! Decimal numbers written in ASCII digits.

use vstd::prelude::*;
use vstd::string::*;
use crate::text::{all_in, CharClass, ZERO};

verus! {

/// The number that the digits write in base ten; the empty sequence writes
/// zero.
pub open spec fn decimal_value(digits: Seq<u8>) -> nat
    decreases digits.len(),
{
    if digits.len() == 0 {
        0
    } else {
        decimal_value(digits.drop_last()) * 10 + (digits.last() - ZERO) as nat
    }
}

/// More digits never write a smaller number.
pub proof fn lemma_decimal_value_grows(digits: Seq<u8>, n: int)
    requires
        all_in(digits, CharClass::Digit),
        0 <= n <= digits.len(),
    ensures
        decimal_value(digits.take(n)) <= decimal_value(digits),
    decreases digits.len() - n,
{
    if n == digits.len() {
        assert(digits.take(n) =~= digits);
    } else {
        let shorter = digits.drop_last();
        assert(shorter.take(n) =~= digits.take(n));
        assert(CharClass::Digit.contains(digits[digits.len() - 1]));
        assert forall|i: int| 0 <= i < shorter.len() implies CharClass::Digit.contains(
            #[trigger] shorter[i],
        ) by {
            assert(shorter[i] == digits[i]);
        }
        lemma_decimal_value_grows(shorter, n);
    }
}

/// Reads the number that `digits` writes, unless it exceeds `max`.
pub(crate) fn decimal(digits: &str, max: u32) -> (r: Option<u32>)
    requires
        all_in(digits.spec_bytes(), CharClass::Digit),
        max <= 0xffff,
    ensures
        r == if decimal_value(digits.spec_bytes()) <= max {
            Some(decimal_value(digits.spec_bytes()) as u32)
        } else {
            None
        },
{
    let bytes = digits.as_bytes();
    let mut value: u32 = 0;
    let mut i: usize = 0;
    while i < bytes.len()
        invariant
            bytes@ == digits.spec_bytes(),
            all_in(bytes@, CharClass::Digit),
            i <= bytes@.len(),
            value == decimal_value(bytes@.take(i as int)),
            value <= max <= 0xffff,
        decreases bytes@.len() - i,
    {
        assert(CharClass::Digit.contains(bytes@[i as int]));
        let digit: u32 = (bytes[i] - ZERO) as u32;
        proof {
            let longer = bytes@.take(i + 1);
            assert(longer.drop_last() =~= bytes@.take(i as int));
            assert(longer.last() == bytes@[i as int]);
            lemma_decimal_value_grows(bytes@, i + 1);
        }
        value = value * 10 + digit;
        if value > max {
            return None;
        }
        i += 1;
    }
    assert(bytes@.take(i as int) =~= bytes@);
    Some(value)
}

} // verus!
