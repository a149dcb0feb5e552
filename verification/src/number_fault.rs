//! Why a text does not stand for a number.
//!
//! A text is read from left to right. The first byte that is no digit is
//! refused, unless the digits before it already exceed what the type holds.

use crate::text::{
    all_digits, digit, digit_value, digits_number, more_digits_are_not_less, signed_of,
    unsigned_of, without_plus,
};
use vstd::prelude::*;
use vstd::slice::slice_subrange;

verus! {

/// What is wrong with the text of a number.
#[derive(Clone, Copy, Debug, PartialEq, Eq, Structural)]
pub enum NumberFault {
    Empty,
    InvalidDigit,
    TooLarge,
    TooSmall,
}

pub open spec fn fault_words(fault: NumberFault) -> Seq<char> {
    match fault {
        NumberFault::Empty => "cannot parse integer from empty string"@,
        NumberFault::InvalidDigit => "invalid digit found in string"@,
        NumberFault::TooLarge => "number too large to fit in target type"@,
        NumberFault::TooSmall => "number too small to fit in target type"@,
    }
}

pub fn fault_text(fault: NumberFault) -> (text: &'static str)
    ensures
        text@ == fault_words(fault),
{
    match fault {
        NumberFault::Empty => "cannot parse integer from empty string",
        NumberFault::InvalidDigit => "invalid digit found in string",
        NumberFault::TooLarge => "number too large to fit in target type",
        NumberFault::TooSmall => "number too small to fit in target type",
    }
}

/// How many digits the text begins with.
pub open spec fn leading_digits(s: Seq<u8>, radix: nat) -> nat
    decreases s.len(),
{
    if s.len() == 0 {
        0
    } else {
        let front = s.drop_last();
        let n = leading_digits(front, radix);
        if n == front.len() && digit_value(s.last()) < radix {
            n + 1
        } else {
            n
        }
    }
}

/// What is wrong with a run of digits that may not exceed the maximum.
pub open spec fn digits_fault(
    s: Seq<u8>,
    radix: nat,
    max: nat,
    excess: NumberFault,
) -> Option<NumberFault> {
    let n = leading_digits(s, radix);
    if digits_number(s.take(n as int), radix) > max {
        Some(excess)
    } else if n < s.len() {
        Some(NumberFault::InvalidDigit)
    } else {
        None
    }
}

pub open spec fn unsigned_fault(s: Seq<u8>, radix: nat, max: nat) -> Option<NumberFault> {
    if s.len() == 0 {
        Some(NumberFault::Empty)
    } else {
        digits_fault(without_plus(s), radix, max, NumberFault::TooLarge)
    }
}

pub open spec fn signed_fault(s: Seq<u8>, min: int, max: int) -> Option<NumberFault> {
    if s.len() > 1 && s[0] == 0x2d {
        digits_fault(s.drop_first(), 10, (-min) as nat, NumberFault::TooSmall)
    } else {
        unsigned_fault(s, 10, max as nat)
    }
}

proof fn leading_digits_are_digits(s: Seq<u8>, radix: nat)
    ensures
        leading_digits(s, radix) <= s.len(),
        forall|i: int| 0 <= i < leading_digits(s, radix) ==> digit_value(#[trigger] s[i]) < radix,
        leading_digits(s, radix) < s.len() ==> digit_value(s[leading_digits(s, radix) as int])
            >= radix,
    decreases s.len(),
{
    if s.len() > 0 {
        let front = s.drop_last();
        leading_digits_are_digits(front, radix);
        assert forall|i: int| 0 <= i < leading_digits(s, radix) implies digit_value(#[trigger] s[i])
            < radix by {
            if i < front.len() {
                assert(front[i] == s[i]);
            }
        }
        if leading_digits(front, radix) < front.len() {
            assert(front[leading_digits(front, radix) as int] == s[leading_digits(
                front,
                radix,
            ) as int]);
        }
    }
}

/// As many digits as stand in front of a byte that is none.
proof fn digits_end_at(s: Seq<u8>, radix: nat, n: int)
    requires
        0 <= n <= s.len(),
        forall|i: int| 0 <= i < n ==> digit_value(#[trigger] s[i]) < radix,
        n < s.len() ==> digit_value(s[n]) >= radix,
    ensures
        leading_digits(s, radix) == n,
{
    leading_digits_are_digits(s, radix);
    let m = leading_digits(s, radix) as int;
    if m < n {
        assert(digit_value(s[m]) < radix);
    }
    if n < m {
        assert(digit_value(s[n]) < radix);
    }
}

proof fn run_has_fault_or_number(s: Seq<u8>, radix: nat, max: nat, excess: NumberFault)
    requires
        radix >= 1,
    ensures
        digits_fault(s, radix, max, excess) is None <==> all_digits(s, radix) && digits_number(
            s,
            radix,
        ) <= max,
{
    leading_digits_are_digits(s, radix);
    let n = leading_digits(s, radix) as int;
    more_digits_are_not_less(s, n, radix);
    if n == s.len() {
        assert(s.take(n) =~= s);
        assert(all_digits(s, radix));
    } else {
        assert(digit_value(s[n]) >= radix);
        assert(!all_digits(s, radix));
    }
}

/// A text has a fault exactly where it stands for no number.
pub proof fn text_has_fault_or_number(s: Seq<u8>, radix: nat, max: nat)
    requires
        radix >= 1,
    ensures
        unsigned_fault(s, radix, max) is None <==> unsigned_of(s, radix, max) is Some,
{
    run_has_fault_or_number(without_plus(s), radix, max, NumberFault::TooLarge);
}

/// The same of a number that may be negative.
pub proof fn signed_text_has_fault_or_number(s: Seq<u8>, min: int, max: int)
    requires
        min <= 0,
        max >= 0,
    ensures
        signed_fault(s, min, max) is None <==> signed_of(s, min, max) is Some,
{
    text_has_fault_or_number(s, 10, max as nat);
    if s.len() > 1 && s[0] == 0x2d {
        run_has_fault_or_number(s.drop_first(), 10, (-min) as nat, NumberFault::TooSmall);
    }
}

/// The number of a run of digits, or what is wrong with it.
fn read_digits(s: &[u8], radix: u8, max: u64, excess: NumberFault) -> (r: Result<u64, NumberFault>)
    requires
        2 <= radix <= 36,
    ensures
        match r {
            Ok(n) => digits_fault(s@, radix as nat, max as nat, excess) is None && n
                == digits_number(s@, radix as nat),
            Err(fault) => digits_fault(s@, radix as nat, max as nat, excess) == Some(fault),
        },
{
    let mut value: u64 = 0;
    let mut i: usize = 0;
    assert(s@.take(0) =~= Seq::<u8>::empty());
    while i < s.len()
        invariant
            i <= s.len(),
            2 <= radix <= 36,
            value <= max,
            value == digits_number(s@.take(i as int), radix as nat),
            forall|j: int| 0 <= j < i ==> digit_value(#[trigger] s@[j]) < radix,
        decreases s.len() - i,
    {
        let d: u8 = digit(s[i]);
        if d >= radix {
            proof {
                digits_end_at(s@, radix as nat, i as int);
            }
            return Err(NumberFault::InvalidDigit);
        }
        proof {
            assert(s@.take(i + 1).drop_last() =~= s@.take(i as int));
            assert(value * radix <= u64::MAX * 36) by (nonlinear_arith)
                requires
                    0 <= value <= u64::MAX,
                    0 <= radix <= 36,
            ;
        }
        let next: u128 = value as u128 * radix as u128 + d as u128;
        if next > max as u128 {
            proof {
                leading_digits_are_digits(s@, radix as nat);
                let n = leading_digits(s@, radix as nat) as int;
                if n < i + 1 {
                    assert(digit_value(s@[n]) >= radix);
                }
                let run = s@.take(n);
                assert(run.take(i + 1) =~= s@.take(i + 1));
                more_digits_are_not_less(run, i + 1, radix as nat);
            }
            return Err(excess);
        }
        value = next as u64;
        i = i + 1;
    }
    proof {
        digits_end_at(s@, radix as nat, i as int);
        assert(s@.take(i as int) =~= s@);
    }
    Ok(value)
}

/// The number that a text stands for in the radix, or what is wrong with it.
pub fn read_unsigned(s: &[u8], radix: u8, max: u64) -> (r: Result<u64, NumberFault>)
    requires
        2 <= radix <= 36,
    ensures
        match r {
            Ok(n) => unsigned_fault(s@, radix as nat, max as nat) is None && unsigned_of(
                s@,
                radix as nat,
                max as nat,
            ) == Some(n as nat),
            Err(fault) => unsigned_fault(s@, radix as nat, max as nat) == Some(fault),
        },
{
    proof {
        text_has_fault_or_number(s@, radix as nat, max as nat);
    }
    if s.len() == 0 {
        Err(NumberFault::Empty)
    } else if s.len() > 1 && s[0] == 0x2b {
        let digits = slice_subrange(s, 1, s.len());
        assert(digits@ =~= s@.drop_first());
        read_digits(digits, radix, max, NumberFault::TooLarge)
    } else {
        read_digits(s, radix, max, NumberFault::TooLarge)
    }
}

pub fn find_unsigned_fault(s: &[u8], radix: u8, max: u64) -> (r: Option<NumberFault>)
    requires
        2 <= radix <= 36,
    ensures
        r == unsigned_fault(s@, radix as nat, max as nat),
{
    match read_unsigned(s, radix, max) {
        Ok(_) => None,
        Err(fault) => Some(fault),
    }
}

pub fn find_i32_fault(s: &[u8]) -> (r: Option<NumberFault>)
    ensures
        r == signed_fault(s@, i32::MIN as int, i32::MAX as int),
{
    if s.len() > 1 && s[0] == 0x2d {
        let digits = slice_subrange(s, 1, s.len());
        assert(digits@ =~= s@.drop_first());
        match read_digits(digits, 10, 0x8000_0000, NumberFault::TooSmall) {
            Ok(_) => None,
            Err(fault) => Some(fault),
        }
    } else {
        find_unsigned_fault(s, 10, i32::MAX as u64)
    }
}

} // verus!
