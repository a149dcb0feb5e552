//! Numbers written as text.

use vstd::prelude::*;
use vstd::string::*;

verus! {

/// The character of a digit.
pub open spec fn digit_char(value: nat) -> char {
    if value < 10 {
        (0x30 + value) as char
    } else {
        (0x61 + value - 10) as char
    }
}

/// The number in the radix, without leading zeros.
pub open spec fn number_text(value: nat, radix: nat) -> Seq<char>
    decreases value,
{
    if radix < 2 || value < radix {
        seq![digit_char(value)]
    } else {
        proof {
            assert(value / radix < value) by (nonlinear_arith)
                requires
                    value >= radix,
                    radix >= 2,
            ;
        }
        number_text(value / radix, radix).push(digit_char(value % radix))
    }
}

/// The decimal number.
pub open spec fn decimal(value: nat) -> Seq<char> {
    number_text(value, 10)
}

/// The hexadecimal number.
pub open spec fn hexadecimal(value: nat) -> Seq<char> {
    number_text(value, 16)
}

/// The last `width` hexadecimal digits of the number.
pub open spec fn padded_hex(value: nat, width: nat) -> Seq<char>
    decreases width,
{
    if width == 0 {
        Seq::empty()
    } else {
        padded_hex(value / 16, (width - 1) as nat).push(digit_char(value % 16))
    }
}

fn digit_text(value: u8) -> (text: &'static str)
    requires
        value < 16,
    ensures
        text@ == seq![digit_char(value as nat)],
{
    proof {
        reveal_strlit("0");
        reveal_strlit("1");
        reveal_strlit("2");
        reveal_strlit("3");
        reveal_strlit("4");
        reveal_strlit("5");
        reveal_strlit("6");
        reveal_strlit("7");
        reveal_strlit("8");
        reveal_strlit("9");
        reveal_strlit("a");
        reveal_strlit("b");
        reveal_strlit("c");
        reveal_strlit("d");
        reveal_strlit("e");
        reveal_strlit("f");
    }
    let text: &'static str = match value {
        0 => "0",
        1 => "1",
        2 => "2",
        3 => "3",
        4 => "4",
        5 => "5",
        6 => "6",
        7 => "7",
        8 => "8",
        9 => "9",
        10 => "a",
        11 => "b",
        12 => "c",
        13 => "d",
        14 => "e",
        _ => "f",
    };
    assert(text@ =~= seq![digit_char(value as nat)]);
    text
}

fn append_number(out: &mut String, value: u64, radix: u64)
    requires
        2 <= radix <= 16,
    ensures
        final(out)@ == old(out)@ + number_text(value as nat, radix as nat),
    decreases value,
{
    if value < radix {
        out.append(digit_text(value as u8));
    } else {
        proof {
            assert(value / radix < value) by (nonlinear_arith)
                requires
                    value >= radix,
                    radix >= 2,
            ;
        }
        append_number(out, value / radix, radix);
        let ghost front = out@;
        out.append(digit_text((value % radix) as u8));
        assert(out@ =~= old(out)@ + number_text(value as nat, radix as nat));
    }
}

/// Appends the decimal number.
pub fn append_decimal(out: &mut String, value: u64)
    ensures
        final(out)@ == old(out)@ + decimal(value as nat),
{
    append_number(out, value, 10);
}

/// Appends the hexadecimal number.
pub fn append_hex(out: &mut String, value: u64)
    ensures
        final(out)@ == old(out)@ + hexadecimal(value as nat),
{
    append_number(out, value, 16);
}

/// Appends the last `width` hexadecimal digits of the number.
pub fn append_padded_hex(out: &mut String, value: u64, width: usize)
    ensures
        final(out)@ == old(out)@ + padded_hex(value as nat, width as nat),
    decreases width,
{
    if width > 0 {
        append_padded_hex(out, value / 16, width - 1);
        out.append(digit_text((value % 16) as u8));
    }
    assert(out@ =~= old(out)@ + padded_hex(value as nat, width as nat));
}

/// The decimal number.
pub fn decimal_text(value: u64) -> (text: String)
    ensures
        text@ == decimal(value as nat),
{
    let mut text = String::new();
    append_decimal(&mut text, value);
    assert(Seq::<char>::empty() + decimal(value as nat) =~= decimal(value as nat));
    text
}

} // verus!
