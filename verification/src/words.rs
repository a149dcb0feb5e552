//! Packing of narrow fields into machine words.

use vstd::prelude::*;

verus! {

pub open spec fn spec_join32(low: u32, high: u32) -> u64 {
    (low + high * 0x1_0000_0000) as u64
}

pub open spec fn spec_low32(word: u64) -> u32 {
    (word as int % 0x1_0000_0000) as u32
}

pub open spec fn spec_high32(word: u64) -> u32 {
    (word as int / 0x1_0000_0000) as u32
}

pub open spec fn spec_join16(low: u16, high: u16) -> u32 {
    (low + high * 0x1_0000) as u32
}

pub open spec fn spec_low16(word: u32) -> u16 {
    (word as int % 0x1_0000) as u16
}

pub open spec fn spec_high16(word: u32) -> u16 {
    (word as int / 0x1_0000) as u16
}

pub open spec fn spec_join8(low: u8, high: u8) -> u16 {
    (low + high * 0x100) as u16
}

pub open spec fn spec_low8(word: u16) -> u8 {
    (word as int % 0x100) as u8
}

pub open spec fn spec_high8(word: u16) -> u8 {
    (word as int / 0x100) as u8
}

/// The unsigned number with the bits of a signed one.
pub open spec fn spec_unsigned_bits(value: i64) -> u64 {
    if value >= 0 {
        value as u64
    } else {
        (value + 0x1_0000_0000_0000_0000) as u64
    }
}

/// The signed number with the bits of an unsigned one.
pub open spec fn spec_signed_bits(value: u64) -> i64 {
    if value < 0x8000_0000_0000_0000 {
        value as i64
    } else {
        (value - 0x1_0000_0000_0000_0000) as i64
    }
}

#[verifier::when_used_as_spec(spec_join32)]
pub fn join32(low: u32, high: u32) -> (word: u64)
    ensures
        word == spec_join32(low, high),
        spec_low32(word) == low,
        spec_high32(word) == high,
{
    low as u64 + high as u64 * 0x1_0000_0000
}

#[verifier::when_used_as_spec(spec_low32)]
pub fn low32(word: u64) -> (r: u32)
    ensures
        r == spec_low32(word),
{
    (word % 0x1_0000_0000) as u32
}

#[verifier::when_used_as_spec(spec_high32)]
pub fn high32(word: u64) -> (r: u32)
    ensures
        r == spec_high32(word),
{
    (word / 0x1_0000_0000) as u32
}

#[verifier::when_used_as_spec(spec_join16)]
pub fn join16(low: u16, high: u16) -> (word: u32)
    ensures
        word == spec_join16(low, high),
        spec_low16(word) == low,
        spec_high16(word) == high,
{
    low as u32 + high as u32 * 0x1_0000
}

#[verifier::when_used_as_spec(spec_low16)]
pub fn low16(word: u32) -> (r: u16)
    ensures
        r == spec_low16(word),
{
    (word % 0x1_0000) as u16
}

#[verifier::when_used_as_spec(spec_high16)]
pub fn high16(word: u32) -> (r: u16)
    ensures
        r == spec_high16(word),
{
    (word / 0x1_0000) as u16
}

#[verifier::when_used_as_spec(spec_join8)]
pub fn join8(low: u8, high: u8) -> (word: u16)
    ensures
        word == spec_join8(low, high),
        spec_low8(word) == low,
        spec_high8(word) == high,
{
    low as u16 + high as u16 * 0x100
}

#[verifier::when_used_as_spec(spec_low8)]
pub fn low8(word: u16) -> (r: u8)
    ensures
        r == spec_low8(word),
{
    (word % 0x100) as u8
}

#[verifier::when_used_as_spec(spec_high8)]
pub fn high8(word: u16) -> (r: u8)
    ensures
        r == spec_high8(word),
{
    (word / 0x100) as u8
}

#[verifier::when_used_as_spec(spec_unsigned_bits)]
pub fn unsigned_bits(value: i64) -> (r: u64)
    ensures
        r == spec_unsigned_bits(value),
        spec_signed_bits(r) == value,
{
    if value >= 0 {
        value as u64
    } else {
        (value as i128 + 0x1_0000_0000_0000_0000) as u64
    }
}

#[verifier::when_used_as_spec(spec_signed_bits)]
pub fn signed_bits(value: u64) -> (r: i64)
    ensures
        r == spec_signed_bits(value),
        spec_unsigned_bits(r) == value,
{
    if value < 0x8000_0000_0000_0000 {
        value as i64
    } else {
        (value as i128 - 0x1_0000_0000_0000_0000) as i64
    }
}

} // verus!
