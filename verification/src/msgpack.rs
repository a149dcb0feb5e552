//! Bounded MessagePack decoder for query manifests.
//!
//! Only what a manifest can hold is accepted: no binary data, no extension
//! types, string keys, and limits on size, nesting and item counts.

use crate::digits::{append_decimal, decimal};
use crate::text::text_is;
use vstd::prelude::*;
use vstd::slice::slice_subrange;
use vstd::string::*;
use vstd::utf8::{decode_utf8, valid_utf8};

verus! {

pub const MAX_MESSAGEPACK_BYTES: usize = 1_048_576;

pub const MAX_DEPTH: usize = 32;

pub const MAX_CONTAINER_ITEMS: usize = 65_536;

/// Why an input is not an accepted value, and where.
#[derive(Clone, Copy, Debug)]
pub struct DecodeError {
    pub offset: usize,
    pub message: &'static str,
}

impl DecodeError {
    /// The error in words.
    pub fn message(&self) -> (text: String)
        ensures
            text@ == "invalid MessagePack at byte "@ + decimal(self.offset as nat) + ": "@
                + self.message@,
    {
        let mut text = "invalid MessagePack at byte ".to_owned();
        append_decimal(&mut text, self.offset as u64);
        text.append(": ");
        text.append(self.message);
        text
    }
}

/// A decoded value. Floating-point numbers are kept as their bit patterns, and
/// the entries of an object stand in the order of the input.
#[derive(Debug)]
pub enum Value {
    Null,
    Bool(bool),
    Unsigned(u64),
    Negative(i64),
    Float32(u32),
    Float64(u64),
    Text(String),
    Array(Vec<Value>),
    Object(Vec<(String, Value)>),
}

/// What a value means.
pub enum Item {
    Null,
    Bool(bool),
    Unsigned(u64),
    Negative(i64),
    Float32(u32),
    Float64(u64),
    Text(Seq<char>),
    Array(Seq<Item>),
    Object(Seq<(Seq<char>, Item)>),
}

/// Whether the value is the item.
pub open spec fn means(value: Value, item: Item) -> bool
    decreases item,
{
    match (value, item) {
        (Value::Null, Item::Null) => true,
        (Value::Bool(a), Item::Bool(b)) => a == b,
        (Value::Unsigned(a), Item::Unsigned(b)) => a == b,
        (Value::Negative(a), Item::Negative(b)) => a == b,
        (Value::Float32(a), Item::Float32(b)) => a == b,
        (Value::Float64(a), Item::Float64(b)) => a == b,
        (Value::Text(a), Item::Text(b)) => a@ == b,
        (Value::Array(a), Item::Array(b)) => a@.len() == b.len() && forall|i: int|
            0 <= i < b.len() ==> means(#[trigger] a@[i], b[i]),
        (Value::Object(a), Item::Object(b)) => a@.len() == b.len() && forall|i: int|
            0 <= i < b.len() ==> (#[trigger] a@[i]).0@ == b[i].0 && means(a@[i].1, b[i].1),
        _ => false,
    }
}

/// The failure at an offset, for a reason.
pub struct Failure {
    pub offset: nat,
    pub message: Seq<char>,
}

/// The number that bytes stand for, the most significant first.
pub open spec fn big_endian(s: Seq<u8>) -> nat
    decreases s.len(),
{
    if s.len() == 0 {
        0
    } else {
        big_endian(s.drop_last()) * 256 + s.last() as nat
    }
}

/// The number that takes the bytes from the offset on.
pub open spec fn number_at(s: Seq<u8>, at: nat, width: nat) -> Result<(nat, nat), Failure> {
    if at + width <= s.len() {
        Ok((big_endian(s.subrange(at as int, (at + width) as int)), at + width))
    } else {
        Err(Failure { offset: at, message: "unexpected end of input"@ })
    }
}

/// The smallest number of the width whose sign bit is set.
pub open spec fn sign_bit(width: nat) -> nat {
    if width == 1 {
        0x80
    } else if width == 2 {
        0x8000
    } else if width == 4 {
        0x8000_0000
    } else {
        0x8000_0000_0000_0000
    }
}

/// The number as two's complement of the width.
pub open spec fn signed_item(number: nat, width: nat) -> Item {
    if number < sign_bit(width) {
        Item::Unsigned(number as u64)
    } else {
        Item::Negative((number - 2 * sign_bit(width)) as i64)
    }
}

pub open spec fn text_at(s: Seq<u8>, at: nat, length: nat) -> Result<(Item, nat), Failure> {
    if length > MAX_MESSAGEPACK_BYTES {
        Err(Failure { offset: at, message: "string exceeds the 1 MiB bound"@ })
    } else if at + length > s.len() {
        Err(Failure { offset: at, message: "unexpected end of input"@ })
    } else if !valid_utf8(s.subrange(at as int, (at + length) as int)) {
        Err(Failure { offset: at, message: "string is not valid UTF-8"@ })
    } else {
        Ok((Item::Text(decode_utf8(s.subrange(at as int, (at + length) as int))), at + length))
    }
}

pub open spec fn array_at(s: Seq<u8>, at: nat, length: nat, depth: nat) -> Result<
    (Item, nat),
    Failure,
>
    decreases 33 - depth, length + 2,
{
    if length > MAX_CONTAINER_ITEMS {
        Err(Failure { offset: at, message: "array exceeds the item bound"@ })
    } else {
        match items_at(s, at, length, depth) {
            Ok((items, end)) => Ok((Item::Array(items), end)),
            Err(failure) => Err(failure),
        }
    }
}

pub open spec fn map_at(s: Seq<u8>, at: nat, length: nat, depth: nat) -> Result<
    (Item, nat),
    Failure,
>
    decreases 33 - depth, length + 2,
{
    if length > MAX_CONTAINER_ITEMS {
        Err(Failure { offset: at, message: "map exceeds the item bound"@ })
    } else {
        match entries_at(s, at, length, depth) {
            Ok((entries, end)) => Ok((Item::Object(entries), end)),
            Err(failure) => Err(failure),
        }
    }
}

/// The value that begins at the offset, inside so many containers, and where
/// it ends.
pub open spec fn value_at(s: Seq<u8>, at: nat, depth: nat) -> Result<(Item, nat), Failure>
    decreases 33 - depth, 0nat,
{
    if depth > MAX_DEPTH {
        Err(Failure { offset: at, message: "nesting exceeds 32 levels"@ })
    } else if at >= s.len() {
        Err(Failure { offset: at, message: "unexpected end of input"@ })
    } else {
        let marker = s[at as int];
        let next = at + 1;
        if marker <= 0x7f {
            Ok((Item::Unsigned(marker as u64), next))
        } else if marker <= 0x8f {
            map_at(s, next, (marker - 0x80) as nat, depth + 1)
        } else if marker <= 0x9f {
            array_at(s, next, (marker - 0x90) as nat, depth + 1)
        } else if marker <= 0xbf {
            text_at(s, next, (marker - 0xa0) as nat)
        } else if marker == 0xc0 {
            Ok((Item::Null, next))
        } else if marker == 0xc2 {
            Ok((Item::Bool(false), next))
        } else if marker == 0xc3 {
            Ok((Item::Bool(true), next))
        } else if marker == 0xca {
            match number_at(s, next, 4) {
                Ok((bits, end)) => if finite32(bits as u32) {
                    Ok((Item::Float32(bits as u32), end))
                } else {
                    Err(Failure { offset: end, message: "non-finite floating point value"@ })
                },
                Err(failure) => Err(failure),
            }
        } else if marker == 0xcb {
            match number_at(s, next, 8) {
                Ok((bits, end)) => if finite64(bits as u64) {
                    Ok((Item::Float64(bits as u64), end))
                } else {
                    Err(Failure { offset: end, message: "non-finite floating point value"@ })
                },
                Err(failure) => Err(failure),
            }
        } else if 0xcc <= marker <= 0xcf {
            match number_at(s, next, width_of((marker - 0xcc) as nat)) {
                Ok((number, end)) => Ok((Item::Unsigned(number as u64), end)),
                Err(failure) => Err(failure),
            }
        } else if 0xd0 <= marker <= 0xd3 {
            let width = width_of((marker - 0xd0) as nat);
            match number_at(s, next, width) {
                Ok((number, end)) => Ok((signed_item(number, width), end)),
                Err(failure) => Err(failure),
            }
        } else if 0xd9 <= marker <= 0xdb {
            match number_at(s, next, width_of((marker - 0xd9) as nat)) {
                Ok((length, end)) => text_at(s, end, length),
                Err(failure) => Err(failure),
            }
        } else if 0xdc <= marker <= 0xdd {
            match number_at(s, next, width_of((marker - 0xdb) as nat)) {
                Ok((length, end)) => array_at(s, end, length, depth + 1),
                Err(failure) => Err(failure),
            }
        } else if 0xde <= marker <= 0xdf {
            match number_at(s, next, width_of((marker - 0xdd) as nat)) {
                Ok((length, end)) => map_at(s, end, length, depth + 1),
                Err(failure) => Err(failure),
            }
        } else if marker >= 0xe0 {
            Ok((Item::Negative((marker as int - 0x100) as i64), next))
        } else {
            Err(Failure { offset: next, message: "unsupported MessagePack marker"@ })
        }
    }
}

/// So many values, one after the other.
pub open spec fn items_at(s: Seq<u8>, at: nat, count: nat, depth: nat) -> Result<
    (Seq<Item>, nat),
    Failure,
>
    decreases 33 - depth, count + 1,
{
    if count == 0 {
        Ok((Seq::empty(), at))
    } else {
        match items_at(s, at, (count - 1) as nat, depth) {
            Ok((items, next)) => match value_at(s, next, depth) {
                Ok((item, end)) => Ok((items.push(item), end)),
                Err(failure) => Err(failure),
            },
            Err(failure) => Err(failure),
        }
    }
}

/// Whether one of the entries has the key.
pub open spec fn has_entry(entries: Seq<(Seq<char>, Item)>, key: Seq<char>) -> bool {
    exists|i: int| 0 <= i < entries.len() && (#[trigger] entries[i]).0 == key
}

/// So many keys and values, one after the other. No key occurs twice.
pub open spec fn entries_at(s: Seq<u8>, at: nat, count: nat, depth: nat) -> Result<
    (Seq<(Seq<char>, Item)>, nat),
    Failure,
>
    decreases 33 - depth, count + 1,
{
    if count == 0 {
        Ok((Seq::empty(), at))
    } else {
        match entries_at(s, at, (count - 1) as nat, depth) {
            Ok((entries, next)) => match value_at(s, next, depth) {
                Ok((Item::Text(key), middle)) => if has_entry(entries, key) {
                    Err(Failure { offset: middle, message: "duplicate map key"@ })
                } else {
                    match value_at(s, middle, depth) {
                        Ok((item, end)) => Ok((entries.push((key, item)), end)),
                        Err(failure) => Err(failure),
                    }
                },
                Ok((_, middle)) => Err(
                    Failure { offset: middle, message: "map key is not a string"@ },
                ),
                Err(failure) => Err(failure),
            },
            Err(failure) => Err(failure),
        }
    }
}

/// The bytes of the number whose marker is so far behind the first of its kind.
pub open spec fn width_of(step: nat) -> nat {
    if step == 0 {
        1
    } else if step == 1 {
        2
    } else if step == 2 {
        4
    } else {
        8
    }
}

/// Whether the bits are those of a finite 32-bit float.
pub open spec fn finite32(bits: u32) -> bool {
    bits & 0x7f80_0000 != 0x7f80_0000
}

/// Whether the bits are those of a finite 64-bit float.
pub open spec fn finite64(bits: u64) -> bool {
    bits & 0x7ff0_0000_0000_0000 != 0x7ff0_0000_0000_0000
}

/// What an input decodes to.
pub open spec fn decoded(s: Seq<u8>) -> Result<Item, Failure> {
    if s.len() == 0 {
        Err(Failure { offset: 0, message: "empty input"@ })
    } else if s.len() > MAX_MESSAGEPACK_BYTES {
        Err(Failure { offset: 0, message: "input exceeds the 1 MiB bound"@ })
    } else {
        match value_at(s, 0, 0) {
            Ok((item, end)) => if end == s.len() {
                Ok(item)
            } else {
                Err(Failure { offset: end, message: "trailing bytes"@ })
            },
            Err(failure) => Err(failure),
        }
    }
}

/// The text that bytes hold, by `std::str::from_utf8`: it is returned where the
/// bytes are valid UTF-8, and only there.
#[verifier::external_body]
pub(crate) fn utf8_text<'a>(bytes: &'a [u8]) -> (r: Option<&'a str>)
    ensures
        r is Some <==> valid_utf8(bytes@),
        r matches Some(text) ==> text@ == decode_utf8(bytes@),
{
    std::str::from_utf8(bytes).ok()
}

/// Whether the error is the failure.
pub open spec fn tells(error: DecodeError, failure: Failure) -> bool {
    error.offset == failure.offset && error.message@ == failure.message
}

/// Whether a step of the decoder did what was to be read.
spec fn did_read(
    outcome: Result<Value, DecodeError>,
    cursor: usize,
    expected: Result<(Item, nat), Failure>,
) -> bool {
    match (outcome, expected) {
        (Ok(value), Ok((item, end))) => means(value, item) && cursor == end,
        (Err(error), Err(failure)) => tells(error, failure),
        _ => false,
    }
}

proof fn items_failure_stays(s: Seq<u8>, at: nat, count: nat, more: nat, depth: nat)
    requires
        count <= more,
        items_at(s, at, count, depth) is Err,
    ensures
        items_at(s, at, more, depth) == items_at(s, at, count, depth),
    decreases more - count,
{
    if count < more {
        items_failure_stays(s, at, count, (more - 1) as nat, depth);
    }
}

proof fn entries_failure_stays(s: Seq<u8>, at: nat, count: nat, more: nat, depth: nat)
    requires
        count <= more,
        entries_at(s, at, count, depth) is Err,
    ensures
        entries_at(s, at, more, depth) == entries_at(s, at, count, depth),
    decreases more - count,
{
    if count < more {
        entries_failure_stays(s, at, count, (more - 1) as nat, depth);
    }
}

struct Decoder<'a> {
    input: &'a [u8],
    cursor: usize,
}

impl<'a> Decoder<'a> {
    spec fn wf(self) -> bool {
        self.cursor <= self.input@.len() <= MAX_MESSAGEPACK_BYTES
    }

    fn error(&self, message: &'static str) -> (error: DecodeError)
        ensures
            error.offset == self.cursor,
            error.message@ == message@,
    {
        DecodeError { offset: self.cursor, message }
    }

    fn bytes(&mut self, length: usize) -> (r: Result<&'a [u8], DecodeError>)
        requires
            old(self).wf(),
            length <= u32::MAX,
        ensures
            final(self).wf(),
            final(self).input == old(self).input,
            match r {
                Ok(part) => {
                    &&& old(self).cursor + length <= old(self).input@.len()
                    &&& part@ == old(self).input@.subrange(
                        old(self).cursor as int,
                        old(self).cursor + length,
                    )
                    &&& final(self).cursor == old(self).cursor + length
                },
                Err(error) => {
                    &&& old(self).cursor + length > old(self).input@.len()
                    &&& error.offset == old(self).cursor
                    &&& error.message@ == "unexpected end of input"@
                },
            },
    {
        if length > self.input.len() - self.cursor {
            return Err(self.error("unexpected end of input"));
        }
        let end: usize = self.cursor + length;
        let part = slice_subrange(self.input, self.cursor, end);
        self.cursor = end;
        Ok(part)
    }

    fn unsigned(&mut self, width: usize) -> (r: Result<u64, DecodeError>)
        requires
            old(self).wf(),
            1 <= width <= 8,
        ensures
            final(self).wf(),
            final(self).input == old(self).input,
            match (
                r,
                number_at(old(self).input@, old(self).cursor as nat, width as nat),
            ) {
                (Ok(value), Ok((number, end))) => value == number && final(self).cursor == end,
                (Err(error), Err(failure)) => tells(error, failure),
                _ => false,
            },
            r matches Ok(value) ==> fits(value, width as nat),
    {
        let part = self.bytes(width)?;
        let mut value: u64 = 0;
        let mut i: usize = 0;
        assert(part@.take(0) =~= Seq::<u8>::empty());
        while i < width
            invariant
                i <= width <= 8,
                part@.len() == width,
                value == big_endian(part@.take(i as int)),
                fits(value, i as nat),
            decreases width - i,
        {
            assert(part@.take(i + 1).drop_last() =~= part@.take(i as int));
            assert(value * 256 + 255 <= u64::MAX);
            value = value * 256 + part[i] as u64;
            i += 1;
        }
        assert(part@.take(width as int) =~= part@);
        Ok(value)
    }

    fn string(&mut self, length: usize) -> (r: Result<Value, DecodeError>)
        requires
            old(self).wf(),
        ensures
            final(self).wf(),
            final(self).input == old(self).input,
            did_read(
                r,
                final(self).cursor,
                text_at(old(self).input@, old(self).cursor as nat, length as nat),
            ),
    {
        if length > MAX_MESSAGEPACK_BYTES {
            return Err(self.error("string exceeds the 1 MiB bound"));
        }
        let start: usize = self.cursor;
        let part = self.bytes(length)?;
        match utf8_text(part) {
            Some(text) => Ok(Value::Text(text.to_owned())),
            None => Err(DecodeError { offset: start, message: "string is not valid UTF-8" }),
        }
    }

    fn array(&mut self, length: usize, depth: usize) -> (r: Result<Value, DecodeError>)
        requires
            old(self).wf(),
            depth <= 33,
        ensures
            final(self).wf(),
            final(self).input == old(self).input,
            did_read(
                r,
                final(self).cursor,
                array_at(old(self).input@, old(self).cursor as nat, length as nat, depth as nat),
            ),
        decreases 33 - depth, length + 2,
    {
        if length > MAX_CONTAINER_ITEMS {
            return Err(self.error("array exceeds the item bound"));
        }
        let ghost s = self.input@;
        let ghost start = self.cursor as nat;
        let ghost mut items: Seq<Item> = Seq::empty();
        let mut values: Vec<Value> = Vec::new();
        let mut i: usize = 0;
        while i < length
            invariant
                i <= length <= MAX_CONTAINER_ITEMS,
                depth <= 33,
                self.wf(),
                self.input == old(self).input,
                s == self.input@,
                start == old(self).cursor,
                items_at(s, start, i as nat, depth as nat) == Ok::<(Seq<Item>, nat), Failure>(
                    (items, self.cursor as nat),
                ),
                values@.len() == items.len() == i,
                forall|k: int| 0 <= k < i ==> means(#[trigger] values@[k], items[k]),
            decreases length - i,
        {
            let ghost at = self.cursor as nat;
            let outcome = self.value(depth);
            match outcome {
                Ok(value) => {
                    proof {
                        items = items.push((value_at(s, at, depth as nat)->Ok_0).0);
                    }
                    values.push(value);
                },
                Err(error) => {
                    proof {
                        items_failure_stays(
                            s,
                            start,
                            (i + 1) as nat,
                            length as nat,
                            depth as nat,
                        );
                    }
                    return Err(error);
                },
            }
            i += 1;
        }
        Ok(Value::Array(values))
    }

    fn map(&mut self, length: usize, depth: usize) -> (r: Result<Value, DecodeError>)
        requires
            old(self).wf(),
            depth <= 33,
        ensures
            final(self).wf(),
            final(self).input == old(self).input,
            did_read(
                r,
                final(self).cursor,
                map_at(old(self).input@, old(self).cursor as nat, length as nat, depth as nat),
            ),
        decreases 33 - depth, length + 2,
    {
        if length > MAX_CONTAINER_ITEMS {
            return Err(self.error("map exceeds the item bound"));
        }
        let ghost s = self.input@;
        let ghost start = self.cursor as nat;
        let ghost mut entries: Seq<(Seq<char>, Item)> = Seq::empty();
        let mut values: Vec<(String, Value)> = Vec::new();
        let mut i: usize = 0;
        while i < length
            invariant
                i <= length <= MAX_CONTAINER_ITEMS,
                depth <= 33,
                self.wf(),
                self.input == old(self).input,
                s == self.input@,
                start == old(self).cursor,
                entries_at(s, start, i as nat, depth as nat) == Ok::<
                    (Seq<(Seq<char>, Item)>, nat),
                    Failure,
                >((entries, self.cursor as nat)),
                values@.len() == entries.len() == i,
                forall|k: int|
                    0 <= k < i ==> (#[trigger] values@[k]).0@ == entries[k].0 && means(
                        values@[k].1,
                        entries[k].1,
                    ),
            decreases length - i,
        {
            proof {
                if entries_at(s, start, (i + 1) as nat, depth as nat) is Err {
                    entries_failure_stays(s, start, (i + 1) as nat, length as nat, depth as nat);
                }
            }
            let key = match self.value(depth)? {
                Value::Text(key) => key,
                _ => {
                    return Err(self.error("map key is not a string"));
                },
            };
            if holds_key(&values, key.as_str()) {
                proof {
                    let k = choose|k: int| 0 <= k < values@.len() && (#[trigger] values@[k]).0@ == key@;
                    assert(entries[k].0 == key@);
                    assert(has_entry(entries, key@));
                }
                return Err(self.error("duplicate map key"));
            }
            proof {
                if has_entry(entries, key@) {
                    let k = choose|k: int| 0 <= k < entries.len() && (#[trigger] entries[k]).0 == key@;
                    assert(values@[k].0@ == key@);
                }
            }
            let ghost at = self.cursor as nat;
            let value = self.value(depth)?;
            proof {
                entries = entries.push((key@, (value_at(s, at, depth as nat)->Ok_0).0));
            }
            values.push((key, value));
            i += 1;
        }
        Ok(Value::Object(values))
    }

    #[verifier::rlimit(30)]
    fn value(&mut self, depth: usize) -> (r: Result<Value, DecodeError>)
        requires
            old(self).wf(),
            depth <= 33,
        ensures
            final(self).wf(),
            final(self).input == old(self).input,
            did_read(
                r,
                final(self).cursor,
                value_at(old(self).input@, old(self).cursor as nat, depth as nat),
            ),
        decreases 33 - depth, 0nat,
    {
        if depth > MAX_DEPTH {
            return Err(self.error("nesting exceeds 32 levels"));
        }
        if self.cursor >= self.input.len() {
            return Err(self.error("unexpected end of input"));
        }
        let marker: u8 = self.input[self.cursor];
        self.cursor = self.cursor + 1;
        if marker <= 0x7f {
            Ok(Value::Unsigned(marker as u64))
        } else if marker <= 0x8f {
            self.map((marker - 0x80) as usize, depth + 1)
        } else if marker <= 0x9f {
            self.array((marker - 0x90) as usize, depth + 1)
        } else if marker <= 0xbf {
            self.string((marker - 0xa0) as usize)
        } else if marker == 0xc0 {
            Ok(Value::Null)
        } else if marker == 0xc2 {
            Ok(Value::Bool(false))
        } else if marker == 0xc3 {
            Ok(Value::Bool(true))
        } else if marker == 0xca {
            let bits: u32 = self.unsigned(4)? as u32;
            if bits & 0x7f80_0000 == 0x7f80_0000 {
                return Err(self.error("non-finite floating point value"));
            }
            Ok(Value::Float32(bits))
        } else if marker == 0xcb {
            let bits: u64 = self.unsigned(8)?;
            if bits & 0x7ff0_0000_0000_0000 == 0x7ff0_0000_0000_0000 {
                return Err(self.error("non-finite floating point value"));
            }
            Ok(Value::Float64(bits))
        } else if 0xcc <= marker && marker <= 0xcf {
            let width: usize = width_step(marker - 0xcc);
            Ok(Value::Unsigned(self.unsigned(width)?))
        } else if 0xd0 <= marker && marker <= 0xd3 {
            let width: usize = width_step(marker - 0xd0);
            let number: u64 = self.unsigned(width)?;
            Ok(signed_value(number, width))
        } else if 0xd9 <= marker && marker <= 0xdb {
            let length: usize = self.unsigned(width_step(marker - 0xd9))? as usize;
            self.string(length)
        } else if 0xdc <= marker && marker <= 0xdd {
            let length: usize = self.unsigned(width_step(marker - 0xdb))? as usize;
            self.array(length, depth + 1)
        } else if 0xde <= marker && marker <= 0xdf {
            let length: usize = self.unsigned(width_step(marker - 0xdd))? as usize;
            self.map(length, depth + 1)
        } else if marker >= 0xe0 {
            Ok(Value::Negative(marker as i64 - 0x100))
        } else {
            Err(self.error("unsupported MessagePack marker"))
        }
    }
}

/// Whether the number takes no more bytes than said.
spec fn fits(value: u64, width: nat) -> bool {
    &&& width == 0 ==> value == 0
    &&& width == 1 ==> value <= 0xff
    &&& width == 2 ==> value <= 0xffff
    &&& width == 3 ==> value <= 0xff_ffff
    &&& width == 4 ==> value <= 0xffff_ffff
    &&& width == 5 ==> value <= 0xff_ffff_ffff
    &&& width == 6 ==> value <= 0xffff_ffff_ffff
    &&& width == 7 ==> value <= 0xff_ffff_ffff_ffff
}

fn width_step(step: u8) -> (width: usize)
    ensures
        width == width_of(step as nat),
{
    if step == 0 {
        1
    } else if step == 1 {
        2
    } else if step == 2 {
        4
    } else {
        8
    }
}

fn signed_value(number: u64, width: usize) -> (value: Value)
    requires
        width == 1 || width == 2 || width == 4 || width == 8,
        fits(number, width as nat),
    ensures
        means(value, signed_item(number as nat, width as nat)),
{
    let half: u64 = if width == 1 {
        0x80
    } else if width == 2 {
        0x8000
    } else if width == 4 {
        0x8000_0000
    } else {
        0x8000_0000_0000_0000
    };
    if number < half {
        Value::Unsigned(number)
    } else {
        Value::Negative((number as i128 - 2 * half as i128) as i64)
    }
}

fn holds_key(values: &Vec<(String, Value)>, key: &str) -> (r: bool)
    ensures
        r <==> exists|k: int| 0 <= k < values@.len() && (#[trigger] values@[k]).0@ == key@,
{
    let mut i: usize = 0;
    while i < values.len()
        invariant
            i <= values.len(),
            forall|k: int| 0 <= k < i ==> (#[trigger] values@[k]).0@ != key@,
        decreases values.len() - i,
    {
        if text_is(values[i].0.as_str(), key) {
            assert(values@[i as int].0@ == key@);
            return true;
        }
        i += 1;
    }
    false
}

/// Decodes an input that holds exactly one value.
pub fn decode(input: &[u8]) -> (r: Result<Value, DecodeError>)
    ensures
        match (r, decoded(input@)) {
            (Ok(value), Ok(item)) => means(value, item),
            (Err(error), Err(failure)) => tells(error, failure),
            _ => false,
        },
{
    if input.len() == 0 {
        return Err(DecodeError { offset: 0, message: "empty input" });
    }
    if input.len() > MAX_MESSAGEPACK_BYTES {
        return Err(DecodeError { offset: 0, message: "input exceeds the 1 MiB bound" });
    }
    let mut decoder = Decoder { input, cursor: 0 };
    let value = decoder.value(0)?;
    if decoder.cursor != input.len() {
        return Err(decoder.error("trailing bytes"));
    }
    Ok(value)
}

// Laws.

/// No key occurs twice in an object that is accepted.
pub proof fn object_keys_are_distinct(
    s: Seq<u8>,
    at: nat,
    count: nat,
    depth: nat,
    i: int,
    j: int,
)
    requires
        entries_at(s, at, count, depth) is Ok,
        0 <= i < j < (entries_at(s, at, count, depth)->Ok_0).0.len(),
    ensures
        (entries_at(s, at, count, depth)->Ok_0).0[i].0 != (entries_at(
            s,
            at,
            count,
            depth,
        )->Ok_0).0[j].0,
    decreases count,
{
    let all = (entries_at(s, at, count, depth)->Ok_0).0;
    let front = (entries_at(s, at, (count - 1) as nat, depth)->Ok_0).0;
    assert(all.drop_last() =~= front);
    assert(all[i] == front[i]);
    if j < front.len() {
        object_keys_are_distinct(s, at, (count - 1) as nat, depth, i, j);
        assert(all[j] == front[j]);
    } else if front[i].0 == all[j].0 {
        assert(has_entry(front, all[j].0));
    }
}

proof fn number_is_self_delimiting(s: Seq<u8>, t: Seq<u8>, at: nat, width: nat)
    ensures
        number_at(s, at, width) is Ok ==> number_at(s + t, at, width) == number_at(s, at, width),
{
    if at + width <= s.len() {
        assert((s + t).subrange(at as int, (at + width) as int) =~= s.subrange(
            at as int,
            (at + width) as int,
        ));
    }
}

proof fn text_is_self_delimiting(s: Seq<u8>, t: Seq<u8>, at: nat, length: nat)
    ensures
        text_at(s, at, length) is Ok ==> text_at(s + t, at, length) == text_at(s, at, length),
{
    if at + length <= s.len() {
        assert((s + t).subrange(at as int, (at + length) as int) =~= s.subrange(
            at as int,
            (at + length) as int,
        ));
    }
}

/// A value is read the same whatever follows it.
pub proof fn value_is_self_delimiting(s: Seq<u8>, t: Seq<u8>, at: nat, depth: nat)
    requires
        value_at(s, at, depth) is Ok,
    ensures
        value_at(s + t, at, depth) == value_at(s, at, depth),
    decreases 33 - depth, 0nat,
{
    let marker = s[at as int];
    let next = at + 1;
    assert((s + t)[at as int] == marker);
    number_is_self_delimiting(s, t, next, 1);
    number_is_self_delimiting(s, t, next, 2);
    number_is_self_delimiting(s, t, next, 4);
    number_is_self_delimiting(s, t, next, 8);
    if 0x80 <= marker <= 0x8f {
        entries_are_self_delimiting(s, t, next, (marker - 0x80) as nat, depth + 1);
    } else if 0x90 <= marker <= 0x9f {
        items_are_self_delimiting(s, t, next, (marker - 0x90) as nat, depth + 1);
    } else if 0xa0 <= marker <= 0xbf {
        text_is_self_delimiting(s, t, next, (marker - 0xa0) as nat);
    } else if 0xd9 <= marker <= 0xdb {
        if let Ok((length, end)) = number_at(s, next, width_of((marker - 0xd9) as nat)) {
            text_is_self_delimiting(s, t, end, length);
        }
    } else if 0xdc <= marker <= 0xdd {
        if let Ok((length, end)) = number_at(s, next, width_of((marker - 0xdb) as nat)) {
            items_are_self_delimiting(s, t, end, length, depth + 1);
        }
    } else if 0xde <= marker <= 0xdf {
        if let Ok((length, end)) = number_at(s, next, width_of((marker - 0xdd) as nat)) {
            entries_are_self_delimiting(s, t, end, length, depth + 1);
        }
    }
}

proof fn items_are_self_delimiting(s: Seq<u8>, t: Seq<u8>, at: nat, count: nat, depth: nat)
    ensures
        items_at(s, at, count, depth) is Ok ==> items_at(s + t, at, count, depth) == items_at(
            s,
            at,
            count,
            depth,
        ),
    decreases 33 - depth, count + 1,
{
    if count > 0 {
        items_are_self_delimiting(s, t, at, (count - 1) as nat, depth);
        if let Ok((_, next)) = items_at(s, at, (count - 1) as nat, depth) {
            if value_at(s, next, depth) is Ok {
                value_is_self_delimiting(s, t, next, depth);
            }
        }
    }
}

proof fn entries_are_self_delimiting(s: Seq<u8>, t: Seq<u8>, at: nat, count: nat, depth: nat)
    ensures
        entries_at(s, at, count, depth) is Ok ==> entries_at(s + t, at, count, depth)
            == entries_at(s, at, count, depth),
    decreases 33 - depth, count + 1,
{
    if count > 0 {
        entries_are_self_delimiting(s, t, at, (count - 1) as nat, depth);
        if let Ok((_, next)) = entries_at(s, at, (count - 1) as nat, depth) {
            if let Ok((_, middle)) = value_at(s, next, depth) {
                value_is_self_delimiting(s, t, next, depth);
                if value_at(s, middle, depth) is Ok {
                    value_is_self_delimiting(s, t, middle, depth);
                }
            }
        }
    }
}

} // verus!
