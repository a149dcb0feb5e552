//! Text as bytes: lines, fields, searches and numbers.

use crate::msgpack::utf8_text;
use vstd::prelude::*;
use vstd::slice::slice_subrange;
use vstd::utf8::{encode_utf8, encode_utf8_decode_utf8, valid_utf8};

verus! {

/// Whether `part` lies in `s` at the offset.
pub open spec fn lies_at(s: Seq<u8>, part: Seq<u8>, offset: int) -> bool {
    &&& 0 <= offset
    &&& offset + part.len() <= s.len()
    &&& s.subrange(offset, offset + part.len()) == part
}

pub open spec fn starts_with(s: Seq<u8>, part: Seq<u8>) -> bool {
    lies_at(s, part, 0)
}

pub open spec fn contains(s: Seq<u8>, part: Seq<u8>) -> bool {
    exists|offset: int| lies_at(s, part, offset)
}

/// Whether the first occurrence of `part` in `s` is at the offset.
pub open spec fn first_at(s: Seq<u8>, part: Seq<u8>, offset: int) -> bool {
    lies_at(s, part, offset) && forall|j: int| 0 <= j < offset ==> !lies_at(s, part, j)
}

/// The offset of the first occurrence.
pub open spec fn place_of(s: Seq<u8>, part: Seq<u8>) -> int {
    choose|i: int| first_at(s, part, i)
}

pub proof fn place_is_the_one(s: Seq<u8>, part: Seq<u8>, i: int)
    requires
        first_at(s, part, i),
    ensures
        place_of(s, part) == i,
{
    let j = place_of(s, part);
    assert(first_at(s, part, j));
    if i < j {
        assert(!lies_at(s, part, i));
    }
    if j < i {
        assert(!lies_at(s, part, j));
    }
}

/// What is said of a line that is no text.
pub open spec fn not_text() -> Seq<char> {
    "stream did not contain valid UTF-8"@
}

pub fn not_text_words() -> (r: &'static str)
    ensures
        r@ == not_text(),
{
    "stream did not contain valid UTF-8"
}

/// Whether the line is text.
pub fn is_text(line: &[u8]) -> (r: bool)
    ensures
        r == valid_utf8(line@),
{
    utf8_text(line).is_some()
}

/// Whether every line is text.
pub open spec fn all_text(all: Seq<Seq<u8>>) -> bool {
    forall|i: int| 0 <= i < all.len() ==> valid_utf8(#[trigger] all[i])
}

/// Whether every line is text.
pub fn are_text(all: &Vec<&[u8]>) -> (r: bool)
    ensures
        r == all_text(views(all@)),
{
    let mut i: usize = 0;
    while i < all.len()
        invariant
            i <= all.len(),
            forall|j: int| 0 <= j < i ==> valid_utf8(#[trigger] views(all@)[j]),
        decreases all.len() - i,
    {
        assert(views(all@)[i as int] == all@[i as int]@);
        if !is_text(all[i]) {
            return false;
        }
        i += 1;
    }
    true
}

/// Whether two byte strings are the same.
pub fn same(a: &[u8], b: &[u8]) -> (r: bool)
    ensures
        r == (a@ == b@),
{
    if a.len() != b.len() {
        return false;
    }
    let mut i: usize = 0;
    while i < a.len()
        invariant
            i <= a.len() == b.len(),
            forall|j: int| 0 <= j < i ==> a@[j] == b@[j],
        decreases a.len() - i,
    {
        if a[i] != b[i] {
            return false;
        }
        i = i + 1;
    }
    assert(a@ =~= b@);
    true
}

fn is_at(s: &[u8], part: &[u8], offset: usize) -> (r: bool)
    ensures
        r == lies_at(s@, part@, offset as int),
{
    if offset > s.len() || s.len() - offset < part.len() {
        return false;
    }
    same(slice_subrange(s, offset, offset + part.len()), part)
}

/// Whether the text begins with the part.
pub fn has_prefix(s: &[u8], part: &[u8]) -> (r: bool)
    ensures
        r == starts_with(s@, part@),
{
    is_at(s, part, 0)
}

/// The offset of the first occurrence of the part.
pub fn find_bytes(haystack: &[u8], needle: &[u8]) -> (r: Option<usize>)
    ensures
        r matches Some(offset) ==> first_at(haystack@, needle@, offset as int) && offset
            + needle@.len() <= haystack.len(),
        r is None ==> !contains(haystack@, needle@),
{
    if haystack.len() < needle.len() {
        return None;
    }
    let last: usize = haystack.len() - needle.len();
    let mut offset: usize = 0;
    while offset < last
        invariant
            last == haystack.len() - needle.len(),
            offset <= last,
            forall|j: int| 0 <= j < offset ==> !lies_at(haystack@, needle@, j),
        decreases last - offset,
    {
        if is_at(haystack, needle, offset) {
            return Some(offset);
        }
        offset = offset + 1;
    }
    if is_at(haystack, needle, last) {
        Some(last)
    } else {
        None
    }
}

/// Whether the part occurs in the text.
pub fn has_part(s: &[u8], part: &[u8]) -> (r: bool)
    ensures
        r == contains(s@, part@),
{
    find_bytes(s, part).is_some()
}

/// Whether one byte string stands before another.
pub open spec fn bytes_before(a: Seq<u8>, b: Seq<u8>) -> bool
    decreases a.len(),
{
    if b.len() == 0 {
        false
    } else if a.len() == 0 {
        true
    } else if a[0] != b[0] {
        a[0] < b[0]
    } else {
        bytes_before(a.drop_first(), b.drop_first())
    }
}

/// Of two different byte strings one stands before the other.
pub proof fn bytes_before_is_total(a: Seq<u8>, b: Seq<u8>)
    requires
        a != b,
    ensures
        bytes_before(a, b) || bytes_before(b, a),
    decreases a.len(),
{
    if a.len() == 0 || b.len() == 0 {
        assert(a.len() != b.len()) by {
            if a.len() == b.len() {
                assert(a =~= b);
            }
        }
    } else if a[0] == b[0] {
        if a.drop_first() == b.drop_first() {
            assert(a =~= seq![a[0]] + a.drop_first());
            assert(b =~= seq![b[0]] + b.drop_first());
        }
        bytes_before_is_total(a.drop_first(), b.drop_first());
    }
}

/// The order of byte strings is transitive.
pub proof fn bytes_before_is_transitive(a: Seq<u8>, b: Seq<u8>, c: Seq<u8>)
    requires
        bytes_before(a, b),
        bytes_before(b, c),
    ensures
        bytes_before(a, c),
    decreases a.len(),
{
    if a.len() > 0 && b.len() > 0 && c.len() > 0 && a[0] == b[0] && b[0] == c[0] {
        bytes_before_is_transitive(a.drop_first(), b.drop_first(), c.drop_first());
    }
}

/// Whether one byte string stands before another.
pub fn is_before(a: &[u8], b: &[u8]) -> (r: bool)
    ensures
        r == bytes_before(a@, b@),
{
    let mut i: usize = 0;
    assert(a@.skip(0) =~= a@);
    assert(b@.skip(0) =~= b@);
    while i < a.len() && i < b.len()
        invariant
            i <= a.len(),
            i <= b.len(),
            bytes_before(a@, b@) == bytes_before(a@.skip(i as int), b@.skip(i as int)),
        decreases a.len() - i,
    {
        assert(a@.skip(i as int).drop_first() =~= a@.skip(i + 1));
        assert(b@.skip(i as int).drop_first() =~= b@.skip(i + 1));
        if a[i] != b[i] {
            return a[i] < b[i];
        }
        i = i + 1;
    }
    i < b.len()
}

/// A byte string does not stand before itself, nor two before each other.
pub proof fn bytes_before_is_strict(a: Seq<u8>, b: Seq<u8>)
    ensures
        !(bytes_before(a, b) && bytes_before(b, a)),
        !bytes_before(a, a),
    decreases a.len(),
{
    if a.len() > 0 {
        bytes_before_is_strict(a.drop_first(), a.drop_first());
        if b.len() > 0 {
            bytes_before_is_strict(a.drop_first(), b.drop_first());
        }
    }
}

/// Texts with the same bytes are the same text.
pub proof fn bytes_determine_text(a: Seq<char>, b: Seq<char>)
    requires
        encode_utf8(a) == encode_utf8(b),
    ensures
        a == b,
{
    encode_utf8_decode_utf8(a);
    encode_utf8_decode_utf8(b);
}

/// Whether two texts are the same.
pub fn text_is(a: &str, b: &str) -> (r: bool)
    ensures
        r == (a@ == b@),
{
    let r: bool = same(a.as_bytes(), b.as_bytes());
    proof {
        if r {
            bytes_determine_text(a@, b@);
        }
    }
    r
}

// Lines and fields.

/// The position of the first byte with the value, or the length.
pub open spec fn index_of_byte(s: Seq<u8>, byte: u8) -> nat
    decreases s.len(),
{
    if s.len() == 0 || s[0] == byte {
        0
    } else {
        1 + index_of_byte(s.drop_first(), byte)
    }
}

pub proof fn index_of_byte_bounds(s: Seq<u8>, byte: u8)
    ensures
        index_of_byte(s, byte) <= s.len(),
    decreases s.len(),
{
    if s.len() > 0 {
        index_of_byte_bounds(s.drop_first(), byte);
    }
}

/// What stands between the separators.
pub open spec fn fields_of(s: Seq<u8>, separator: u8) -> Seq<Seq<u8>>
    decreases s.len(),
{
    let n = index_of_byte(s, separator);
    if n >= s.len() {
        seq![s]
    } else {
        seq![s.take(n as int)] + fields_of(s.skip(n as int + 1), separator)
    }
}

/// A line without the carriage return that stood before its line feed.
pub open spec fn without_return(s: Seq<u8>) -> Seq<u8> {
    if s.len() > 0 && s.last() == 0x0d {
        s.drop_last()
    } else {
        s
    }
}

/// The lines of a text: a line feed, or a carriage return and a line feed,
/// ends a line, and the last line needs none.
pub open spec fn lines_of(s: Seq<u8>) -> Seq<Seq<u8>>
    decreases s.len(),
{
    let n = index_of_byte(s, 0x0a);
    if s.len() == 0 {
        Seq::empty()
    } else if n >= s.len() {
        seq![s]
    } else {
        seq![without_return(s.take(n as int))] + lines_of(s.skip(n as int + 1))
    }
}

/// The texts of slices.
pub open spec fn views(parts: Seq<&[u8]>) -> Seq<Seq<u8>> {
    parts.map_values(|part: &[u8]| part@)
}

proof fn index_of_byte_is_first(s: Seq<u8>, byte: u8, n: int)
    requires
        0 <= n <= s.len(),
        forall|i: int| 0 <= i < n ==> s[i] != byte,
        n < s.len() ==> s[n] == byte,
    ensures
        index_of_byte(s, byte) == n,
    decreases s.len(),
{
    if n > 0 {
        let rest = s.drop_first();
        assert(s[0] != byte);
        assert forall|i: int| 0 <= i < n - 1 implies rest[i] != byte by {
            assert(s[i + 1] != byte);
        }
        index_of_byte_is_first(rest, byte, n - 1);
    }
}

/// The position of the first byte with the value from `start` on, or the end.
fn scan_byte(s: &[u8], start: usize, byte: u8) -> (n: usize)
    requires
        start <= s.len(),
    ensures
        start <= n <= s.len(),
        n - start == index_of_byte(s@.skip(start as int), byte),
        n < s.len() ==> s@[n as int] == byte,
{
    let mut n: usize = start;
    while n < s.len() && s[n] != byte
        invariant
            start <= n <= s.len(),
            forall|i: int| start <= i < n ==> s@[i] != byte,
        decreases s.len() - n,
    {
        n = n + 1;
    }
    proof {
        let rest = s@.skip(start as int);
        assert forall|i: int| 0 <= i < n - start implies rest[i] != byte by {
            assert(s@[start + i] != byte);
        }
        index_of_byte_is_first(rest, byte, n - start);
    }
    n
}

/// The fields of a row.
pub fn fields<'a>(s: &'a [u8], separator: u8) -> (parts: Vec<&'a [u8]>)
    ensures
        views(parts@) == fields_of(s@, separator),
        parts.len() > 0,
{
    let mut parts: Vec<&'a [u8]> = Vec::new();
    let mut start: usize = 0;
    let mut n: usize = scan_byte(s, 0, separator);
    proof {
        assert(s@.skip(0) =~= s@);
        assert(views(parts@) + fields_of(s@, separator) =~= fields_of(s@, separator));
    }
    while n < s.len()
        invariant
            start <= n <= s.len(),
            n - start == index_of_byte(s@.skip(start as int), separator),
            views(parts@) + fields_of(s@.skip(start as int), separator) == fields_of(s@, separator),
        decreases s.len() - start,
    {
        let part = slice_subrange(s, start, n);
        let ghost before = views(parts@);
        let ghost rest = s@.skip(start as int);
        proof {
            assert(rest.take(n - start) =~= part@);
            assert(rest.skip(n - start + 1) =~= s@.skip(n + 1));
        }
        parts.push(part);
        proof {
            assert(views(parts@) =~= before.push(part@));
            assert(before.push(part@) + fields_of(s@.skip(n + 1), separator) =~= before + (seq![
                part@,
            ] + fields_of(s@.skip(n + 1), separator)));
        }
        start = n + 1;
        n = scan_byte(s, start, separator);
    }
    let part = slice_subrange(s, start, s.len());
    let ghost before = views(parts@);
    parts.push(part);
    proof {
        assert(part@ =~= s@.skip(start as int));
        assert(views(parts@) =~= before + seq![part@]);
    }
    parts
}

/// The lines of a text.
pub fn lines<'a>(s: &'a [u8]) -> (parts: Vec<&'a [u8]>)
    ensures
        views(parts@) == lines_of(s@),
{
    let mut parts: Vec<&'a [u8]> = Vec::new();
    let mut start: usize = 0;
    proof {
        assert(s@.skip(0) =~= s@);
        assert(views(parts@) + lines_of(s@) =~= lines_of(s@));
    }
    while start < s.len()
        invariant
            start <= s.len(),
            views(parts@) + lines_of(s@.skip(start as int)) == lines_of(s@),
        decreases s.len() - start,
    {
        let n: usize = scan_byte(s, start, 0x0a);
        let ghost before = views(parts@);
        let ghost rest = s@.skip(start as int);
        if n < s.len() {
            let whole = slice_subrange(s, start, n);
            let part = if whole.len() > 0 && whole[whole.len() - 1] == 0x0d {
                slice_subrange(whole, 0, whole.len() - 1)
            } else {
                whole
            };
            proof {
                assert(rest.take(n - start) =~= whole@);
                assert(part@ =~= without_return(whole@));
                assert(rest.skip(n - start + 1) =~= s@.skip(n + 1));
            }
            parts.push(part);
            proof {
                assert(views(parts@) =~= before.push(part@));
                assert(before.push(part@) + lines_of(s@.skip(n + 1)) =~= before + (seq![part@]
                    + lines_of(s@.skip(n + 1))));
            }
            start = n + 1;
        } else {
            let part = slice_subrange(s, start, n);
            proof {
                assert(part@ =~= rest);
            }
            parts.push(part);
            start = n;
            proof {
                assert(views(parts@) =~= before.push(part@));
                assert(s@.skip(start as int) =~= Seq::<u8>::empty());
                assert(before.push(part@) + lines_of(s@.skip(start as int)) =~= before + seq![
                    part@,
                ]);
            }
        }
    }
    proof {
        assert(s@.skip(start as int) =~= Seq::<u8>::empty());
        assert(views(parts@) + lines_of(s@.skip(start as int)) =~= views(parts@));
    }
    parts
}

// White space.

/// How many bytes the white space at the offset takes, or zero.
pub open spec fn space_width(s: Seq<u8>, i: int) -> nat {
    if 0 <= i < s.len() && (0x09 <= s[i] <= 0x0d || s[i] == 0x20) {
        1
    } else if 0 <= i && i + 1 < s.len() && s[i] == 0xc2 && (s[i + 1] == 0x85 || s[i + 1] == 0xa0) {
        2
    } else if 0 <= i && i + 2 < s.len() && ((s[i] == 0xe1 && s[i + 1] == 0x9a && s[i + 2] == 0x80)
        || (s[i] == 0xe2 && s[i + 1] == 0x80 && (0x80 <= s[i + 2] <= 0x8a || s[i + 2] == 0xa8 || s[i
        + 2] == 0xa9 || s[i + 2] == 0xaf)) || (s[i] == 0xe2 && s[i + 1] == 0x81 && s[i + 2] == 0x9f)
        || (s[i] == 0xe3 && s[i + 1] == 0x80 && s[i + 2] == 0x80)) {
        3
    } else {
        0
    }
}

/// The text without the white space at its beginning.
pub open spec fn trimmed_start(s: Seq<u8>) -> Seq<u8>
    decreases s.len(),
{
    let width = space_width(s, 0);
    if width == 0 {
        s
    } else {
        trimmed_start(s.skip(width as int))
    }
}

/// The text without the white space at its end.
pub open spec fn trimmed_end(s: Seq<u8>) -> Seq<u8>
    decreases s.len(),
{
    if s.len() >= 1 && space_width(s, s.len() - 1) == 1 {
        trimmed_end(s.take(s.len() - 1))
    } else if s.len() >= 2 && space_width(s, s.len() - 2) == 2 {
        trimmed_end(s.take(s.len() - 2))
    } else if s.len() >= 3 && space_width(s, s.len() - 3) == 3 {
        trimmed_end(s.take(s.len() - 3))
    } else {
        s
    }
}

/// The text without the white space around it.
pub open spec fn trimmed(s: Seq<u8>) -> Seq<u8> {
    trimmed_end(trimmed_start(s))
}

fn space_at(s: &[u8], i: usize) -> (width: usize)
    requires
        i < s.len(),
    ensures
        width == space_width(s@, i as int),
        i + width <= s.len(),
{
    let a: u8 = s[i];
    if (0x09 <= a && a <= 0x0d) || a == 0x20 {
        return 1;
    }
    let left: usize = s.len() - i;
    if left < 2 {
        return 0;
    }
    let b: u8 = s[i + 1];
    if a == 0xc2 && (b == 0x85 || b == 0xa0) {
        return 2;
    }
    if left < 3 {
        return 0;
    }
    let c: u8 = s[i + 2];
    if a == 0xe1 && b == 0x9a && c == 0x80 {
        return 3;
    }
    if a == 0xe2 && b == 0x80 && ((0x80 <= c && c <= 0x8a) || c == 0xa8 || c == 0xa9 || c == 0xaf) {
        return 3;
    }
    if a == 0xe2 && b == 0x81 && c == 0x9f {
        return 3;
    }
    if a == 0xe3 && b == 0x80 && c == 0x80 {
        return 3;
    }
    0
}

/// The text without the white space around it.
pub fn trim<'a>(s: &'a [u8]) -> (r: &'a [u8])
    ensures
        r@ == trimmed(s@),
{
    let mut start: usize = 0;
    let mut width: usize = if s.len() > 0 {
        space_at(s, 0)
    } else {
        0
    };
    proof {
        assert(s@.skip(0) =~= s@);
    }
    while width > 0
        invariant
            start + width <= s.len(),
            width == space_width(s@.skip(start as int), 0),
            trimmed_start(s@) == trimmed_start(s@.skip(start as int)),
        decreases s.len() - start,
    {
        assert(s@.skip(start as int).skip(width as int) =~= s@.skip(start + width));
        start = start + width;
        if start < s.len() {
            width = space_at(s, start);
        } else {
            width = 0;
        }
    }
    let body = slice_subrange(s, start, s.len());
    assert(body@ =~= s@.skip(start as int));
    let mut end: usize = body.len();
    let mut more: bool = true;
    assert(body@.take(end as int) =~= body@);
    while more
        invariant
            end <= body.len(),
            trimmed_end(body@) == trimmed_end(body@.take(end as int)),
            !more ==> trimmed_end(body@.take(end as int)) == body@.take(end as int),
        decreases end, (if more { 1int } else { 0 }),
    {
        let part = slice_subrange(body, 0, end);
        let ghost whole = body@.take(end as int);
        assert(part@ =~= whole);
        if end >= 1 && space_at(part, end - 1) == 1 {
            assert(whole.take(end - 1) =~= body@.take(end - 1));
            end = end - 1;
        } else if end >= 2 && space_at(part, end - 2) == 2 {
            assert(whole.take(end - 2) =~= body@.take(end - 2));
            end = end - 2;
        } else if end >= 3 && space_at(part, end - 3) == 3 {
            assert(whole.take(end - 3) =~= body@.take(end - 3));
            end = end - 3;
        } else {
            more = false;
        }
    }
    slice_subrange(body, 0, end)
}

// Numbers.

/// The value of a digit, or a value that is too large for any radix.
pub open spec fn digit_value(byte: u8) -> nat {
    if 0x30 <= byte <= 0x39 {
        (byte - 0x30) as nat
    } else if 0x61 <= byte <= 0x7a {
        (byte - 0x61 + 10) as nat
    } else if 0x41 <= byte <= 0x5a {
        (byte - 0x41 + 10) as nat
    } else {
        99
    }
}

pub open spec fn all_digits(s: Seq<u8>, radix: nat) -> bool {
    forall|i: int| 0 <= i < s.len() ==> digit_value(#[trigger] s[i]) < radix
}

/// The number that the digits stand for.
pub open spec fn digits_number(s: Seq<u8>, radix: nat) -> nat
    decreases s.len(),
{
    if s.len() == 0 {
        0
    } else {
        digits_number(s.drop_last(), radix) * radix + digit_value(s.last())
    }
}

/// The text without a plus sign in front of something.
pub open spec fn without_plus(s: Seq<u8>) -> Seq<u8> {
    if s.len() > 1 && s[0] == 0x2b {
        s.drop_first()
    } else {
        s
    }
}

/// The number that a text stands for: digits of the radix, with or without a
/// plus sign, that do not exceed the maximum.
pub open spec fn unsigned_of(s: Seq<u8>, radix: nat, max: nat) -> Option<nat> {
    let digits = without_plus(s);
    if digits.len() > 0 && all_digits(digits, radix) && digits_number(digits, radix) <= max {
        Some(digits_number(digits, radix))
    } else {
        None
    }
}

/// The signed decimal number that a text stands for.
pub open spec fn signed_of(s: Seq<u8>, min: int, max: int) -> Option<int> {
    if s.len() > 1 && s[0] == 0x2d {
        let digits = s.drop_first();
        if all_digits(digits, 10) && -digits_number(digits, 10) >= min {
            Some(-digits_number(digits, 10))
        } else {
            None
        }
    } else {
        match unsigned_of(s, 10, max as nat) {
            Some(n) => Some(n as int),
            None => None,
        }
    }
}

pub(crate) fn digit(byte: u8) -> (value: u8)
    ensures
        value == digit_value(byte),
{
    if 0x30 <= byte && byte <= 0x39 {
        byte - 0x30
    } else if 0x61 <= byte && byte <= 0x7a {
        byte - 0x61 + 10
    } else if 0x41 <= byte && byte <= 0x5a {
        byte - 0x41 + 10
    } else {
        99
    }
}

pub(crate) proof fn more_digits_are_not_less(s: Seq<u8>, n: int, radix: nat)
    requires
        0 <= n <= s.len(),
        radix >= 1,
    ensures
        digits_number(s.take(n), radix) <= digits_number(s, radix),
    decreases s.len(),
{
    if n == s.len() {
        assert(s.take(n) =~= s);
    } else {
        more_digits_are_not_less(s.drop_last(), n, radix);
        assert(s.drop_last().take(n) =~= s.take(n));
        let front = digits_number(s.drop_last(), radix);
        assert(front <= front * radix) by (nonlinear_arith)
            requires
                radix >= 1,
                front >= 0,
        ;
    }
}

/// The number of a nonempty run of digits that does not exceed the maximum.
fn parse_digits(s: &[u8], radix: u8, max: u64) -> (r: Option<u64>)
    requires
        2 <= radix <= 36,
    ensures
        r is Some <==> s@.len() > 0 && all_digits(s@, radix as nat) && digits_number(
            s@,
            radix as nat,
        ) <= max,
        r matches Some(n) ==> n == digits_number(s@, radix as nat),
{
    if s.len() == 0 {
        return None;
    }
    let mut value: u64 = 0;
    let mut i: usize = 0;
    assert(s@.take(0) =~= Seq::<u8>::empty());
    while i < s.len()
        invariant
            i <= s.len(),
            2 <= radix <= 36,
            value <= max,
            value == digits_number(s@.take(i as int), radix as nat),
            forall|j: int| 0 <= j < i ==> digit_value(#[trigger] s@[j]) < radix,
        decreases s.len() - i,
    {
        let d: u8 = digit(s[i]);
        if d >= radix {
            assert(!all_digits(s@, radix as nat)) by {
                assert(digit_value(s@[i as int]) >= radix);
            }
            return None;
        }
        proof {
            assert(s@.take(i + 1).drop_last() =~= s@.take(i as int));
            more_digits_are_not_less(s@, i + 1, radix as nat);
            assert(value * radix <= u64::MAX * 36) by (nonlinear_arith)
                requires
                    0 <= value <= u64::MAX,
                    0 <= radix <= 36,
            ;
        }
        let next: u128 = value as u128 * radix as u128 + d as u128;
        if next > max as u128 {
            return None;
        }
        value = next as u64;
        i = i + 1;
    }
    assert(s@.take(i as int) =~= s@);
    Some(value)
}

/// The number that a text stands for in the radix.
pub fn parse_unsigned(s: &[u8], radix: u8, max: u64) -> (r: Option<u64>)
    requires
        2 <= radix <= 36,
    ensures
        r is Some <==> unsigned_of(s@, radix as nat, max as nat) is Some,
        r matches Some(n) ==> unsigned_of(s@, radix as nat, max as nat) == Some(n as nat),
{
    if s.len() > 1 && s[0] == 0x2b {
        let digits = slice_subrange(s, 1, s.len());
        assert(digits@ =~= s@.drop_first());
        parse_digits(digits, radix, max)
    } else {
        parse_digits(s, radix, max)
    }
}

/// The decimal number that a text stands for.
pub fn parse_u64(s: &[u8]) -> (r: Option<u64>)
    ensures
        r is Some <==> unsigned_of(s@, 10, u64::MAX as nat) is Some,
        r matches Some(n) ==> unsigned_of(s@, 10, u64::MAX as nat) == Some(n as nat),
{
    parse_unsigned(s, 10, u64::MAX)
}

/// The decimal number that a text stands for.
pub fn parse_u32(s: &[u8]) -> (r: Option<u32>)
    ensures
        r is Some <==> unsigned_of(s@, 10, u32::MAX as nat) is Some,
        r matches Some(n) ==> unsigned_of(s@, 10, u32::MAX as nat) == Some(n as nat),
{
    match parse_unsigned(s, 10, u32::MAX as u64) {
        Some(n) => Some(n as u32),
        None => None,
    }
}

/// The hexadecimal number that a text stands for.
pub fn parse_hex_u64(s: &[u8]) -> (r: Option<u64>)
    ensures
        r is Some <==> unsigned_of(s@, 16, u64::MAX as nat) is Some,
        r matches Some(n) ==> unsigned_of(s@, 16, u64::MAX as nat) == Some(n as nat),
{
    parse_unsigned(s, 16, u64::MAX)
}

/// The signed decimal number that a text stands for.
pub fn parse_i64(s: &[u8]) -> (r: Option<i64>)
    ensures
        r is Some <==> signed_of(s@, i64::MIN as int, i64::MAX as int) is Some,
        r matches Some(n) ==> signed_of(s@, i64::MIN as int, i64::MAX as int) == Some(n as int),
{
    if s.len() > 1 && s[0] == 0x2d {
        let digits = slice_subrange(s, 1, s.len());
        assert(digits@ =~= s@.drop_first());
        match parse_digits(digits, 10, 0x8000_0000_0000_0000) {
            Some(n) => Some((-(n as i128)) as i64),
            None => None,
        }
    } else {
        match parse_unsigned(s, 10, i64::MAX as u64) {
            Some(n) => Some(n as i64),
            None => None,
        }
    }
}

/// The signed decimal number that a text stands for.
pub fn parse_i32(s: &[u8]) -> (r: Option<i32>)
    ensures
        r is Some <==> signed_of(s@, i32::MIN as int, i32::MAX as int) is Some,
        r matches Some(n) ==> signed_of(s@, i32::MIN as int, i32::MAX as int) == Some(n as int),
{
    match parse_i64(s) {
        Some(n) => if i32::MIN as i64 <= n && n <= i32::MAX as i64 {
            Some(n as i32)
        } else {
            None
        },
        None => None,
    }
}

} // verus!
