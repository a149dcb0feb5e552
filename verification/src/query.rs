//! Captured query manifests: the frames of a capture file, and the manifests in
//! them.

use crate::bytes::{le32_bytes, le32_round_trip, le64_bytes, le_u32, put_u32, put_u64, spec_le32};
use crate::digits::{append_decimal, decimal};
use crate::manifest::{
    meaning_is_unique, model_of, required_string, required_text, value_means_its_model,
};
use crate::msgpack::{decode, decoded, Failure, Item, Value, MAX_MESSAGEPACK_BYTES};
use crate::number_fault::{fault_text, fault_words, read_unsigned, unsigned_fault};
use crate::text::{same, text_is, unsigned_of};
use vstd::prelude::*;
use vstd::slice::slice_subrange;
use vstd::string::*;

verus! {

pub const QUERY_VERSION: u32 = 1;

pub const QUERY_HEADER_BYTES: usize = 24;

pub const MAX_DATAGRAM_BYTES: usize = 1_048_576;

pub const MAX_QUERY_FILE_BYTES: usize = 2_097_152;

pub const MAX_FRAMES: usize = 8;

// Writing.

/// What a capture file begins with.
pub open spec fn query_magic() -> Seq<u8> {
    seq![0x47, 0x4f, 0x51, 0x52, 0x59, 0x30, 0x31, 0x00]
}

/// The header of a capture file.
pub open spec fn header_bytes() -> Seq<u8> {
    query_magic() + le32_bytes(QUERY_VERSION) + le32_bytes(MAX_DATAGRAM_BYTES as u32) + le64_bytes(
        0,
    )
}

fn magic() -> (bytes: Vec<u8>)
    ensures
        bytes@ == query_magic(),
{
    let mut bytes: Vec<u8> = Vec::new();
    bytes.push(0x47);
    bytes.push(0x4f);
    bytes.push(0x51);
    bytes.push(0x52);
    bytes.push(0x59);
    bytes.push(0x30);
    bytes.push(0x31);
    bytes.push(0x00);
    assert(bytes@ =~= query_magic());
    bytes
}

/// The header of a capture file.
pub fn capture_header() -> (bytes: Vec<u8>)
    ensures
        bytes@ == header_bytes(),
{
    let mut bytes = magic();
    put_u32(&mut bytes, QUERY_VERSION);
    put_u32(&mut bytes, 1_048_576);
    put_u64(&mut bytes, 0);
    bytes
}

/// A manifest with its length in front.
pub open spec fn frame_bytes(payload: Seq<u8>) -> Seq<u8> {
    le32_bytes(payload.len() as u32) + payload
}

/// Whether a datagram can be captured.
pub open spec fn capturable(payload: Seq<u8>) -> bool {
    0 < payload.len() <= MAX_DATAGRAM_BYTES
}

/// The frame of a captured datagram.
pub fn capture_frame(payload: &[u8]) -> (r: Result<Vec<u8>, &'static str>)
    ensures
        match r {
            Ok(bytes) => capturable(payload@) && bytes@ == frame_bytes(payload@),
            Err(error) => !capturable(payload@) && error@
                == "received invalid query manifest length"@,
        },
{
    if payload.len() == 0 || payload.len() > MAX_DATAGRAM_BYTES {
        return Err("received invalid query manifest length");
    }
    let mut bytes: Vec<u8> = Vec::new();
    put_u32(&mut bytes, payload.len() as u32);
    bytes.extend_from_slice(payload);
    assert(bytes@ =~= frame_bytes(payload@));
    Ok(bytes)
}

/// What a capture does when nothing more arrives in time: it ends, unless
/// nothing arrived at all.
pub fn capture_timed_out(frames: u32) -> (r: Result<(), &'static str>)
    ensures
        match r {
            Ok(_) => frames != 0,
            Err(error) => frames == 0 && error@ == "timed out before receiving a query manifest"@,
        },
{
    if frames == 0 {
        Err("timed out before receiving a query manifest")
    } else {
        Ok(())
    }
}

/// A number of the command line that may not be zero.
pub open spec fn positive_of(value: Seq<u8>, name: Seq<char>, max: nat) -> Result<nat, Seq<char>> {
    match unsigned_fault(value, 10, max) {
        Some(fault) => Err(fault_words(fault)),
        None => {
            let number = unsigned_of(value, 10, max)->0;
            if number == 0 {
                Err(name + " must be positive"@)
            } else {
                Ok(number)
            }
        },
    }
}

/// Reads a number of the command line that may not be zero.
pub fn parse_positive(value: &[u8], name: &str, max: u64) -> (r: Result<u64, String>)
    ensures
        match (r, positive_of(value@, name@, max as nat)) {
            (Ok(number), Ok(expected)) => number == expected,
            (Err(error), Err(expected)) => error@ == expected,
            _ => false,
        },
{
    match read_unsigned(value, 10, max) {
        Err(fault) => Err(fault_text(fault).to_owned()),
        Ok(number) => if number == 0 {
            let mut text = String::new();
            text.append(name);
            text.append(" must be positive");
            assert(text@ =~= name@ + " must be positive"@);
            Err(text)
        } else {
            Ok(number)
        },
    }
}

// Reading frames.

/// The bound on the frames that a header gives.
pub open spec fn bound_of(s: Seq<u8>) -> Result<nat, Seq<char>> {
    if s.len() < QUERY_HEADER_BYTES {
        Err("failed to fill whole buffer"@)
    } else if s.subrange(0, 8) != query_magic() || spec_le32(s, 8) != QUERY_VERSION || spec_le32(
        s,
        16,
    ) != 0 || spec_le32(s, 20) != 0 {
        Err("invalid query frame header"@)
    } else if spec_le32(s, 12) == 0 || spec_le32(s, 12) > MAX_MESSAGEPACK_BYTES {
        Err("invalid query frame bound"@)
    } else {
        Ok(spec_le32(s, 12) as nat)
    }
}

fn read_bound(bytes: &[u8]) -> (r: Result<usize, &'static str>)
    ensures
        match (r, bound_of(bytes@)) {
            (Ok(bound), Ok(expected)) => bound == expected,
            (Err(error), Err(expected)) => error@ == expected,
            _ => false,
        },
{
    if bytes.len() < QUERY_HEADER_BYTES {
        return Err("failed to fill whole buffer");
    }
    let expected = magic();
    if !same(slice_subrange(bytes, 0, 8), expected.as_slice()) || le_u32(bytes, 8) != QUERY_VERSION
        || le_u32(bytes, 16) != 0 || le_u32(bytes, 20) != 0 {
        return Err("invalid query frame header");
    }
    let bound: u32 = le_u32(bytes, 12);
    if bound == 0 || bound > MAX_MESSAGEPACK_BYTES as u32 {
        return Err("invalid query frame bound");
    }
    Ok(bound as usize)
}

/// Where a frame is read: nothing follows, or a manifest up to a place.
#[verifier::ext_equal]
pub enum Frame {
    End,
    Payload(Seq<u8>, int),
}

/// The frame at the place, behind so many others.
pub open spec fn frame_at(s: Seq<u8>, at: int, count: nat, bound: nat) -> Result<Frame, Seq<char>> {
    if at == s.len() {
        Ok(Frame::End)
    } else if at + 4 > s.len() {
        Err("truncated query frame length"@)
    } else if count >= MAX_FRAMES {
        Err("query capture exceeds eight bounded frames"@)
    } else {
        let length = spec_le32(s, at) as int;
        if length == 0 || length > bound {
            Err("invalid query manifest length"@)
        } else if at + 4 + length > s.len() {
            Err("failed to fill whole buffer"@)
        } else {
            Ok(Frame::Payload(s.subrange(at + 4, at + 4 + length), at + 4 + length))
        }
    }
}

fn read_frame<'a>(bytes: &'a [u8], at: usize, count: usize, bound: usize) -> (r: Result<
    Option<&'a [u8]>,
    &'static str,
>)
    requires
        at <= bytes@.len(),
    ensures
        match (r, frame_at(bytes@, at as int, count as nat, bound as nat)) {
            (Ok(None), Ok(Frame::End)) => true,
            (Ok(Some(payload)), Ok(Frame::Payload(expected, next))) => payload@ == expected && next
                == at + 4 + payload@.len() && next <= bytes@.len(),
            (Err(error), Err(expected)) => error@ == expected,
            _ => false,
        },
{
    let left: usize = bytes.len() - at;
    if left == 0 {
        return Ok(None);
    }
    if left < 4 {
        return Err("truncated query frame length");
    }
    if count >= MAX_FRAMES {
        return Err("query capture exceeds eight bounded frames");
    }
    let length: u32 = le_u32(bytes, at);
    if length == 0 || length as u64 > bound as u64 {
        return Err("invalid query manifest length");
    }
    if length as u64 > (left - 4) as u64 {
        return Err("failed to fill whole buffer");
    }
    let start: usize = at + 4;
    Ok(Some(slice_subrange(bytes, start, start + length as usize)))
}

// Reading manifests.

/// The manifests that were found.
#[verifier::ext_equal]
pub struct Manifests {
    pub query: Option<Item>,
    pub output: Option<Item>,
}

pub open spec fn failure_text(failure: Failure) -> Seq<char> {
    "invalid MessagePack at byte "@ + decimal(failure.offset) + ": "@ + failure.message
}

/// The kind of a manifest.
pub open spec fn kind_of_manifest(item: Item) -> Seq<char> {
    match item.text_under("kind"@) {
        Some(kind) => kind,
        None => "query"@,
    }
}

/// The manifests with one more.
pub open spec fn with_manifest(found: Manifests, payload: Seq<u8>) -> Result<Manifests, Seq<char>> {
    match decoded(payload) {
        Err(failure) => Err(failure_text(failure)),
        Ok(item) => match required_text(item, "schema"@) {
            Err(error) => Err(error),
            Ok(schema) => {
                let kind = kind_of_manifest(item);
                if schema != "GPU_OBSERVER_QUERY_01"@ {
                    Err("unsupported query manifest schema"@)
                } else if kind == "query"@ && found.query is None {
                    Ok(Manifests { query: Some(item), ..found })
                } else if kind == "output"@ && found.output is None {
                    Ok(Manifests { output: Some(item), ..found })
                } else if kind == "query"@ || kind == "output"@ {
                    Err("duplicate focused query frame kind"@)
                } else {
                    Err("unknown focused query frame kind"@)
                }
            },
        },
    }
}

/// The manifests from the place on, behind those that were found.
pub open spec fn manifests_from(
    s: Seq<u8>,
    at: int,
    count: nat,
    bound: nat,
    found: Manifests,
) -> Result<Manifests, Seq<char>>
    decreases s.len() - at,
{
    if at < 0 || at > s.len() {
        Ok(found)
    } else {
        match frame_at(s, at, count, bound) {
            Err(error) => Err(error),
            Ok(Frame::End) => Ok(found),
            Ok(Frame::Payload(payload, next)) => match with_manifest(found, payload) {
                Err(error) => Err(error),
                Ok(more) => manifests_from(s, next, count + 1, bound, more),
            },
        }
    }
}

/// Why the manifests do not belong together, if they do not.
pub open spec fn manifests_problem(found: Manifests) -> Option<Seq<char>> {
    match (found.query, found.output) {
        (None, _) => Some("query capture has no query manifest"@),
        (Some(_), None) => None,
        (Some(query), Some(output)) => {
            let a = required_text(output, "internal_request_id"@);
            let b = required_text(query, "internal_request_id"@);
            let c = required_text(output, "external_request_id"@);
            let d = required_text(query, "external_request_id"@);
            if a is Err {
                Some(a->Err_0)
            } else if b is Err {
                Some(b->Err_0)
            } else if a->Ok_0 != b->Ok_0 {
                Some("output manifest belongs to a different request"@)
            } else if c is Err {
                Some(c->Err_0)
            } else if d is Err {
                Some(d->Err_0)
            } else if c->Ok_0 != d->Ok_0 {
                Some("output manifest belongs to a different request"@)
            } else {
                None
            }
        },
    }
}

pub open spec fn capture_size_error(path: Seq<char>, size: nat) -> Seq<char> {
    path + " has invalid bounded size "@ + decimal(size) + " (max "@ + decimal(
        MAX_QUERY_FILE_BYTES as nat,
    ) + ")"@
}

/// The manifests of a capture file.
pub open spec fn manifests_of(s: Seq<u8>, path: Seq<char>) -> Result<Manifests, Seq<char>> {
    if s.len() == 0 || s.len() > MAX_QUERY_FILE_BYTES {
        Err(capture_size_error(path, s.len()))
    } else {
        match bound_of(s) {
            Err(error) => Err(error),
            Ok(bound) => match manifests_from(
                s,
                QUERY_HEADER_BYTES as int,
                0,
                bound,
                Manifests { query: None, output: None },
            ) {
                Err(error) => Err(error),
                Ok(found) => match manifests_problem(found) {
                    Some(problem) => Err(problem),
                    None => Ok(found),
                },
            },
        }
    }
}

/// The items of values that may be there.
pub open spec fn optional_model(value: Option<Value>) -> Option<Item> {
    match value {
        Some(value) => Some(model_of(value)),
        None => None,
    }
}

struct Found {
    query: Option<Value>,
    output: Option<Value>,
}

impl Found {
    spec fn model(self) -> Manifests {
        Manifests { query: optional_model(self.query), output: optional_model(self.output) }
    }

    fn add(&mut self, payload: &[u8]) -> (r: Result<(), String>)
        ensures
            match (r, with_manifest(old(self).model(), payload@)) {
                (Ok(_), Ok(next)) => final(self).model() == next,
                (Err(error), Err(expected)) => error@ == expected,
                _ => false,
            },
    {
        let value = match decode(payload) {
            Ok(value) => value,
            Err(error) => {
                return Err(error.message());
            },
        };
        let ghost item = decoded(payload@)->Ok_0;
        proof {
            value_means_its_model(value);
            meaning_is_unique(value, item, model_of(value));
        }
        let schema = required_string(&value, "schema")?;
        if !text_is(schema, "GPU_OBSERVER_QUERY_01") {
            return Err("unsupported query manifest schema".to_owned());
        }
        let kind: &str = match value.text_at("kind") {
            Some(kind) => kind,
            None => "query",
        };
        let is_query: bool = text_is(kind, "query");
        let is_output: bool = text_is(kind, "output");
        if is_query && self.query.is_none() {
            self.query = Some(value);
            Ok(())
        } else if is_output && self.output.is_none() {
            self.output = Some(value);
            Ok(())
        } else if is_query || is_output {
            Err("duplicate focused query frame kind".to_owned())
        } else {
            Err("unknown focused query frame kind".to_owned())
        }
    }
}

fn check_pair(query: &Value, output: &Value) -> (r: Result<(), String>)
    ensures
        match (
            r,
            manifests_problem(
                Manifests { query: Some(model_of(*query)), output: Some(model_of(*output)) },
            ),
        ) {
            (Ok(_), None) => true,
            (Err(error), Some(problem)) => error@ == problem,
            _ => false,
        },
{
    proof {
        value_means_its_model(*query);
        value_means_its_model(*output);
    }
    let a = required_string(output, "internal_request_id")?;
    let b = required_string(query, "internal_request_id")?;
    if !text_is(a, b) {
        return Err("output manifest belongs to a different request".to_owned());
    }
    let c = required_string(output, "external_request_id")?;
    let d = required_string(query, "external_request_id")?;
    if !text_is(c, d) {
        return Err("output manifest belongs to a different request".to_owned());
    }
    Ok(())
}

/// Reads the manifests of a capture file: that of the query, and that of the
/// output where it was captured.
pub fn load_query_frames(bytes: &[u8], path: &str) -> (r: Result<(Value, Option<Value>), String>)
    ensures
        match (r, manifests_of(bytes@, path@)) {
            (Ok((query, output)), Ok(found)) => found.query == Some(model_of(query))
                && found.output == optional_model(output),
            (Err(error), Err(expected)) => error@ == expected,
            _ => false,
        },
{
    if bytes.len() == 0 || bytes.len() > MAX_QUERY_FILE_BYTES {
        let mut text = String::new();
        text.append(path);
        text.append(" has invalid bounded size ");
        append_decimal(&mut text, bytes.len() as u64);
        text.append(" (max ");
        append_decimal(&mut text, MAX_QUERY_FILE_BYTES as u64);
        text.append(")");
        assert(text@ =~= capture_size_error(path@, bytes@.len()));
        return Err(text);
    }
    let bound: usize = match read_bound(bytes) {
        Ok(bound) => bound,
        Err(error) => {
            return Err(error.to_owned());
        },
    };
    let ghost nothing = Manifests { query: None, output: None };
    let ghost goal = manifests_from(
        bytes@,
        QUERY_HEADER_BYTES as int,
        0,
        bound as nat,
        nothing,
    );
    let mut found = Found { query: None, output: None };
    let mut at: usize = QUERY_HEADER_BYTES;
    let mut count: usize = 0;
    loop
        invariant_except_break
            at <= bytes@.len(),
            count <= MAX_FRAMES,
            manifests_from(bytes@, at as int, count as nat, bound as nat, found.model()) == goal,
        invariant
            goal == manifests_from(
                bytes@,
                QUERY_HEADER_BYTES as int,
                0,
                bound as nat,
                Manifests { query: None, output: None },
            ),
            bound_of(bytes@) == Ok::<nat, Seq<char>>(bound as nat),
            0 < bytes@.len() <= MAX_QUERY_FILE_BYTES,
        ensures
            goal == Ok::<Manifests, Seq<char>>(found.model()),
        decreases bytes@.len() - at,
    {
        match read_frame(bytes, at, count, bound) {
            Err(error) => {
                return Err(error.to_owned());
            },
            Ok(None) => {
                break;
            },
            Ok(Some(payload)) => {
                found.add(payload)?;
                at = at + 4 + payload.len();
                count += 1;
            },
        }
    }
    match found.query {
        None => Err("query capture has no query manifest".to_owned()),
        Some(query) => match found.output {
            None => Ok((query, None)),
            Some(output) => {
                check_pair(&query, &output)?;
                Ok((query, Some(output)))
            },
        },
    }
}

// Laws.

/// The bytes of the first frames.
pub open spec fn frames_bytes(payloads: Seq<Seq<u8>>, n: int) -> Seq<u8>
    decreases n,
{
    if n <= 0 {
        Seq::empty()
    } else {
        frames_bytes(payloads, n - 1) + frame_bytes(payloads[n - 1])
    }
}

/// A capture file with the manifests.
pub open spec fn capture_file(payloads: Seq<Seq<u8>>) -> Seq<u8> {
    header_bytes() + frames_bytes(payloads, payloads.len() as int)
}

/// Where a frame of a capture file begins.
pub open spec fn frame_start(payloads: Seq<Seq<u8>>, k: int) -> int {
    QUERY_HEADER_BYTES + frames_bytes(payloads, k).len()
}

/// The header of a capture file is accepted.
pub proof fn written_header_is_read_back(payloads: Seq<Seq<u8>>)
    ensures
        bound_of(capture_file(payloads)) == Ok::<nat, Seq<char>>(MAX_DATAGRAM_BYTES as nat),
{
    let s = capture_file(payloads);
    let zero = le64_bytes(0);
    assert(zero =~= le32_bytes(0) + le32_bytes(0));
    assert(header_bytes().len() == 24);
    assert(s.subrange(0, 8) =~= query_magic());
    assert(s.subrange(8, 12) =~= le32_bytes(QUERY_VERSION));
    assert(s.subrange(12, 16) =~= le32_bytes(MAX_DATAGRAM_BYTES as u32));
    assert(s.subrange(16, 20) =~= le32_bytes(0));
    assert(s.subrange(20, 24) =~= le32_bytes(0));
    le32_round_trip(s, 8, QUERY_VERSION);
    le32_round_trip(s, 12, MAX_DATAGRAM_BYTES as u32);
    le32_round_trip(s, 16, 0);
    le32_round_trip(s, 20, 0);
}

/// Every manifest that was captured is read back as it was written, at its
/// place, and nothing follows the last.
pub proof fn written_frames_are_read_back(payloads: Seq<Seq<u8>>, k: int)
    requires
        payloads.len() <= MAX_FRAMES,
        forall|i: int| 0 <= i < payloads.len() ==> capturable(#[trigger] payloads[i]),
        0 <= k <= payloads.len(),
    ensures
        frame_at(
            capture_file(payloads),
            frame_start(payloads, k),
            k as nat,
            MAX_DATAGRAM_BYTES as nat,
        ) == Ok::<Frame, Seq<char>>(
            if k < payloads.len() {
                Frame::Payload(payloads[k], frame_start(payloads, k + 1))
            } else {
                Frame::End
            },
        ),
{
    let s = capture_file(payloads);
    let n = payloads.len() as int;
    let zero = le64_bytes(0);
    assert(header_bytes().len() == 24);
    if k < n {
        let at = frame_start(payloads, k);
        let payload = payloads[k];
        frames_are_a_prefix(payloads, k + 1, n);
        let upto = frames_bytes(payloads, k + 1);
        let all = frames_bytes(payloads, n);
        assert(upto == frames_bytes(payloads, k) + frame_bytes(payload));
        assert(frame_bytes(payload).len() == 4 + payload.len());
        assert(all.take(upto.len() as int) == upto);
        let frame = frame_bytes(payload);
        let part = s.subrange(at, at + frame.len());
        assert(part =~= frame) by {
            assert forall|i: int| 0 <= i < frame.len() implies part[i] == frame[i] by {
                let j = frames_bytes(payloads, k).len() + i;
                assert(s[at + i] == all[j]);
                assert(all[j] == all.take(upto.len() as int)[j]);
            }
        }
        assert(s.subrange(at, at + 4) =~= part.subrange(0, 4));
        assert(part.subrange(0, 4) =~= le32_bytes(payload.len() as u32));
        le32_round_trip(s, at, payload.len() as u32);
        assert(s.subrange(at + 4, at + 4 + payload.len() as int) =~= part.subrange(
            4,
            4 + payload.len() as int,
        ));
        assert(part.subrange(4, 4 + payload.len() as int) =~= payload);
    }
}

proof fn frames_are_a_prefix(payloads: Seq<Seq<u8>>, k: int, n: int)
    requires
        0 <= k <= n <= payloads.len(),
    ensures
        frames_bytes(payloads, k).len() <= frames_bytes(payloads, n).len(),
        frames_bytes(payloads, n).take(frames_bytes(payloads, k).len() as int) == frames_bytes(
            payloads,
            k,
        ),
    decreases n - k,
{
    let part = frames_bytes(payloads, k);
    if k < n {
        frames_are_a_prefix(payloads, k, n - 1);
        let front = frames_bytes(payloads, n - 1);
        assert(frames_bytes(payloads, n).take(part.len() as int) =~= front.take(part.len() as int));
    } else {
        assert(part.take(part.len() as int) =~= part);
    }
}

} // verus!
