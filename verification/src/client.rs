//! A streaming client: the request that it sends, and the tokens that it
//! receives as server-sent events.

use crate::digits::{append_decimal, decimal};
use crate::graph::{is_space, words, words_of};
use crate::number_fault::{
    fault_text, fault_words, read_unsigned, unsigned_fault, NumberFault,
};
use crate::semantic::{lifecycle, spec_lifecycle, SemanticRecordKind, SemanticWireRecord};
use crate::tables::{read_u32, u32_of};
use crate::text::{
    contains, fields, fields_of, find_bytes, has_part, has_prefix,
    place_is_the_one, place_of, same, starts_with, trim, trimmed, unsigned_of, views,
};
use vstd::prelude::*;
use vstd::slice::slice_subrange;
use vstd::string::*;
use vstd::utf8::encode_utf8;

verus! {

pub const MAX_BODY_BYTES: usize = 1_048_576;

pub const MAX_CHUNK_BYTES: usize = 1_048_576;

pub const MAX_SSE_BUFFER_BYTES: usize = 2_097_152;

pub const MAX_EVENTS: usize = 8192;

pub const MAX_TOKENS_PER_FRAME: usize = 256;

// The request.

/// The number of a request, from its name: a 64-bit FNV-1a hash.
pub open spec fn request_number(name: Seq<u8>) -> u64
    decreases name.len(),
{
    if name.len() == 0 {
        0xcbf2_9ce4_8422_2325
    } else {
        let mixed = request_number(name.drop_last()) ^ (name.last() as u64);
        ((mixed * 0x100_0000_01b3) % 0x1_0000_0000_0000_0000) as u64
    }
}

/// The number of a request, from its name.
pub fn stable_request_id(bytes: &[u8]) -> (id: u64)
    ensures
        id == request_number(bytes@),
{
    let mut value: u64 = 0xcbf2_9ce4_8422_2325;
    let mut i: usize = 0;
    assert(bytes@.take(0) =~= Seq::<u8>::empty());
    while i < bytes.len()
        invariant
            i <= bytes.len(),
            value == request_number(bytes@.take(i as int)),
        decreases bytes.len() - i,
    {
        assert(bytes@.take(i + 1).drop_last() =~= bytes@.take(i as int));
        value = scaled(value ^ (bytes[i] as u64));
        i += 1;
    }
    assert(bytes@.take(bytes@.len() as int) =~= bytes@);
    value
}

fn scaled(value: u64) -> (r: u64)
    ensures
        r == (value * 0x100_0000_01b3) % 0x1_0000_0000_0000_0000,
{
    value.wrapping_mul(0x100_0000_01b3)
}

/// The name that the frontend gives a request.
pub fn frontend_name(external_id: &str) -> (name: String)
    ensures
        name@ == "chatcmpl-"@ + external_id@,
{
    let mut name = "chatcmpl-".to_owned();
    name.append(external_id);
    name
}

/// Why a request body cannot be sent, if it cannot.
pub open spec fn body_problem(body: Seq<u8>) -> Option<Seq<char>> {
    if body.len() == 0 || body.len() > MAX_BODY_BYTES {
        Some("request body size "@ + decimal(body.len()) + " is outside the bounded range"@)
    } else if !contains(body, encode_utf8("\"stream\":true"@)) && !contains(
        body,
        encode_utf8("\"stream\": true"@),
    ) {
        Some("request must set stream=true"@)
    } else {
        None
    }
}

/// Checks that a request body can be sent and asks for a stream.
pub fn check_body(body: &[u8]) -> (r: Result<(), String>)
    ensures
        match (r, body_problem(body@)) {
            (Ok(_), None) => true,
            (Err(error), Some(problem)) => error@ == problem,
            _ => false,
        },
{
    if body.len() == 0 || body.len() > MAX_BODY_BYTES {
        let mut text = "request body size ".to_owned();
        append_decimal(&mut text, body.len() as u64);
        text.append(" is outside the bounded range");
        return Err(text);
    }
    if !has_part(body, "\"stream\":true".as_bytes()) && !has_part(
        body,
        "\"stream\": true".as_bytes(),
    ) {
        return Err("request must set stream=true".to_owned());
    }
    Ok(())
}

pub open spec fn request_head_of(
    host: Seq<char>,
    port: u16,
    external_id: Seq<char>,
    length: nat,
) -> Seq<char> {
    "POST /v1/chat/completions HTTP/1.1\r\nHost: "@ + host + ":"@ + decimal(port as nat)
        + "\r\nContent-Type: application/json\r\nAccept: text/event-stream\r\nX-Request-Id: "@
        + external_id + "\r\nConnection: close\r\nContent-Length: "@ + decimal(length)
        + "\r\n\r\n"@
}

/// The head of the request.
pub fn request_head(host: &str, port: u16, external_id: &str, length: usize) -> (text: String)
    ensures
        text@ == request_head_of(host@, port, external_id@, length as nat),
{
    let mut text = "POST /v1/chat/completions HTTP/1.1\r\nHost: ".to_owned();
    text.append(host);
    text.append(":");
    append_decimal(&mut text, port as u64);
    text.append("\r\nContent-Type: application/json\r\nAccept: text/event-stream\r\nX-Request-Id: ");
    text.append(external_id);
    text.append("\r\nConnection: close\r\nContent-Length: ");
    append_decimal(&mut text, length as u64);
    text.append("\r\n\r\n");
    text
}

// The head of the response.

/// What is wrong with the status line of a response, if anything.
#[derive(Clone, Copy, Debug, PartialEq, Eq, Structural)]
pub enum StatusLine {
    Accepted,
    Missing,
    Refused,
}

pub open spec fn status_of(line: Seq<u8>) -> StatusLine {
    let parts = words_of(line);
    if parts.len() < 2 {
        StatusLine::Missing
    } else if parts[1] == encode_utf8("200"@) {
        StatusLine::Accepted
    } else {
        StatusLine::Refused
    }
}

/// Reads the status line of a response.
pub fn read_status(line: &[u8]) -> (r: StatusLine)
    ensures
        r == status_of(line@),
{
    let parts = words(line);
    assert(views(parts@).len() == parts@.len());
    if parts.len() < 2 {
        StatusLine::Missing
    } else {
        assert(views(parts@)[1] == parts@[1]@);
        if same(parts[1], "200".as_bytes()) {
            StatusLine::Accepted
        } else {
            StatusLine::Refused
        }
    }
}

/// The byte in lower case.
pub open spec fn lowered_byte(byte: u8) -> u8 {
    if 0x41 <= byte <= 0x5a {
        (byte + 0x20) as u8
    } else {
        byte
    }
}

/// The text in lower case.
pub open spec fn lowered(s: Seq<u8>) -> Seq<u8> {
    s.map_values(|byte: u8| lowered_byte(byte))
}

/// The text in lower case.
pub fn lower(s: &[u8]) -> (r: Vec<u8>)
    ensures
        r@ == lowered(s@),
{
    let mut out: Vec<u8> = Vec::new();
    let mut i: usize = 0;
    while i < s.len()
        invariant
            i <= s.len(),
            out@ == lowered(s@).take(i as int),
        decreases s.len() - i,
    {
        let byte: u8 = s[i];
        out.push(if 0x41 <= byte && byte <= 0x5a {
            byte + 0x20
        } else {
            byte
        });
        assert(out@ =~= lowered(s@).take(i + 1));
        i += 1;
    }
    assert(out@ =~= lowered(s@));
    out
}

/// What a header line of a response says.
#[derive(Clone, Copy, Debug, PartialEq, Eq, Structural)]
pub enum HeaderLine {
    End,
    Chunked,
    Other,
}

pub open spec fn header_of(line: Seq<u8>) -> HeaderLine {
    if line == encode_utf8("\r\n"@) || line == encode_utf8("\n"@) {
        HeaderLine::End
    } else if starts_with(lowered(line), encode_utf8("transfer-encoding:"@)) && contains(
        lowered(line),
        encode_utf8("chunked"@),
    ) {
        HeaderLine::Chunked
    } else {
        HeaderLine::Other
    }
}

/// Reads a header line of a response.
pub fn read_header(line: &[u8]) -> (r: HeaderLine)
    ensures
        r == header_of(line@),
{
    if same(line, "\r\n".as_bytes()) || same(line, "\n".as_bytes()) {
        return HeaderLine::End;
    }
    let low = lower(line);
    if has_prefix(low.as_slice(), "transfer-encoding:".as_bytes()) && has_part(
        low.as_slice(),
        "chunked".as_bytes(),
    ) {
        HeaderLine::Chunked
    } else {
        HeaderLine::Other
    }
}

/// The size of the chunk that a line announces: a hexadecimal number, with or
/// without extensions behind it. There is none in a line that holds no number.
pub open spec fn chunk_size_of(line: Seq<u8>) -> Option<nat> {
    unsigned_of(fields_of(trimmed(line), 0x3b)[0], 16, usize::MAX as nat)
}

/// What is wrong with the number of such a line.
pub open spec fn chunk_fault(line: Seq<u8>) -> Option<NumberFault> {
    unsigned_fault(fields_of(trimmed(line), 0x3b)[0], 16, usize::MAX as nat)
}

/// Why a chunk cannot be read, if it cannot.
pub open spec fn chunk_problem(line: Seq<u8>) -> Option<Seq<char>> {
    match chunk_fault(line) {
        Some(fault) => Some(fault_words(fault)),
        None => if chunk_size_of(line)->0 > MAX_CHUNK_BYTES {
            Some("HTTP chunk exceeds 1048576 bytes"@)
        } else {
            None
        },
    }
}

/// Reads the size of a chunk.
pub fn read_chunk_size(line: &[u8]) -> (r: Result<usize, &'static str>)
    ensures
        match (r, chunk_problem(line@)) {
            (Ok(size), None) => chunk_size_of(line@) == Some(size as nat),
            (Err(error), Some(problem)) => error@ == problem,
            _ => false,
        },
{
    let parts = fields(trim(line), 0x3b);
    proof {
        assert(views(parts@) == fields_of(trimmed(line@), 0x3b));
        assert(fields_of(trimmed(line@), 0x3b).len() > 0);
        assert(views(parts@)[0] == parts@[0]@);
    }
    match read_unsigned(parts[0], 16, usize::MAX as u64) {
        Err(fault) => Err(fault_text(fault)),
        Ok(size) => if size > MAX_CHUNK_BYTES as u64 {
            Err("HTTP chunk exceeds 1048576 bytes")
        } else {
            Ok(size as usize)
        },
    }
}

// Tokens of an event.

/// Where the white space at the place ends.
pub open spec fn behind_space(s: Seq<u8>, i: int) -> int
    decreases s.len() - i,
{
    if 0 <= i < s.len() && is_space(s[i]) {
        behind_space(s, i + 1)
    } else {
        i
    }
}

/// Where the digits at the place end.
pub open spec fn behind_digits(s: Seq<u8>, i: int) -> int
    decreases s.len() - i,
{
    if 0 <= i < s.len() && 0x30 <= s[i] <= 0x39 {
        behind_digits(s, i + 1)
    } else {
        i
    }
}

pub proof fn skips_go_on(s: Seq<u8>, i: int)
    requires
        0 <= i <= s.len(),
    ensures
        i <= behind_space(s, i) <= s.len(),
        i <= behind_digits(s, i) <= s.len(),
    decreases s.len() - i,
{
    if i < s.len() {
        skips_go_on(s, i + 1);
    }
}

/// The tokens of a list from the place on, behind those that were found.
pub open spec fn ids_from(s: Seq<u8>, at: int, found: Seq<u32>, capacity: nat) -> Result<
    Seq<u32>,
    Seq<char>,
>
    decreases s.len() - at,
{
    if at < 0 || at > s.len() {
        Err("invalid token ID in SSE frame"@)
    } else {
        let begin = behind_space(s, at);
        let end = behind_digits(s, begin);
        proof {
            skips_go_on(s, at);
            skips_go_on(s, begin);
        }
        if begin < s.len() && s[begin] == 0x5d {
            Ok(found)
        } else if found.len() >= capacity {
            Err("SSE token list exceeds per-frame bound"@)
        } else if end == begin {
            Err("invalid token ID in SSE frame"@)
        } else {
            match u32_of(s.subrange(begin, end)) {
                None => Err("number too large to fit in target type"@),
                Some(id) => if end < s.len() && s[end] == 0x2c {
                    ids_from(s, end + 1, found.push(id), capacity)
                } else if end < s.len() && s[end] == 0x5d {
                    Ok(found.push(id))
                } else {
                    Err("invalid token_ids delimiter"@)
                },
            }
        }
    }
}

/// The tokens that the data of an event names.
pub open spec fn token_ids_of(data: Seq<u8>, capacity: nat) -> Result<Seq<u32>, Seq<char>> {
    let key = encode_utf8("\"token_ids\":["@);
    if !contains(data, key) {
        Ok(Seq::empty())
    } else {
        ids_from(data, place_of(data, key) + key.len(), Seq::empty(), capacity)
    }
}

fn skip_space(s: &[u8], at: usize) -> (r: usize)
    requires
        at <= s@.len(),
    ensures
        r == behind_space(s@, at as int),
        at <= r <= s@.len(),
{
    let mut i: usize = at;
    while i < s.len() && (s[i] == 0x20 || s[i] == 0x09 || s[i] == 0x0a || s[i] == 0x0c || s[i]
        == 0x0d)
        invariant
            at <= i <= s.len(),
            behind_space(s@, i as int) == behind_space(s@, at as int),
        decreases s.len() - i,
    {
        i += 1;
    }
    i
}

fn skip_digits(s: &[u8], at: usize) -> (r: usize)
    requires
        at <= s@.len(),
    ensures
        r == behind_digits(s@, at as int),
        at <= r <= s@.len(),
{
    let mut i: usize = at;
    while i < s.len() && 0x30 <= s[i] && s[i] <= 0x39
        invariant
            at <= i <= s.len(),
            behind_digits(s@, i as int) == behind_digits(s@, at as int),
        decreases s.len() - i,
    {
        i += 1;
    }
    i
}

/// Reads the tokens that the data of an event names.
pub fn parse_token_ids(data: &[u8], capacity: usize) -> (r: Result<Vec<u32>, &'static str>)
    ensures
        match (r, token_ids_of(data@, capacity as nat)) {
            (Ok(ids), Ok(expected)) => ids@ == expected,
            (Err(error), Err(expected)) => error@ == expected,
            _ => false,
        },
{
    let key = "\"token_ids\":[".as_bytes();
    let mut ids: Vec<u32> = Vec::new();
    let start: usize = match find_bytes(data, key) {
        Some(start) => start,
        None => {
            return Ok(ids);
        },
    };
    proof {
        place_is_the_one(data@, key@, start as int);
        assert(contains(data@, key@));
    }
    let mut at: usize = start + key.len();
    loop
        invariant
            at <= data@.len(),
            ids_from(data@, at as int, ids@, capacity as nat) == token_ids_of(
                data@,
                capacity as nat,
            ),
        decreases data@.len() - at,
    {
        let begin: usize = skip_space(data, at);
        if begin < data.len() && data[begin] == 0x5d {
            return Ok(ids);
        }
        if ids.len() >= capacity {
            return Err("SSE token list exceeds per-frame bound");
        }
        let end: usize = skip_digits(data, begin);
        if end == begin {
            return Err("invalid token ID in SSE frame");
        }
        match read_u32(slice_subrange(data, begin, end)) {
            None => {
                return Err("number too large to fit in target type");
            },
            Some(id) => {
                ids.push(id);
            },
        }
        if end < data.len() && data[end] == 0x2c {
            at = end + 1;
        } else if end < data.len() && data[end] == 0x5d {
            return Ok(ids);
        } else {
            return Err("invalid token_ids delimiter");
        }
    }
}

// The session.

/// What a session has come to.
#[verifier::ext_equal]
pub struct SessionModel {
    pub request_id: u64,
    pub pid: u32,
    pub tid: u32,
    pub records: Seq<SemanticWireRecord>,
    pub buffer: Seq<u8>,
    pub position: u32,
    pub done: bool,
    pub completed_ns: u64,
}

/// A request that was sent, and what has been received of its response.
pub struct ClientSession {
    request_id: u64,
    pid: u32,
    tid: u32,
    records: Vec<SemanticWireRecord>,
    buffer: Vec<u8>,
    position: u32,
    done: bool,
    completed_ns: u64,
}

/// Whether every record has its place as its number.
pub open spec fn numbered(records: Seq<SemanticWireRecord>) -> bool {
    forall|i: int| 0 <= i < records.len() ==> (#[trigger] records[i]).sequence == i
}

pub open spec fn sent_record(request_id: u64, pid: u32, tid: u32, send_ns: u64) -> SemanticWireRecord {
    spec_lifecycle(
        SemanticRecordKind::ClientRequestSent,
        send_ns,
        0,
        request_id,
        0,
        0,
        0,
        0,
        0,
        pid,
        tid,
    )
}

/// A session with one more token.
pub open spec fn with_token(m: SessionModel, token: u32, receipt_ns: u64) -> Result<
    SessionModel,
    Seq<char>,
> {
    if m.records.len() >= MAX_EVENTS {
        Err("client event capacity exhausted"@)
    } else {
        Ok(
            SessionModel {
                records: m.records.push(
                    spec_lifecycle(
                        SemanticRecordKind::ClientTokenReceived,
                        receipt_ns,
                        m.records.len() as u64,
                        m.request_id,
                        0,
                        m.position,
                        token,
                        0,
                        0,
                        m.pid,
                        m.tid,
                    ),
                ),
                position: (m.position + 1) as u32,
                ..m
            },
        )
    }
}

/// A session with the first of the tokens.
pub open spec fn with_tokens(m: SessionModel, tokens: Seq<u32>, n: int, receipt_ns: u64) -> Result<
    SessionModel,
    Seq<char>,
>
    decreases n,
{
    if n <= 0 {
        Ok(m)
    } else {
        match with_tokens(m, tokens, n - 1, receipt_ns) {
            Err(error) => Err(error),
            Ok(next) => with_token(next, tokens[n - 1], receipt_ns),
        }
    }
}

/// The data of an event.
pub open spec fn event_data(frame: Seq<u8>) -> Seq<u8> {
    if starts_with(frame, encode_utf8("data: "@)) {
        frame.skip(encode_utf8("data: "@).len() as int)
    } else if starts_with(frame, encode_utf8("data:"@)) {
        frame.skip(encode_utf8("data:"@).len() as int)
    } else {
        frame
    }
}

/// A session with one more event.
pub open spec fn with_event(m: SessionModel, frame: Seq<u8>, receipt_ns: u64) -> Result<
    SessionModel,
    Seq<char>,
> {
    let data = event_data(frame);
    if data == encode_utf8("[DONE]"@) {
        Ok(SessionModel { done: true, completed_ns: receipt_ns, ..m })
    } else {
        match token_ids_of(data, MAX_TOKENS_PER_FRAME as nat) {
            Err(error) => Err(error),
            Ok(tokens) => with_tokens(m, tokens, tokens.len() as int, receipt_ns),
        }
    }
}

/// What ends an event.
pub open spec fn event_end() -> Seq<u8> {
    seq![0x0a, 0x0a]
}

/// A session with the events of the bytes: an empty line ends each, and what is
/// behind the last is kept.
pub open spec fn with_bytes(m: SessionModel, s: Seq<u8>, receipt_ns: u64) -> Result<
    SessionModel,
    Seq<char>,
>
    decreases s.len(),
{
    if contains(s, event_end()) {
        let end = place_of(s, event_end());
        if 0 <= end && end + 2 <= s.len() {
            match with_event(m, s.take(end), receipt_ns) {
                Err(error) => Err(error),
                Ok(next) => with_bytes(next, s.skip(end + 2), receipt_ns),
            }
        } else {
            Err(Seq::empty())
        }
    } else {
        Ok(SessionModel { buffer: s, ..m })
    }
}

/// A session with one more chunk.
pub open spec fn with_chunk(m: SessionModel, chunk: Seq<u8>, receipt_ns: u64) -> Result<
    SessionModel,
    Seq<char>,
> {
    if m.buffer.len() + chunk.len() > MAX_SSE_BUFFER_BYTES {
        Err("SSE framing buffer exceeded its bound"@)
    } else {
        with_bytes(m, m.buffer + chunk, receipt_ns)
    }
}

pub open spec fn flag_text(flag: bool) -> Seq<char> {
    if flag {
        "true"@
    } else {
        "false"@
    }
}

/// The records of a session that has ended.
pub open spec fn finished(m: SessionModel) -> Result<Seq<SemanticWireRecord>, Seq<char>> {
    if !m.done || m.buffer.len() > 0 || m.position == 0 {
        Err(
            "incomplete SSE response: done="@ + flag_text(m.done) + " buffered="@ + decimal(
                m.buffer.len(),
            ) + " tokens="@ + decimal(m.position as nat),
        )
    } else if m.records.len() >= MAX_EVENTS {
        Err("client event capacity exhausted"@)
    } else {
        Ok(
            m.records.push(
                spec_lifecycle(
                    SemanticRecordKind::ClientRequestCompleted,
                    m.completed_ns,
                    m.records.len() as u64,
                    m.request_id,
                    0,
                    m.position,
                    0,
                    0,
                    0,
                    m.pid,
                    m.tid,
                ),
            ),
        )
    }
}

impl ClientSession {
    pub closed spec fn model(self) -> SessionModel {
        SessionModel {
            request_id: self.request_id,
            pid: self.pid,
            tid: self.tid,
            records: self.records@,
            buffer: self.buffer@,
            position: self.position,
            done: self.done,
            completed_ns: self.completed_ns,
        }
    }

    /// The records are numbered, and there is one of each token behind the
    /// first.
    pub open spec fn wf(self) -> bool {
        session_holds(self.model())
    }

    /// A session whose request was sent.
    pub fn start(request_id: u64, pid: u32, tid: u32, send_ns: u64) -> (session: Self)
        ensures
            session.wf(),
            session.model() == (SessionModel {
                request_id,
                pid,
                tid,
                records: seq![sent_record(request_id, pid, tid, send_ns)],
                buffer: Seq::empty(),
                position: 0,
                done: false,
                completed_ns: 0,
            }),
    {
        let mut records: Vec<SemanticWireRecord> = Vec::new();
        records.push(
            lifecycle(
                SemanticRecordKind::ClientRequestSent,
                send_ns,
                0,
                request_id,
                0,
                0,
                0,
                0,
                0,
                pid,
                tid,
            ),
        );
        let session = ClientSession {
            request_id,
            pid,
            tid,
            records,
            buffer: Vec::new(),
            position: 0,
            done: false,
            completed_ns: 0,
        };
        assert(session.model().records =~= seq![sent_record(request_id, pid, tid, send_ns)]);
        assert(session.model().buffer =~= Seq::<u8>::empty());
        session
    }

    fn add_token(&mut self, token: u32, receipt_ns: u64) -> (r: Result<(), &'static str>)
        requires
            old(self).wf(),
        ensures
            final(self).wf(),
            match (r, with_token(old(self).model(), token, receipt_ns)) {
                (Ok(_), Ok(next)) => final(self).model() == next,
                (Err(error), Err(expected)) => error@ == expected,
                _ => false,
            },
    {
        let count: usize = self.records.len();
        if count >= MAX_EVENTS {
            return Err("client event capacity exhausted");
        }
        let record = lifecycle(
            SemanticRecordKind::ClientTokenReceived,
            receipt_ns,
            count as u64,
            self.request_id,
            0,
            self.position,
            token,
            0,
            0,
            self.pid,
            self.tid,
        );
        let ghost before = self.records@;
        self.records.push(record);
        self.position = self.position + 1;
        assert forall|i: int| 0 <= i < self.records@.len() implies (
        #[trigger] self.records@[i]).sequence == i by {
            if i < before.len() {
                assert(before[i].sequence == i);
            }
        }
        Ok(())
    }

    fn add_event(&mut self, frame: &[u8], receipt_ns: u64) -> (r: Result<(), &'static str>)
        requires
            old(self).wf(),
        ensures
            final(self).wf(),
            match (r, with_event(old(self).model(), frame@, receipt_ns)) {
                (Ok(_), Ok(next)) => final(self).model() == next,
                (Err(error), Err(expected)) => error@ == expected,
                _ => false,
            },
    {
        let data = strip_data(frame);
        if same(data, "[DONE]".as_bytes()) {
            self.done = true;
            self.completed_ns = receipt_ns;
            return Ok(());
        }
        let ghost before = self.model();
        let tokens = parse_token_ids(data, MAX_TOKENS_PER_FRAME)?;
        let mut n: usize = 0;
        while n < tokens.len()
            invariant
                n <= tokens.len(),
                self.wf(),
                before == old(self).model(),
                with_event(before, frame@, receipt_ns) == with_tokens(
                    before,
                    tokens@,
                    tokens@.len() as int,
                    receipt_ns,
                ),
                with_tokens(before, tokens@, n as int, receipt_ns) == Ok::<SessionModel, Seq<char>>(
                    self.model(),
                ),
            decreases tokens.len() - n,
        {
            proof {
                if with_tokens(before, tokens@, n + 1, receipt_ns) is Err {
                    token_failure_stays(
                        before,
                        tokens@,
                        n + 1,
                        tokens@.len() as int,
                        receipt_ns,
                    );
                }
            }
            self.add_token(tokens[n], receipt_ns)?;
            n += 1;
        }
        Ok(())
    }

    /// Takes a chunk that was received.
    pub fn receive(&mut self, chunk: &[u8], receipt_ns: u64) -> (r: Result<(), &'static str>)
        requires
            old(self).wf(),
        ensures
            final(self).wf(),
            match (r, with_chunk(old(self).model(), chunk@, receipt_ns)) {
                (Ok(_), Ok(next)) => final(self).model() == next,
                (Err(error), Err(expected)) => error@ == expected,
                _ => false,
            },
    {
        if chunk.len() > MAX_SSE_BUFFER_BYTES || self.buffer.len() > MAX_SSE_BUFFER_BYTES
            - chunk.len() {
            return Err("SSE framing buffer exceeded its bound");
        }
        let mut all: Vec<u8> = Vec::new();
        all.extend_from_slice(self.buffer.as_slice());
        all.extend_from_slice(chunk);
        let ghost whole = self.buffer@ + chunk@;
        assert(all@ =~= whole);
        let ghost goal = with_bytes(self.model(), whole, receipt_ns);
        let mut at: usize = 0;
        assert(all@.skip(0) =~= all@);
        loop
            invariant
                at <= all@.len(),
                self.wf(),
                goal == with_chunk(old(self).model(), chunk@, receipt_ns),
                with_bytes(self.model(), all@.skip(at as int), receipt_ns) == goal,
            decreases all@.len() - at,
        {
            let rest = slice_subrange(all.as_slice(), at, all.len());
            assert(rest@ =~= all@.skip(at as int));
            let end_mark: [u8; 2] = [0x0a, 0x0a];
            assert(end_mark@ =~= event_end());
            match find_bytes(rest, &end_mark) {
                None => {
                    let mut kept: Vec<u8> = Vec::new();
                    kept.extend_from_slice(rest);
                    assert(kept@ =~= rest@);
                    self.buffer = kept;
                    return Ok(());
                },
                Some(end) => {
                    proof {
                        place_is_the_one(rest@, event_end(), end as int);
                        assert(contains(rest@, event_end()));
                    }
                    let frame = slice_subrange(rest, 0, end);
                    assert(frame@ =~= rest@.take(end as int));
                    self.add_event(frame, receipt_ns)?;
                    assert(rest@.skip(end + 2) =~= all@.skip(at + end + 2));
                    at = at + end + 2;
                },
            }
        }
    }

    /// Ends the session and gives its records.
    pub fn finish(self) -> (r: Result<Vec<SemanticWireRecord>, String>)
        requires
            self.wf(),
        ensures
            match (r, finished(self.model())) {
                (Ok(records), Ok(expected)) => records@ == expected,
                (Err(error), Err(expected)) => error@ == expected,
                _ => false,
            },
    {
        if !self.done || self.buffer.len() > 0 || self.position == 0 {
            let mut text = "incomplete SSE response: done=".to_owned();
            if self.done {
                text.append("true");
            } else {
                text.append("false");
            }
            text.append(" buffered=");
            append_decimal(&mut text, self.buffer.len() as u64);
            text.append(" tokens=");
            append_decimal(&mut text, self.position as u64);
            return Err(text);
        }
        let count: usize = self.records.len();
        if count >= MAX_EVENTS {
            return Err("client event capacity exhausted".to_owned());
        }
        let record = lifecycle(
            SemanticRecordKind::ClientRequestCompleted,
            self.completed_ns,
            count as u64,
            self.request_id,
            0,
            self.position,
            0,
            0,
            0,
            self.pid,
            self.tid,
        );
        let mut records = self.records;
        records.push(record);
        Ok(records)
    }

    /// How many tokens were received.
    pub fn tokens(&self) -> (n: u32)
        ensures
            n == self.model().position,
    {
        self.position
    }
}

pub open spec fn session_holds(m: SessionModel) -> bool {
    &&& numbered(m.records)
    &&& m.records.len() == m.position + 1
    &&& m.records.len() <= MAX_EVENTS
}

fn strip_data<'a>(frame: &'a [u8]) -> (data: &'a [u8])
    ensures
        data@ == event_data(frame@),
{
    let spaced = "data: ".as_bytes();
    let bare = "data:".as_bytes();
    if has_prefix(frame, spaced) {
        slice_subrange(frame, spaced.len(), frame.len())
    } else if has_prefix(frame, bare) {
        slice_subrange(frame, bare.len(), frame.len())
    } else {
        frame
    }
}

proof fn token_failure_stays(
    m: SessionModel,
    tokens: Seq<u32>,
    n: int,
    k: int,
    receipt_ns: u64,
)
    requires
        0 <= n <= k,
        with_tokens(m, tokens, n, receipt_ns) is Err,
    ensures
        with_tokens(m, tokens, k, receipt_ns) == with_tokens(m, tokens, n, receipt_ns),
    decreases k - n,
{
    if n < k {
        token_failure_stays(m, tokens, n, k - 1, receipt_ns);
    }
}

// Laws.

/// The records of a finished session are numbered from zero without a gap, as a
/// reader of the trace asks.
pub proof fn finished_records_are_numbered(m: SessionModel)
    requires
        session_holds(m),
        finished(m) is Ok,
    ensures
        numbered(finished(m)->Ok_0),
        (finished(m)->Ok_0).len() == m.position + 2,
{
    let all = finished(m)->Ok_0;
    assert forall|i: int| 0 <= i < all.len() implies (#[trigger] all[i]).sequence == i by {
        if i < m.records.len() {
            assert(m.records[i].sequence == i);
        }
    }
}

/// Whether bytes with no event end come in one chunk or in two makes no
/// difference.
pub proof fn chunks_of_an_event_are_joined(
    m: SessionModel,
    a: Seq<u8>,
    b: Seq<u8>,
    receipt_ns: u64,
)
    requires
        !contains(m.buffer + a, event_end()),
        m.buffer.len() + a.len() + b.len() <= MAX_SSE_BUFFER_BYTES,
    ensures
        with_chunk(m, a, receipt_ns) is Ok,
        with_chunk(with_chunk(m, a, receipt_ns)->Ok_0, b, receipt_ns) == with_chunk(
            m,
            a + b,
            receipt_ns,
        ),
{
    let next = with_chunk(m, a, receipt_ns)->Ok_0;
    assert(next.buffer + b =~= m.buffer + (a + b));
    buffer_is_irrelevant(m, next, m.buffer + (a + b), receipt_ns);
}

proof fn buffer_is_irrelevant(m: SessionModel, n: SessionModel, s: Seq<u8>, receipt_ns: u64)
    requires
        n == (SessionModel { buffer: n.buffer, ..m }),
    ensures
        with_bytes(m, s, receipt_ns) == with_bytes(n, s, receipt_ns),
    decreases s.len(),
{
    if contains(s, event_end()) {
        let end = place_of(s, event_end());
        if 0 <= end && end + 2 <= s.len() {
            let tokens = token_ids_of(event_data(s.take(end)), MAX_TOKENS_PER_FRAME as nat);
            if tokens is Ok {
                let list = tokens->Ok_0;
                tokens_leave_the_buffer(m, n, list, list.len() as int, receipt_ns);
            }
            match (with_event(m, s.take(end), receipt_ns), with_event(n, s.take(end), receipt_ns)) {
                (Ok(a), Ok(b)) => {
                    buffer_is_irrelevant(a, b, s.skip(end + 2), receipt_ns);
                },
                _ => {},
            }
        }
    }
}

proof fn tokens_leave_the_buffer(
    m: SessionModel,
    n: SessionModel,
    tokens: Seq<u32>,
    k: int,
    receipt_ns: u64,
)
    requires
        n == (SessionModel { buffer: n.buffer, ..m }),
    ensures
        match (
            with_tokens(m, tokens, k, receipt_ns),
            with_tokens(n, tokens, k, receipt_ns),
        ) {
            (Ok(a), Ok(b)) => b == (SessionModel { buffer: b.buffer, ..a }),
            (Err(a), Err(b)) => a == b,
            _ => false,
        },
    decreases k,
{
    if k > 0 {
        tokens_leave_the_buffer(m, n, tokens, k - 1, receipt_ns);
    }
}

} // verus!
