//! What reaches the live view: messages of the two event streams, and the
//! reply of the model as server-sent events.

use crate::client::event_end;
use crate::json::{
    json_nested_text, json_nested_text_of, json_signed, json_signed_of, json_text, json_text_of,
    json_unsigned, json_unsigned_of, text_in,
};
use crate::text::{
    contains, find_bytes, first_at, has_part, has_prefix, lies_at, lines, lines_of,
    parse_i64, place_is_the_one, place_of, same, signed_of, starts_with, text_is, trim, trimmed,
    views,
};
use crate::ui_state::{launch_recorded, AppState, Phase};
use vstd::prelude::*;
use vstd::slice::slice_subrange;
use vstd::string::*;
use vstd::utf8::encode_utf8;

verus! {

// Messages.

/// What the view reads in a message.
pub struct LiveMessage {
    pub kind: Option<String>,
    pub tokens: Option<u64>,
    pub name: Option<String>,
    pub start_ns: Option<i64>,
    pub end_ns: Option<i64>,
}

/// The texts and numbers of a message.
#[verifier::ext_equal]
pub struct MessageModel {
    pub kind: Option<Seq<char>>,
    pub tokens: Option<u64>,
    pub name: Option<Seq<char>>,
    pub start_ns: Option<i64>,
    pub end_ns: Option<i64>,
}

impl LiveMessage {
    pub open spec fn model(self) -> MessageModel {
        MessageModel {
            kind: text_in(self.kind),
            tokens: self.tokens,
            name: text_in(self.name),
            start_ns: self.start_ns,
            end_ns: self.end_ns,
        }
    }
}

/// What the view reads in a text.
pub open spec fn message_of(text: Seq<u8>) -> MessageModel {
    MessageModel {
        kind: json_text_of(text, "kind"@),
        tokens: json_unsigned_of(text, "tokens"@),
        name: json_text_of(text, "name"@),
        start_ns: moment_of(json_signed_of(text, "startNs"@), json_text_of(text, "startNs"@)),
        end_ns: moment_of(json_signed_of(text, "endNs"@), json_text_of(text, "endNs"@)),
    }
}

/// A moment that a message tells as a number, or as the decimal text of one,
/// which keeps what a reader's numbers could not hold.
pub open spec fn moment_of(number: Option<i64>, text: Option<Seq<char>>) -> Option<i64> {
    match (number, text) {
        (Some(number), _) => Some(number),
        (None, Some(text)) => match signed_of(
            encode_utf8(text),
            i64::MIN as int,
            i64::MAX as int,
        ) {
            Some(number) => Some(number as i64),
            None => None,
        },
        (None, None) => None,
    }
}

/// Reads a moment that a message tells as a number or as a text.
pub fn read_moment(number: Option<i64>, text: &Option<String>) -> (r: Option<i64>)
    ensures
        r == moment_of(number, text_in(*text)),
{
    match number {
        Some(number) => Some(number),
        None => match text {
            Some(text) => parse_i64(text.as_str().as_bytes()),
            None => None,
        },
    }
}

/// A number that counts as zero where it is missing.
pub open spec fn or_zero(number: Option<i64>) -> i64 {
    match number {
        Some(number) => number,
        None => 0,
    }
}

/// The prompt length after a message of the semantic stream: the first
/// request slice that tells its tokens gives it, and it then stays.
pub open spec fn prompt_after(prompt: Option<u32>, message: MessageModel) -> Option<u32> {
    match (prompt, message.tokens) {
        (None, Some(tokens)) => if message.kind == Some("request_slice"@) {
            Some((tokens % 0x1_0000_0000) as u32)
        } else {
            None
        },
        _ => prompt,
    }
}

/// Whether one state follows another by a message.
pub open spec fn message_applied(
    before: AppState,
    after: AppState,
    is_semantic: bool,
    message: MessageModel,
) -> bool {
    if is_semantic {
        after == (AppState {
            prompt_tokens: prompt_after(before.prompt_tokens, message),
            ..before
        })
    } else if message.kind == Some("kernel_launch"@) && message.name is Some {
        launch_recorded(
            before,
            after,
            message.name->0,
            or_zero(message.start_ns),
            or_zero(message.end_ns),
        )
    } else {
        after == before
    }
}

fn kind_is(kind: &Option<String>, wanted: &str) -> (r: bool)
    ensures
        r == (text_in(*kind) == Some(wanted@)),
{
    match kind {
        Some(kind) => text_is(kind.as_str(), wanted),
        None => false,
    }
}

/// Takes a message of the semantic stream or of the launch stream into the
/// view.
pub fn apply_message(state: &mut AppState, is_semantic: bool, message: &LiveMessage)
    requires
        old(state).wf(),
    ensures
        final(state).wf(),
        message_applied(*old(state), *final(state), is_semantic, message.model()),
{
    if is_semantic {
        if kind_is(&message.kind, "request_slice") && state.prompt_tokens.is_none() {
            if let Some(tokens) = message.tokens {
                state.prompt_tokens = Some((tokens % 0x1_0000_0000) as u32);
            }
        }
        return ;
    }
    if !kind_is(&message.kind, "kernel_launch") {
        return ;
    }
    if let Some(name) = &message.name {
        let start_ns: i64 = message.start_ns.unwrap_or(0);
        let end_ns: i64 = message.end_ns.unwrap_or(0);
        state.record_launch(name.as_str(), start_ns, end_ns);
    }
}

/// Takes the text of a message into the view. A text that is no message
/// changes nothing.
pub fn handle_message(state: &mut AppState, is_semantic: bool, text: &[u8])
    requires
        old(state).wf(),
    ensures
        final(state).wf(),
        message_applied(*old(state), *final(state), is_semantic, message_of(text@)),
{
    let start_ns = read_moment(json_signed(text, "startNs"), &json_text(text, "startNs"));
    let end_ns = read_moment(json_signed(text, "endNs"), &json_text(text, "endNs"));
    let message = LiveMessage {
        kind: json_text(text, "kind"),
        tokens: json_unsigned(text, "tokens"),
        name: json_text(text, "name"),
        start_ns,
        end_ns,
    };
    assert(message.model() =~= message_of(text@));
    apply_message(state, is_semantic, &message);
}

/// Once a query's prompt length is known, no message changes it.
pub proof fn prompt_length_stays(
    before: AppState,
    after: AppState,
    is_semantic: bool,
    message: MessageModel,
)
    requires
        before.prompt_tokens is Some,
        message_applied(before, after, is_semantic, message),
    ensures
        after.prompt_tokens == before.prompt_tokens,
{
}

/// A message of neither kind that the view reads changes nothing.
pub proof fn other_messages_are_ignored(
    before: AppState,
    after: AppState,
    is_semantic: bool,
    message: MessageModel,
)
    requires
        message.kind != Some("request_slice"@),
        message.kind != Some("kernel_launch"@),
        message_applied(before, after, is_semantic, message),
    ensures
        after == before,
{
}

// The question.

/// Whether a question is sent: it is not blank, and none is being answered.
pub open spec fn may_send(busy: bool, text: Seq<u8>) -> bool {
    trimmed(text).len() > 0 && !busy
}

/// Begins the query of a question, and gives the question without the white
/// space around it. Nothing happens where it may not be sent.
pub fn begin_message(state: &mut AppState, text: &[u8]) -> (r: Option<Vec<u8>>)
    requires
        old(state).wf(),
    ensures
        final(state).wf(),
        r is Some <==> may_send(old(state).chat_busy, text@),
        r matches Some(question) ==> question@ == trimmed(text@),
        r is None ==> *final(state) == *old(state),
        r is Some ==> {
            &&& final(state).chat_busy
            &&& final(state).kernel_stats@.len() == 0
            &&& final(state).phase == Phase::Response
            &&& final(state).prompt_tokens is None
            &&& final(state).reply_text@.len() == 0
            &&& final(state).now_executing == old(state).now_executing
            &&& final(state).recent_launches == old(state).recent_launches
            &&& final(state).latest_end_ns == old(state).latest_end_ns
            &&& final(state).first_start_ns == old(state).first_start_ns
            &&& final(state).semantic_connected == old(state).semantic_connected
            &&& final(state).cupti_connected == old(state).cupti_connected
            &&& final(state).render_cache == old(state).render_cache
        },
{
    let question = trim(text);
    if question.len() == 0 || state.chat_busy {
        return None;
    }
    state.chat_busy = true;
    state.reset_query();
    let mut owned: Vec<u8> = Vec::new();
    owned.extend_from_slice(question);
    assert(owned@ =~= trimmed(text@));
    Some(owned)
}

/// What is shown where a request failed with a message.
pub open spec fn notice_of(message: Seq<u8>) -> Seq<char> {
    if contains(message, encode_utf8("Abort"@)) || contains(message, encode_utf8("abort"@)) {
        "Stopped — generation cancelled server-side."@
    } else {
        "Live request failed."@
    }
}

/// What is shown where a request failed with a message.
pub fn failure_notice(message: &[u8]) -> (r: &'static str)
    ensures
        r@ == notice_of(message@),
{
    if has_part(message, "Abort".as_bytes()) || has_part(message, "abort".as_bytes()) {
        "Stopped — generation cancelled server-side."
    } else {
        "Live request failed."
    }
}

// The reply.

/// The whole events at the head of a stream, each with the empty line that
/// ends it.
pub open spec fn events_in(s: Seq<u8>) -> Seq<Seq<u8>>
    decreases s.len(),
{
    let end = place_of(s, event_end());
    if contains(s, event_end()) && 0 <= end && end + 2 <= s.len() {
        seq![s.take(end + 2)] + events_in(s.skip(end + 2))
    } else {
        Seq::empty()
    }
}

/// What stands behind the whole events of a stream.
pub open spec fn behind_events(s: Seq<u8>) -> Seq<u8>
    decreases s.len(),
{
    let end = place_of(s, event_end());
    if contains(s, event_end()) && 0 <= end && end + 2 <= s.len() {
        behind_events(s.skip(end + 2))
    } else {
        s
    }
}

proof fn end_lies_inside(s: Seq<u8>)
    requires
        contains(s, event_end()),
    ensures
        first_at(s, event_end(), place_of(s, event_end())),
        0 <= place_of(s, event_end()),
        place_of(s, event_end()) + 2 <= s.len(),
{
    let at = choose|offset: int| lies_at(s, event_end(), offset);
    first_exists(s, event_end(), at);
}

proof fn first_exists(s: Seq<u8>, part: Seq<u8>, at: int)
    requires
        lies_at(s, part, at),
    ensures
        exists|i: int| first_at(s, part, i),
    decreases at,
{
    if exists|j: int| 0 <= j < at && lies_at(s, part, j) {
        let j = choose|j: int| 0 <= j < at && lies_at(s, part, j);
        first_exists(s, part, j);
    } else {
        assert(first_at(s, part, at));
    }
}

/// What was received behind the last whole event.
pub struct ReplyBuffer {
    pub rest: Vec<u8>,
}

impl ReplyBuffer {
    pub fn new() -> (buffer: Self)
        ensures
            buffer.rest@.len() == 0,
    {
        ReplyBuffer { rest: Vec::new() }
    }

    /// Takes a chunk, and gives the events that are whole now.
    pub fn receive(&mut self, chunk: &[u8]) -> (events: Vec<Vec<u8>>)
        ensures
            events@.map_values(|event: Vec<u8>| event@) == events_in(old(self).rest@ + chunk@),
            final(self).rest@ == behind_events(old(self).rest@ + chunk@),
    {
        let ghost whole = self.rest@ + chunk@;
        self.rest.extend_from_slice(chunk);
        assert(self.rest@ =~= whole);
        let mut events: Vec<Vec<u8>> = Vec::new();
        let mut at: usize = 0;
        let end_mark: [u8; 2] = [0x0a, 0x0a];
        assert(end_mark@ =~= event_end());
        proof {
            assert(whole.skip(0) =~= whole);
            assert(events@.map_values(|event: Vec<u8>| event@) + events_in(whole) =~= events_in(
                whole,
            ));
        }
        loop
            invariant_except_break
                at <= self.rest.len(),
                self.rest@ == whole,
                end_mark@ == event_end(),
                events@.map_values(|event: Vec<u8>| event@) + events_in(whole.skip(at as int))
                    == events_in(whole),
                behind_events(whole.skip(at as int)) == behind_events(whole),
            ensures
                at <= self.rest.len(),
                self.rest@ == whole,
                events@.map_values(|event: Vec<u8>| event@) == events_in(whole),
                whole.skip(at as int) == behind_events(whole),
            decreases self.rest.len() - at,
        {
            let rest = slice_subrange(self.rest.as_slice(), at, self.rest.len());
            assert(rest@ =~= whole.skip(at as int));
            match find_bytes(rest, &end_mark) {
                None => {
                    assert(events@.map_values(|event: Vec<u8>| event@) + Seq::empty()
                        =~= events@.map_values(|event: Vec<u8>| event@));
                    break ;
                },
                Some(end) => {
                    let ghost before = events@;
                    let mut event: Vec<u8> = Vec::new();
                    event.extend_from_slice(slice_subrange(rest, 0, end + 2));
                    proof {
                        place_is_the_one(rest@, event_end(), end as int);
                        assert(contains(rest@, event_end()));
                        assert(event@ =~= rest@.take(end + 2));
                        assert(rest@.skip(end + 2) =~= whole.skip(at + end + 2));
                    }
                    events.push(event);
                    proof {
                        assert(events@.map_values(|event: Vec<u8>| event@) + events_in(
                            whole.skip(at + end + 2),
                        ) =~= before.map_values(|event: Vec<u8>| event@) + events_in(rest@));
                    }
                    at = at + end + 2;
                },
            }
        }
        let mut kept: Vec<u8> = Vec::new();
        kept.extend_from_slice(slice_subrange(self.rest.as_slice(), at, self.rest.len()));
        assert(kept@ =~= whole.skip(at as int));
        self.rest = kept;
        events
    }
}

/// The events of a reply do not depend on the chunks in which it comes.
pub proof fn events_do_not_depend_on_chunks(a: Seq<u8>, b: Seq<u8>)
    ensures
        events_in(a + b) == events_in(a) + events_in(behind_events(a) + b),
        behind_events(a + b) == behind_events(behind_events(a) + b),
    decreases a.len(),
{
    if contains(a, event_end()) {
        end_lies_inside(a);
        let end = place_of(a, event_end());
        let rest = a.skip(end + 2);
        events_do_not_depend_on_chunks(rest, b);
        let both = a + b;
        assert(both.take(end + 2) =~= a.take(end + 2));
        assert(both.skip(end + 2) =~= rest + b);
        assert(both.subrange(end, end + 2) =~= a.subrange(end, end + 2));
        assert forall|j: int| 0 <= j < end implies !lies_at(both, event_end(), j) by {
            assert(!lies_at(a, event_end(), j));
            assert(both.subrange(j, j + 2) =~= a.subrange(j, j + 2));
        }
        assert(first_at(both, event_end(), end));
        assert(contains(both, event_end()));
        place_is_the_one(both, event_end(), end);
        assert(events_in(both) == seq![a.take(end + 2)] + events_in(rest + b));
        assert(events_in(both) =~= events_in(a) + events_in(behind_events(a) + b));
    } else {
        assert(events_in(a) + events_in(a + b) =~= events_in(a + b));
    }
}

/// What a line of an event adds to the reply.
pub open spec fn line_delta(line: Seq<u8>) -> Option<Seq<char>> {
    let shown = trimmed(line);
    let mark = encode_utf8("data:"@);
    if starts_with(shown, mark) {
        let payload = trimmed(shown.skip(mark.len() as int));
        if payload == encode_utf8("[DONE]"@) {
            None
        } else {
            json_nested_text_of(payload, "choices"@, 0, "delta"@, "content"@)
        }
    } else {
        None
    }
}

/// What the first lines of an event add to the reply: one text for each line
/// that adds any.
pub open spec fn line_deltas(lines: Seq<Seq<u8>>, n: int) -> Seq<Seq<char>>
    decreases n,
{
    if n <= 0 {
        Seq::empty()
    } else {
        match line_delta(lines[n - 1]) {
            Some(delta) => line_deltas(lines, n - 1).push(delta),
            None => line_deltas(lines, n - 1),
        }
    }
}

/// What an event adds to the reply.
pub open spec fn event_deltas(event: Seq<u8>) -> Seq<Seq<char>> {
    line_deltas(lines_of(event), lines_of(event).len() as int)
}

/// The texts one behind the other.
pub open spec fn joined(texts: Seq<Seq<char>>) -> Seq<char>
    decreases texts.len(),
{
    if texts.len() == 0 {
        Seq::empty()
    } else {
        joined(texts.drop_last()) + texts.last()
    }
}

/// The phase of a reply: the model thinks from its opening tag on, until the
/// closing one.
pub open spec fn reply_phase(reply: Seq<char>) -> Phase {
    if contains(encode_utf8(reply), encode_utf8("<think>"@)) && !contains(
        encode_utf8(reply),
        encode_utf8("</think>"@),
    ) {
        Phase::Thinking
    } else {
        Phase::Response
    }
}

/// Whether one state follows another by texts of the reply.
pub open spec fn reply_grown(before: AppState, after: AppState, deltas: Seq<Seq<char>>) -> bool {
    &&& after == (AppState { reply_text: after.reply_text, phase: after.phase, ..before })
    &&& after.reply_text@ == before.reply_text@ + joined(deltas)
    &&& after.phase == if deltas.len() == 0 {
        before.phase
    } else {
        reply_phase(after.reply_text@)
    }
}

/// Adds a text to the reply.
pub fn append_reply(state: &mut AppState, delta: &str)
    ensures
        reply_grown(*old(state), *final(state), seq![delta@]),
        old(state).wf() ==> final(state).wf(),
{
    let mut reply = state.reply_text.clone();
    reply.append(delta);
    let thinking: bool = has_part(reply.as_str().as_bytes(), "<think>".as_bytes()) && !has_part(
        reply.as_str().as_bytes(),
        "</think>".as_bytes(),
    );
    state.reply_text = reply;
    state.set_thinking(thinking);
    proof {
        assert(seq![delta@].drop_last() =~= Seq::<Seq<char>>::empty());
        assert(joined(Seq::<Seq<char>>::empty()) =~= Seq::<char>::empty());
        assert(joined(seq![delta@]) =~= delta@);
    }
}

fn read_delta(line: &[u8]) -> (r: Option<String>)
    ensures
        text_in(r) == line_delta(line@),
{
    let shown = trim(line);
    let mark = "data:".as_bytes();
    if !has_prefix(shown, mark) {
        return None;
    }
    let behind = slice_subrange(shown, mark.len(), shown.len());
    assert(behind@ =~= shown@.skip(mark@.len() as int));
    let payload = trim(behind);
    if same(payload, "[DONE]".as_bytes()) {
        return None;
    }
    json_nested_text(payload, "choices", 0, "delta", "content")
}

/// Takes an event of the reply into the view, and tells whether the reply has
/// to be shown anew.
pub fn handle_sse_event(state: &mut AppState, event: &[u8]) -> (shown: bool)
    requires
        old(state).wf(),
    ensures
        final(state).wf(),
        reply_grown(*old(state), *final(state), event_deltas(event@)),
        shown == (event_deltas(event@).len() > 0),
{
    let all = lines(event);
    let ghost parts = lines_of(event@);
    let mut shown: bool = false;
    let mut i: usize = 0;
    assert(state.reply_text@ + joined(line_deltas(parts, 0)) =~= state.reply_text@);
    while i < all.len()
        invariant
            i <= all.len(),
            views(all@) == parts,
            all.len() == parts.len(),
            state.wf(),
            reply_grown(*old(state), *state, line_deltas(parts, i as int)),
            shown == (line_deltas(parts, i as int).len() > 0),
        decreases all.len() - i,
    {
        let ghost before = *state;
        assert(views(all@)[i as int] == all@[i as int]@);
        if let Some(delta) = read_delta(all[i]) {
            append_reply(state, delta.as_str());
            shown = true;
            proof {
                let old_deltas = line_deltas(parts, i as int);
                let one = seq![delta@];
                assert(one.drop_last() =~= Seq::<Seq<char>>::empty());
                assert(joined(Seq::<Seq<char>>::empty()) =~= Seq::<char>::empty());
                assert(joined(one) =~= delta@);
                assert(old_deltas.push(delta@).drop_last() =~= old_deltas);
                assert(joined(old_deltas.push(delta@)) == joined(old_deltas) + delta@);
                assert(state.reply_text@ =~= old(state).reply_text@ + joined(
                    old_deltas.push(delta@),
                ));
            }
        }
        i = i + 1;
    }
    shown
}

/// The reply to a chain of events is what all their texts come to, whatever
/// the events that bring them.
pub proof fn reply_is_what_was_sent(
    before: AppState,
    between: AppState,
    after: AppState,
    first: Seq<Seq<char>>,
    second: Seq<Seq<char>>,
)
    requires
        reply_grown(before, between, first),
        reply_grown(between, after, second),
    ensures
        reply_grown(before, after, first + second),
{
    joined_in_turn(first, second);
    assert(after.reply_text@ =~= before.reply_text@ + joined(first + second));
    if second.len() == 0 {
        assert(first + second =~= first);
        assert(joined(second) =~= Seq::<char>::empty());
        assert(after.reply_text@ =~= between.reply_text@);
    }
}

proof fn joined_in_turn(first: Seq<Seq<char>>, second: Seq<Seq<char>>)
    ensures
        joined(first + second) == joined(first) + joined(second),
    decreases second.len(),
{
    if second.len() == 0 {
        assert(first + second =~= first);
        assert(joined(first) + joined(second) =~= joined(first));
    } else {
        joined_in_turn(first, second.drop_last());
        assert((first + second).drop_last() =~= first + second.drop_last());
        assert((first + second).last() == second.last());
        assert(joined(first + second) =~= joined(first) + joined(second));
    }
}

} // verus!
