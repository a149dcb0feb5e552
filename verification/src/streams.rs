//! Live streams: the tail of a growing activity table, the events that were
//! already forwarded, and counts of captured records.

use crate::blocks::DeviceEvent;
use crate::semantic::SemanticRecordKind;
use crate::tables::{line_opens_with, opens_with, read_u32, u32_of, TAB};
use crate::text::{fields, fields_of, parse_i64, signed_of, views};
use std::collections::HashSet;
use vstd::prelude::*;
use vstd::string::*;

verus! {

// The tail of a growing table.

/// The lines that a text completes.
pub open spec fn complete_lines(s: Seq<u8>) -> Seq<Seq<u8>> {
    fields_of(s, 0x0a).drop_last()
}

/// What a text has behind its last line feed.
pub open spec fn partial_line(s: Seq<u8>) -> Seq<u8> {
    fields_of(s, 0x0a).last()
}

/// The lines of owned byte strings.
pub open spec fn contents(lines: Seq<Vec<u8>>) -> Seq<Seq<u8>> {
    lines.map_values(|line: Vec<u8>| line@)
}

/// How much of a growing file was read, and the line that is not complete.
pub struct Tail {
    pub offset: u64,
    pub pending: Vec<u8>,
}

impl Tail {
    pub fn new() -> (tail: Self)
        ensures
            tail.offset == 0,
            tail.pending@ == Seq::<u8>::empty(),
    {
        Tail { offset: 0, pending: Vec::new() }
    }

    /// Where to read on in a file of the length, if there is anything new. A
    /// file that has become shorter is a new file and read from its start.
    pub fn begin(&mut self, length: u64) -> (from: Option<u64>)
        ensures
            length < old(self).offset ==> final(self).offset == 0,
            length < old(self).offset ==> final(self).pending@ == Seq::<u8>::empty(),
            length >= old(self).offset ==> final(self).offset == old(self).offset,
            length >= old(self).offset ==> final(self).pending@ == old(self).pending@,
            from == if length == final(self).offset {
                None
            } else {
                Some(final(self).offset)
            },
    {
        if length < self.offset {
            self.offset = 0;
            self.pending = Vec::new();
        }
        if length == self.offset {
            None
        } else {
            Some(self.offset)
        }
    }

    /// Takes what was read up to the length and gives the lines that are now
    /// complete.
    pub fn accept(&mut self, chunk: &[u8], length: u64) -> (lines: Vec<Vec<u8>>)
        ensures
            final(self).offset == length,
            contents(lines@) == complete_lines(old(self).pending@ + chunk@),
            final(self).pending@ == partial_line(old(self).pending@ + chunk@),
    {
        let mut all: Vec<u8> = Vec::new();
        all.extend_from_slice(self.pending.as_slice());
        all.extend_from_slice(chunk);
        assert(all@ =~= self.pending@ + chunk@);
        let parts = fields(all.as_slice(), 0x0a);
        let ghost texts = views(parts@);
        assert(texts.len() > 0);
        let count: usize = parts.len() - 1;
        let mut lines: Vec<Vec<u8>> = Vec::new();
        let mut i: usize = 0;
        while i < count
            invariant
                i <= count,
                count == parts@.len() - 1,
                texts == views(parts@),
                contents(lines@) == texts.take(i as int),
                self.offset == old(self).offset,
            decreases count - i,
        {
            let line = owned(parts[i]);
            let ghost before = lines@;
            lines.push(line);
            assert(contents(lines@) =~= contents(before).push(line@));
            assert(texts.take(i + 1) =~= texts.take(i as int).push(texts[i as int]));
            i += 1;
        }
        assert(texts.take(count as int) =~= texts.drop_last());
        self.pending = owned(parts[count]);
        self.offset = length;
        lines
    }
}

fn owned(s: &[u8]) -> (r: Vec<u8>)
    ensures
        r@ == s@,
{
    let mut out: Vec<u8> = Vec::new();
    out.extend_from_slice(s);
    assert(out@ =~= s@);
    out
}

/// A kernel launch as a line of the table tells it. The numbers that a reader
/// may not hold exactly stay text.
pub struct LaunchLine<'a> {
    pub start_ns: &'a [u8],
    pub end_ns: &'a [u8],
    pub device: u32,
    pub context: u32,
    pub stream: u32,
    pub correlation: u32,
    pub launch_grid_id: &'a [u8],
    pub graph_node_id: &'a [u8],
    pub graph_id: u32,
    pub grid: [i64; 3],
    pub block: [i64; 3],
    pub channel_id: u32,
    pub channel_type: u32,
    pub name: &'a [u8],
}

pub open spec fn i64_of(s: Seq<u8>) -> Option<i64> {
    match signed_of(s, i64::MIN as int, i64::MAX as int) {
        Some(n) => Some(n as i64),
        None => None,
    }
}

/// Whether the line tells a launch.
pub open spec fn tells_launch(line: Seq<u8>) -> bool {
    let f = fields_of(line, TAB);
    &&& !(line.len() > 0 && line[0] == 0x23)
    &&& !opens_with(line, "start_ns\t"@)
    &&& f.len() == 18
    &&& u32_of(f[2]) is Some
    &&& u32_of(f[3]) is Some
    &&& u32_of(f[4]) is Some
    &&& u32_of(f[5]) is Some
    &&& u32_of(f[8]) is Some
    &&& i64_of(f[9]) is Some
    &&& i64_of(f[10]) is Some
    &&& i64_of(f[11]) is Some
    &&& i64_of(f[12]) is Some
    &&& i64_of(f[13]) is Some
    &&& i64_of(f[14]) is Some
    &&& u32_of(f[15]) is Some
    &&& u32_of(f[16]) is Some
}

/// Whether the launch is the one that the line tells.
pub open spec fn launch_is(launch: LaunchLine, line: Seq<u8>) -> bool {
    let f = fields_of(line, TAB);
    &&& launch.start_ns@ == f[0]
    &&& launch.end_ns@ == f[1]
    &&& Some(launch.device) == u32_of(f[2])
    &&& Some(launch.context) == u32_of(f[3])
    &&& Some(launch.stream) == u32_of(f[4])
    &&& Some(launch.correlation) == u32_of(f[5])
    &&& launch.launch_grid_id@ == f[6]
    &&& launch.graph_node_id@ == f[7]
    &&& Some(launch.graph_id) == u32_of(f[8])
    &&& Some(launch.grid@[0]) == i64_of(f[9])
    &&& Some(launch.grid@[1]) == i64_of(f[10])
    &&& Some(launch.grid@[2]) == i64_of(f[11])
    &&& Some(launch.block@[0]) == i64_of(f[12])
    &&& Some(launch.block@[1]) == i64_of(f[13])
    &&& Some(launch.block@[2]) == i64_of(f[14])
    &&& Some(launch.channel_id) == u32_of(f[15])
    &&& Some(launch.channel_type) == u32_of(f[16])
    &&& launch.name@ == f[17]
}

fn read_i64(s: &[u8]) -> (r: Option<i64>)
    ensures
        r == i64_of(s@),
{
    parse_i64(s)
}

/// Reads the launch that a line tells. Titles, comments and broken lines tell
/// none.
pub fn parse_line<'a>(line: &'a [u8]) -> (r: Option<LaunchLine<'a>>)
    ensures
        r is Some <==> tells_launch(line@),
        r matches Some(launch) ==> launch_is(launch, line@),
{
    if line.len() > 0 && line[0] == 0x23 {
        return None;
    }
    if line_opens_with(line, "start_ns\t") {
        return None;
    }
    let f = fields(line, TAB);
    if f.len() != 18 {
        return None;
    }
    assert forall|i: int| 0 <= i < 18 implies (#[trigger] f@[i])@ == fields_of(line@, TAB)[i] by {
        assert(views(f@)[i] == f@[i]@);
    }
    let device: u32 = read_u32(f[2])?;
    let context: u32 = read_u32(f[3])?;
    let stream: u32 = read_u32(f[4])?;
    let correlation: u32 = read_u32(f[5])?;
    let graph_id: u32 = read_u32(f[8])?;
    let grid_x: i64 = read_i64(f[9])?;
    let grid_y: i64 = read_i64(f[10])?;
    let grid_z: i64 = read_i64(f[11])?;
    let block_x: i64 = read_i64(f[12])?;
    let block_y: i64 = read_i64(f[13])?;
    let block_z: i64 = read_i64(f[14])?;
    let channel_id: u32 = read_u32(f[15])?;
    let channel_type: u32 = read_u32(f[16])?;
    Some(
        LaunchLine {
            start_ns: f[0],
            end_ns: f[1],
            device,
            context,
            stream,
            correlation,
            launch_grid_id: f[6],
            graph_node_id: f[7],
            graph_id,
            grid: [grid_x, grid_y, grid_z],
            block: [block_x, block_y, block_z],
            channel_id,
            channel_type,
            name: f[17],
        },
    )
}

// Events that were forwarded.

/// What tells an event from the others of the process: its launch and its
/// number.
pub open spec fn identity(event: DeviceEvent) -> (u64, u32) {
    (event.launch_id, event.sequence)
}

/// The first events that were not seen before, each once.
pub open spec fn unseen(seen: Set<(u64, u32)>, events: Seq<DeviceEvent>, n: int) -> Seq<DeviceEvent>
    decreases n,
{
    if n <= 0 {
        Seq::empty()
    } else {
        let front = unseen(seen, events, n - 1);
        if seen_after(seen, events, n - 1).contains(identity(events[n - 1])) {
            front
        } else {
            front.push(events[n - 1])
        }
    }
}

/// What has been seen after the first events.
pub open spec fn seen_after(seen: Set<(u64, u32)>, events: Seq<DeviceEvent>, n: int) -> Set<
    (u64, u32),
>
    decreases n,
{
    if n <= 0 {
        seen
    } else {
        seen_after(seen, events, n - 1).insert(identity(events[n - 1]))
    }
}

/// The number of an identity.
spec fn key_of(id: (u64, u32)) -> u128 {
    (id.0 * 0x1_0000_0000 + id.1) as u128
}

/// The events that were forwarded.
pub struct Forwarded {
    keys: HashSet<u128>,
}

impl Forwarded {
    pub closed spec fn seen(self) -> Set<(u64, u32)> {
        Set::new(|id: (u64, u32)| self.keys@.contains(key_of(id)))
    }

    pub fn new() -> (f: Self)
        ensures
            f.seen() == Set::<(u64, u32)>::empty(),
    {
        let f = Forwarded { keys: HashSet::new() };
        assert(f.seen() =~= Set::<(u64, u32)>::empty());
        f
    }

    /// Marks the event as forwarded and tells whether it was not before.
    pub fn insert(&mut self, event: &DeviceEvent) -> (fresh: bool)
        ensures
            fresh == !old(self).seen().contains(identity(*event)),
            final(self).seen() == old(self).seen().insert(identity(*event)),
    {
        broadcast use vstd::std_specs::hash::group_hash_axioms;

        let key: u128 = event.launch_id as u128 * 0x1_0000_0000 + event.sequence as u128;
        assert(key == key_of(identity(*event)));
        let fresh: bool = !self.keys.contains(&key);
        let ghost before = self.keys@;
        self.keys.insert(key);
        proof {
            assert forall|id: (u64, u32)|
                self.seen().contains(id) == old(self).seen().insert(identity(*event)).contains(
                    id,
                ) by {
                if key_of(id) == key {
                    keys_differ(id, identity(*event));
                }
            }
            assert(self.seen() =~= old(self).seen().insert(identity(*event)));
        }
        fresh
    }

    /// The events that were not forwarded before; they are then.
    pub fn forward(&mut self, events: &[DeviceEvent]) -> (fresh: Vec<DeviceEvent>)
        ensures
            fresh@ == unseen(old(self).seen(), events@, events@.len() as int),
            final(self).seen() == seen_after(old(self).seen(), events@, events@.len() as int),
    {
        let ghost before = self.seen();
        let mut fresh: Vec<DeviceEvent> = Vec::new();
        let mut i: usize = 0;
        while i < events.len()
            invariant
                i <= events.len(),
                before == old(self).seen(),
                fresh@ == unseen(before, events@, i as int),
                self.seen() == seen_after(before, events@, i as int),
            decreases events.len() - i,
        {
            let event = events[i];
            if self.insert(&event) {
                fresh.push(event);
            }
            i += 1;
        }
        fresh
    }
}

proof fn keys_differ(a: (u64, u32), b: (u64, u32))
    requires
        key_of(a) == key_of(b),
    ensures
        a == b,
{
}

// Counts of captured records.

/// How many records of each kind were captured.
#[derive(Clone, Copy, Debug, PartialEq, Eq, Structural)]
pub struct RecordCounts {
    pub records: u64,
    pub begins: u64,
    pub slices: u64,
    pub packed_begins: u64,
    pub packed_slices: u64,
    pub packed_tokens: u64,
    pub accepted_tokens: u64,
    pub lifecycle: u64,
    pub ends: u64,
}

impl RecordCounts {
    pub open spec fn spec_new() -> RecordCounts {
        RecordCounts {
            records: 0,
            begins: 0,
            slices: 0,
            packed_begins: 0,
            packed_slices: 0,
            packed_tokens: 0,
            accepted_tokens: 0,
            lifecycle: 0,
            ends: 0,
        }
    }

    /// The counts with one more record of the kind.
    pub open spec fn with(self, kind: SemanticRecordKind) -> RecordCounts {
        let c = RecordCounts { records: (self.records + 1) as u64, ..self };
        match kind {
            SemanticRecordKind::EngineStepBegin => RecordCounts {
                begins: (c.begins + 1) as u64,
                ..c
            },
            SemanticRecordKind::StepRequestSlice => RecordCounts {
                slices: (c.slices + 1) as u64,
                ..c
            },
            SemanticRecordKind::PackedLayoutBegin => RecordCounts {
                packed_begins: (c.packed_begins + 1) as u64,
                ..c
            },
            SemanticRecordKind::PackedRequestSlice => RecordCounts {
                packed_slices: (c.packed_slices + 1) as u64,
                ..c
            },
            SemanticRecordKind::PackedTokenRow => RecordCounts {
                packed_tokens: (c.packed_tokens + 1) as u64,
                ..c
            },
            SemanticRecordKind::AcceptedOutputToken => RecordCounts {
                accepted_tokens: (c.accepted_tokens + 1) as u64,
                ..c
            },
            SemanticRecordKind::EngineStepEnd => RecordCounts { ends: (c.ends + 1) as u64, ..c },
            _ => RecordCounts { lifecycle: (c.lifecycle + 1) as u64, ..c },
        }
    }

    /// Every record is counted under one kind.
    pub open spec fn wf(self) -> bool {
        self.records == self.begins + self.slices + self.packed_begins + self.packed_slices
            + self.packed_tokens + self.accepted_tokens + self.lifecycle + self.ends
    }

    pub fn new() -> (counts: Self)
        ensures
            counts == Self::spec_new(),
            counts.wf(),
    {
        RecordCounts {
            records: 0,
            begins: 0,
            slices: 0,
            packed_begins: 0,
            packed_slices: 0,
            packed_tokens: 0,
            accepted_tokens: 0,
            lifecycle: 0,
            ends: 0,
        }
    }

    /// Counts a record of the kind.
    pub fn count(&mut self, kind: SemanticRecordKind)
        requires
            old(self).wf(),
            old(self).records < u64::MAX,
        ensures
            *final(self) == old(self).with(kind),
            final(self).wf(),
    {
        self.records = self.records + 1;
        match kind {
            SemanticRecordKind::EngineStepBegin => {
                self.begins = self.begins + 1;
            },
            SemanticRecordKind::StepRequestSlice => {
                self.slices = self.slices + 1;
            },
            SemanticRecordKind::PackedLayoutBegin => {
                self.packed_begins = self.packed_begins + 1;
            },
            SemanticRecordKind::PackedRequestSlice => {
                self.packed_slices = self.packed_slices + 1;
            },
            SemanticRecordKind::PackedTokenRow => {
                self.packed_tokens = self.packed_tokens + 1;
            },
            SemanticRecordKind::AcceptedOutputToken => {
                self.accepted_tokens = self.accepted_tokens + 1;
            },
            SemanticRecordKind::EngineStepEnd => {
                self.ends = self.ends + 1;
            },
            _ => {
                self.lifecycle = self.lifecycle + 1;
            },
        }
    }
}

// Laws.

/// Whether a table is read in one piece or in two makes no difference to its
/// lines.
pub proof fn lines_do_not_depend_on_chunks(a: Seq<u8>, b: Seq<u8>)
    ensures
        complete_lines(a + b) == complete_lines(a) + complete_lines(partial_line(a) + b),
        partial_line(a + b) == partial_line(partial_line(a) + b),
{
    fields_join(a, b);
    let joined = fields_of(a, 0x0a).drop_last() + fields_of(partial_line(a) + b, 0x0a);
    assert(fields_of(a + b, 0x0a) == joined);
    assert(fields_of(partial_line(a) + b, 0x0a).len() > 0);
    assert(joined.drop_last() =~= complete_lines(a) + complete_lines(partial_line(a) + b));
}

proof fn fields_join(a: Seq<u8>, b: Seq<u8>)
    ensures
        fields_of(a + b, 0x0a) == fields_of(a, 0x0a).drop_last() + fields_of(
            fields_of(a, 0x0a).last() + b,
            0x0a,
        ),
    decreases a.len(),
{
    let n = crate::text::index_of_byte(a, 0x0a);
    crate::text::index_of_byte_bounds(a, 0x0a);
    if n >= a.len() {
        assert(fields_of(a, 0x0a) =~= seq![a]);
        assert(fields_of(a, 0x0a).drop_last() + fields_of(a + b, 0x0a) =~= fields_of(a + b, 0x0a));
    } else {
        let rest = a.skip(n as int + 1);
        fields_join(rest, b);
        index_in_front(a, b);
        assert((a + b).take(n as int) =~= a.take(n as int));
        assert((a + b).skip(n as int + 1) =~= rest + b);
        let tail = fields_of(rest, 0x0a);
        assert(tail.len() > 0);
        assert(fields_of(a, 0x0a) == seq![a.take(n as int)] + tail);
        assert(fields_of(a, 0x0a).last() == tail.last());
        assert(fields_of(a, 0x0a).drop_last() =~= seq![a.take(n as int)] + tail.drop_last());
        assert(fields_of(a + b, 0x0a) == seq![a.take(n as int)] + fields_of(rest + b, 0x0a));
        assert(fields_of(a + b, 0x0a) =~= fields_of(a, 0x0a).drop_last() + fields_of(
            tail.last() + b,
            0x0a,
        ));
    }
}

proof fn index_in_front(a: Seq<u8>, b: Seq<u8>)
    requires
        crate::text::index_of_byte(a, 0x0a) < a.len(),
    ensures
        crate::text::index_of_byte(a + b, 0x0a) == crate::text::index_of_byte(a, 0x0a),
    decreases a.len(),
{
    if a.len() > 0 && a[0] != 0x0a {
        assert((a + b).drop_first() =~= a.drop_first() + b);
        index_in_front(a.drop_first(), b);
    }
}

/// No event is forwarded twice.
pub proof fn events_are_forwarded_once(
    seen: Set<(u64, u32)>,
    events: Seq<DeviceEvent>,
    n: int,
    i: int,
    j: int,
)
    requires
        0 <= n <= events.len(),
        0 <= i < j < unseen(seen, events, n).len(),
    ensures
        identity(unseen(seen, events, n)[i]) != identity(unseen(seen, events, n)[j]),
        !seen.contains(identity(unseen(seen, events, n)[i])),
    decreases n,
{
    if n > 0 {
        let front = unseen(seen, events, n - 1);
        if j < front.len() {
            events_are_forwarded_once(seen, events, n - 1, i, j);
        } else {
            forwarded_are_seen(seen, events, n - 1, i);
        }
    }
}

proof fn forwarded_are_seen(seen: Set<(u64, u32)>, events: Seq<DeviceEvent>, n: int, i: int)
    requires
        0 <= n <= events.len(),
        0 <= i < unseen(seen, events, n).len(),
    ensures
        seen_after(seen, events, n).contains(identity(unseen(seen, events, n)[i])),
        !seen.contains(identity(unseen(seen, events, n)[i])),
    decreases n,
{
    if n > 0 {
        let front = unseen(seen, events, n - 1);
        if i < front.len() {
            forwarded_are_seen(seen, events, n - 1, i);
        } else {
            seen_stays(seen, events, n - 1, identity(events[n - 1]));
        }
    }
}

proof fn seen_stays(seen: Set<(u64, u32)>, events: Seq<DeviceEvent>, n: int, id: (u64, u32))
    requires
        !seen_after(seen, events, n).contains(id),
    ensures
        !seen.contains(id),
    decreases n,
{
    if n > 0 {
        seen_stays(seen, events, n - 1, id);
    }
}

} // verus!
