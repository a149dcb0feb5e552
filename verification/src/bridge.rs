//! The producer of semantic records, and the reader on the other side.
//!
//! The records lie in a ring that producer and reader share. The producer
//! decides what a call publishes: the whole group of records, or nothing. What
//! finds no room is dropped, and the next group that is published says so.
//! Reading and writing the ring itself is left to the caller, who passes the
//! cursors in and stores what comes back.

use crate::bytes::{le_u32, spec_le32};
use crate::ring::{
    distance, is_power_of_two, masked_is_slot, near_cursors_have_own_slots, valid_capacity,
    wrapped_cursor_keeps_its_slot,
};
use crate::semantic::{
    accepted_output_token, marks_loss, packed_layout_begin, packed_request_slice, packed_token_row,
    request_slice, spec_accepted_output_token, spec_packed_layout_begin, spec_packed_request_slice,
    spec_packed_token_row, spec_request_slice, spec_step_begin, spec_step_end, step_begin, step_end,
    SemanticRecordFlags, SemanticWireRecord,
};
use crate::text::same;
use vstd::arithmetic::div_mod::lemma_mod_bound;
use vstd::arithmetic::power2::{lemma_pow2_pos, pow2};
use vstd::prelude::*;
use vstd::slice::slice_subrange;

verus! {

pub const MIN_CAPACITY: u32 = 64;

pub const MAX_CAPACITY: u32 = 1_048_576;

pub const EMIT_PUBLISHED: i32 = 0;

pub const EMIT_DROPPED: i32 = 1;

pub const EMIT_INVALID: i32 = -1;

#[derive(Clone, Copy, Debug, PartialEq, Eq, Structural)]
pub struct SemanticSliceInput {
    pub request_id: u64,
    pub sequence_id: u64,
    pub scheduled_tokens: u32,
    pub service_class_id: u16,
    pub phase: u8,
    pub reserved: u8,
}

#[derive(Clone, Copy, Debug, PartialEq, Eq)]
pub struct PackedSliceInput {
    pub request_id: u64,
    pub packing_generation: u64,
    pub row_begin: u32,
    pub row_end: u32,
    pub scheduled_tokens: u32,
    pub packed_index: u32,
    pub phase: u8,
    pub reserved: [u8; 7],
}

#[derive(Clone, Copy, Debug, PartialEq, Eq)]
pub struct PackedTokenInput {
    pub request_id: u64,
    pub packing_generation: u64,
    pub packed_row: u32,
    pub sequence_position: u32,
    pub token_id: u32,
    pub phase: u8,
    pub reserved: [u8; 3],
}

#[derive(Clone, Copy, Debug, PartialEq, Eq, Structural)]
pub struct OutputTokenInput {
    pub request_id: u64,
    pub output_position: u32,
    pub token_id: u32,
}

/// What a call came to.
#[derive(Clone, Copy, Debug, PartialEq, Eq, Structural)]
pub enum Emission {
    Published,
    Dropped,
    Invalid,
}

impl Emission {
    /// The number that callers of the native interface see.
    pub fn code(&self) -> (r: i32)
        ensures
            r == match self {
                Emission::Published => EMIT_PUBLISHED,
                Emission::Dropped => EMIT_DROPPED,
                Emission::Invalid => EMIT_INVALID,
            },
    {
        match self {
            Emission::Published => EMIT_PUBLISHED,
            Emission::Dropped => EMIT_DROPPED,
            Emission::Invalid => EMIT_INVALID,
        }
    }
}

/// The producer's side of the ring.
#[derive(Debug)]
pub struct SemanticBridge {
    pub capacity: u64,
    pub head: u64,
    pub next_sequence: u64,
    pub dropped_pending: bool,
    pub dropped: u64,
    pub pid: u32,
    pub tid: u32,
}

// The header of a shared ring.

pub const RING_VERSION: u32 = 1;

/// What a ring file begins with, up to its cursors: the name of the format, its
/// version and the capacity of the ring.
pub const RING_HEAD_BYTES: usize = 16;

pub open spec fn ring_magic() -> Seq<u8> {
    seq![0x47, 0x4f, 0x53, 0x45, 0x4d, 0x30, 0x31, 0x00]
}

/// The capacity that a header gives, or what is wrong with it.
pub open spec fn capacity_in(head: Seq<u8>) -> Result<u32, Seq<char>> {
    if head.take(8) != ring_magic() {
        Err("invalid semantic ring header: magic"@)
    } else if spec_le32(head, 8) != RING_VERSION {
        Err("invalid semantic ring header: version"@)
    } else if !(exists|exponent: nat| #[trigger] pow2(exponent) == spec_le32(head, 12)) {
        Err("invalid semantic ring header: capacity"@)
    } else {
        Ok(spec_le32(head, 12))
    }
}

/// Reads the capacity that a header gives.
pub fn read_capacity(head: &[u8]) -> (r: Result<u32, &'static str>)
    requires
        head@.len() >= RING_HEAD_BYTES,
    ensures
        match (r, capacity_in(head@)) {
            (Ok(capacity), Ok(expected)) => capacity == expected,
            (Err(error), Err(expected)) => error@ == expected,
            _ => false,
        },
{
    let magic: [u8; 8] = [0x47, 0x4f, 0x53, 0x45, 0x4d, 0x30, 0x31, 0x00];
    let name = slice_subrange(head, 0, 8);
    proof {
        assert(name@ =~= head@.take(8));
        assert(magic@ =~= ring_magic());
    }
    if !same(name, magic.as_slice()) {
        return Err("invalid semantic ring header: magic");
    }
    if le_u32(head, 8) != RING_VERSION {
        return Err("invalid semantic ring header: version");
    }
    let capacity: u32 = le_u32(head, 12);
    if !is_power_of_two(capacity as usize) {
        return Err("invalid semantic ring header: capacity");
    }
    Ok(capacity)
}

/// The cursor so much further on.
pub open spec fn advanced(cursor: u64, count: int) -> u64 {
    ((cursor + count) % 0x1_0000_0000_0000_0000) as u64
}

/// The number behind, wrapping.
pub open spec fn following(value: u32) -> u32 {
    if value == u32::MAX {
        0
    } else {
        (value + 1) as u32
    }
}

/// Whether a bridge may have the capacity.
pub open spec fn bridge_capacity(capacity: u32) -> bool {
    MIN_CAPACITY <= capacity <= MAX_CAPACITY && valid_capacity(capacity as int)
}

impl SemanticBridge {
    pub open spec fn wf(self) -> bool {
        self.capacity <= MAX_CAPACITY && bridge_capacity(self.capacity as u32)
    }

    /// Whether a group of the size is refused whatever room there is.
    pub open spec fn oversized(self, count: nat) -> bool {
        count == 0 || count >= self.capacity
    }

    /// Whether there is no room for the group.
    pub open spec fn is_full(self, tail: u64, count: nat) -> bool {
        distance(tail, self.head) > self.capacity - count
    }

    pub open spec fn loss_flags(self) -> u32 {
        if self.dropped_pending {
            SemanticRecordFlags::DROPPED_BEFORE
        } else {
            0
        }
    }

    /// The bridge after a group was dropped.
    pub open spec fn after_drop(self, count: nat) -> SemanticBridge {
        SemanticBridge {
            next_sequence: advanced(self.next_sequence, count as int),
            dropped: advanced(self.dropped, count as int),
            dropped_pending: true,
            ..self
        }
    }

    /// The bridge after a group was published.
    pub open spec fn after_publish(self, count: nat) -> SemanticBridge {
        SemanticBridge {
            head: advanced(self.head, count as int),
            next_sequence: advanced(self.next_sequence, count as int),
            dropped_pending: false,
            ..self
        }
    }

    /// Whether a valid call with the group came to what it has to: the records
    /// to be stored are the whole group or none.
    pub open spec fn settled(
        self,
        after: SemanticBridge,
        outcome: Emission,
        records: Seq<SemanticWireRecord>,
        tail: u64,
        group: Seq<SemanticWireRecord>,
    ) -> bool {
        if self.oversized(group.len()) {
            outcome is Dropped && records.len() == 0 && after == self
        } else if self.is_full(tail, group.len()) {
            outcome is Dropped && records.len() == 0 && after == self.after_drop(group.len())
        } else {
            &&& outcome is Published && records == group
            &&& after == self.after_publish(group.len())
        }
    }

    /// A bridge onto an empty ring of the capacity.
    pub fn open(capacity: u32, pid: u32, tid: u32) -> (r: Option<Self>)
        ensures
            r is Some <==> bridge_capacity(capacity),
            r matches Some(bridge) ==> bridge.wf() && bridge == (SemanticBridge {
                capacity: capacity as u64,
                head: 0,
                next_sequence: 0,
                dropped_pending: false,
                dropped: 0,
                pid,
                tid,
            }),
    {
        if capacity < MIN_CAPACITY || capacity > MAX_CAPACITY {
            return None;
        }
        let power: bool = is_power_of_two(capacity as usize);
        proof {
            if power {
                let e = choose|e: nat| #[trigger] pow2(e) == capacity;
                if e == 0 {
                    vstd::arithmetic::power2::lemma2_to64();
                }
                assert(e > 0 && pow2(e) == capacity);
            }
        }
        if !power {
            return None;
        }
        Some(
            SemanticBridge {
                capacity: capacity as u64,
                head: 0,
                next_sequence: 0,
                dropped_pending: false,
                dropped: 0,
                pid,
                tid,
            },
        )
    }

    /// The slot of the record so far behind the head.
    pub fn slot(&self, offset: u64) -> (r: usize)
        requires
            self.wf(),
        ensures
            r == advanced(self.head, offset as int) as int % self.capacity as int,
            r < self.capacity,
    {
        let cursor: u64 = self.head.wrapping_add(offset);
        let mask: u64 = self.capacity - 1;
        proof {
            masked_is_slot(cursor, self.capacity as int, mask);
        }
        (cursor & mask) as usize
    }

    /// Makes room for a group: the sequence of its first record and the flags
    /// of that record.
    fn reserve(&mut self, tail: u64, count: u64) -> (r: Option<(u64, u32)>)
        requires
            old(self).wf(),
        ensures
            final(self).wf(),
            r is None <==> old(self).oversized(count as nat) || old(self).is_full(
                tail,
                count as nat,
            ),
            r is None ==> *final(self) == if old(self).oversized(count as nat) {
                *old(self)
            } else {
                old(self).after_drop(count as nat)
            },
            r matches Some((sequence, flags)) ==> sequence == old(self).next_sequence && flags
                == old(self).loss_flags() && *final(self) == (SemanticBridge {
                next_sequence: advanced(old(self).next_sequence, count as int),
                ..*old(self)
            }),
    {
        if count == 0 || count >= self.capacity {
            return None;
        }
        if self.head.wrapping_sub(tail) > self.capacity - count {
            self.next_sequence = self.next_sequence.wrapping_add(count);
            self.dropped_pending = true;
            self.dropped = self.dropped.wrapping_add(count);
            return None;
        }
        let sequence: u64 = self.next_sequence;
        self.next_sequence = self.next_sequence.wrapping_add(count);
        let flags: u32 = if self.dropped_pending {
            SemanticRecordFlags::DROPPED_BEFORE
        } else {
            0
        };
        Some((sequence, flags))
    }

    fn publish(&mut self, count: u64)
        ensures
            *final(self) == (SemanticBridge {
                head: advanced(old(self).head, count as int),
                dropped_pending: false,
                ..*old(self)
            }),
    {
        self.head = self.head.wrapping_add(count);
        self.dropped_pending = false;
    }

    /// The records of an engine step and of its slices.
    pub open spec fn step_group(
        self,
        timestamp_ns: u64,
        step_id: u64,
        scheduled_tokens: u32,
        prefill_tokens: u32,
        decode_tokens: u32,
        queue_depth: u32,
        active_requests: u32,
        kv_cache_usage_permyriad: u16,
        slices: Seq<SemanticSliceInput>,
    ) -> Seq<SemanticWireRecord> {
        seq![
            spec_step_begin(
                timestamp_ns,
                self.next_sequence,
                step_id,
                scheduled_tokens,
                prefill_tokens,
                decode_tokens,
                queue_depth,
                active_requests,
                slices.len() as u32,
                kv_cache_usage_permyriad,
                self.loss_flags(),
                self.pid,
                self.tid,
            ),
        ] + Seq::new(
            slices.len(),
            |i: int|
                spec_request_slice(
                    timestamp_ns,
                    advanced(self.next_sequence, i + 1),
                    step_id,
                    slices[i].request_id,
                    slices[i].sequence_id,
                    slices[i].scheduled_tokens,
                    slices[i].service_class_id,
                    slices[i].phase,
                    self.pid,
                    self.tid,
                ),
        )
    }

    /// Publishes the beginning of an engine step, with its slices.
    ///
    /// The records to be stored take the place of what the buffer held.
    pub fn emit_step_begin(
        &mut self,
        tail: u64,
        timestamp_ns: u64,
        step_id: u64,
        scheduled_tokens: u32,
        prefill_tokens: u32,
        decode_tokens: u32,
        queue_depth: u32,
        active_requests: u32,
        kv_cache_usage_permyriad: u16,
        slices: &[SemanticSliceInput],
        records: &mut Vec<SemanticWireRecord>,
    ) -> (outcome: Emission)
        requires
            old(self).wf(),
            slices@.len() <= u32::MAX,
        ensures
            final(self).wf(),
            old(self).settled(
                *final(self),
                outcome,
                final(records)@,
                tail,
                old(self).step_group(
                    timestamp_ns,
                    step_id,
                    scheduled_tokens,
                    prefill_tokens,
                    decode_tokens,
                    queue_depth,
                    active_requests,
                    kv_cache_usage_permyriad,
                    slices@,
                ),
            ),
    {
        records.clear();
        let ghost group = self.step_group(
            timestamp_ns,
            step_id,
            scheduled_tokens,
            prefill_tokens,
            decode_tokens,
            queue_depth,
            active_requests,
            kv_cache_usage_permyriad,
            slices@,
        );
        let count: usize = slices.len();
        let required: u64 = count as u64 + 1;
        let (sequence, flags) = match self.reserve(tail, required) {
            Some(room) => room,
            None => {
                return Emission::Dropped;
            },
        };
        records.push(
            step_begin(
                timestamp_ns,
                sequence,
                step_id,
                scheduled_tokens,
                prefill_tokens,
                decode_tokens,
                queue_depth,
                active_requests,
                count as u32,
                kv_cache_usage_permyriad,
                flags,
                self.pid,
                self.tid,
            ),
        );
        let mut i: usize = 0;
        assert(records@ =~= group.take(1));
        while i < count
            invariant
                i <= count,
                count == slices@.len(),
                count <= u32::MAX,
                sequence == old(self).next_sequence,
                self.pid == old(self).pid,
                self.tid == old(self).tid,
                group == old(self).step_group(
                    timestamp_ns,
                    step_id,
                    scheduled_tokens,
                    prefill_tokens,
                    decode_tokens,
                    queue_depth,
                    active_requests,
                    kv_cache_usage_permyriad,
                    slices@,
                ),
                records@ == group.take(i + 1),
            decreases count - i,
        {
            let input = slices[i];
            records.push(
                request_slice(
                    timestamp_ns,
                    sequence.wrapping_add(i as u64 + 1),
                    step_id,
                    input.request_id,
                    input.sequence_id,
                    input.scheduled_tokens,
                    input.service_class_id,
                    input.phase,
                    self.pid,
                    self.tid,
                ),
            );
            assert(group.take(i + 2) =~= group.take(i + 1).push(group[i + 1]));
            i += 1;
        }
        assert(group.take(count + 1) =~= group);
        self.publish(required);
        Emission::Published
    }

    /// The records of a packed layout.
    pub open spec fn layout_group(
        self,
        timestamp_ns: u64,
        step_id: u64,
        packing_generation: u64,
        total_tokens: u32,
        slices: Seq<PackedSliceInput>,
    ) -> Seq<SemanticWireRecord> {
        seq![
            spec_packed_layout_begin(
                timestamp_ns,
                self.next_sequence,
                step_id,
                packing_generation,
                total_tokens,
                slices.len() as u32,
                self.loss_flags(),
                self.pid,
                self.tid,
            ),
        ] + Seq::new(
            slices.len(),
            |i: int|
                spec_packed_request_slice(
                    timestamp_ns,
                    advanced(self.next_sequence, i + 1),
                    step_id,
                    slices[i].request_id,
                    packing_generation,
                    slices[i].row_begin,
                    slices[i].row_end,
                    slices[i].scheduled_tokens,
                    slices[i].packed_index,
                    slices[i].phase,
                    self.pid,
                    self.tid,
                ),
        )
    }

    /// Publishes a packed layout whose slices cover the rows without a gap.
    ///
    /// The records to be stored take the place of what the buffer held.
    pub fn emit_packed_layout(
        &mut self,
        tail: u64,
        timestamp_ns: u64,
        step_id: u64,
        packing_generation: u64,
        total_tokens: u32,
        slices: &[PackedSliceInput],
        records: &mut Vec<SemanticWireRecord>,
    ) -> (outcome: Emission)
        requires
            old(self).wf(),
            slices@.len() <= u32::MAX,
        ensures
            final(self).wf(),
            outcome is Invalid <==> !layout_valid(
                step_id,
                packing_generation,
                total_tokens,
                slices@,
            ),
            outcome is Invalid ==> *final(self) == *old(self) && final(records)@.len() == 0,
            outcome !is Invalid ==> old(self).settled(
                *final(self),
                outcome,
                final(records)@,
                tail,
                old(self).layout_group(
                    timestamp_ns,
                    step_id,
                    packing_generation,
                    total_tokens,
                    slices@,
                ),
            ),
    {
        records.clear();
        let count: usize = slices.len();
        if step_id == 0 || packing_generation == 0 || count == 0 {
            return Emission::Invalid;
        }
        let mut expected_begin: u32 = 0;
        let mut i: usize = 0;
        while i < count
            invariant
                i <= count,
                count == slices@.len(),
                count <= u32::MAX,
                *self == *old(self),
                self.wf(),
                records@.len() == 0,
                expected_begin == rows_before(slices@, i as int),
                forall|k: int|
                    0 <= k < i ==> #[trigger] slice_valid(packing_generation, slices@, k),
            decreases count - i,
        {
            let input = slices[i];
            assert(slices@[i as int] == input);
            if input.packing_generation != packing_generation || input.packed_index as usize != i
                || input.row_begin != expected_begin || input.row_end < input.row_begin
                || input.row_end - input.row_begin != input.scheduled_tokens
                || input.scheduled_tokens == 0 {
                assert(!slice_valid(packing_generation, slices@, i as int));
                return Emission::Invalid;
            }
            expected_begin = input.row_end;
            assert(slice_valid(packing_generation, slices@, i as int));
            i += 1;
        }
        if expected_begin != total_tokens {
            return Emission::Invalid;
        }
        let ghost group = self.layout_group(
            timestamp_ns,
            step_id,
            packing_generation,
            total_tokens,
            slices@,
        );
        let required: u64 = count as u64 + 1;
        let (sequence, flags) = match self.reserve(tail, required) {
            Some(room) => room,
            None => {
                return Emission::Dropped;
            },
        };
        records.push(
            packed_layout_begin(
                timestamp_ns,
                sequence,
                step_id,
                packing_generation,
                total_tokens,
                count as u32,
                flags,
                self.pid,
                self.tid,
            ),
        );
        let mut i: usize = 0;
        assert(records@ =~= group.take(1));
        while i < count
            invariant
                i <= count,
                count == slices@.len(),
                count <= u32::MAX,
                sequence == old(self).next_sequence,
                self.pid == old(self).pid,
                self.tid == old(self).tid,
                group == old(self).layout_group(
                    timestamp_ns,
                    step_id,
                    packing_generation,
                    total_tokens,
                    slices@,
                ),
                records@ == group.take(i + 1),
            decreases count - i,
        {
            let input = slices[i];
            records.push(
                packed_request_slice(
                    timestamp_ns,
                    sequence.wrapping_add(i as u64 + 1),
                    step_id,
                    input.request_id,
                    packing_generation,
                    input.row_begin,
                    input.row_end,
                    input.scheduled_tokens,
                    input.packed_index,
                    input.phase,
                    self.pid,
                    self.tid,
                ),
            );
            assert(group.take(i + 2) =~= group.take(i + 1).push(group[i + 1]));
            i += 1;
        }
        assert(group.take(count + 1) =~= group);
        self.publish(required);
        Emission::Published
    }

    /// The flags of the record at the place in a group.
    pub open spec fn flags_at(self, i: int) -> u32 {
        if i == 0 {
            self.loss_flags()
        } else {
            0
        }
    }

    /// The records of packed tokens.
    pub open spec fn token_group(
        self,
        timestamp_ns: u64,
        step_id: u64,
        packing_generation: u64,
        tokens: Seq<PackedTokenInput>,
    ) -> Seq<SemanticWireRecord> {
        Seq::new(
            tokens.len(),
            |i: int|
                spec_packed_token_row(
                    timestamp_ns,
                    advanced(self.next_sequence, i),
                    step_id,
                    tokens[i].request_id,
                    packing_generation,
                    tokens[i].packed_row,
                    tokens[i].sequence_position,
                    tokens[i].token_id,
                    tokens[i].phase,
                    self.flags_at(i),
                    self.pid,
                    self.tid,
                ),
        )
    }

    /// Publishes tokens in consecutive rows and positions.
    ///
    /// The records to be stored take the place of what the buffer held.
    pub fn emit_packed_tokens(
        &mut self,
        tail: u64,
        timestamp_ns: u64,
        step_id: u64,
        packing_generation: u64,
        tokens: &[PackedTokenInput],
        records: &mut Vec<SemanticWireRecord>,
    ) -> (outcome: Emission)
        requires
            old(self).wf(),
            tokens@.len() <= u32::MAX,
        ensures
            final(self).wf(),
            outcome is Invalid <==> !tokens_valid(step_id, packing_generation, tokens@),
            outcome is Invalid ==> *final(self) == *old(self) && final(records)@.len() == 0,
            outcome !is Invalid ==> old(self).settled(
                *final(self),
                outcome,
                final(records)@,
                tail,
                old(self).token_group(timestamp_ns, step_id, packing_generation, tokens@),
            ),
    {
        records.clear();
        let count: usize = tokens.len();
        if step_id == 0 || packing_generation == 0 || count == 0 {
            return Emission::Invalid;
        }
        let mut i: usize = 0;
        while i < count
            invariant
                i <= count,
                *self == *old(self),
                self.wf(),
                records@.len() == 0,
                count == tokens@.len(),
                forall|k: int|
                    0 <= k < i ==> #[trigger] token_valid(packing_generation, tokens@, k),
            decreases count - i,
        {
            let input = tokens[i];
            let phase_known = input.phase == 1 || input.phase == 2;
            let consecutive = i == 0 || (input.packed_row == tokens[i - 1].packed_row.wrapping_add(1)
                && input.sequence_position == tokens[i - 1].sequence_position.wrapping_add(1));
            if input.request_id == 0 || input.packing_generation != packing_generation
                || !phase_known || !consecutive {
                assert(!token_valid(packing_generation, tokens@, i as int));
                return Emission::Invalid;
            }
            assert(token_valid(packing_generation, tokens@, i as int));
            i += 1;
        }
        let ghost group = self.token_group(timestamp_ns, step_id, packing_generation, tokens@);
        let required: u64 = count as u64;
        let (sequence, flags) = match self.reserve(tail, required) {
            Some(room) => room,
            None => {
                return Emission::Dropped;
            },
        };
        let mut i: usize = 0;
        assert(records@ =~= group.take(0));
        while i < count
            invariant
                i <= count,
                count == tokens@.len(),
                sequence == old(self).next_sequence,
                flags == old(self).loss_flags(),
                self.pid == old(self).pid,
                self.tid == old(self).tid,
                group == old(self).token_group(timestamp_ns, step_id, packing_generation, tokens@),
                records@ == group.take(i as int),
            decreases count - i,
        {
            let input = tokens[i];
            let own_flags: u32 = if i == 0 {
                flags
            } else {
                0
            };
            records.push(
                packed_token_row(
                    timestamp_ns,
                    sequence.wrapping_add(i as u64),
                    step_id,
                    input.request_id,
                    packing_generation,
                    input.packed_row,
                    input.sequence_position,
                    input.token_id,
                    input.phase,
                    own_flags,
                    self.pid,
                    self.tid,
                ),
            );
            assert(group.take(i + 1) =~= group.take(i as int).push(group[i as int]));
            i += 1;
        }
        assert(group.take(count as int) =~= group);
        self.publish(required);
        Emission::Published
    }

    /// The records of accepted output tokens.
    pub open spec fn output_group(
        self,
        timestamp_ns: u64,
        step_id: u64,
        tokens: Seq<OutputTokenInput>,
    ) -> Seq<SemanticWireRecord> {
        Seq::new(
            tokens.len(),
            |i: int|
                spec_accepted_output_token(
                    timestamp_ns,
                    advanced(self.next_sequence, i),
                    step_id,
                    tokens[i].request_id,
                    tokens[i].output_position,
                    tokens[i].token_id,
                    self.flags_at(i),
                    self.pid,
                    self.tid,
                ),
        )
    }

    /// Publishes accepted tokens in consecutive positions.
    ///
    /// The records to be stored take the place of what the buffer held.
    pub fn emit_output_tokens(
        &mut self,
        tail: u64,
        timestamp_ns: u64,
        step_id: u64,
        tokens: &[OutputTokenInput],
        records: &mut Vec<SemanticWireRecord>,
    ) -> (outcome: Emission)
        requires
            old(self).wf(),
            tokens@.len() <= u32::MAX,
        ensures
            final(self).wf(),
            outcome is Invalid <==> !outputs_valid(step_id, tokens@),
            outcome is Invalid ==> *final(self) == *old(self) && final(records)@.len() == 0,
            outcome !is Invalid ==> old(self).settled(
                *final(self),
                outcome,
                final(records)@,
                tail,
                old(self).output_group(timestamp_ns, step_id, tokens@),
            ),
    {
        records.clear();
        let count: usize = tokens.len();
        if step_id == 0 || count == 0 {
            return Emission::Invalid;
        }
        let mut i: usize = 0;
        while i < count
            invariant
                i <= count,
                *self == *old(self),
                self.wf(),
                records@.len() == 0,
                count == tokens@.len(),
                forall|k: int| 0 <= k < i ==> #[trigger] output_valid(tokens@, k),
            decreases count - i,
        {
            let input = tokens[i];
            let consecutive = i == 0 || input.output_position
                == tokens[i - 1].output_position.wrapping_add(1);
            if input.request_id == 0 || !consecutive {
                assert(!output_valid(tokens@, i as int));
                return Emission::Invalid;
            }
            assert(output_valid(tokens@, i as int));
            i += 1;
        }
        let ghost group = self.output_group(timestamp_ns, step_id, tokens@);
        let required: u64 = count as u64;
        let (sequence, flags) = match self.reserve(tail, required) {
            Some(room) => room,
            None => {
                return Emission::Dropped;
            },
        };
        let mut i: usize = 0;
        assert(records@ =~= group.take(0));
        while i < count
            invariant
                i <= count,
                count == tokens@.len(),
                sequence == old(self).next_sequence,
                flags == old(self).loss_flags(),
                self.pid == old(self).pid,
                self.tid == old(self).tid,
                group == old(self).output_group(timestamp_ns, step_id, tokens@),
                records@ == group.take(i as int),
            decreases count - i,
        {
            let input = tokens[i];
            let own_flags: u32 = if i == 0 {
                flags
            } else {
                0
            };
            records.push(
                accepted_output_token(
                    timestamp_ns,
                    sequence.wrapping_add(i as u64),
                    step_id,
                    input.request_id,
                    input.output_position,
                    input.token_id,
                    own_flags,
                    self.pid,
                    self.tid,
                ),
            );
            assert(group.take(i + 1) =~= group.take(i as int).push(group[i as int]));
            i += 1;
        }
        assert(group.take(count as int) =~= group);
        self.publish(required);
        Emission::Published
    }

    /// The record of the end of an engine step.
    pub open spec fn end_group(self, timestamp_ns: u64, step_id: u64, status: u8) -> Seq<
        SemanticWireRecord,
    > {
        seq![
            spec_step_end(
                timestamp_ns,
                self.next_sequence,
                step_id,
                status,
                self.loss_flags(),
                self.pid,
                self.tid,
            ),
        ]
    }

    /// Publishes the end of an engine step.
    ///
    /// The records to be stored take the place of what the buffer held.
    pub fn emit_step_end(
        &mut self,
        tail: u64,
        timestamp_ns: u64,
        step_id: u64,
        status: u8,
        records: &mut Vec<SemanticWireRecord>,
    ) -> (outcome: Emission)
        requires
            old(self).wf(),
        ensures
            final(self).wf(),
            old(self).settled(
                *final(self),
                outcome,
                final(records)@,
                tail,
                old(self).end_group(timestamp_ns, step_id, status),
            ),
    {
        records.clear();
        let (sequence, flags) = match self.reserve(tail, 1) {
            Some(room) => room,
            None => {
                return Emission::Dropped;
            },
        };
        records.push(step_end(timestamp_ns, sequence, step_id, status, flags, self.pid, self.tid));
        assert(records@ =~= old(self).end_group(timestamp_ns, step_id, status));
        self.publish(1);
        Emission::Published
    }
}

/// The rows that the slices before the place take.
pub open spec fn rows_before(slices: Seq<PackedSliceInput>, i: int) -> u32 {
    if i == 0 {
        0
    } else {
        slices[i - 1].row_end
    }
}

/// Whether the slice at the place is in order: it belongs to the generation,
/// and its rows follow those of the slice before it.
pub open spec fn slice_valid(generation: u64, slices: Seq<PackedSliceInput>, i: int) -> bool {
    let slice = slices[i];
    &&& slice.packing_generation == generation
    &&& slice.packed_index == i
    &&& slice.row_begin == rows_before(slices, i)
    &&& slice.row_end - slice.row_begin == slice.scheduled_tokens
    &&& slice.scheduled_tokens > 0
}

/// Whether the slices are a layout of so many tokens.
pub open spec fn layout_valid(
    step_id: u64,
    generation: u64,
    total_tokens: u32,
    slices: Seq<PackedSliceInput>,
) -> bool {
    &&& step_id != 0
    &&& generation != 0
    &&& slices.len() > 0
    &&& forall|i: int| 0 <= i < slices.len() ==> #[trigger] slice_valid(generation, slices, i)
    &&& slices.last().row_end == total_tokens
}

/// Whether the token at the place is in order: it belongs to a request and to
/// the generation, and follows the token before it.
pub open spec fn token_valid(generation: u64, tokens: Seq<PackedTokenInput>, i: int) -> bool {
    let token = tokens[i];
    &&& token.request_id != 0
    &&& token.packing_generation == generation
    &&& token.phase == 1 || token.phase == 2
    &&& i > 0 ==> token.packed_row == following(tokens[i - 1].packed_row)
        && token.sequence_position == following(tokens[i - 1].sequence_position)
}

pub open spec fn tokens_valid(
    step_id: u64,
    generation: u64,
    tokens: Seq<PackedTokenInput>,
) -> bool {
    &&& step_id != 0
    &&& generation != 0
    &&& tokens.len() > 0
    &&& forall|i: int| 0 <= i < tokens.len() ==> #[trigger] token_valid(generation, tokens, i)
}

/// Whether the output token at the place is in order: it belongs to a request
/// and follows the token before it.
pub open spec fn output_valid(tokens: Seq<OutputTokenInput>, i: int) -> bool {
    &&& tokens[i].request_id != 0
    &&& i > 0 ==> tokens[i].output_position == following(tokens[i - 1].output_position)
}

pub open spec fn outputs_valid(step_id: u64, tokens: Seq<OutputTokenInput>) -> bool {
    &&& step_id != 0
    &&& tokens.len() > 0
    &&& forall|i: int| 0 <= i < tokens.len() ==> #[trigger] output_valid(tokens, i)
}

// The reader.

/// Why a ring cannot be read.
#[derive(Clone, Copy, Debug, PartialEq, Eq, Structural)]
pub enum RingFault {
    HeaderTruncated,
    LengthOverflow,
    SizeMismatch,
    ProducerOverran,
}

impl RingFault {
    pub open spec fn words(self) -> Seq<char> {
        match self {
            RingFault::HeaderTruncated => "semantic ring header is truncated"@,
            RingFault::LengthOverflow => "semantic ring length overflow"@,
            RingFault::SizeMismatch => "semantic ring file size does not match header"@,
            RingFault::ProducerOverran => "semantic producer overran consumer cursor"@,
        }
    }

    /// The fault in words.
    pub fn message(self) -> (text: &'static str)
        ensures
            text@ == self.words(),
    {
        match self {
            RingFault::HeaderTruncated => "semantic ring header is truncated",
            RingFault::LengthOverflow => "semantic ring length overflow",
            RingFault::SizeMismatch => "semantic ring file size does not match header",
            RingFault::ProducerOverran => "semantic producer overran consumer cursor",
        }
    }
}

/// The reader's side of the ring.
#[derive(Debug)]
pub struct SemanticRingReader {
    pub capacity: u64,
    pub tail: u64,
}

impl SemanticRingReader {
    pub open spec fn wf(self) -> bool {
        self.capacity <= u32::MAX && valid_capacity(self.capacity as int)
    }

    /// A reader of a mapping of the length, whose header gives the capacity and
    /// the reader's cursor.
    pub fn open(
        mapping_len: usize,
        header_bytes: usize,
        record_bytes: usize,
        capacity: u32,
        tail: u64,
    ) -> (r: Result<Self, RingFault>)
        requires
            valid_capacity(capacity as int),
        ensures
            r == if mapping_len < header_bytes {
                Err::<Self, RingFault>(RingFault::HeaderTruncated)
            } else if header_bytes + capacity * record_bytes > usize::MAX {
                Err(RingFault::LengthOverflow)
            } else if mapping_len != header_bytes + capacity * record_bytes {
                Err(RingFault::SizeMismatch)
            } else {
                Ok(SemanticRingReader { capacity: capacity as u64, tail })
            },
            r matches Ok(reader) ==> reader.wf(),
    {
        if mapping_len < header_bytes {
            return Err(RingFault::HeaderTruncated);
        }
        proof {
            assert(capacity * record_bytes >= 0) by (nonlinear_arith)
                requires
                    capacity >= 0,
                    record_bytes >= 0,
            ;
        }
        let records: usize = match (capacity as usize).checked_mul(record_bytes) {
            Some(records) => records,
            None => {
                return Err(RingFault::LengthOverflow);
            },
        };
        let expected: usize = match header_bytes.checked_add(records) {
            Some(expected) => expected,
            None => {
                return Err(RingFault::LengthOverflow);
            },
        };
        if mapping_len != expected {
            return Err(RingFault::SizeMismatch);
        }
        Ok(SemanticRingReader { capacity: capacity as u64, tail })
    }

    /// The slot of the next record, where the producer has published one.
    pub fn locate(&self, head: u64) -> (r: Result<Option<usize>, RingFault>)
        requires
            self.wf(),
        ensures
            r == if self.tail == head {
                Ok::<Option<usize>, RingFault>(None)
            } else if distance(self.tail, head) > self.capacity {
                Err(RingFault::ProducerOverran)
            } else {
                Ok(Some((self.tail as int % self.capacity as int) as usize))
            },
    {
        if self.tail == head {
            return Ok(None);
        }
        if head.wrapping_sub(self.tail) > self.capacity {
            return Err(RingFault::ProducerOverran);
        }
        proof {
            let e = choose|e: nat| e > 0 && #[trigger] pow2(e) == self.capacity;
            lemma_pow2_pos(e);
            masked_is_slot(self.tail, self.capacity as int, (self.capacity - 1) as u64);
        }
        Ok(Some((self.tail & (self.capacity - 1)) as usize))
    }

    /// Steps over the record that was read: the cursor to publish.
    pub fn advance(&mut self) -> (tail: u64)
        ensures
            *final(self) == (SemanticRingReader {
                tail: advanced(old(self).tail, 1),
                ..*old(self)
            }),
            tail == final(self).tail,
    {
        self.tail = self.tail.wrapping_add(1);
        self.tail
    }
}

// Laws.

proof fn advanced_slot(cursor: u64, offset: int, capacity: int)
    requires
        valid_capacity(capacity),
        capacity <= MAX_CAPACITY,
        0 <= offset,
    ensures
        advanced(cursor, offset) as int % capacity == (cursor + offset) % capacity,
        capacity >= 2,
{
    wrapped_cursor_keeps_its_slot(cursor + offset, capacity);
}

/// A group that is published takes slots of its own: none that holds a record
/// the reader has not seen, and none twice.
pub proof fn unread_records_are_kept(bridge: SemanticBridge, tail: u64, count: nat, i: int, j: int)
    requires
        bridge.wf(),
        !bridge.is_full(tail, count),
        0 <= j < count,
        0 <= i < distance(tail, bridge.head) + j,
    ensures
        advanced(tail, i) as int % bridge.capacity as int != advanced(bridge.head, j) as int
            % bridge.capacity as int,
{
    let capacity = bridge.capacity as int;
    let used = distance(tail, bridge.head);
    advanced_slot(tail, i, capacity);
    advanced_slot(tail, used + j, capacity);
    advanced_slot(bridge.head, j, capacity);
    assert(advanced(tail, used + j) == advanced(bridge.head, j));
    near_cursors_have_own_slots(tail + i, capacity, used + j - i);
}

/// The slots of a ring after a group was written into them, from the cursor on.
pub open spec fn written(
    slots: Seq<SemanticWireRecord>,
    head: u64,
    group: Seq<SemanticWireRecord>,
) -> Seq<SemanticWireRecord>
    decreases group.len(),
{
    if group.len() == 0 {
        slots
    } else {
        written(slots, head, group.drop_last()).update(
            advanced(head, group.len() - 1) as int % slots.len() as int,
            group.last(),
        )
    }
}

/// Once a group is published, the reader finds from its own cursor on first
/// what it had not read yet, then the group, each record in its place.
pub proof fn published_records_are_read_back(
    bridge: SemanticBridge,
    tail: u64,
    slots: Seq<SemanticWireRecord>,
    group: Seq<SemanticWireRecord>,
    i: int,
)
    requires
        bridge.wf(),
        !bridge.is_full(tail, group.len()),
        slots.len() == bridge.capacity,
        0 <= i < distance(tail, bridge.head) + group.len(),
    ensures
        written(slots, bridge.head, group).len() == slots.len(),
        written(slots, bridge.head, group)[advanced(tail, i) as int % bridge.capacity as int]
            == if i < distance(tail, bridge.head) {
            slots[advanced(tail, i) as int % bridge.capacity as int]
        } else {
            group[i - distance(tail, bridge.head)]
        },
    decreases group.len(),
{
    let used = distance(tail, bridge.head);
    if group.len() > 0 {
        let last = group.len() - 1;
        let front = group.drop_last();
        written_keeps_length(slots, bridge.head, front);
        lemma_mod_bound(advanced(bridge.head, last) as int, slots.len() as int);
        if i < used + last {
            published_records_are_read_back(bridge, tail, slots, front, i);
            unread_records_are_kept(bridge, tail, group.len(), i, last);
        } else {
            assert(advanced(tail, i) == advanced(bridge.head, last));
        }
    }
}

proof fn written_keeps_length(
    slots: Seq<SemanticWireRecord>,
    head: u64,
    group: Seq<SemanticWireRecord>,
)
    requires
        slots.len() > 0,
    ensures
        written(slots, head, group).len() == slots.len(),
    decreases group.len(),
{
    if group.len() > 0 {
        lemma_mod_bound(advanced(head, group.len() - 1) as int, slots.len() as int);
        written_keeps_length(slots, head, group.drop_last());
    }
}

/// Whatever is published first after a group was dropped says so, and the
/// sequences leave room for the records that are missing.
pub proof fn drop_is_visible(bridge: SemanticBridge, missing: nat, group: Seq<SemanticWireRecord>)
    requires
        group.len() > 0,
        ({
            let after = bridge.after_drop(missing);
            ||| exists|timestamp_ns: u64, step_id: u64, status: u8|
                group == #[trigger] after.end_group(timestamp_ns, step_id, status)
            ||| exists|timestamp_ns: u64, step_id: u64, tokens: Seq<OutputTokenInput>|
                group == #[trigger] after.output_group(timestamp_ns, step_id, tokens)
            ||| exists|timestamp_ns: u64, step_id: u64, generation: u64, tokens: Seq<PackedTokenInput>|
                group == #[trigger] after.token_group(timestamp_ns, step_id, generation, tokens)
            ||| exists|timestamp_ns: u64, step_id: u64, generation: u64, total: u32, slices: Seq<PackedSliceInput>|
                group == #[trigger] after.layout_group(timestamp_ns, step_id, generation, total, slices)
            ||| exists|
                timestamp_ns: u64,
                step_id: u64,
                scheduled: u32,
                prefill: u32,
                decode: u32,
                queue: u32,
                active: u32,
                usage: u16,
                slices: Seq<SemanticSliceInput>,
            |
                group == #[trigger] after.step_group(
                    timestamp_ns,
                    step_id,
                    scheduled,
                    prefill,
                    decode,
                    queue,
                    active,
                    usage,
                    slices,
                )
        }),
    ensures
        marks_loss(group[0]),
        group[0].sequence == advanced(bridge.next_sequence, missing as int),
{
    assert(1u32 & 1u32 != 0) by (bit_vector);
    let after = bridge.after_drop(missing);
    assert(advanced(after.next_sequence, 0) == after.next_sequence);
}

/// The slices of a valid layout cover the rows from the first to the last
/// without a gap: each row has exactly one slice.
pub proof fn layout_covers_rows(
    step_id: u64,
    generation: u64,
    total_tokens: u32,
    slices: Seq<PackedSliceInput>,
    row: u32,
)
    requires
        layout_valid(step_id, generation, total_tokens, slices),
        row < total_tokens,
    ensures
        exists|i: int|
            0 <= i < slices.len() && (#[trigger] slices[i]).row_begin <= row < slices[i].row_end,
        forall|i: int, j: int|
            0 <= i < j < slices.len() ==> (#[trigger] slices[i]).row_end
                <= (#[trigger] slices[j]).row_begin,
{
    rows_are_covered(generation, slices, slices.len() as int, row);
    assert forall|i: int, j: int| 0 <= i < j < slices.len() implies (#[trigger] slices[i]).row_end
        <= (#[trigger] slices[j]).row_begin by {
        rows_increase(generation, slices, i, j);
    }
}

proof fn rows_are_covered(generation: u64, slices: Seq<PackedSliceInput>, n: int, row: u32)
    requires
        0 < n <= slices.len(),
        forall|i: int| 0 <= i < slices.len() ==> #[trigger] slice_valid(generation, slices, i),
        row < slices[n - 1].row_end,
    ensures
        exists|i: int|
            0 <= i < n && (#[trigger] slices[i]).row_begin <= row < slices[i].row_end,
    decreases n,
{
    assert(slice_valid(generation, slices, n - 1));
    if row >= slices[n - 1].row_begin {
        assert(slices[n - 1].row_begin <= row < slices[n - 1].row_end);
    } else {
        rows_are_covered(generation, slices, n - 1, row);
    }
}

proof fn rows_increase(generation: u64, slices: Seq<PackedSliceInput>, i: int, j: int)
    requires
        0 <= i < j < slices.len(),
        forall|i: int| 0 <= i < slices.len() ==> #[trigger] slice_valid(generation, slices, i),
    ensures
        slices[i].row_end <= slices[j].row_begin,
    decreases j - i,
{
    assert(slice_valid(generation, slices, j));
    if i < j - 1 {
        assert(slice_valid(generation, slices, j - 1));
        rows_increase(generation, slices, i, j - 1);
    }
}

} // verus!
