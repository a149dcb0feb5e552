//! What the bridge publishes: records that tell what they were given, numbered one
//! behind the other, a whole group or nothing.

use crate::bridge::{
    advanced, Emission, OutputTokenInput, PackedSliceInput, PackedTokenInput, SemanticBridge,
    SemanticSliceInput,
};
use crate::ring::distance;
use crate::semantic::{SemanticRecordFlags, SemanticRecordKind, SemanticWireRecord};
use vstd::prelude::*;

verus! {

proof fn advance_is_distance(cursor: u64, count: int)
    requires
        0 <= count < 0x1_0000_0000_0000_0000,
    ensures
        distance(cursor, advanced(cursor, count)) == count,
{
    let sum = cursor + count;
    if sum < 0x1_0000_0000_0000_0000 {
        assert(sum % 0x1_0000_0000_0000_0000 == sum);
    } else {
        assert(sum % 0x1_0000_0000_0000_0000 == sum - 0x1_0000_0000_0000_0000);
    }
}

proof fn advance_from_behind(tail: u64, cursor: u64, count: int)
    requires
        0 <= count,
        distance(tail, cursor) + count < 0x1_0000_0000_0000_0000,
    ensures
        distance(tail, advanced(cursor, count)) == distance(tail, cursor) + count,
{
    let sum = cursor + count;
    if sum < 0x1_0000_0000_0000_0000 {
        assert(sum % 0x1_0000_0000_0000_0000 == sum);
    } else {
        assert(sum % 0x1_0000_0000_0000_0000 == sum - 0x1_0000_0000_0000_0000);
    }
}

/// A group is published whole where it is neither empty nor as large as the ring
/// and there is room for it, and is else dropped whole. Each of its records takes a
/// number and is counted as published or as dropped. The ring never holds more than
/// its capacity, and a drop is remembered until something is published.
pub proof fn emission_is_whole_and_accounted_for(
    before: SemanticBridge,
    after: SemanticBridge,
    outcome: Emission,
    records: Seq<SemanticWireRecord>,
    tail: u64,
    group: Seq<SemanticWireRecord>,
)
    requires
        before.wf(),
        before.settled(after, outcome, records, tail, group),
        group.len() < 0x1_0000_0000_0000_0000,
    ensures
        outcome is Published <==> 0 < group.len() < before.capacity && distance(tail, before.head)
            + group.len() <= before.capacity,
        outcome is Published ==> records == group && distance(before.head, after.head)
            == group.len() && after.dropped == before.dropped && !after.dropped_pending
            && distance(tail, after.head) <= before.capacity,
        outcome !is Published ==> outcome is Dropped && records.len() == 0 && after.head
            == before.head,
        outcome is Dropped && 0 < group.len() < before.capacity ==> distance(
            before.dropped,
            after.dropped,
        ) == group.len() && after.dropped_pending,
        0 < group.len() < before.capacity ==> distance(before.next_sequence, after.next_sequence)
            == group.len(),
        after.capacity == before.capacity && after.pid == before.pid && after.tid == before.tid,
{
    let n = group.len() as int;
    advance_is_distance(before.head, n);
    advance_is_distance(before.dropped, n);
    advance_is_distance(before.next_sequence, n);
    if !before.oversized(group.len()) && !before.is_full(tail, group.len()) {
        advance_from_behind(tail, before.head, n);
    }
}

/// Whether the group is of the step, made at the moment by the bridge's own process
/// and thread, and numbered from the bridge's next number on. Only its first record
/// tells of a loss, where there was one since the last that was published.
pub open spec fn is_numbered_group(
    bridge: SemanticBridge,
    group: Seq<SemanticWireRecord>,
    timestamp_ns: u64,
    step_id: u64,
) -> bool {
    forall|i: int|
        0 <= i < group.len() ==> {
            &&& (#[trigger] group[i]).timestamp_ns == timestamp_ns
            &&& group[i].step_id == step_id
            &&& group[i].pid == bridge.pid
            &&& group[i].tid == bridge.tid
            &&& distance(bridge.next_sequence, group[i].sequence) == i
            &&& (group[i].flags & SemanticRecordFlags::DROPPED_BEFORE != 0) == (i == 0
                && bridge.dropped_pending)
        }
}

proof fn loss_flag_is_read()
    ensures
        0u32 & SemanticRecordFlags::DROPPED_BEFORE == 0,
        SemanticRecordFlags::DROPPED_BEFORE & SemanticRecordFlags::DROPPED_BEFORE != 0,
{
    assert(0u32 & 1u32 == 0 && 1u32 & 1u32 != 0) by (bit_vector);
}

/// The begin of a step tells what it was given, and is followed by a record for
/// each slice, in their order, that tells what the slice was given.
pub proof fn step_group_tells_what_it_was_given(
    bridge: SemanticBridge,
    timestamp_ns: u64,
    step_id: u64,
    scheduled_tokens: u32,
    prefill_tokens: u32,
    decode_tokens: u32,
    queue_depth: u32,
    active_requests: u32,
    kv_cache_usage_permyriad: u16,
    slices: Seq<SemanticSliceInput>,
)
    requires
        slices.len() <= u32::MAX,
    ensures
        ({
            let group = bridge.step_group(
                timestamp_ns,
                step_id,
                scheduled_tokens,
                prefill_tokens,
                decode_tokens,
                queue_depth,
                active_requests,
                kv_cache_usage_permyriad,
                slices,
            );
            &&& group.len() == 1 + slices.len()
            &&& is_numbered_group(bridge, group, timestamp_ns, step_id)
            &&& group[0].kind == SemanticRecordKind::EngineStepBegin
            &&& group[0].scheduled_tokens == scheduled_tokens
            &&& group[0].prefill_tokens == prefill_tokens
            &&& group[0].decode_tokens == decode_tokens
            &&& group[0].queue_depth == queue_depth
            &&& group[0].active_requests == active_requests
            &&& group[0].expected_slices == slices.len()
            &&& group[0].kv_cache_usage_permyriad == kv_cache_usage_permyriad
            &&& forall|i: int|
                0 <= i < slices.len() ==> tells_slice(group[1 + i], #[trigger] slices[i])
        }),
{
    loss_flag_is_read();
    let group = bridge.step_group(
        timestamp_ns,
        step_id,
        scheduled_tokens,
        prefill_tokens,
        decode_tokens,
        queue_depth,
        active_requests,
        kv_cache_usage_permyriad,
        slices,
    );
    assert(distance(bridge.next_sequence, bridge.next_sequence) == 0);
    assert forall|i: int| 0 < i < group.len() implies distance(
        bridge.next_sequence,
        (#[trigger] group[i]).sequence,
    ) == i by {
        advance_is_distance(bridge.next_sequence, i);
    }
}

/// Whether the record tells what the slice was given.
pub open spec fn tells_slice(r: SemanticWireRecord, slice: SemanticSliceInput) -> bool {
    &&& r.kind == SemanticRecordKind::StepRequestSlice
    &&& r.request_id == slice.request_id
    &&& r.sequence_id == slice.sequence_id
    &&& r.scheduled_tokens == slice.scheduled_tokens
    &&& r.service_class_id == slice.service_class_id
    &&& r.phase == slice.phase
}

/// A packed layout tells its generation, its tokens and how many slices follow, and
/// each of those tells its request and rows.
pub proof fn layout_group_tells_what_it_was_given(
    bridge: SemanticBridge,
    timestamp_ns: u64,
    step_id: u64,
    packing_generation: u64,
    total_tokens: u32,
    slices: Seq<PackedSliceInput>,
)
    requires
        slices.len() <= u32::MAX,
    ensures
        ({
            let group = bridge.layout_group(
                timestamp_ns,
                step_id,
                packing_generation,
                total_tokens,
                slices,
            );
            &&& group.len() == 1 + slices.len()
            &&& is_numbered_group(bridge, group, timestamp_ns, step_id)
            &&& group[0].kind == SemanticRecordKind::PackedLayoutBegin
            &&& group[0].sequence_id == packing_generation
            &&& group[0].scheduled_tokens == total_tokens
            &&& group[0].expected_slices == slices.len()
            &&& forall|i: int|
                0 <= i < slices.len() ==> tells_rows(
                    group[1 + i],
                    packing_generation,
                    #[trigger] slices[i],
                )
        }),
{
    loss_flag_is_read();
    let group = bridge.layout_group(
        timestamp_ns,
        step_id,
        packing_generation,
        total_tokens,
        slices,
    );
    assert(distance(bridge.next_sequence, bridge.next_sequence) == 0);
    assert forall|i: int| 0 < i < group.len() implies distance(
        bridge.next_sequence,
        (#[trigger] group[i]).sequence,
    ) == i by {
        advance_is_distance(bridge.next_sequence, i);
    }
}

/// Whether the record tells the rows of the slice.
pub open spec fn tells_rows(
    r: SemanticWireRecord,
    packing_generation: u64,
    slice: PackedSliceInput,
) -> bool {
    &&& r.kind == SemanticRecordKind::PackedRequestSlice
    &&& r.request_id == slice.request_id
    &&& r.sequence_id == packing_generation
    &&& r.prefill_tokens == slice.row_begin
    &&& r.decode_tokens == slice.row_end
    &&& r.scheduled_tokens == slice.scheduled_tokens
    &&& r.queue_depth == slice.packed_index
    &&& r.phase == slice.phase
}

/// A group of packed tokens has a record for each token, in their order, that tells
/// its row, its place in the sequence and the token.
pub proof fn token_group_tells_what_it_was_given(
    bridge: SemanticBridge,
    timestamp_ns: u64,
    step_id: u64,
    packing_generation: u64,
    tokens: Seq<PackedTokenInput>,
)
    requires
        tokens.len() <= u32::MAX,
    ensures
        ({
            let group = bridge.token_group(timestamp_ns, step_id, packing_generation, tokens);
            &&& group.len() == tokens.len()
            &&& is_numbered_group(bridge, group, timestamp_ns, step_id)
            &&& forall|i: int|
                0 <= i < tokens.len() ==> {
                    &&& (#[trigger] group[i]).kind == SemanticRecordKind::PackedTokenRow
                    &&& group[i].request_id == tokens[i].request_id
                    &&& group[i].sequence_id == packing_generation
                    &&& group[i].prefill_tokens == tokens[i].packed_row
                    &&& group[i].decode_tokens == tokens[i].sequence_position
                    &&& group[i].scheduled_tokens == tokens[i].token_id
                    &&& group[i].phase == tokens[i].phase
                }
        }),
{
    loss_flag_is_read();
    let group = bridge.token_group(timestamp_ns, step_id, packing_generation, tokens);
    assert forall|i: int| 0 <= i < group.len() implies distance(
        bridge.next_sequence,
        (#[trigger] group[i]).sequence,
    ) == i by {
        advance_is_distance(bridge.next_sequence, i);
    }
}

/// A group of accepted tokens has a record for each token, in their order, that
/// tells its request, its place in the output and the token.
pub proof fn output_group_tells_what_it_was_given(
    bridge: SemanticBridge,
    timestamp_ns: u64,
    step_id: u64,
    tokens: Seq<OutputTokenInput>,
)
    requires
        tokens.len() <= u32::MAX,
    ensures
        ({
            let group = bridge.output_group(timestamp_ns, step_id, tokens);
            &&& group.len() == tokens.len()
            &&& is_numbered_group(bridge, group, timestamp_ns, step_id)
            &&& forall|i: int|
                0 <= i < tokens.len() ==> {
                    &&& (#[trigger] group[i]).kind == SemanticRecordKind::AcceptedOutputToken
                    &&& group[i].request_id == tokens[i].request_id
                    &&& group[i].sequence_id == tokens[i].output_position
                    &&& group[i].scheduled_tokens == tokens[i].token_id
                }
        }),
{
    loss_flag_is_read();
    let group = bridge.output_group(timestamp_ns, step_id, tokens);
    assert forall|i: int| 0 <= i < group.len() implies distance(
        bridge.next_sequence,
        (#[trigger] group[i]).sequence,
    ) == i by {
        advance_is_distance(bridge.next_sequence, i);
    }
}

/// The end of a step is one record that tells how the step ended.
pub proof fn end_group_tells_what_it_was_given(
    bridge: SemanticBridge,
    timestamp_ns: u64,
    step_id: u64,
    status: u8,
)
    ensures
        ({
            let group = bridge.end_group(timestamp_ns, step_id, status);
            &&& group.len() == 1
            &&& is_numbered_group(bridge, group, timestamp_ns, step_id)
            &&& group[0].kind == SemanticRecordKind::EngineStepEnd
            &&& group[0].status == status
        }),
{
    loss_flag_is_read();
    assert(distance(bridge.next_sequence, bridge.next_sequence) == 0);
}

} // verus!
