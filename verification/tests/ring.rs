use gpu_observer::emitter::{EmitOutcome, EventEmitter};
use gpu_observer::event::{EngineStepEndData, EventContext, EventFlags, EventRecord, SourceKind};
use gpu_observer::ring::{RingError, SpscRing};

fn event(sequence: u64) -> EventRecord {
    EventRecord::engine_step_end(
        EventContext {
            source_timestamp_ns: sequence,
            timestamp_ns: sequence,
            sequence,
            pid: 42,
            tid: 43,
            clock_id: 1,
            flags: EventFlags::TIMESTAMP_NORMALIZED,
            source: SourceKind::Vllm,
        },
        EngineStepEndData {
            step_id: sequence,
            status: 0,
            reserved: [0; 7],
        },
    )
}

#[test]
fn rejects_capacities_that_make_masking_invalid() {
    assert!(matches!(
        SpscRing::<u64>::try_new(3),
        Err(RingError::CapacityMustBePowerOfTwo)
    ));
}

#[test]
fn full_ring_returns_ownership_to_the_producer() {
    let mut ring = SpscRing::try_new(2).unwrap();
    let (mut producer, mut consumer) = ring.split();
    assert_eq!(producer.try_push(&mut ring, 10), Ok(()));
    assert_eq!(producer.try_push(&mut ring, 20), Ok(()));
    assert_eq!(producer.try_push(&mut ring, 30), Err(30));
    assert_eq!(consumer.try_pop(&mut ring), Some(10));
    assert_eq!(consumer.try_pop(&mut ring), Some(20));
    assert_eq!(consumer.try_pop(&mut ring), None);
}

#[test]
fn batched_operations_wrap_without_reordering() {
    let mut ring = SpscRing::try_new(4).unwrap();
    let (mut producer, mut consumer) = ring.split();
    assert_eq!(producer.push_slice(&mut ring, &[1, 2, 3]), 3);
    assert_eq!(consumer.try_pop(&mut ring), Some(1));
    assert_eq!(producer.push_slice(&mut ring, &[4, 5, 6]), 2);

    let mut output = [0; 4];
    assert_eq!(consumer.pop_slice(&mut ring, &mut output), 4);
    assert_eq!(output, [2, 3, 4, 5]);
}

#[test]
fn steady_state_push_and_pop_keep_every_value() {
    let mut ring = SpscRing::try_new(1 << 12).unwrap();
    let (mut producer, mut consumer) = ring.split();
    for value in 0..100_000_u64 {
        producer.try_push(&mut ring, value).unwrap();
        assert_eq!(consumer.try_pop(&mut ring), Some(value));
    }
    assert_eq!(ring.len_approx(), 0);
}

#[test]
fn batch_of_everything_or_nothing() {
    let mut ring = SpscRing::try_new(4).unwrap();
    let (mut producer, mut consumer) = ring.split();
    assert!(producer.try_push_slice_all(&mut ring, &[1, 2, 3]));
    assert!(!producer.try_push_slice_all(&mut ring, &[4, 5]));
    assert_eq!(producer.remaining_approx(&ring), 1);
    assert_eq!(consumer.available_approx(&ring), 3);
    assert!(producer.try_push_slice_all(&mut ring, &[4]));
    assert_eq!(consumer.try_pop(&mut ring), Some(1));
    assert_eq!(ring.capacity(), 4);
}

#[test]
fn overload_is_nonblocking_and_next_record_exposes_the_gap() {
    let mut ring = SpscRing::try_new(2).unwrap();
    let (producer, mut consumer) = ring.split();
    let mut emitter = EventEmitter::new(producer);
    assert_eq!(emitter.emit(&mut ring, event(1)), EmitOutcome::Published);
    assert_eq!(emitter.emit(&mut ring, event(2)), EmitOutcome::Published);
    assert_eq!(emitter.emit(&mut ring, event(3)), EmitOutcome::Dropped);
    assert_eq!(consumer.try_pop(&mut ring).unwrap().header.sequence, 1);
    assert_eq!(emitter.emit(&mut ring, event(4)), EmitOutcome::Published);
    assert_eq!(consumer.try_pop(&mut ring).unwrap().header.sequence, 2);
    let fourth = consumer.try_pop(&mut ring).unwrap();
    assert_eq!(fourth.header.sequence, 4);
    assert_ne!(fourth.header.flags & EventFlags::DROPPED_BEFORE, 0);
    assert_eq!(emitter.total_dropped(), 1);
}

#[test]
fn semantic_batch_is_all_or_nothing() {
    let mut ring = SpscRing::try_new(4).unwrap();
    let (producer, mut consumer) = ring.split();
    let mut emitter = EventEmitter::new(producer);
    assert_eq!(
        emitter.emit_batch(&mut ring, &mut [event(1), event(2), event(3)]),
        EmitOutcome::Published
    );
    assert_eq!(
        emitter.emit_batch(&mut ring, &mut [event(4), event(5)]),
        EmitOutcome::Dropped
    );
    assert_eq!(consumer.try_pop(&mut ring).unwrap().header.sequence, 1);
    assert_eq!(consumer.try_pop(&mut ring).unwrap().header.sequence, 2);
    assert_eq!(consumer.try_pop(&mut ring).unwrap().header.sequence, 3);
    assert!(consumer.try_pop(&mut ring).is_none());
}

#[test]
fn ring_without_storage_is_refused() {
    assert!(matches!(
        SpscRing::<u64>::with_slots(4, None),
        Err(RingError::AllocationFailed)
    ));
    let ring = SpscRing::<u64>::with_slots(4, Some(Vec::new())).ok().unwrap();
    assert_eq!((ring.capacity(), ring.len_approx()), (4, 0));
}

#[test]
fn accepted_values_are_delivered_or_queued() {
    let mut ring = SpscRing::try_new(2).unwrap();
    let (mut producer, mut consumer) = ring.split();
    let mut accepted = Vec::new();
    let mut delivered = Vec::new();
    for value in 0..20 {
        if producer.try_push(&mut ring, value).is_ok() {
            accepted.push(value);
        }
        if value % 3 == 0 {
            delivered.extend(consumer.try_pop(&mut ring));
        }
    }
    assert_eq!(delivered.len(), 7);
    while let Some(value) = consumer.try_pop(&mut ring) {
        delivered.push(value);
    }
    assert_eq!(accepted, delivered);
}

#[test]
fn records_are_published_or_counted_as_dropped() {
    let mut ring = SpscRing::try_new(2).unwrap();
    let (producer, mut consumer) = ring.split();
    let mut emitter = EventEmitter::new(producer);
    let mut published = Vec::new();
    for sequence in 0..10 {
        if emitter.emit(&mut ring, event(sequence)) == EmitOutcome::Published {
            published.push(sequence);
        }
        if sequence % 4 == 3 {
            consumer.try_pop(&mut ring);
        }
    }
    assert_eq!(published, [0, 1, 4, 8]);
    assert_eq!(emitter.total_dropped(), 6);
    assert_eq!(emitter.dropped_since_publish(), 1);
    let last = consumer.try_pop(&mut ring);
    let marked = [last, consumer.try_pop(&mut ring)]
        .map(|record| record.map(|record| record.header.is_dropped_before()));
    assert_eq!(marked, [Some(true), Some(true)]);
}

#[test]
fn batches_come_out_once_in_order() {
    let mut ring = SpscRing::try_new(8).unwrap();
    let (mut producer, mut consumer) = ring.split();
    let mut accepted: Vec<u64> = Vec::new();
    let mut delivered: Vec<u64> = Vec::new();
    let mut next: u64 = 0;
    for round in 0..12 {
        let batch: Vec<u64> = (next..next + 5).collect();
        next += 5;
        if round % 3 == 0 {
            if producer.try_push_slice_all(&mut ring, &batch) {
                accepted.extend(&batch);
            }
        } else {
            let taken = producer.push_slice(&mut ring, &batch);
            accepted.extend(&batch[..taken]);
        }
        let mut out = [0_u64; 3];
        let handed = consumer.pop_slice(&mut ring, &mut out);
        delivered.extend(&out[..handed]);
        assert_eq!(delivered, accepted[..delivered.len()]);
        assert_eq!(ring.len_approx(), accepted.len() - delivered.len());
        assert!(ring.len_approx() <= ring.capacity());
    }
    while let Some(value) = consumer.try_pop(&mut ring) {
        delivered.push(value);
    }
    assert_eq!(delivered, accepted);
}
