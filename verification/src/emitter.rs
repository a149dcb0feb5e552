//! Publication of event records without blocking. A record that finds no room
//! is dropped and counted, and the next one that is published says so.

use crate::event::EventRecord;
use crate::ring::{Consumer, Producer, SpscRing};
use vstd::prelude::*;

verus! {

#[derive(Clone, Copy, Debug, PartialEq, Eq, Structural)]
pub enum EmitOutcome {
    Published,
    Dropped,
}

pub struct EventEmitter {
    pub producer: Producer,
    pub dropped_since_publish: u64,
    pub total_dropped: u64,
}

/// The sum of two counts, or the largest count where it does not fit.
pub open spec fn saturating_sum(a: int, b: int) -> int {
    if a + b <= u64::MAX {
        a + b
    } else {
        u64::MAX as int
    }
}

/// The batch as it is published: its first record is marked where records
/// were dropped before it.
pub open spec fn marked_batch(events: Seq<EventRecord>, mark: bool) -> Seq<EventRecord> {
    if mark && events.len() > 0 {
        events.update(0, events[0].marked())
    } else {
        events
    }
}

/// What an emitter remembers of records that it dropped.
#[verifier::ext_equal]
pub struct Losses {
    pub since_publish: int,
    pub total: int,
}

/// The record as it is published: marked where records were dropped before it.
pub open spec fn published(event: EventRecord, losses: Losses) -> EventRecord {
    if losses.since_publish != 0 {
        event.marked()
    } else {
        event
    }
}

/// What an emitter remembers after a record that found room, or found none.
pub open spec fn after_emit(losses: Losses, has_room: bool) -> Losses {
    if has_room {
        Losses { since_publish: 0, ..losses }
    } else {
        Losses {
            since_publish: saturating_sum(losses.since_publish, 1),
            total: saturating_sum(losses.total, 1),
        }
    }
}

impl EventEmitter {
    pub open spec fn losses(self) -> Losses {
        Losses {
            since_publish: self.dropped_since_publish as int,
            total: self.total_dropped as int,
        }
    }

    pub fn new(producer: Producer) -> (emitter: Self)
        ensures
            emitter.producer == producer,
            emitter.dropped_since_publish == 0,
            emitter.total_dropped == 0,
    {
        EventEmitter { producer, dropped_since_publish: 0, total_dropped: 0 }
    }

    /// Publishes the record, marked where records were dropped before it, or
    /// drops it where the ring is full.
    pub fn emit(&mut self, ring: &mut SpscRing<EventRecord>, event: EventRecord) -> (r: EmitOutcome)
        requires
            old(ring).wf(),
            old(self).producer.attached(*old(ring)),
        ensures
            final(ring).wf(),
            final(self).producer.attached(*final(ring)),
            final(ring).spec_capacity() == old(ring).spec_capacity(),
            forall|c: Consumer| #[trigger]
                c.attached(*old(ring)) ==> c.attached(*final(ring)),
            r == EmitOutcome::Published <==> old(ring).queued().len() < old(ring).spec_capacity(),
            final(self).losses() == after_emit(
                old(self).losses(),
                old(ring).queued().len() < old(ring).spec_capacity(),
            ),
            r == EmitOutcome::Published ==> final(ring).queued() == old(ring).queued().push(
                published(event, old(self).losses()),
            ),
            r == EmitOutcome::Dropped ==> *final(ring) == *old(ring),
    {
        let mut event = event;
        if self.dropped_since_publish != 0 {
            event.mark_dropped_before();
        }
        match self.producer.try_push(ring, event) {
            Ok(_) => {
                self.dropped_since_publish = 0;
                EmitOutcome::Published
            },
            Err(_) => {
                self.record_drop(1);
                EmitOutcome::Dropped
            },
        }
    }

    /// Publishes all of the records together, the first one marked where
    /// records were dropped before, or drops all of them.
    pub fn emit_batch(
        &mut self,
        ring: &mut SpscRing<EventRecord>,
        events: &mut [EventRecord],
    ) -> (r: EmitOutcome)
        requires
            old(ring).wf(),
            old(self).producer.attached(*old(ring)),
        ensures
            final(ring).wf(),
            final(self).producer.attached(*final(ring)),
            final(ring).spec_capacity() == old(ring).spec_capacity(),
            forall|c: Consumer| #[trigger]
                c.attached(*old(ring)) ==> c.attached(*final(ring)),
            final(events)@ == marked_batch(old(events)@, old(self).dropped_since_publish != 0),
            r == EmitOutcome::Published <==> old(events)@.len() == 0 || old(ring).queued().len()
                + old(events)@.len() <= old(ring).spec_capacity(),
            r == EmitOutcome::Published ==> {
                &&& final(ring).queued() == old(ring).queued() + final(events)@
                &&& final(self).dropped_since_publish == if old(events)@.len() == 0 {
                    old(self).dropped_since_publish
                } else {
                    0
                }
                &&& final(self).total_dropped == old(self).total_dropped
            },
            r == EmitOutcome::Dropped ==> {
                &&& *final(ring) == *old(ring)
                &&& final(self).dropped_since_publish == saturating_sum(
                    old(self).dropped_since_publish as int,
                    old(events)@.len() as int,
                )
                &&& final(self).total_dropped == saturating_sum(
                    old(self).total_dropped as int,
                    old(events)@.len() as int,
                )
            },
    {
        if events.len() == 0 {
            assert(old(ring).queued() + events@ =~= old(ring).queued());
            return EmitOutcome::Published;
        }
        if self.dropped_since_publish != 0 {
            let mut first = events[0];
            first.mark_dropped_before();
            events[0] = first;
        }
        if self.producer.try_push_slice_all(ring, events) {
            self.dropped_since_publish = 0;
            EmitOutcome::Published
        } else {
            self.record_drop(events.len() as u64);
            EmitOutcome::Dropped
        }
    }

    pub fn total_dropped(&self) -> (r: u64)
        ensures
            r == self.total_dropped,
    {
        self.total_dropped
    }

    pub fn dropped_since_publish(&self) -> (r: u64)
        ensures
            r == self.dropped_since_publish,
    {
        self.dropped_since_publish
    }

    fn record_drop(&mut self, count: u64)
        ensures
            final(self).producer == old(self).producer,
            final(self).dropped_since_publish == saturating_sum(
                old(self).dropped_since_publish as int,
                count as int,
            ),
            final(self).total_dropped == saturating_sum(
                old(self).total_dropped as int,
                count as int,
            ),
    {
        self.dropped_since_publish = self.dropped_since_publish.saturating_add(count);
        self.total_dropped = self.total_dropped.saturating_add(count);
    }
}

/// What the emission of records comes to: which of them were published, as
/// they were published, and what the emitter remembers.
#[verifier::ext_equal]
pub struct Emissions {
    pub places: Seq<int>,
    pub records: Seq<EventRecord>,
    pub losses: Losses,
}

/// The emissions of a new emitter. A record finds room or finds none as the
/// consumer leaves it.
pub open spec fn emissions(events: Seq<EventRecord>, has_room: spec_fn(int) -> bool) -> Emissions
    decreases events.len(),
{
    if events.len() == 0 {
        Emissions {
            places: Seq::empty(),
            records: Seq::empty(),
            losses: Losses { since_publish: 0, total: 0 },
        }
    } else {
        let before = emissions(events.drop_last(), has_room);
        let place = events.len() - 1;
        let losses = after_emit(before.losses, has_room(place));
        if has_room(place) {
            Emissions {
                places: before.places.push(place),
                records: before.records.push(published(events.last(), before.losses)),
                losses,
            }
        } else {
            Emissions { losses, ..before }
        }
    }
}

/// The place that the record before this one among the published ones had.
pub open spec fn place_before(places: Seq<int>, i: int) -> int {
    if i == 0 {
        -1
    } else {
        places[i - 1]
    }
}

/// Whether a published record is marked exactly where the one right before it
/// was dropped.
pub open spec fn marks_loss(events: Seq<EventRecord>, result: Emissions, i: int) -> bool {
    let place = result.places[i];
    let previous = place_before(result.places, i);
    &&& -1 <= previous < place < events.len()
    &&& result.records[i] == if place == previous + 1 {
        events[place]
    } else {
        events[place].marked()
    }
}

/// Every record is published or counted as dropped, and a published record is
/// marked exactly where the one right before it was dropped.
pub proof fn every_record_is_accounted_for(
    events: Seq<EventRecord>,
    has_room: spec_fn(int) -> bool,
)
    requires
        events.len() <= u64::MAX,
    ensures
        ({
            let result = emissions(events, has_room);
            &&& result.records.len() == result.places.len()
            &&& result.records.len() + result.losses.total == events.len()
            &&& result.losses.since_publish == events.len() - 1 - place_before(
                result.places,
                result.places.len() as int,
            )
            &&& forall|i: int|
                0 <= i < result.places.len() ==> #[trigger] marks_loss(events, result, i)
        }),
    decreases events.len(),
{
    if events.len() > 0 {
        let start = events.drop_last();
        every_record_is_accounted_for(start, has_room);
        let before = emissions(start, has_room);
        let result = emissions(events, has_room);
        let count = before.places.len() as int;
        assert(place_before(result.places, count) == place_before(before.places, count));
        assert(-1 <= place_before(before.places, count) < start.len()) by {
            if count > 0 {
                assert(marks_loss(start, before, count - 1));
            }
        }
        assert forall|i: int| 0 <= i < result.places.len() implies #[trigger] marks_loss(
            events,
            result,
            i,
        ) by {
            if i < count {
                assert(marks_loss(start, before, i));
                assert(result.places[i] == before.places[i]);
                assert(result.records[i] == before.records[i]);
                assert(place_before(result.places, i) == place_before(before.places, i));
            } else {
                assert(result.places[i] == events.len() - 1);
                assert(result.records[i] == published(events.last(), before.losses));
            }
        }
    }
}

} // verus!
