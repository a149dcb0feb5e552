//! A bounded single-producer single-consumer ring with wrapping cursors.
//!
//! The capacity is a power of two, so a cursor finds its slot by masking and
//! may wrap around the cursor type without losing its place. The two ends keep
//! a cursor of their own and a cached copy of the opposite one, which is
//! refreshed only where the cached copy says that the ring is full or empty.

use crate::storage::reserve_exact;
use vstd::arithmetic::div_mod::{lemma_mod_equivalence, lemma_mod_mod, lemma_small_mod};
use vstd::arithmetic::power2::{
    lemma_pow2_adds, lemma_pow2_pos, lemma_pow2_strictly_increases, lemma_pow2_unfold, pow2,
};
use vstd::bits::{low_bits_mask, lemma_u64_low_bits_mask_is_mod};
use vstd::prelude::*;

verus! {

#[derive(Clone, Copy, Debug, PartialEq, Eq, Structural)]
pub enum RingError {
    CapacityMustBePowerOfTwo,
    AllocationFailed,
}

impl RingError {
    /// What went wrong, in words.
    pub fn message(self) -> (text: &'static str)
        ensures
            text@ == match self {
                RingError::CapacityMustBePowerOfTwo =>
                    "ring capacity must be a power of two greater than one"@,
                RingError::AllocationFailed => "unable to allocate ring storage"@,
            },
    {
        match self {
            RingError::CapacityMustBePowerOfTwo =>
                "ring capacity must be a power of two greater than one",
            RingError::AllocationFailed => "unable to allocate ring storage",
        }
    }
}

/// Whether a ring may have this capacity.
pub open spec fn valid_capacity(capacity: int) -> bool {
    exists|exponent: nat| exponent > 0 && #[trigger] pow2(exponent) == capacity
}

/// The distance from one wrapping cursor to another.
pub open spec fn distance(from: u64, to: u64) -> int {
    if to >= from {
        to - from
    } else {
        to - from + 0x1_0000_0000_0000_0000
    }
}

/// A use of a ring by one of its ends.
pub enum RingUse<T> {
    Push(T),
    PushSome(Seq<T>),
    PushAll(Seq<T>),
    Pop,
    PopSome(nat),
}

/// How many of so many values fit behind those that are queued.
pub open spec fn fitting(queued: nat, capacity: int, offered: nat) -> int {
    if offered <= capacity - queued {
        offered as int
    } else {
        capacity - queued
    }
}

/// The values that the ring takes in.
pub open spec fn taken_in<T>(queued: Seq<T>, capacity: int, action: RingUse<T>) -> Seq<T> {
    match action {
        RingUse::Push(value) => if queued.len() < capacity {
            seq![value]
        } else {
            Seq::empty()
        },
        RingUse::PushSome(values) => values.take(fitting(queued.len(), capacity, values.len())),
        RingUse::PushAll(values) => if queued.len() + values.len() <= capacity {
            values
        } else {
            Seq::empty()
        },
        _ => Seq::empty(),
    }
}

/// The values that the ring hands out: the oldest ones.
pub open spec fn handed_out<T>(queued: Seq<T>, action: RingUse<T>) -> Seq<T> {
    match action {
        RingUse::Pop => if queued.len() > 0 {
            queued.take(1)
        } else {
            Seq::empty()
        },
        RingUse::PopSome(count) => if count <= queued.len() {
            queued.take(count as int)
        } else {
            queued
        },
        _ => Seq::empty(),
    }
}

/// What is queued after the use.
pub open spec fn after_use<T>(queued: Seq<T>, capacity: int, action: RingUse<T>) -> Seq<T> {
    queued.skip(handed_out(queued, action).len() as int) + taken_in(queued, capacity, action)
}

pub struct SpscRing<T> {
    slots: Vec<Option<T>>,
    mask: u64,
    head: u64,
    tail: u64,
}

/// The sending end of a ring.
pub struct Producer {
    head: u64,
    cached_tail: u64,
}

/// The receiving end of a ring.
pub struct Consumer {
    tail: u64,
    cached_head: u64,
}

pub proof fn wrapped_cursor_keeps_its_slot(cursor: int, capacity: int)
    requires
        valid_capacity(capacity),
        capacity <= 0x8000_0000_0000_0000,
        0 <= cursor,
    ensures
        (cursor % 0x1_0000_0000_0000_0000) % capacity == cursor % capacity,
        capacity >= 2,
{
    let e = choose|e: nat| e > 0 && #[trigger] pow2(e) == capacity;
    lemma_pow2_unfold(e);
    lemma_pow2_pos((e - 1) as nat);
    assert(pow2(64) == 0x1_0000_0000_0000_0000) by {
        vstd::arithmetic::power2::lemma2_to64();
    }
    if e >= 64 {
        if e > 64 {
            lemma_pow2_strictly_increases(64, e);
        }
        assert(false);
    }
    lemma_pow2_adds(e, (64 - e) as nat);
    lemma_pow2_pos((64 - e) as nat);
    lemma_mod_mod(cursor, capacity, pow2((64 - e) as nat) as int);
}

pub proof fn masked_is_slot(cursor: u64, capacity: int, mask: u64)
    requires
        valid_capacity(capacity),
        capacity <= 0x8000_0000_0000_0000,
        mask == capacity - 1,
    ensures
        (cursor & mask) == cursor as int % capacity,
        (cursor & mask) < capacity,
{
    let e = choose|e: nat| e > 0 && #[trigger] pow2(e) == capacity;
    assert(pow2(63) == 0x8000_0000_0000_0000) by {
        vstd::arithmetic::power2::lemma2_to64();
        vstd::arithmetic::power2::lemma_pow2_unfold(64);
    }
    if e > 63 {
        lemma_pow2_strictly_increases(63, e);
        assert(false);
    }
    lemma_u64_low_bits_mask_is_mod(cursor, e);
    assert(low_bits_mask(e) == mask);
    lemma_pow2_pos(e);
}

pub proof fn near_cursors_have_own_slots(cursor: int, capacity: int, gap: int)
    requires
        0 < gap < capacity,
        0 <= cursor,
    ensures
        (cursor + gap) % capacity != cursor % capacity,
{
    if (cursor + gap) % capacity == cursor % capacity {
        lemma_mod_equivalence(cursor + gap, cursor, capacity);
        lemma_small_mod(gap as nat, capacity as nat);
    }
}

pub(crate) fn is_power_of_two(value: usize) -> (r: bool)
    ensures
        r == exists|exponent: nat| #[trigger] pow2(exponent) == value,
{
    let mut power: usize = 1;
    let ghost mut exponent: nat = 0;
    proof {
        vstd::arithmetic::power2::lemma2_to64();
    }
    while power < value && power <= usize::MAX / 2
        invariant
            power == pow2(exponent),
            power >= 1,
            forall|e: nat| e < exponent ==> #[trigger] pow2(e) < value,
        decreases usize::MAX - power,
    {
        proof {
            lemma_pow2_unfold(exponent + 1);
            exponent = exponent + 1;
        }
        power = power * 2;
    }
    proof {
        if power < value {
            // The next power does not fit, so no power is the value.
            assert forall|e: nat| #[trigger] pow2(e) != value by {
                if e > exponent {
                    lemma_pow2_unfold(exponent + 1);
                    if e > exponent + 1 {
                        lemma_pow2_strictly_increases(exponent + 1, e);
                    }
                }
            }
        } else if power > value {
            assert forall|e: nat| #[trigger] pow2(e) != value by {
                if e > exponent {
                    lemma_pow2_strictly_increases(exponent, e);
                }
            }
        }
    }
    power == value
}

impl<T> SpscRing<T> {
    pub closed spec fn spec_capacity(self) -> int {
        self.slots@.len() as int
    }

    closed spec fn len(self) -> int {
        distance(self.tail, self.head)
    }

    closed spec fn slot(self, offset: int) -> int {
        (self.tail + offset) % self.spec_capacity()
    }

    /// The cursors lie within one capacity of each other and every slot
    /// between them is filled.
    pub closed spec fn wf(self) -> bool {
        &&& valid_capacity(self.spec_capacity())
        &&& self.spec_capacity() <= 0x8000_0000_0000_0000
        &&& self.mask == self.spec_capacity() - 1
        &&& self.len() <= self.spec_capacity()
        &&& forall|i: int|
            0 <= i < self.len() ==> (#[trigger] self.slots@[self.slot(i)]) is Some
    }

    /// The queued values, oldest first.
    pub closed spec fn queued(self) -> Seq<T> {
        Seq::new(self.len() as nat, |i: int| self.slots@[self.slot(i)]->0)
    }

    /// A ring of the capacity, which has to be a power of two greater than one.
    /// Whether there is storage for it is up to the machine.
    pub fn try_new(capacity: usize) -> (r: Result<Self, RingError>)
        ensures
            match r {
                Ok(ring) => valid_capacity(capacity as int) && ring.wf() && ring.queued()
                    == Seq::<T>::empty() && ring.spec_capacity() == capacity,
                Err(RingError::CapacityMustBePowerOfTwo) => !valid_capacity(capacity as int),
                Err(RingError::AllocationFailed) => valid_capacity(capacity as int),
            },
    {
        let power: bool = is_power_of_two(capacity);
        if capacity < 2 || !power {
            proof {
                assert forall|e: nat| e > 0 implies #[trigger] pow2(e) != capacity by {
                    lemma_pow2_unfold(e);
                    lemma_pow2_pos((e - 1) as nat);
                }
            }
            return Err(RingError::CapacityMustBePowerOfTwo);
        }
        proof {
            let e = choose|e: nat| #[trigger] pow2(e) == capacity;
            vstd::arithmetic::power2::lemma2_to64();
            assert(e > 0);
            assert(valid_capacity(capacity as int));
        }
        let mut slots: Vec<Option<T>> = Vec::new();
        if reserve_exact(&mut slots, capacity) {
            Self::with_slots(capacity, Some(slots))
        } else {
            Self::with_slots(capacity, None)
        }
    }

    /// A ring of the capacity in the storage that was reserved for it, where
    /// there is any.
    pub fn with_slots(capacity: usize, slots: Option<Vec<Option<T>>>) -> (r: Result<Self, RingError>)
        requires
            valid_capacity(capacity as int),
            slots matches Some(slots) ==> slots@.len() == 0,
        ensures
            match (r, slots) {
                (Ok(ring), Some(_)) => ring.wf() && ring.queued() == Seq::<T>::empty()
                    && ring.spec_capacity() == capacity,
                (Err(error), None) => error == RingError::AllocationFailed,
                _ => false,
            },
    {
        proof {
            let e = choose|e: nat| e > 0 && #[trigger] pow2(e) == capacity;
            vstd::arithmetic::power2::lemma2_to64();
            if e >= 64 {
                if e > 64 {
                    lemma_pow2_strictly_increases(64, e);
                }
            } else if e < 63 {
                lemma_pow2_strictly_increases(e, 63);
            }
            lemma_pow2_unfold(64);
            lemma_pow2_unfold(e);
            lemma_pow2_pos((e - 1) as nat);
        }
        let mut slots: Vec<Option<T>> = match slots {
            Some(slots) => slots,
            None => {
                return Err(RingError::AllocationFailed);
            },
        };
        let mut count: usize = 0;
        while count < capacity
            invariant
                count <= capacity,
                slots@.len() == count,
            decreases capacity - count,
        {
            slots.push(None);
            count = count + 1;
        }
        let ring = SpscRing { slots, mask: (capacity - 1) as u64, head: 0, tail: 0 };
        assert(ring.queued() =~= Seq::<T>::empty());
        Ok(ring)
    }

    pub fn capacity(&self) -> (r: usize)
        ensures
            r == self.spec_capacity(),
    {
        self.slots.len()
    }

    /// How many values are queued.
    pub fn len_approx(&self) -> (r: usize)
        requires
            self.wf(),
        ensures
            r == self.queued().len(),
            r <= self.spec_capacity(),
    {
        let used: u64 = self.head.wrapping_sub(self.tail);
        assert(used <= self.slots.len());
        used as usize
    }

    /// The two ends of the ring.
    pub fn split(&mut self) -> (ends: (Producer, Consumer))
        requires
            old(self).wf(),
        ensures
            *final(self) == *old(self),
            ends.0.attached(*old(self)),
            ends.1.attached(*old(self)),
    {
        (
            Producer { head: self.head, cached_tail: self.tail },
            Consumer { tail: self.tail, cached_head: self.head },
        )
    }
}

/// Whether `after` is `before` with a value stored behind the newest one.
closed spec fn stored<T>(before: SpscRing<T>, after: SpscRing<T>, value: T) -> bool {
    &&& after.mask == before.mask
    &&& after.tail == before.tail
    &&& after.head == before.head.wrapping_add(1)
    &&& after.slots@ == before.slots@.update(before.slot(before.len()), Some(value))
}

proof fn storing_appends<T>(before: SpscRing<T>, after: SpscRing<T>, value: T)
    requires
        before.wf(),
        before.len() < before.spec_capacity(),
        stored(before, after, value),
    ensures
        after.wf(),
        after.len() == before.len() + 1,
        after.queued() == before.queued().push(value),
{
    let capacity = before.spec_capacity();
    assert(after.len() == before.len() + 1);
    assert forall|i: int| 0 <= i < before.len() implies #[trigger] after.slot(i) != before.slot(
        before.len(),
    ) && after.slot(i) == before.slot(i) by {
        near_cursors_have_own_slots(before.tail + i, capacity, before.len() - i);
    }
    assert forall|i: int| 0 <= i < after.len() implies (#[trigger] after.slots@[after.slot(
        i,
    )]) is Some by {
        if i < before.len() {
            assert(before.slots@[before.slot(i)] is Some);
        } else {
            lemma_slot_in_range(before, before.len());
        }
    }
    assert(after.queued() =~= before.queued().push(value)) by {
        lemma_slot_in_range(before, before.len());
        assert forall|i: int| 0 <= i < after.len() implies after.queued()[i]
            == before.queued().push(value)[i] by {
            if i < before.len() {
                assert(after.slots@[after.slot(i)] == before.slots@[before.slot(i)]);
            }
        }
    }
}

proof fn lemma_slot_in_range<T>(ring: SpscRing<T>, offset: int)
    requires
        ring.wf(),
        0 <= offset,
    ensures
        0 <= ring.slot(offset) < ring.spec_capacity(),
{
    wrapped_cursor_keeps_its_slot(ring.tail + offset, ring.spec_capacity());
}

/// The slot of the head cursor is the one behind the newest value.
proof fn head_slot<T>(ring: SpscRing<T>)
    requires
        ring.wf(),
    ensures
        (ring.head & ring.mask) == ring.slot(ring.len()),
        (ring.tail & ring.mask) == ring.slot(0),
        (ring.head & ring.mask) < ring.spec_capacity(),
        (ring.tail & ring.mask) < ring.spec_capacity(),
{
    let capacity = ring.spec_capacity();
    masked_is_slot(ring.head, capacity, ring.mask);
    masked_is_slot(ring.tail, capacity, ring.mask);
    wrapped_cursor_keeps_its_slot(ring.tail + ring.len(), capacity);
    assert((ring.tail + ring.len()) % 0x1_0000_0000_0000_0000 == ring.head as int);
}

/// Whether `after` is `before` with its oldest value taken out.
closed spec fn taken<T>(before: SpscRing<T>, after: SpscRing<T>) -> bool {
    &&& after.mask == before.mask
    &&& after.head == before.head
    &&& after.tail == before.tail.wrapping_add(1)
    &&& after.slots@ == before.slots@.update(before.slot(0), None)
}

proof fn taking_drops_first<T>(before: SpscRing<T>, after: SpscRing<T>)
    requires
        before.wf(),
        before.len() > 0,
        taken(before, after),
    ensures
        after.wf(),
        after.len() == before.len() - 1,
        after.queued() == before.queued().drop_first(),
{
    let capacity = before.spec_capacity();
    assert(after.len() == before.len() - 1);
    assert forall|i: int| 0 <= i < after.len() implies #[trigger] after.slot(i) == before.slot(
        i + 1,
    ) && after.slot(i) != before.slot(0) by {
        wrapped_cursor_keeps_its_slot(before.tail + 1, capacity);
        wrapped_cursor_keeps_its_slot(before.tail + 1 + i, capacity);
        wrapped_cursor_keeps_its_slot(after.tail + i, capacity);
        assert((before.tail + 1 + i) % 0x1_0000_0000_0000_0000 == (after.tail + i)
            % 0x1_0000_0000_0000_0000);
        near_cursors_have_own_slots(before.tail as int, capacity, i + 1);
    }
    assert forall|i: int| 0 <= i < after.len() implies (#[trigger] after.slots@[after.slot(
        i,
    )]) is Some by {
        assert(before.slots@[before.slot(i + 1)] is Some);
    }
    assert(after.queued() =~= before.queued().drop_first()) by {
        assert forall|i: int| 0 <= i < after.len() implies after.queued()[i]
            == before.queued().drop_first()[i] by {
            assert(after.slots@[after.slot(i)] == before.slots@[before.slot(i + 1)]);
        }
    }
}

impl Producer {
    /// Whether this is the sending end of the ring: it stands at the ring's
    /// head, and its cached cursor is one that the receiving end has passed.
    pub closed spec fn attached<T>(self, ring: SpscRing<T>) -> bool {
        &&& self.head == ring.head
        &&& distance(ring.tail, ring.head) <= distance(self.cached_tail, ring.head)
            <= ring.spec_capacity()
    }

    /// Appends the value, or hands it back where the ring is full.
    pub fn try_push<T>(&mut self, ring: &mut SpscRing<T>, value: T) -> (r: Result<(), T>)
        requires
            old(ring).wf(),
            old(self).attached(*old(ring)),
        ensures
            final(ring).wf(),
            final(self).attached(*final(ring)),
            final(ring).spec_capacity() == old(ring).spec_capacity(),
            forall|c: Consumer| #[trigger]
                c.attached(*old(ring)) ==> c.attached(*final(ring)),
            r is Ok <==> old(ring).queued().len() < old(ring).spec_capacity(),
            final(ring).queued() == after_use(
                old(ring).queued(),
                old(ring).spec_capacity(),
                RingUse::Push(value),
            ),
            r is Ok ==> final(ring).queued() == old(ring).queued().push(value),
            r matches Err(returned) ==> returned == value && *final(ring) == *old(ring),
    {
        let capacity: u64 = ring.slots.len() as u64;
        if self.head.wrapping_sub(self.cached_tail) >= capacity {
            self.cached_tail = ring.tail;
            if self.head.wrapping_sub(self.cached_tail) >= capacity {
                return Err(value);
            }
        }
        proof {
            head_slot(*ring);
        }
        let index: usize = (self.head & ring.mask) as usize;
        ring.slots[index] = Some(value);
        self.head = self.head.wrapping_add(1);
        ring.head = self.head;
        proof {
            storing_appends(*old(ring), *ring, value);
        }
        Ok(())
    }

    /// How many values can be appended now.
    pub fn remaining_approx<T>(&mut self, ring: &SpscRing<T>) -> (r: usize)
        requires
            ring.wf(),
            old(self).attached(*ring),
        ensures
            final(self).attached(*ring),
            r == ring.spec_capacity() - ring.queued().len(),
    {
        self.cached_tail = ring.tail;
        let used: u64 = self.head.wrapping_sub(self.cached_tail);
        ring.slots.len() - used as usize
    }

    /// Appends as many of the values as fit, in order, and says how many.
    pub fn push_slice<T: Copy>(&mut self, ring: &mut SpscRing<T>, values: &[T]) -> (count: usize)
        requires
            old(ring).wf(),
            old(self).attached(*old(ring)),
        ensures
            final(ring).wf(),
            final(self).attached(*final(ring)),
            final(ring).spec_capacity() == old(ring).spec_capacity(),
            forall|c: Consumer| #[trigger]
                c.attached(*old(ring)) ==> c.attached(*final(ring)),
            count == fitting(old(ring).queued().len(), old(ring).spec_capacity(), values@.len()),
            final(ring).queued() == after_use(
                old(ring).queued(),
                old(ring).spec_capacity(),
                RingUse::PushSome(values@),
            ),
    {
        let available: usize = self.remaining_approx(ring);
        let count: usize = if available < values.len() {
            available
        } else {
            values.len()
        };
        self.append(ring, values, count);
        count
    }

    /// Appends all of the values, or none where they do not fit together.
    pub fn try_push_slice_all<T: Copy>(&mut self, ring: &mut SpscRing<T>, values: &[T]) -> (r: bool)
        requires
            old(ring).wf(),
            old(self).attached(*old(ring)),
        ensures
            final(ring).wf(),
            final(self).attached(*final(ring)),
            final(ring).spec_capacity() == old(ring).spec_capacity(),
            forall|c: Consumer| #[trigger]
                c.attached(*old(ring)) ==> c.attached(*final(ring)),
            r <==> old(ring).queued().len() + values@.len() <= old(ring).spec_capacity(),
            final(ring).queued() == after_use(
                old(ring).queued(),
                old(ring).spec_capacity(),
                RingUse::PushAll(values@),
            ),
            r ==> final(ring).queued() == old(ring).queued() + values@,
            !r ==> *final(ring) == *old(ring),
    {
        let available: usize = self.remaining_approx(ring);
        if available < values.len() {
            return false;
        }
        self.append(ring, values, values.len());
        assert(values@.take(values@.len() as int) =~= values@);
        true
    }

    fn append<T: Copy>(&mut self, ring: &mut SpscRing<T>, values: &[T], count: usize)
        requires
            old(ring).wf(),
            old(self).attached(*old(ring)),
            count <= values@.len(),
            old(ring).queued().len() + count <= old(ring).spec_capacity(),
        ensures
            final(ring).wf(),
            final(self).attached(*final(ring)),
            final(ring).spec_capacity() == old(ring).spec_capacity(),
            forall|c: Consumer| #[trigger]
                c.attached(*old(ring)) ==> c.attached(*final(ring)),
            final(ring).queued() == old(ring).queued() + values@.take(count as int),
    {
        let mut done: usize = 0;
        assert(old(ring).queued() + values@.take(0) =~= old(ring).queued());
        while done < count
            invariant
                done <= count <= values@.len(),
                old(ring).wf(),
                old(ring).queued().len() + count <= old(ring).spec_capacity(),
                ring.wf(),
                self.attached(*ring),
                ring.spec_capacity() == old(ring).spec_capacity(),
                forall|c: Consumer| #[trigger]
                    c.attached(*old(ring)) ==> c.attached(*ring),
                ring.queued() == old(ring).queued() + values@.take(done as int),
            decreases count - done,
        {
            let pushed = self.try_push(ring, values[done]);
            proof {
                assert(pushed is Ok);
                assert(values@.take(done + 1) =~= values@.take(done as int).push(
                    values@[done as int],
                ));
                assert((old(ring).queued() + values@.take(done as int)).push(values@[done as int])
                    =~= old(ring).queued() + values@.take(done + 1));
            }
            done = done + 1;
        }
    }
}

impl Consumer {
    /// Whether this is the receiving end of the ring: it stands at the ring's
    /// tail, and its cached cursor is one that the sending end has reached.
    pub closed spec fn attached<T>(self, ring: SpscRing<T>) -> bool {
        &&& self.tail == ring.tail
        &&& distance(ring.tail, self.cached_head) <= distance(ring.tail, ring.head)
    }

    /// Takes the oldest value out.
    pub fn try_pop<T>(&mut self, ring: &mut SpscRing<T>) -> (r: Option<T>)
        requires
            old(ring).wf(),
            old(self).attached(*old(ring)),
        ensures
            final(ring).wf(),
            final(self).attached(*final(ring)),
            final(ring).spec_capacity() == old(ring).spec_capacity(),
            forall|p: Producer| #[trigger]
                p.attached(*old(ring)) ==> p.attached(*final(ring)),
            r is Some <==> old(ring).queued().len() > 0,
            r matches Some(value) ==> value == old(ring).queued()[0],
            final(ring).queued() == after_use(
                old(ring).queued(),
                old(ring).spec_capacity(),
                RingUse::Pop,
            ),
            r is None ==> *final(ring) == *old(ring),
    {
        if self.tail == self.cached_head {
            self.cached_head = ring.head;
            if self.tail == self.cached_head {
                return None;
            }
        }
        proof {
            head_slot(*ring);
        }
        assert((self.tail & ring.mask) < ring.slots.len());
        let index: usize = (self.tail & ring.mask) as usize;
        let mut slot: Option<T> = None;
        std::mem::swap(&mut ring.slots[index], &mut slot);
        self.tail = self.tail.wrapping_add(1);
        ring.tail = self.tail;
        proof {
            assert(old(ring).slots@[old(ring).slot(0)] is Some);
            taking_drops_first(*old(ring), *ring);
        }
        slot
    }

    /// How many values can be taken out now.
    pub fn available_approx<T>(&mut self, ring: &SpscRing<T>) -> (r: usize)
        requires
            ring.wf(),
            old(self).attached(*ring),
        ensures
            final(self).attached(*ring),
            r == ring.queued().len(),
    {
        self.cached_head = ring.head;
        let used: u64 = self.cached_head.wrapping_sub(self.tail);
        assert(used <= ring.slots.len());
        used as usize
    }

    /// Moves as many of the oldest values into the output as it holds, and
    /// says how many.
    pub fn pop_slice<T: Copy>(&mut self, ring: &mut SpscRing<T>, output: &mut [T]) -> (count: usize)
        requires
            old(ring).wf(),
            old(self).attached(*old(ring)),
        ensures
            final(ring).wf(),
            final(self).attached(*final(ring)),
            final(ring).spec_capacity() == old(ring).spec_capacity(),
            forall|p: Producer| #[trigger]
                p.attached(*old(ring)) ==> p.attached(*final(ring)),
            count == handed_out(
                old(ring).queued(),
                RingUse::PopSome(old(output)@.len()),
            ).len(),
            final(output)@ == handed_out(old(ring).queued(), RingUse::PopSome(old(output)@.len()))
                + old(output)@.skip(count as int),
            final(ring).queued() == after_use(
                old(ring).queued(),
                old(ring).spec_capacity(),
                RingUse::PopSome(old(output)@.len()),
            ),
    {
        let available: usize = self.available_approx(ring);
        let count: usize = if available < output.len() {
            available
        } else {
            output.len()
        };
        let mut done: usize = 0;
        proof {
            assert(old(ring).queued().take(0) + old(output)@.skip(0) =~= old(output)@);
            assert(old(ring).queued().skip(0) =~= old(ring).queued());
        }
        while done < count
            invariant
                done <= count <= old(output)@.len(),
                count <= old(ring).queued().len(),
                old(ring).wf(),
                ring.wf(),
                self.attached(*ring),
                ring.spec_capacity() == old(ring).spec_capacity(),
                forall|p: Producer| #[trigger]
                    p.attached(*old(ring)) ==> p.attached(*ring),
                output@ == old(ring).queued().take(done as int) + old(output)@.skip(done as int),
                ring.queued() == old(ring).queued().skip(done as int),
            decreases count - done,
        {
            let popped = self.try_pop(ring);
            match popped {
                Some(value) => {
                    output[done] = value;
                },
                None => {
                    assert(false);
                },
            }
            proof {
                assert(old(ring).queued().skip(done as int).drop_first()
                    =~= old(ring).queued().skip(done + 1));
                assert(output@ =~= old(ring).queued().take(done + 1) + old(output)@.skip(
                    done + 1,
                ));
            }
            done = done + 1;
        }
        count
    }
}

/// What the uses of a ring come to: the values that it took in, those that it
/// handed out, and those that are still queued.
#[verifier::ext_equal]
pub struct RingHistory<T> {
    pub accepted: Seq<T>,
    pub delivered: Seq<T>,
    pub queued: Seq<T>,
}

/// The history of a ring that starts empty.
pub open spec fn ring_history<T>(uses: Seq<RingUse<T>>, capacity: int) -> RingHistory<T>
    decreases uses.len(),
{
    if uses.len() == 0 {
        RingHistory {
            accepted: Seq::empty(),
            delivered: Seq::empty(),
            queued: Seq::empty(),
        }
    } else {
        let before = ring_history(uses.drop_last(), capacity);
        RingHistory {
            accepted: before.accepted + taken_in(before.queued, capacity, uses.last()),
            delivered: before.delivered + handed_out(before.queued, uses.last()),
            queued: after_use(before.queued, capacity, uses.last()),
        }
    }
}

/// However its ends take turns, with single values or batches of them, what a
/// ring handed out is the front of what it took in: each value once and in the
/// order of arrival. What is queued is the rest, never more than the capacity,
/// and nothing once all of it was handed out.
pub proof fn values_come_out_once_in_order<T>(uses: Seq<RingUse<T>>, capacity: int)
    requires
        valid_capacity(capacity),
    ensures
        ({
            let history = ring_history(uses, capacity);
            &&& history.accepted == history.delivered + history.queued
            &&& history.delivered.is_prefix_of(history.accepted)
            &&& history.queued.len() == history.accepted.len() - history.delivered.len()
            &&& history.queued.len() <= capacity
            &&& history.queued.len() == 0 <==> history.delivered == history.accepted
        }),
    decreases uses.len(),
{
    let history = ring_history(uses, capacity);
    if uses.len() == 0 {
        let e = choose|e: nat| e > 0 && #[trigger] pow2(e) == capacity;
        lemma_pow2_pos(e);
        assert(history.accepted =~= history.delivered + history.queued);
    } else {
        values_come_out_once_in_order(uses.drop_last(), capacity);
        let before = ring_history(uses.drop_last(), capacity);
        let out = handed_out(before.queued, uses.last());
        assert(before.queued =~= out + before.queued.skip(out.len() as int));
        assert(history.accepted =~= history.delivered + history.queued);
    }
    assert(history.accepted.take(history.delivered.len() as int) =~= history.delivered);
    if history.queued.len() == 0 {
        assert(history.delivered =~= history.accepted);
    }
}

/// A ring holds no more values than its capacity, wherever its cursors are.
pub proof fn queue_fits_the_capacity<T>(ring: SpscRing<T>)
    requires
        ring.wf(),
    ensures
        0 <= ring.queued().len() <= ring.spec_capacity(),
{
}

} // verus!
