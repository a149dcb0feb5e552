//! Positions by identifier.

use std::collections::HashMap;
use vstd::prelude::*;

verus! {

/// Where the entry with an identifier stands.
pub struct IdIndex {
    positions: HashMap<u64, usize>,
}

impl IdIndex {
    pub closed spec fn positions(self) -> Map<u64, usize> {
        self.positions@
    }

    pub fn new() -> (index: Self)
        ensures
            index.positions() == Map::<u64, usize>::empty(),
    {
        IdIndex { positions: HashMap::new() }
    }

    /// The position of the entry with the identifier.
    pub fn get(&self, id: u64) -> (r: Option<usize>)
        ensures
            r == if self.positions().dom().contains(id) {
                Some(self.positions()[id])
            } else {
                None
            },
    {
        broadcast use vstd::std_specs::hash::group_hash_axioms;

        match self.positions.get(&id) {
            Some(position) => Some(*position),
            None => None,
        }
    }

    /// Sets the position of the entry with the identifier.
    pub fn insert(&mut self, id: u64, position: usize)
        ensures
            final(self).positions() == old(self).positions().insert(id, position),
    {
        broadcast use vstd::std_specs::hash::group_hash_axioms;

        self.positions.insert(id, position);
    }
}

// Tables of records with identifiers.

/// A record with an identifier.
pub trait Identified: Copy {
    spec fn spec_id(self) -> u64;

    fn id(&self) -> (r: u64)
        ensures
            r == self.spec_id(),
    ;
}

/// Whether one of the records has the identifier.
pub open spec fn has_id<T: Identified>(rows: Seq<T>, id: u64) -> bool {
    exists|i: int| 0 <= i < rows.len() && (#[trigger] rows[i]).spec_id() == id
}

/// The record with the identifier.
pub open spec fn row_with<T: Identified>(rows: Seq<T>, id: u64) -> Option<T> {
    if has_id(rows, id) {
        Some(rows[choose|i: int| 0 <= i < rows.len() && (#[trigger] rows[i]).spec_id() == id])
    } else {
        None
    }
}

/// Records, each found by its identifier.
pub struct IdTable<T> {
    rows: Vec<T>,
    index: IdIndex,
}

impl<T: Identified> IdTable<T> {
    pub closed spec fn rows(self) -> Seq<T> {
        self.rows@
    }

    pub closed spec fn wf(self) -> bool {
        &&& forall|i: int|
            0 <= i < self.rows@.len() ==> self.index.positions().dom().contains(
                (#[trigger] self.rows@[i]).spec_id(),
            ) && self.index.positions()[self.rows@[i].spec_id()] == i
        &&& forall|id: u64| #[trigger]
            self.index.positions().dom().contains(id) ==> self.index.positions()[id]
                < self.rows@.len() && self.rows@[self.index.positions()[id] as int].spec_id() == id
    }

    pub fn new() -> (table: Self)
        ensures
            table.wf(),
            table.rows() == Seq::<T>::empty(),
    {
        IdTable { rows: Vec::new(), index: IdIndex::new() }
    }

    pub fn len(&self) -> (n: usize)
        ensures
            n == self.rows().len(),
    {
        self.rows.len()
    }

    /// The record with the identifier.
    pub fn get(&self, id: u64) -> (r: Option<T>)
        requires
            self.wf(),
        ensures
            r == row_with(self.rows(), id),
    {
        match self.index.get(id) {
            Some(position) => {
                proof {
                    assert(self.index.positions().dom().contains(id));
                    assert(self.rows@[position as int].spec_id() == id);
                    let i = choose|i: int|
                        0 <= i < self.rows@.len() && (#[trigger] self.rows@[i]).spec_id() == id;
                    assert(self.index.positions()[self.rows@[i].spec_id()] == i);
                }
                Some(self.rows[position])
            },
            None => {
                assert(!has_id(self.rows@, id));
                None
            },
        }
    }

    /// Adds a record, unless there is one with its identifier.
    pub fn insert(&mut self, row: T) -> (added: bool)
        requires
            old(self).wf(),
        ensures
            final(self).wf(),
            added <==> !has_id(old(self).rows(), row.spec_id()),
            final(self).rows() == if added {
                old(self).rows().push(row)
            } else {
                old(self).rows()
            },
    {
        let id: u64 = row.id();
        let ghost before = self.index.positions();
        let ghost old_rows = self.rows@;
        if let Some(position) = self.index.get(id) {
            assert(before.dom().contains(id));
            assert(self.rows@[position as int].spec_id() == id);
            return false;
        }
        assert(!has_id(self.rows@, id));
        let position: usize = self.rows.len();
        self.index.insert(id, position);
        self.rows.push(row);
        proof {
            assert forall|i: int|
                0 <= i < self.rows@.len() implies self.index.positions().dom().contains(
                (#[trigger] self.rows@[i]).spec_id(),
            ) && self.index.positions()[self.rows@[i].spec_id()] == i by {
                if i < old_rows.len() {
                    assert(old_rows[i] == self.rows@[i]);
                    assert(before.dom().contains(old_rows[i].spec_id()));
                }
            }
            assert forall|other: u64| #[trigger]
                self.index.positions().dom().contains(other) implies self.index.positions()[other]
                < self.rows@.len() && self.rows@[self.index.positions()[other] as int].spec_id()
                == other by {
                if other != id {
                    assert(before.dom().contains(other));
                    assert(old_rows[before[other] as int] == self.rows@[before[other] as int]);
                }
            }
        }
        true
    }
}

} // verus!
