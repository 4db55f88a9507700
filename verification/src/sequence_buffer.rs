//! A fixed ring of optional values, indexed by sequence modulo its size.

use vstd::prelude::*;

verus! {

pub struct SequenceBuffer<T> {
    pub values: Vec<Option<T>>,
    pub partition_by: u16,
}

impl<T> SequenceBuffer<T> {
    /// The ring has one slot for each remainder.
    pub open spec fn wf(&self) -> bool {
        &&& self.partition_by > 0
        &&& self.values@.len() == self.partition_by
    }

    /// The slot a sequence falls into.
    pub open spec fn slot_of(&self, sequence: u16) -> int {
        (sequence % self.partition_by) as int
    }

    /// A ring of `size` empty slots.
    pub fn create(size: u16) -> (r: Self)
        requires
            size > 0,
        ensures
            r.wf(),
            r.partition_by == size,
            forall|i: int| 0 <= i < size ==> r.values@[i] is None,
    {
        let mut values: Vec<Option<T>> = Vec::new();
        let mut i: u16 = 0;
        while i < size
            invariant
                i <= size,
                values@.len() == i,
                forall|j: int| 0 <= j < i ==> values@[j] is None,
            decreases size - i,
        {
            values.push(None);
            i = i + 1;
        }
        SequenceBuffer { values, partition_by: size }
    }

    #[must_use]
    pub fn sequence_to_index(&self, sequence: u16) -> (r: usize)
        requires
            self.partition_by > 0,
        ensures
            r == self.slot_of(sequence),
            r < self.partition_by,
    {
        (sequence % self.partition_by) as usize
    }

    /// Puts `value` into the slot of `sequence`, over whatever was there.
    pub fn insert(&mut self, sequence: u16, value: T) -> (r: Option<&mut T>)
        requires
            old(self).wf(),
        ensures
            r is Some,
            *r->0 == value,
            final(self).partition_by == old(self).partition_by,
            final(self).values@ == old(self).values@.update(
                old(self).slot_of(sequence),
                Some(*final(r->0)),
            ),
    {
        let index = self.sequence_to_index(sequence);
        self.values[index] = Some(value);
        self.values[index].as_mut()
    }

    /// Empties the slot of `sequence`.
    pub fn remove(&mut self, sequence: u16)
        requires
            old(self).wf(),
        ensures
            final(self).partition_by == old(self).partition_by,
            final(self).values@ == old(self).values@.update(old(self).slot_of(sequence), None),
    {
        let index = self.sequence_to_index(sequence);
        self.values[index] = None;
    }

    /// Empties the slot at `index`.
    pub fn remove_at_index(&mut self, index: usize)
        requires
            index < old(self).values@.len(),
        ensures
            final(self).partition_by == old(self).partition_by,
            final(self).values@ == old(self).values@.update(index as int, None),
    {
        self.values[index] = None;
    }

    #[must_use]
    pub fn is_some(&self, sequence: u16) -> (r: bool)
        requires
            self.wf(),
        ensures
            r == (self.values@[self.slot_of(sequence)] is Some),
    {
        let index = self.sequence_to_index(sequence);
        self.values[index].is_some()
    }

    /// Takes the value out of the slot of `sequence`, leaving it empty.
    pub fn take(&mut self, sequence: u16) -> (r: Option<T>)
        requires
            old(self).wf(),
        ensures
            r == old(self).values@[old(self).slot_of(sequence)],
            final(self).partition_by == old(self).partition_by,
            final(self).values@ == old(self).values@.update(old(self).slot_of(sequence), None),
    {
        let index = self.sequence_to_index(sequence);
        self.values[index].take()
    }

    #[must_use]
    pub fn get(&self, sequence: u16) -> (r: Option<&T>)
        requires
            self.partition_by > 0,
        ensures
            r == (if self.slot_of(sequence) < self.values@.len() {
                match self.values@[self.slot_of(sequence)] {
                    Some(v) => Some(&v),
                    None => None,
                }
            } else {
                None
            }),
    {
        let index = self.sequence_to_index(sequence);
        self.get_at_index(index)
    }

    pub fn get_at_index(&self, index: usize) -> (r: Option<&T>)
        ensures
            r == (if index < self.values@.len() {
                match self.values@[index as int] {
                    Some(v) => Some(&v),
                    None => None,
                }
            } else {
                None
            }),
    {
        if index < self.values.len() {
            self.values[index].as_ref()
        } else {
            None
        }
    }

    /// The value in the slot of `sequence`, to be changed in place.
    pub fn get_mut(&mut self, sequence: u16) -> (r: Option<&mut T>)
        requires
            old(self).partition_by > 0,
        ensures
            final(self).partition_by == old(self).partition_by,
            match r {
                Some(v) => {
                    &&& old(self).slot_of(sequence) < old(self).values@.len()
                    &&& old(self).values@[old(self).slot_of(sequence)] == Some(*v)
                    &&& final(self).values@ == old(self).values@.update(
                        old(self).slot_of(sequence),
                        Some(*final(v)),
                    )
                },
                None => {
                    &&& final(self).values@ == old(self).values@
                    &&& (old(self).slot_of(sequence) >= old(self).values@.len() || old(
                        self,
                    ).values@[old(self).slot_of(sequence)] is None)
                },
            },
    {
        let index = self.sequence_to_index(sequence);
        if index < self.values.len() && self.values[index].is_some() {
            self.values[index].as_mut()
        } else {
            None
        }
    }
}

} // verus!
