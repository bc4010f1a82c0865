use vstd::prelude::*;

use crate::clock::{carry_hands, init_hands};
use crate::constant::MAX_LAYERS;
use crate::radix::decompose;

verus! {

/// The bucket index of each layer for one deadline: its base-64 digits,
/// lowest first, without the timestamp itself.
pub struct BucketIndexes {
    indexes: [usize; MAX_LAYERS],
    len: usize,
    value: Ghost<nat>,
}

impl View for BucketIndexes {
    type V = nat;

    /// The number whose digits are held.
    closed spec fn view(&self) -> nat {
        self.value@
    }
}

impl BucketIndexes {
    /// `indexes[0..len]` are the digits of the number held; the positions
    /// above them are zero.
    pub closed spec fn wf(&self) -> bool {
        &&& self.len <= MAX_LAYERS
        &&& self.len == decompose(self.value@).len()
        &&& self.indexes@.subrange(0, self.len as int) == decompose(self.value@)
        &&& forall|i: int| self.len <= i < MAX_LAYERS ==> self.indexes@[i] == 0
    }

    /// The digits of `scheduled_at`.
    pub fn new(scheduled_at: usize) -> (r: Self)
        ensures
            r.wf(),
            r@ == scheduled_at as nat,
    {
        let mut indexes = [0usize; MAX_LAYERS];
        let len = init_hands(&mut indexes, scheduled_at);
        BucketIndexes { indexes, len, value: Ghost(scheduled_at as nat) }
    }

    /// Number of digits.
    pub fn len(&self) -> (r: usize)
        requires
            self.wf(),
        ensures
            r == decompose(self@).len(),
            r <= MAX_LAYERS,
    {
        self.len
    }

    /// Adds one to the number held, carrying between digits.
    pub fn advance(&mut self)
        requires
            old(self).wf(),
            decompose(old(self)@ + 1).len() <= MAX_LAYERS,
        ensures
            final(self).wf(),
            final(self)@ == old(self)@ + 1,
    {
        let ghost t = self.value@;
        self.len = carry_hands(&mut self.indexes, self.len, Ghost(t));
        self.value = Ghost(t + 1);
    }

    /// The digit of layer `index`, or `None` past the last digit.
    pub fn get(&self, index: usize) -> (r: Option<usize>)
        requires
            self.wf(),
        ensures
            r == (if index < decompose(self@).len() {
                Some(decompose(self@)[index as int])
            } else {
                None
            }),
    {
        if index >= self.len {
            return None;
        }
        assert(self.indexes@[index as int] == self.indexes@.subrange(0, self.len as int)[index as int]);
        Some(self.indexes[index])
    }

    /// The digit of layer `index`; zero past the last digit.
    pub fn index(&self, index: usize) -> (r: usize)
        requires
            self.wf(),
            index < MAX_LAYERS,
        ensures
            r == (if index < decompose(self@).len() {
                decompose(self@)[index as int]
            } else {
                0
            }),
    {
        if index < self.len {
            assert(self.indexes@[index as int] == self.indexes@.subrange(0, self.len as int)[index as int]);
        }
        self.indexes[index]
    }
}

} // verus!
