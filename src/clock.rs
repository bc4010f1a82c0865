use vstd::prelude::*;

use crate::constant::{LAYER_MASK, LAYER_SIZE, MAX_LAYERS};
use crate::radix::{
    decompose, lemma_decompose_digits, lemma_decompose_len_usize, lemma_decompose_succ_carry,
    lemma_decompose_succ_no_carry,
};

verus! {

/// `n` zero digits.
pub open spec fn zeros(n: nat) -> Seq<usize> {
    Seq::new(n, |i: int| 0usize)
}

/// Writes the base-64 digits of `timestamp` into `hands`, lowest first, and
/// zeroes the positions above them. Returns the number of digits.
pub(crate) fn init_hands(hands: &mut [usize; MAX_LAYERS], timestamp: usize) -> (len: usize)
    ensures
        len <= MAX_LAYERS,
        len == decompose(timestamp as nat).len(),
        final(hands)@.subrange(0, len as int) == decompose(timestamp as nat),
        forall|i: int| len <= i < MAX_LAYERS ==> final(hands)@[i] == 0,
{
    let ghost t = timestamp as nat;
    let mut current: usize = timestamp;
    let mut len: usize = 0;
    let mut k: usize = 0;
    proof {
        lemma_decompose_len_usize(timestamp);
    }
    while k < MAX_LAYERS
        invariant
            k <= MAX_LAYERS,
            len <= k,
            decompose(t).len() <= 11,
            decompose(t) == hands@.subrange(0, len as int) + decompose(current as nat),
            current != 0 ==> len == k,
            forall|i: int| len <= i < k ==> hands@[i] == 0,
        decreases MAX_LAYERS - k,
    {
        let ghost before = hands@;
        hands[k] = current % LAYER_SIZE;
        if current != 0 {
            assert(hands@.subrange(0, k + 1) == before.subrange(0, k as int).push(
                (current % 64) as usize,
            ));
            assert(decompose(current as nat) == seq![(current % 64) as usize] + decompose(
                (current / 64) as nat,
            ));
            assert(decompose(t) == hands@.subrange(0, k + 1) + decompose((current / 64) as nat));
            len = k + 1;
        } else {
            assert(hands@.subrange(0, len as int) == before.subrange(0, len as int));
        }
        current = current / LAYER_SIZE;
        k = k + 1;
    }
    if current != 0 {
        assert(decompose(current as nat).len() >= 1);
        assert(false);
    }
    assert(decompose(current as nat).len() == 0);
    len
}

/// Adds one to the number `t` whose digits stand in `hands[0..len]`: each
/// digit of 63 becomes 0 and carries into the next; a carry past the last
/// digit adds a digit of 1. Returns the new number of digits.
pub(crate) fn carry_hands(hands: &mut [usize; MAX_LAYERS], len: usize, Ghost(t): Ghost<nat>) -> (r:
    usize)
    requires
        len == decompose(t).len(),
        len <= MAX_LAYERS,
        old(hands)@.subrange(0, len as int) == decompose(t),
        forall|j: int| len <= j < MAX_LAYERS ==> old(hands)@[j] == 0,
        decompose(t + 1).len() <= MAX_LAYERS,
    ensures
        r <= MAX_LAYERS,
        r == decompose(t + 1).len(),
        final(hands)@.subrange(0, r as int) == decompose(t + 1),
        forall|j: int| r <= j < MAX_LAYERS ==> final(hands)@[j] == 0,
{
    let ghost old_hands = hands@;
    let ghost mut q: nat = t;
    proof {
        lemma_decompose_digits(t);
        assert(zeros(0) + decompose(q + 1) == decompose(q + 1));
    }
    let mut i: usize = 0;
    while i < len
        invariant
            i <= len <= MAX_LAYERS,
            len == decompose(t).len(),
            old_hands.len() == MAX_LAYERS,
            old_hands.subrange(0, len as int) == decompose(t),
            forall|j: int| len <= j < MAX_LAYERS ==> old_hands[j] == 0,
            old_hands.subrange(i as int, len as int) == decompose(q),
            forall|j: int| 0 <= j < i ==> hands@[j] == 0,
            forall|j: int| i <= j < MAX_LAYERS ==> hands@[j] == old_hands[j],
            decompose(t + 1) == zeros(i as nat) + decompose(q + 1),
            decompose(t + 1).len() <= MAX_LAYERS,
        decreases len - i,
    {
        proof {
            assert(decompose(q).len() > 0);
            assert(q != 0);
            assert(decompose(q)[0] == (q % 64) as usize);
            assert(hands@[i as int] == (q % 64) as usize);
        }
        if hands[i] < LAYER_MASK {
            hands[i] = hands[i] + 1;
            proof {
                lemma_decompose_succ_no_carry(q);
                assert(decompose(q).subrange(1, decompose(q).len() as int) == decompose(q / 64));
                assert(hands@.subrange(0, len as int) == zeros(i as nat) + decompose(q + 1));
                assert(hands@.subrange(0, len as int) == decompose(t + 1));
                assert forall|j: int| len <= j < MAX_LAYERS implies hands@[j] == 0 by {
                    assert(hands@[j] == old_hands[j]);
                }
            }
            return len;
        }
        hands[i] = 0;
        proof {
            lemma_decompose_succ_carry(q);
            assert(zeros(i as nat) + decompose(q + 1) == zeros((i + 1) as nat) + decompose(
                q / 64 + 1,
            ));
            assert(old_hands.subrange(i + 1, len as int) == decompose(q).subrange(
                1,
                decompose(q).len() as int,
            ));
            q = q / 64;
        }
        i = i + 1;
    }
    proof {
        if q != 0 {
            assert(decompose(q).len() >= 1);
        }
        assert(decompose(1) == seq![1usize] + decompose(0));
        assert(decompose(t + 1) == zeros(len as nat).push(1usize));
    }
    hands[len] = 1;
    proof {
        assert(hands@.subrange(0, len + 1) == decompose(t + 1));
        assert forall|j: int| len + 1 <= j < MAX_LAYERS implies hands@[j] == 0 by {
            assert(hands@[j] == old_hands[j]);
        }
    }
    len + 1
}

/// The wheel's logical time, kept both as a number and as its base-64 digits
/// (one per layer), so that advancing by one touches only the digits that carry.
#[derive(Clone, Copy)]
pub struct ClockHands {
    hands: [usize; MAX_LAYERS],
    len: usize,
    timestamp: usize,
}

impl View for ClockHands {
    type V = nat;

    /// The timestamp the hands stand for.
    closed spec fn view(&self) -> nat {
        self.timestamp as nat
    }
}

impl ClockHands {
    /// The digits `hands[0..len]` are the decomposition of `timestamp`, and the
    /// positions above them are zero.
    pub closed spec fn wf(&self) -> bool {
        &&& self.len <= MAX_LAYERS
        &&& self.len == decompose(self.timestamp as nat).len()
        &&& self.hands@.subrange(0, self.len as int) == decompose(self.timestamp as nat)
        &&& forall|i: int| self.len <= i < MAX_LAYERS ==> self.hands@[i] == 0
    }

    /// The digits held, lowest first.
    pub closed spec fn digits(&self) -> Seq<usize> {
        self.hands@.subrange(0, self.len as int)
    }

    /// Well-formed hands hold exactly the digits of their timestamp.
    pub proof fn lemma_digits(&self)
        requires
            self.wf(),
        ensures
            self.digits() == decompose(self@),
            self.digits().len() <= MAX_LAYERS,
    {
    }

    /// Hands standing at `timestamp`.
    pub fn new(timestamp: usize) -> (r: Self)
        ensures
            r.wf(),
            r@ == timestamp as nat,
    {
        let mut hands = [0usize; MAX_LAYERS];
        let len = init_hands(&mut hands, timestamp);
        ClockHands { hands, len, timestamp }
    }

    /// Moves the hands to `timestamp`.
    pub fn set_timestamp(&mut self, timestamp: usize)
        ensures
            final(self).wf(),
            final(self)@ == timestamp as nat,
    {
        self.timestamp = timestamp;
        self.len = init_hands(&mut self.hands, timestamp);
    }

    /// The timestamp the hands stand for.
    pub fn timestamp(&self) -> (r: usize)
        ensures
            r as nat == self@,
    {
        self.timestamp
    }

    /// Moves the hands back to zero.
    pub fn reset(&mut self)
        requires
            old(self).wf(),
        ensures
            final(self).wf(),
            final(self)@ == 0,
    {
        let mut i: usize = 0;
        while i < self.len
            invariant
                i <= self.len <= MAX_LAYERS,
                forall|j: int| 0 <= j < i ==> self.hands@[j] == 0,
                forall|j: int| self.len <= j < MAX_LAYERS ==> self.hands@[j] == 0,
            decreases self.len - i,
        {
            self.hands[i] = 0;
            i = i + 1;
        }
        self.len = 0;
        self.timestamp = 0;
        assert(self.hands@.subrange(0, 0) == decompose(0));
    }

    /// Number of digits of the timestamp.
    pub fn len(&self) -> (r: usize)
        requires
            self.wf(),
        ensures
            r == decompose(self@).len(),
            r <= MAX_LAYERS,
    {
        self.len
    }

    /// Advances the hands by one millisecond if they stand before `timestamp`,
    /// carrying from each digit that passes 63 into the next one. Returns
    /// whether they moved.
    pub fn advance_until(&mut self, timestamp: usize) -> (r: bool)
        requires
            old(self).wf(),
        ensures
            final(self).wf(),
            r == (old(self)@ < timestamp),
            r ==> final(self)@ == old(self)@ + 1,
            !r ==> final(self)@ == old(self)@,
    {
        if self.timestamp >= timestamp {
            return false;
        }
        let ghost t = self.timestamp as nat;
        proof {
            lemma_decompose_len_usize((self.timestamp + 1) as usize);
        }
        self.timestamp = self.timestamp + 1;
        self.len = carry_hands(&mut self.hands, self.len, Ghost(t));
        true
    }

    /// The digit of layer `index`, or `None` past the last digit.
    pub fn get(&self, index: usize) -> (r: Option<usize>)
        requires
            self.wf(),
        ensures
            r == (if index < decompose(self@).len() {
                Some(decompose(self@)[index as int])
            } else {
                None
            }),
    {
        if index >= self.len {
            return None;
        }
        assert(self.hands@[index as int] == self.hands@.subrange(0, self.len as int)[index as int]);
        Some(self.hands[index])
    }

    /// The digit of layer `index`; zero past the last digit.
    pub fn index(&self, index: usize) -> (r: usize)
        requires
            self.wf(),
            index < MAX_LAYERS,
        ensures
            r == (if index < decompose(self@).len() {
                decompose(self@)[index as int]
            } else {
                0
            }),
    {
        if index < self.len {
            assert(self.hands@[index as int] == self.hands@.subrange(0, self.len as int)[index as int]);
        }
        self.hands[index]
    }
}

} // verus!
