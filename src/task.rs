use vstd::prelude::*;

use crate::clock::ClockHands;
use crate::constant::MAX_LAYERS;
use crate::radix::{decompose, digit_at, lemma_decompose_digits};

verus! {

/// Identifier of a registered task.
pub type TaskId = u32;

/// What a task is, apart from its callback.
pub ghost struct TaskView {
    pub id: TaskId,
    pub delay: nat,
    pub execute_at: nat,
    pub is_interval: bool,
    pub refed: bool,
}

/// The deadline of a task scheduled at `scheduled_at` with `delay`; it stops
/// at the largest timestamp rather than wrapping.
pub open spec fn deadline(scheduled_at: nat, delay: nat) -> nat {
    if scheduled_at + delay <= usize::MAX {
        scheduled_at + delay
    } else {
        usize::MAX as nat
    }
}

/// A registered unit of work: when it is due, whether it repeats, and
/// whether it keeps the host alive. Its deadline is also held as per-layer
/// digits.
#[derive(Clone, Copy)]
pub struct Task {
    id: TaskId,
    delay: usize,
    clock_hands: ClockHands,
    is_interval: bool,
    refed: bool,
}

impl View for Task {
    type V = TaskView;

    closed spec fn view(&self) -> TaskView {
        TaskView {
            id: self.id,
            delay: self.delay as nat,
            execute_at: self.clock_hands@,
            is_interval: self.is_interval,
            refed: self.refed,
        }
    }
}

impl Task {
    /// The digits agree with the deadline.
    pub closed spec fn wf(&self) -> bool {
        self.clock_hands.wf()
    }

    /// A deadline of a well-formed task has at most `MAX_LAYERS` digits.
    pub proof fn lemma_layer_size(&self)
        requires
            self.wf(),
        ensures
            decompose(self@.execute_at).len() <= MAX_LAYERS,
    {
        self.clock_hands.lemma_digits();
    }

    /// A refed task, due `delay` after `scheduled_at`.
    pub fn new(id: TaskId, scheduled_at: usize, delay: usize, is_interval: bool) -> (r: Self)
        ensures
            r.wf(),
            r@ == (TaskView {
                id,
                delay: delay as nat,
                execute_at: deadline(scheduled_at as nat, delay as nat),
                is_interval,
                refed: true,
            }),
    {
        Task {
            id,
            delay,
            clock_hands: ClockHands::new(scheduled_at.saturating_add(delay)),
            is_interval,
            refed: true,
        }
    }

    pub fn get_id(&self) -> (r: TaskId)
        ensures
            r == self@.id,
    {
        self.id
    }

    pub fn get_delay(&self) -> (r: usize)
        ensures
            r == self@.delay,
    {
        self.delay
    }

    pub fn get_execute_at(&self) -> (r: usize)
        ensures
            r == self@.execute_at,
    {
        self.clock_hands.timestamp()
    }

    /// The bucket in layer `layer_index`: the deadline's digit there.
    pub fn get_bucket_index(&self, layer_index: usize) -> (r: usize)
        requires
            self.wf(),
            layer_index < MAX_LAYERS,
        ensures
            r == digit_at(self@.execute_at, layer_index as int),
            r < 64,
    {
        proof {
            lemma_decompose_digits(self@.execute_at);
        }
        self.clock_hands.index(layer_index)
    }

    /// Number of digits of the deadline: the task is filed in the layer
    /// below this number.
    pub fn layer_size(&self) -> (r: usize)
        requires
            self.wf(),
        ensures
            r == decompose(self@.execute_at).len(),
            r <= MAX_LAYERS,
    {
        self.clock_hands.len()
    }

    pub fn is_interval(&self) -> (r: bool)
        ensures
            r == self@.is_interval,
    {
        self.is_interval
    }

    /// Reschedules the task to fall due `delay` after `scheduled_at`.
    pub fn set_scheduled_at(&mut self, scheduled_at: usize)
        ensures
            final(self).wf(),
            final(self)@ == (TaskView {
                execute_at: deadline(scheduled_at as nat, old(self)@.delay),
                ..old(self)@
            }),
    {
        self.clock_hands.set_timestamp(scheduled_at.saturating_add(self.delay));
    }

    pub fn has_ref(&self) -> (r: bool)
        ensures
            r == self@.refed,
    {
        self.refed
    }

    pub fn set_ref(&mut self)
        ensures
            final(self).wf() == old(self).wf(),
            final(self)@ == (TaskView { refed: true, ..old(self)@ }),
    {
        self.refed = true;
    }

    pub fn clear_ref(&mut self)
        ensures
            final(self).wf() == old(self).wf(),
            final(self)@ == (TaskView { refed: false, ..old(self)@ }),
    {
        self.refed = false;
    }
}

} // verus!
