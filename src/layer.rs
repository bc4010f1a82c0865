use vstd::prelude::*;

use crate::constant::{LAYER_SIZE, MAX_LAYERS};
use crate::radix::digit_at;
use crate::task::{Task, TaskId};

verus! {

/// Number of buckets in `s` that hold at least one entry.
pub open spec fn occupied(s: Seq<Seq<TaskId>>) -> nat
    decreases s.len(),
{
    if s.len() == 0 {
        0
    } else {
        occupied(s.drop_last()) + if s.last().len() > 0 {
            1nat
        } else {
            0nat
        }
    }
}

/// Replacing one bucket changes the count by that bucket alone.
pub proof fn lemma_occupied_update(s: Seq<Seq<TaskId>>, b: int, x: Seq<TaskId>)
    requires
        0 <= b < s.len(),
    ensures
        occupied(s.update(b, x)) + (if s[b].len() > 0 {
            1nat
        } else {
            0nat
        }) == occupied(s) + (if x.len() > 0 {
            1nat
        } else {
            0nat
        }),
    decreases s.len(),
{
    let t = s.update(b, x);
    if b == s.len() - 1 {
        assert(t.drop_last() == s.drop_last());
    } else {
        assert(t.drop_last() == s.drop_last().update(b, x));
        lemma_occupied_update(s.drop_last(), b, x);
    }
}

/// No bucket is occupied exactly when every bucket is empty.
pub proof fn lemma_occupied_zero(s: Seq<Seq<TaskId>>)
    ensures
        occupied(s) <= s.len(),
        (occupied(s) == 0) == (forall|i: int| 0 <= i < s.len() ==> #[trigger] s[i].len() == 0),
    decreases s.len(),
{
    if s.len() > 0 {
        lemma_occupied_zero(s.drop_last());
        if occupied(s) == 0 {
            assert forall|i: int| 0 <= i < s.len() implies #[trigger] s[i].len() == 0 by {
                if i < s.len() - 1 {
                    assert(s[i] == s.drop_last()[i]);
                }
            }
        }
        if forall|i: int| 0 <= i < s.len() ==> #[trigger] s[i].len() == 0 {
            assert forall|i: int| 0 <= i < s.drop_last().len() implies #[trigger] s.drop_last()[i].len()
                == 0 by {
                assert(s[i] == s.drop_last()[i]);
            }
            assert(s.last().len() == 0);
        }
    }
}

/// One level of the wheel: 64 buckets, each an ordered list of the ids filed
/// there. `size` counts the buckets that hold anything.
pub struct BucketLayer {
    buckets: Vec<Vec<TaskId>>,
    layer_index: usize,
    size: usize,
}

impl BucketLayer {
    /// The lists of ids, one per bucket.
    pub closed spec fn buckets(&self) -> Seq<Seq<TaskId>> {
        self.buckets@.map_values(|v: Vec<TaskId>| v@)
    }

    /// Which layer of the wheel this is.
    pub closed spec fn layer(&self) -> nat {
        self.layer_index as nat
    }

    pub closed spec fn wf(&self) -> bool {
        &&& self.buckets@.len() == LAYER_SIZE
        &&& self.size == occupied(self.buckets())
        &&& self.layer_index < MAX_LAYERS
    }

    /// A well-formed layer has one list per bucket.
    pub proof fn lemma_shape(&self)
        requires
            self.wf(),
        ensures
            self.buckets().len() == LAYER_SIZE,
    {
    }

    /// Whether no bucket holds an entry.
    pub open spec fn spec_is_empty(&self) -> bool {
        forall|b: int| 0 <= b < LAYER_SIZE ==> #[trigger] self.buckets()[b].len() == 0
    }

    /// Layer `layer_index`, with every bucket empty.
    pub fn new(layer_index: usize) -> (r: Self)
        requires
            layer_index < MAX_LAYERS,
        ensures
            r.wf(),
            r.layer() == layer_index,
            r.buckets().len() == LAYER_SIZE,
            r.spec_is_empty(),
    {
        let mut buckets: Vec<Vec<TaskId>> = Vec::new();
        let mut i: usize = 0;
        while i < LAYER_SIZE
            invariant
                i <= LAYER_SIZE,
                buckets@.len() == i,
                forall|j: int| 0 <= j < i ==> (#[trigger] buckets@[j])@.len() == 0,
            decreases LAYER_SIZE - i,
        {
            buckets.push(Vec::new());
            i = i + 1;
        }
        let r = BucketLayer { buckets, layer_index, size: 0 };
        proof {
            lemma_occupied_zero(r.buckets());
            assert forall|b: int| 0 <= b < LAYER_SIZE implies #[trigger] r.buckets()[b].len() == 0 by {
                assert(r.buckets()[b] == buckets@[b]@);
            }
        }
        r
    }

    /// Appends `task` to the bucket that its deadline's digit in this layer
    /// selects.
    pub fn insert(&mut self, task: &Task)
        requires
            old(self).wf(),
            task.wf(),
        ensures
            final(self).wf(),
            final(self).layer() == old(self).layer(),
            final(self).buckets() == old(self).buckets().update(
                digit_at(task@.execute_at, old(self).layer() as int) as int,
                old(self).buckets()[digit_at(task@.execute_at, old(self).layer() as int) as int].push(
                    task@.id,
                ),
            ),
    {
        let bucket = task.get_bucket_index(self.layer_index);
        let ghost before = self.buckets();
        let was_empty = self.buckets[bucket].len() == 0;
        self.buckets[bucket].push(task.get_id());
        proof {
            assert(self.buckets() == before.update(bucket as int, before[bucket as int].push(task@.id)));
            lemma_occupied_update(before, bucket as int, before[bucket as int].push(task@.id));
            lemma_occupied_zero(before);
        }
        if was_empty {
            self.size = self.size + 1;
        }
    }

    /// Whether no bucket holds an entry.
    pub fn is_empty(&self) -> (r: bool)
        requires
            self.wf(),
        ensures
            r == self.spec_is_empty(),
    {
        proof {
            lemma_occupied_zero(self.buckets());
        }
        self.size == 0
    }

    /// Detaches bucket `bucket` and hands back its entries in insertion
    /// order; `None` when it held none.
    pub fn dropdown(&mut self, bucket: usize) -> (r: Option<Vec<TaskId>>)
        requires
            old(self).wf(),
            bucket < LAYER_SIZE,
        ensures
            final(self).wf(),
            final(self).layer() == old(self).layer(),
            final(self).buckets() == old(self).buckets().update(bucket as int, seq![]),
            match r {
                Some(v) => v@ == old(self).buckets()[bucket as int] && v@.len() > 0,
                None => old(self).buckets()[bucket as int].len() == 0,
            },
    {
        if self.buckets[bucket].len() == 0 {
            assert(self.buckets()[bucket as int] =~= seq![]);
            assert(self.buckets() =~= old(self).buckets().update(bucket as int, seq![]));
            return None;
        }
        let ghost before = self.buckets();
        let mut tasks: Vec<TaskId> = Vec::new();
        std::mem::swap(&mut self.buckets[bucket], &mut tasks);
        proof {
            assert(self.buckets() == before.update(bucket as int, seq![]));
            lemma_occupied_update(before, bucket as int, seq![]);
        }
        self.size = self.size - 1;
        Some(tasks)
    }
}

} // verus!
