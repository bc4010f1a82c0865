use vstd::prelude::*;
use vstd::set_lib::{lemma_len_subset, lemma_set_empty_equivalency_len};

use std::collections::HashMap;

use crate::clock::ClockHands;
use crate::constant::{LAYER_SIZE, MAX_DELAY, MAX_LAYERS, MIN_DELAY};
use crate::layer::BucketLayer;
use crate::radix::{
    decompose, digit_at, lemma_decompose_digits, lemma_decompose_last_nonzero, lemma_digit_prefix,
    lemma_prefix_monotone, lemma_prefix_step, lemma_prefix_zero, prefix,
};
use crate::task::{deadline, Task, TaskId, TaskView};
use crate::timer::Timer;

verus! {

/// What a wheel holds, as seen from outside.
pub ghost struct WheelView {
    /// The registered tasks, by id.
    pub tasks: Map<TaskId, TaskView>,
    /// The wheel's logical time.
    pub timestamp: nat,
    /// Ids surfaced at `timestamp` that the pump has not looked at yet.
    pub pending: Seq<TaskId>,
    /// Where the search for the next fresh id starts.
    pub last_id: TaskId,
}

/// The ids of the tasks that keep the host alive.
pub open spec fn refed_ids(tasks: Map<TaskId, TaskView>) -> Set<TaskId> {
    Set::new(|id: TaskId| tasks.contains_key(id) && tasks[id].refed)
}

/// A requested delay moved into `[MIN_DELAY, MAX_DELAY]`.
pub open spec fn clamp_delay(delay: int) -> nat {
    if delay < MIN_DELAY {
        MIN_DELAY as nat
    } else if delay > MAX_DELAY {
        MAX_DELAY as nat
    } else {
        delay as nat
    }
}

/// The task that `register` files: refed, due `delay` after `now`.
pub open spec fn new_task(id: TaskId, now: nat, delay: int, is_interval: bool) -> TaskView {
    TaskView {
        id,
        delay: clamp_delay(delay),
        execute_at: deadline(now, clamp_delay(delay)),
        is_interval,
        refed: true,
    }
}

/// The wheel after `register` gave id `id` to a task scheduled at `now`.
/// An idle wheel restarts its time at zero.
pub open spec fn registered(w: WheelView, id: TaskId, now: nat, delay: int, is_interval: bool) -> WheelView {
    WheelView {
        tasks: w.tasks.insert(id, new_task(id, now, delay, is_interval)),
        timestamp: if w.tasks.is_empty() {
            0
        } else {
            w.timestamp
        },
        pending: if w.tasks.is_empty() {
            seq![]
        } else {
            w.pending
        },
        last_id: id.wrapping_add(1),
    }
}

/// The wheel after `unregister(id)`.
pub open spec fn unregistered(w: WheelView, id: TaskId) -> WheelView {
    WheelView { tasks: w.tasks.remove(id), ..w }
}

/// The wheel after `set_ref(id)`.
pub open spec fn ref_set(w: WheelView, id: TaskId) -> WheelView {
    if w.tasks.contains_key(id) {
        WheelView { tasks: w.tasks.insert(id, TaskView { refed: true, ..w.tasks[id] }), ..w }
    } else {
        w
    }
}

/// The wheel after `clear_ref(id)`.
pub open spec fn ref_cleared(w: WheelView, id: TaskId) -> WheelView {
    if w.tasks.contains_key(id) {
        WheelView { tasks: w.tasks.insert(id, TaskView { refed: false, ..w.tasks[id] }), ..w }
    } else {
        w
    }
}

/// The wheel after `refresh(id)` at time `now`.
pub open spec fn refreshed(w: WheelView, id: TaskId, now: nat) -> WheelView {
    if w.tasks.contains_key(id) {
        WheelView {
            tasks: w.tasks.insert(
                id,
                TaskView { execute_at: deadline(now, w.tasks[id].delay), ..w.tasks[id] },
            ),
            ..w
        }
    } else {
        w
    }
}

/// The tasks after task `id` fired at `ts`: a one-shot task leaves, an
/// interval task is due again `delay` later.
pub open spec fn after_firing(tasks: Map<TaskId, TaskView>, id: TaskId, ts: nat) -> Map<
    TaskId,
    TaskView,
> {
    if tasks[id].is_interval {
        tasks.insert(id, TaskView { execute_at: deadline(ts, tasks[id].delay), ..tasks[id] })
    } else {
        tasks.remove(id)
    }
}

/// Ids of `pending` whose task is due at `ts`.
pub open spec fn due_ids(tasks: Map<TaskId, TaskView>, pending: Seq<TaskId>, ts: nat) -> Set<
    TaskId,
> {
    Set::new(
        |id: TaskId|
            pending.contains(id) && tasks.contains_key(id) && tasks[id].execute_at == ts,
    )
}

/// Task `id`, due at `e`, sits in layer `j` under its digit there, and its
/// deadline agrees with time `t` on every digit above `j`. Each time the
/// clock's digit in that layer reaches the task's, the cascade carries it one
/// layer down, and out of layer 0 exactly at `e`.
pub open spec fn placed(entries: Seq<Seq<Seq<TaskId>>>, id: TaskId, e: nat, t: nat, j: int) -> bool {
    &&& 0 <= j < entries.len()
    &&& j < decompose(e).len()
    &&& prefix(e, (j + 1) as nat) == prefix(t, (j + 1) as nat)
    &&& digit_at(e, j) < entries[j].len()
    &&& entries[j][digit_at(e, j) as int].contains(id)
}

/// Task `id`, due at `e`, is not overdue at time `t`: if due now it is among
/// the pending entries, and if due later it is placed for the cascade. A
/// clock stopped at the largest timestamp is exempt.
pub open spec fn task_on_track(
    e: nat,
    id: TaskId,
    entries: Seq<Seq<Seq<TaskId>>>,
    pending: Seq<TaskId>,
    t: nat,
) -> bool {
    &&& e >= t
    &&& (e == t ==> (t == usize::MAX || pending.contains(id)))
    &&& (e > t ==> exists|j: int| placed(entries, id, e, t, j))
}

/// Every registered task is on track.
pub open spec fn on_track(
    tasks: Map<TaskId, TaskView>,
    entries: Seq<Seq<Seq<TaskId>>>,
    pending: Seq<TaskId>,
    t: nat,
) -> bool {
    forall|id: TaskId| #[trigger]
        tasks.contains_key(id) ==> task_on_track(tasks[id].execute_at, id, entries, pending, t)
}

/// `b` holds every entry of `a`, in the same layer and bucket.
pub open spec fn grows(a: Seq<Seq<Seq<TaskId>>>, b: Seq<Seq<Seq<TaskId>>>) -> bool {
    &&& a.len() <= b.len()
    &&& forall|j: int| 0 <= j < a.len() ==> (#[trigger] b[j]).len() == a[j].len()
    &&& forall|j: int, k: int, x: TaskId|
        0 <= j < a.len() && 0 <= k < a[j].len() && #[trigger] a[j][k].contains(x) ==> b[j][k].contains(
            x,
        )
}

/// While the cascade has handled the layers from `i` up: each registered task
/// due no earlier than `t` is settled in a handled layer, where it stays, or
/// sits in a layer still to handle, or is in the carry, agreeing with `t`
/// from digit `i` up.
pub open spec fn cascading(
    tasks: Map<TaskId, TaskView>,
    entries: Seq<Seq<Seq<TaskId>>>,
    carry: Seq<TaskId>,
    t: nat,
    i: int,
) -> bool {
    forall|id: TaskId| #[trigger]
        tasks.contains_key(id) ==> task_cascading(
            tasks[id].execute_at,
            id,
            entries,
            carry,
            t,
            i,
        )
}

/// One task's part of `cascading`.
pub open spec fn task_cascading(
    e: nat,
    id: TaskId,
    entries: Seq<Seq<Seq<TaskId>>>,
    carry: Seq<TaskId>,
    t: nat,
    i: int,
) -> bool {
    ||| exists|j: int|
        i <= j && #[trigger] placed(entries, id, e, t, j) && prefix(e, j as nat) != prefix(
            t,
            j as nat,
        )
    ||| exists|j: int| j < i && #[trigger] placed(entries, id, e, t, j)
    ||| (carry.contains(id) && 0 <= i < decompose(e).len() && prefix(e, i as nat) == prefix(
        t,
        i as nat,
    ))
}

proof fn lemma_placed_grows(
    a: Seq<Seq<Seq<TaskId>>>,
    b: Seq<Seq<Seq<TaskId>>>,
    id: TaskId,
    e: nat,
    t: nat,
    j: int,
)
    requires
        grows(a, b),
        placed(a, id, e, t, j),
    ensures
        placed(b, id, e, t, j),
{
    assert(a[j][digit_at(e, j) as int].contains(id));
}

proof fn lemma_on_track_grows(
    tasks: Map<TaskId, TaskView>,
    a: Seq<Seq<Seq<TaskId>>>,
    b: Seq<Seq<Seq<TaskId>>>,
    pending: Seq<TaskId>,
    t: nat,
)
    requires
        grows(a, b),
        on_track(tasks, a, pending, t),
    ensures
        on_track(tasks, b, pending, t),
{
    assert forall|id: TaskId| #[trigger] tasks.contains_key(id) implies task_on_track(
        tasks[id].execute_at,
        id,
        b,
        pending,
        t,
    ) by {
        let e = tasks[id].execute_at;
        assert(task_on_track(e, id, a, pending, t));
        if e > t {
            let j = choose|j: int| placed(a, id, e, t, j);
            lemma_placed_grows(a, b, id, e, t, j);
        }
    }
}

/// Fewer tasks, with the same deadlines, stay on track.
proof fn lemma_on_track_sub(
    tasks: Map<TaskId, TaskView>,
    tasks2: Map<TaskId, TaskView>,
    entries: Seq<Seq<Seq<TaskId>>>,
    pending: Seq<TaskId>,
    t: nat,
)
    requires
        on_track(tasks, entries, pending, t),
        forall|id: TaskId| #[trigger]
            tasks2.contains_key(id) ==> tasks.contains_key(id) && tasks2[id].execute_at
                == tasks[id].execute_at,
    ensures
        on_track(tasks2, entries, pending, t),
{
    assert forall|id: TaskId| #[trigger] tasks2.contains_key(id) implies task_on_track(
        tasks2[id].execute_at,
        id,
        entries,
        pending,
        t,
    ) by {
        assert(tasks.contains_key(id));
    }
}

/// Taking the first pending entry leaves every other task on track.
proof fn lemma_on_track_pop(
    tasks: Map<TaskId, TaskView>,
    entries: Seq<Seq<Seq<TaskId>>>,
    id: TaskId,
    pending: Seq<TaskId>,
    t: nat,
)
    requires
        on_track(tasks, entries, seq![id] + pending, t),
    ensures
        on_track(tasks.remove(id), entries, pending, t),
        !(tasks.contains_key(id) && tasks[id].execute_at == t) ==> on_track(
            tasks,
            entries,
            pending,
            t,
        ),
{
    assert forall|x: TaskId| #[trigger]
        tasks.contains_key(x) && (x != id || !(tasks[x].execute_at == t)) implies task_on_track(
        tasks[x].execute_at,
        x,
        entries,
        pending,
        t,
    ) by {
        assert(task_on_track(tasks[x].execute_at, x, entries, seq![id] + pending, t));
        if tasks[x].execute_at == t && t != usize::MAX {
            assert((seq![id] + pending).contains(x));
            let k = choose|k: int| 0 <= k < (seq![id] + pending).len() && (seq![id] + pending)[k] == x;
            assert(k != 0);
            assert(pending[k - 1] == x);
        }
    }
    assert forall|x: TaskId| #[trigger] tasks.remove(id).contains_key(x) implies task_on_track(
        tasks.remove(id)[x].execute_at,
        x,
        entries,
        pending,
        t,
    ) by {
        assert(tasks.contains_key(x) && x != id);
    }
}

/// A task filed in the layer of its top digit is placed.
proof fn lemma_filed_placed(entries: Seq<Seq<Seq<TaskId>>>, id: TaskId, e: nat, t: nat)
    requires
        e >= t,
        1 <= decompose(e).len() <= entries.len(),
        entries[decompose(e).len() - 1].len() == LAYER_SIZE,
        entries[decompose(e).len() - 1][digit_at(e, decompose(e).len() - 1) as int].contains(id),
    ensures
        placed(entries, id, e, t, decompose(e).len() - 1),
{
    let n = decompose(e).len();
    lemma_digit_prefix(e, (n - 1) as nat);
    lemma_digit_prefix(e, n);
    lemma_prefix_monotone(t, e, n);
}

/// Once nothing is pending at `t`, every task is placed for `t + 1`.
proof fn lemma_on_track_advance(
    tasks: Map<TaskId, TaskView>,
    entries: Seq<Seq<Seq<TaskId>>>,
    pending: Seq<TaskId>,
    t: nat,
)
    requires
        on_track(tasks, entries, pending, t),
        pending.len() == 0,
        t < usize::MAX,
    ensures
        cascading(tasks, entries, seq![], t + 1, entries.len() as int),
        forall|id: TaskId| #[trigger] tasks.contains_key(id) ==> tasks[id].execute_at >= t + 1,
{
    assert forall|id: TaskId| #[trigger] tasks.contains_key(id) implies tasks[id].execute_at >= t
        + 1 && task_cascading(
        tasks[id].execute_at,
        id,
        entries,
        seq![],
        t + 1,
        entries.len() as int,
    ) by {
        let e = tasks[id].execute_at;
        assert(task_on_track(e, id, entries, pending, t));
        if e == t {
            assert(!pending.contains(id));
        }
        let j = choose|j: int| placed(entries, id, e, t, j);
        lemma_prefix_monotone(t, t + 1, (j + 1) as nat);
        lemma_prefix_monotone(t + 1, e, (j + 1) as nat);
        assert(placed(entries, id, e, t + 1, j));
    }
}

proof fn lemma_grows_trans(
    a: Seq<Seq<Seq<TaskId>>>,
    b: Seq<Seq<Seq<TaskId>>>,
    c: Seq<Seq<Seq<TaskId>>>,
)
    requires
        grows(a, b),
        grows(b, c),
    ensures
        grows(a, c),
{
    assert forall|j: int| 0 <= j < a.len() implies (#[trigger] c[j]).len() == a[j].len() by {
        assert(b[j].len() == a[j].len());
    }
    assert forall|j: int, k: int, x: TaskId|
        0 <= j < a.len() && 0 <= k < a[j].len() && #[trigger] a[j][k].contains(x) implies c[j][k].contains(
        x,
    ) by {
        assert(b[j][k].contains(x));
        assert(b[j].len() == a[j].len());
    }
}

/// Appending an id to one bucket keeps every entry.
proof fn lemma_push_grows(a: Seq<Seq<Seq<TaskId>>>, i: int, b: int, id: TaskId)
    requires
        0 <= i < a.len(),
        0 <= b < a[i].len(),
    ensures
        grows(a, a.update(i, a[i].update(b, a[i][b].push(id)))),
{
    let c = a.update(i, a[i].update(b, a[i][b].push(id)));
    assert forall|j: int, k: int, x: TaskId|
        0 <= j < a.len() && 0 <= k < a[j].len() && #[trigger] a[j][k].contains(x) implies c[j][k].contains(
        x,
    ) by {
        if j == i && k == b {
            let n = choose|n: int| 0 <= n < a[j][k].len() && a[j][k][n] == x;
            assert(c[j][k][n] == x);
        }
    }
}

/// A layer whose 64 buckets are all empty.
pub open spec fn empty_layer() -> Seq<Seq<TaskId>> {
    Seq::new(LAYER_SIZE as nat, |k: int| Seq::<TaskId>::empty())
}

/// `entries` with empty layers added on top until there are `n`.
pub open spec fn padded(entries: Seq<Seq<Seq<TaskId>>>, n: nat) -> Seq<Seq<Seq<TaskId>>> {
    if entries.len() >= n {
        entries
    } else {
        entries + Seq::new((n - entries.len()) as nat, |j: int| empty_layer())
    }
}

/// `entries` after filing task `id`, due at `e`: the layers grow to the
/// number of digits of `e`, and `id` goes last into the bucket of the top
/// digit, in the top digit's layer.
pub open spec fn filed(entries: Seq<Seq<Seq<TaskId>>>, e: nat, id: TaskId) -> Seq<Seq<Seq<TaskId>>> {
    let n = decompose(e).len();
    let p = padded(entries, n);
    let j = n - 1;
    let b = digit_at(e, j) as int;
    p.update(j, p[j].update(b, p[j][b].push(id)))
}

/// Entry `id` fires at `t`: its task is registered and due then.
pub open spec fn fires(tasks: Map<TaskId, TaskView>, id: TaskId, t: nat) -> bool {
    tasks.contains_key(id) && tasks[id].execute_at == t
}

/// The top layer, if any, holds an entry.
pub open spec fn top_occupied(entries: Seq<Seq<Seq<TaskId>>>) -> bool {
    entries.len() == 0 || exists|k: int| 0 <= k < entries.last().len() && entries.last()[k].len() > 0
}

/// `a` is an initial part of `b`.
pub open spec fn is_prefix(a: Seq<TaskId>, b: Seq<TaskId>) -> bool {
    a.len() <= b.len() && b.subrange(0, a.len() as int) == a
}

proof fn lemma_prefix_push(a: Seq<TaskId>, b: Seq<TaskId>, x: TaskId)
    requires
        is_prefix(a, b),
    ensures
        is_prefix(a, b.push(x)),
{
    assert(b.push(x).subrange(0, a.len() as int) =~= b.subrange(0, a.len() as int));
}

/// `id` occurs at most once in `s`.
pub open spec fn at_most_once(s: Seq<TaskId>, id: TaskId) -> bool {
    forall|k1: int, k2: int| 0 <= k1 < s.len() && 0 <= k2 < s.len() && s[k1] == id && s[k2] == id ==> k1 == k2
}

/// What a tick did to task `id`, which was `t0` before it, given the tasks
/// `v` after it and the ids `r` it reported. A one-shot task is reported at
/// most once, and then leaves; otherwise it stays unchanged. An interval
/// task stays, changed in its deadline alone, and only if reported. When the
/// tick started no later than `now` (and `now` is not the largest time), a
/// task is reported exactly when its deadline was at most `now`, and an
/// interval task is then due after `now`.
pub open spec fn ticked_task(
    t0: TaskView,
    v: WheelView,
    r: Seq<TaskId>,
    bound: bool,
    now: nat,
    id: TaskId,
) -> bool {
    if !t0.is_interval {
        &&& v.tasks.contains_key(id) == !r.contains(id)
        &&& v.tasks.contains_key(id) ==> v.tasks[id] == t0
        &&& at_most_once(r, id)
        &&& bound ==> r.contains(id) == (t0.execute_at <= now)
    } else {
        &&& v.tasks.contains_key(id)
        &&& v.tasks[id] == TaskView { execute_at: v.tasks[id].execute_at, ..t0 }
        &&& !r.contains(id) ==> v.tasks[id] == t0
        &&& bound ==> r.contains(id) == (t0.execute_at <= now)
        &&& bound ==> v.tasks[id].execute_at > now
    }
}

/// The ids `r` of a tick fired at the times `times`: in order of time, all
/// between the wheel's times before and after, a one-shot task at its
/// deadline.
pub open spec fn fire_order(w: WheelView, v: WheelView, r: Seq<TaskId>, times: Seq<nat>) -> bool {
    &&& times.len() == r.len()
    &&& forall|k1: int, k2: int| 0 <= k1 <= k2 < times.len() ==> times[k1] <= times[k2]
    &&& forall|k: int| 0 <= k < times.len() ==> w.timestamp <= #[trigger] times[k] <= v.timestamp
    &&& forall|k: int|
        0 <= k < times.len() && !w.tasks[r[k]].is_interval ==> #[trigger] times[k]
            == w.tasks[r[k]].execute_at
}

/// What a tick to `now` does, from `w` to `v` (which has `layers` layers),
/// reporting the ids `r`: time moves forward, up to `now` when it started
/// there or before, and reaches `now` unless no task is left, in which case
/// no layer is left either; nothing is left pending or overdue; no task is
/// added; and each task fares as `ticked_task` says.
pub open spec fn tick_outcome(w: WheelView, v: WheelView, layers: nat, now: nat, r: Seq<TaskId>) -> bool {
    &&& v.last_id == w.last_id
    &&& w.timestamp <= v.timestamp
    &&& (w.timestamp <= now ==> v.timestamp <= now)
    &&& v.pending.len() == 0
    &&& (v.timestamp >= now || v.tasks.is_empty())
    &&& (v.tasks.is_empty() ==> layers == 0)
    &&& forall|id: TaskId| #[trigger]
        v.tasks.contains_key(id) ==> v.tasks[id].execute_at > v.timestamp || v.timestamp
            == usize::MAX
    &&& v.tasks.dom().subset_of(w.tasks.dom())
    &&& forall|k: int| 0 <= k < r.len() ==> w.tasks.contains_key(#[trigger] r[k])
    &&& exists|times: Seq<nat>| fire_order(w, v, r, times)
    &&& forall|id: TaskId|
        #![trigger w.tasks.contains_key(id)]
        #![trigger w.tasks[id]]
        w.tasks.contains_key(id) ==> ticked_task(
            w.tasks[id],
            v,
            r,
            w.timestamp <= now && now < usize::MAX,
            now,
            id,
        )
}

/// Loop state of a tick: task `id`, which was `t0`, fares as `ticked_task`
/// says, with `fired` the ids reported so far.
spec fn progress(
    t0: TaskView,
    tasks: Map<TaskId, TaskView>,
    fired: Seq<TaskId>,
    bound: bool,
    now: nat,
    id: TaskId,
) -> bool {
    if !t0.is_interval {
        &&& fired.contains(id) == !tasks.contains_key(id)
        &&& tasks.contains_key(id) ==> tasks[id] == t0
        &&& (fired.contains(id) && bound) ==> t0.execute_at <= now
        &&& at_most_once(fired, id)
    } else {
        &&& tasks.contains_key(id)
        &&& tasks[id] == TaskView { execute_at: tasks[id].execute_at, ..t0 }
        &&& !fired.contains(id) ==> tasks[id] == t0
        &&& (fired.contains(id) && bound) ==> t0.execute_at <= now
    }
}

proof fn lemma_push_contains(s: Seq<TaskId>, x: TaskId, y: TaskId)
    ensures
        s.push(x).contains(y) == (s.contains(y) || x == y),
{
    if s.push(x).contains(y) && x != y {
        let k = choose|k: int| 0 <= k < s.push(x).len() && s.push(x)[k] == y;
        assert(s[k] == y);
    }
    if s.contains(y) {
        let k = choose|k: int| 0 <= k < s.len() && s[k] == y;
        assert(s.push(x)[k] == y);
    }
    if x == y {
        assert(s.push(x)[s.len() as int] == y);
    }
}

proof fn lemma_refed_finite(tasks: Map<TaskId, TaskView>)
    requires
        tasks.dom().finite(),
    ensures
        refed_ids(tasks).finite(),
        refed_ids(tasks).len() <= tasks.dom().len(),
{
    lemma_len_subset(refed_ids(tasks), tasks.dom());
}

proof fn lemma_refed_insert(tasks: Map<TaskId, TaskView>, id: TaskId, v: TaskView)
    requires
        tasks.dom().finite(),
    ensures
        refed_ids(tasks.insert(id, v)) == (if v.refed {
            refed_ids(tasks).insert(id)
        } else {
            refed_ids(tasks).remove(id)
        }),
{
    assert(refed_ids(tasks.insert(id, v)) =~= (if v.refed {
        refed_ids(tasks).insert(id)
    } else {
        refed_ids(tasks).remove(id)
    }));
}

proof fn lemma_refed_remove(tasks: Map<TaskId, TaskView>, id: TaskId)
    ensures
        refed_ids(tasks.remove(id)) == refed_ids(tasks).remove(id),
{
    assert(refed_ids(tasks.remove(id)) =~= refed_ids(tasks).remove(id));
}

/// A hierarchical timing wheel: tasks are filed by the base-64 digits of
/// their deadlines, and each millisecond of logical time drops the current
/// bucket of every layer into the layer below, until layer 0 yields the
/// tasks due now.
pub struct TimingWheel {
    tasks: HashMap<TaskId, Task>,
    layers: Vec<BucketLayer>,
    clock_hands: ClockHands,
    ref_count: usize,
    last_id: TaskId,
    due: Vec<TaskId>,
    cursor: usize,
}

impl View for TimingWheel {
    type V = WheelView;

    closed spec fn view(&self) -> WheelView {
        WheelView {
            tasks: self.tasks@.map_values(|t: Task| t@),
            timestamp: self.clock_hands@,
            pending: self.due@.subrange(self.cursor as int, self.due@.len() as int),
            last_id: self.last_id,
        }
    }
}

impl TimingWheel {
    /// Number of layers in use.
    pub closed spec fn layer_count(&self) -> nat {
        self.layers@.len()
    }

    /// The counter of refed tasks.
    pub closed spec fn ref_count_spec(&self) -> nat {
        self.ref_count as nat
    }

    /// The hands of the wheel's logical time.
    pub closed spec fn hands(&self) -> ClockHands {
        self.clock_hands
    }

    /// The ids in each bucket of each layer.
    pub closed spec fn entries(&self) -> Seq<Seq<Seq<TaskId>>> {
        self.layers@.map_values(|l: BucketLayer| l.buckets())
    }

    /// Well-formed, and every registered task on track to fire at its
    /// deadline.
    pub closed spec fn wf(&self) -> bool {
        &&& self.wf_core()
        &&& on_track(self@.tasks, self.entries(), self@.pending, self@.timestamp)
    }

    /// Every stored task is keyed by its own id, has a delay of at least one
    /// and a deadline past zero, and agrees with its digits; layer `i` sits
    /// at index `i`; the counter counts the refed tasks.
    pub closed spec fn wf_core(&self) -> bool {
        &&& self.clock_hands.wf()
        &&& forall|id: TaskId| #[trigger]
            self.tasks@.contains_key(id) ==> {
                &&& self.tasks@[id].wf()
                &&& self.tasks@[id]@.id == id
                &&& self.tasks@[id]@.delay >= 1
                &&& self.tasks@[id]@.execute_at >= 1
            }
        &&& self.layers@.len() <= MAX_LAYERS
        &&& forall|i: int|
            0 <= i < self.layers@.len() ==> {
                &&& (#[trigger] self.layers@[i]).wf()
                &&& self.layers@[i].layer() == i
            }
        &&& self.ref_count == refed_ids(self@.tasks).len()
        &&& self.cursor <= self.due@.len()
    }

    /// The counter of refed tasks equals the number of registered tasks
    /// that are refed.
    pub proof fn lemma_ref_count(&self)
        requires
            self.wf(),
        ensures
            self.ref_count_spec() == refed_ids(self@.tasks).len(),
    {
    }

    /// The wheel never uses more layers than a `usize` deadline has digits.
    pub proof fn lemma_layers_bounded(&self)
        requires
            self.wf(),
        ensures
            self.layer_count() <= MAX_LAYERS,
    {
    }

    /// The clock hands hold the digits of the wheel's logical time.
    pub proof fn lemma_hands_agree(&self)
        requires
            self.wf(),
        ensures
            self.hands()@ == self@.timestamp,
            self.hands().digits() == decompose(self@.timestamp),
    {
        self.clock_hands.lemma_digits();
    }

    /// Every registered task is due at a positive time, filed in a layer
    /// that exists.
    pub proof fn lemma_task_layers(&self, id: TaskId)
        requires
            self.wf(),
            self@.tasks.contains_key(id),
        ensures
            self@.tasks[id].id == id,
            self@.tasks[id].delay >= 1,
            1 <= decompose(self@.tasks[id].execute_at).len() <= MAX_LAYERS,
    {
        let t = self.tasks@[id];
        lemma_decompose_last_nonzero(t@.execute_at);
        t.lemma_layer_size();
    }

    /// Every registered task that is not due yet has an entry in the layers,
    /// in a layer no higher than its top digit, under its digit there, with
    /// every higher digit equal to the clock's.
    pub proof fn lemma_task_filed(&self, id: TaskId)
        requires
            self.wf(),
            self@.tasks.contains_key(id),
            self@.tasks[id].execute_at > self@.timestamp,
        ensures
            exists|j: int|
                placed(self.entries(), id, self@.tasks[id].execute_at, self@.timestamp, j),
            self.entries().len() == self.layer_count(),
    {
        assert(task_on_track(
            self@.tasks[id].execute_at,
            id,
            self.entries(),
            self@.pending,
            self@.timestamp,
        ));
        self.lemma_entries_shape();
    }

    /// No task is overdue: each is due at or after the wheel's time, and one
    /// due exactly now is among the pending entries.
    pub proof fn lemma_none_overdue(&self, id: TaskId)
        requires
            self.wf(),
            self@.tasks.contains_key(id),
        ensures
            self@.tasks[id].execute_at >= self@.timestamp,
            self@.tasks[id].execute_at == self@.timestamp && self@.timestamp < usize::MAX
                ==> self@.pending.contains(id),
    {
        assert(task_on_track(
            self@.tasks[id].execute_at,
            id,
            self.entries(),
            self@.pending,
            self@.timestamp,
        ));
    }

    /// With nothing pending, a wheel that holds a task holds a layer.
    pub proof fn lemma_layers_iff_tasks(&self)
        requires
            self.wf(),
            self@.pending.len() == 0,
            self@.timestamp < usize::MAX,
        ensures
            !self@.tasks.is_empty() ==> self.layer_count() > 0,
    {
        if !self@.tasks.is_empty() {
            self.lemma_tasks_finite();
            let id = self@.tasks.dom().choose();
            assert(self@.tasks.dom().contains(id)) by {
                assert(!(self@.tasks.dom() =~= Set::empty()));
            }
            self.lemma_none_overdue(id);
            assert(!self@.pending.contains(id));
            self.lemma_task_filed(id);
        }
    }

    /// An empty layer holds no entry.
    proof fn lemma_empty_layer(&self, i: int)
        requires
            self.wf_core(),
            0 <= i < self.layer_count(),
            self.layers@[i].spec_is_empty(),
        ensures
            forall|k: int, x: TaskId|
                0 <= k < LAYER_SIZE ==> !(#[trigger] self.entries()[i][k].contains(x)),
    {
        assert forall|k: int, x: TaskId| 0 <= k < LAYER_SIZE implies !(#[trigger] self.entries()[i][k].contains(
            x,
        )) by {
            assert(self.entries()[i] == self.layers@[i].buckets());
            assert(self.layers@[i].buckets()[k].len() == 0);
        }
    }

    /// Each layer contributes its 64 lists of entries.
    proof fn lemma_entries_shape(&self)
        requires
            self.wf_core(),
        ensures
            self.entries().len() == self.layer_count(),
            forall|j: int|
                0 <= j < self.layer_count() ==> (#[trigger] self.entries()[j]) == self.layers@[j].buckets()
                    && self.entries()[j].len() == LAYER_SIZE,
    {
        assert forall|j: int| 0 <= j < self.layer_count() implies (#[trigger] self.entries()[j])
            == self.layers@[j].buckets() && self.entries()[j].len() == LAYER_SIZE by {
            self.layers@[j].lemma_shape();
        }
    }

    proof fn lemma_tasks_finite(&self)
        ensures
            self@.tasks.dom() == self.tasks@.dom(),
            self@.tasks.dom().finite(),
            self@.tasks.len() == self.tasks@.len(),
    {
        assert(self@.tasks.dom() =~= self.tasks@.dom());
        assert(self.tasks@.dom().finite());
    }

    proof fn lemma_view_insert(&self, id: TaskId, t: Task)
        ensures
            self.tasks@.insert(id, t).map_values(|t: Task| t@) == self@.tasks.insert(id, t@),
    {
        assert(self.tasks@.insert(id, t).map_values(|t: Task| t@) =~= self@.tasks.insert(id, t@));
    }

    proof fn lemma_view_remove(&self, id: TaskId)
        ensures
            self.tasks@.remove(id).map_values(|t: Task| t@) == self@.tasks.remove(id),
    {
        assert(self.tasks@.remove(id).map_values(|t: Task| t@) =~= self@.tasks.remove(id));
    }

    /// An empty wheel at time zero.
    pub fn new() -> (r: Self)
        ensures
            r.wf(),
            r@.tasks.is_empty(),
            r@.timestamp == 0,
            r@.pending.len() == 0,
            r@.last_id == 0,
            r.layer_count() == 0,
    {
        let r = TimingWheel {
            tasks: HashMap::new(),
            layers: Vec::new(),
            clock_hands: ClockHands::new(0),
            ref_count: 0,
            last_id: 0,
            due: Vec::new(),
            cursor: 0,
        };
        assert(r@.tasks =~= Map::empty());
        assert(refed_ids(r@.tasks) =~= Set::empty());
        r
    }

    /// Marks task `id` as keeping the host alive; nothing happens if it is
    /// absent or already refed.
    pub fn set_ref(&mut self, id: TaskId)
        requires
            old(self).wf(),
        ensures
            final(self).wf(),
            final(self)@ == ref_set(old(self)@, id),
            final(self).layer_count() == old(self).layer_count(),
    {
        let mut task = match self.tasks.get(&id) {
            Some(task) => *task,
            None => return,
        };
        if task.has_ref() {
            assert(self@.tasks.insert(id, TaskView { refed: true, ..self@.tasks[id] }) =~= self@.tasks);
            return;
        }
        task.set_ref();
        proof {
            self.lemma_view_insert(id, task);
            self.lemma_tasks_finite();
            lemma_refed_insert(self@.tasks, id, task@);
            lemma_refed_finite(self@.tasks);
            assert(!refed_ids(self@.tasks).contains(id));
        }
        self.tasks.insert(id, task);
        proof {
            self.lemma_tasks_finite();
            lemma_refed_finite(self@.tasks);
            assert(self@.tasks.dom().len() == self.tasks@.len());
            assert(self.tasks@.len() == self.tasks.len());
            lemma_on_track_sub(
                old(self)@.tasks,
                self@.tasks,
                self.entries(),
                self@.pending,
                self@.timestamp,
            );
        }
        self.ref_count = self.ref_count + 1;
    }

    /// Marks task `id` as not keeping the host alive; nothing happens if it
    /// is absent or already unrefed.
    pub fn clear_ref(&mut self, id: TaskId)
        requires
            old(self).wf(),
        ensures
            final(self).wf(),
            final(self)@ == ref_cleared(old(self)@, id),
            final(self).layer_count() == old(self).layer_count(),
    {
        let mut task = match self.tasks.get(&id) {
            Some(task) => *task,
            None => return,
        };
        if !task.has_ref() {
            assert(self@.tasks.insert(id, TaskView { refed: false, ..self@.tasks[id] }) =~= self@.tasks);
            return;
        }
        task.clear_ref();
        proof {
            self.lemma_view_insert(id, task);
            self.lemma_tasks_finite();
            lemma_refed_insert(self@.tasks, id, task@);
            self.lemma_tasks_finite();
            lemma_refed_finite(self@.tasks);
            assert(refed_ids(self@.tasks).contains(id));
        }
        self.tasks.insert(id, task);
        proof {
            lemma_on_track_sub(
                old(self)@.tasks,
                self@.tasks,
                self.entries(),
                self@.pending,
                self@.timestamp,
            );
        }
        self.ref_count = self.ref_count - 1;
    }

    /// Whether no registered task keeps the host alive.
    pub fn is_ref_empty(&self) -> (r: bool)
        requires
            self.wf(),
        ensures
            r == (refed_ids(self@.tasks) == Set::<TaskId>::empty()),
    {
        proof {
            self.lemma_tasks_finite();
            lemma_refed_finite(self@.tasks);
            lemma_set_empty_equivalency_len(refed_ids(self@.tasks));
        }
        self.ref_count == 0
    }

    /// Whether task `id` is registered and keeps the host alive.
    pub fn has_ref(&self, id: TaskId) -> (r: bool)
        requires
            self.wf(),
        ensures
            r == (self@.tasks.contains_key(id) && self@.tasks[id].refed),
    {
        match self.tasks.get(&id) {
            Some(task) => task.has_ref(),
            None => false,
        }
    }

    /// Whether no task is registered.
    pub fn is_empty(&self) -> (r: bool)
        ensures
            r == self@.tasks.is_empty(),
    {
        assert(self@.tasks.dom() =~= self.tasks@.dom());
        self.tasks.is_empty()
    }

    /// Number of registered tasks.
    pub fn len(&self) -> (r: usize)
        ensures
            r == self@.tasks.len(),
    {
        assert(self@.tasks.dom() =~= self.tasks@.dom());
        self.tasks.len()
    }

    /// Number of layers in use.
    pub fn layers_len(&self) -> (r: usize)
        ensures
            r == self.layer_count(),
    {
        self.layers.len()
    }

    /// The wheel's logical time.
    pub fn timestamp(&self) -> (r: usize)
        ensures
            r == self@.timestamp,
    {
        self.clock_hands.timestamp()
    }

    /// The deadline of task `id`, if it is registered.
    pub fn execute_at(&self, id: TaskId) -> (r: Option<usize>)
        requires
            self.wf(),
        ensures
            r == (if self@.tasks.contains_key(id) {
                Some(self@.tasks[id].execute_at as usize)
            } else {
                None
            }),
    {
        match self.tasks.get(&id) {
            Some(task) => Some(task.get_execute_at()),
            None => None,
        }
    }

    /// Appends fresh layers until there are `layer_size` of them.
    fn expand_layers(&mut self, layer_size: usize)
        requires
            old(self).wf_core(),
            layer_size <= MAX_LAYERS,
        ensures
            final(self).wf_core(),
            final(self)@ == old(self)@,
            final(self).layer_count() >= layer_size,
            final(self).layer_count() >= old(self).layer_count(),
            grows(old(self).entries(), final(self).entries()),
            final(self).entries() == padded(old(self).entries(), layer_size as nat),
    {
        let mut len = self.layers.len();
        proof {
            assert(self.entries() =~= padded(old(self).entries(), len as nat));
        }
        while len < layer_size
            invariant
                self.wf_core(),
                self@ == old(self)@,
                len == self.layers@.len(),
                old(self).layer_count() <= len,
                layer_size <= MAX_LAYERS,
                grows(old(self).entries(), self.entries()),
                self.entries() == padded(old(self).entries(), len as nat),
                len == old(self).layer_count() || len <= layer_size,
            decreases layer_size - len,
        {
            let ghost before = self.entries();
            let layer = BucketLayer::new(len);
            let ghost lb = layer.buckets();
            proof {
                assert forall|k: int| 0 <= k < LAYER_SIZE implies lb[k] == Seq::<TaskId>::empty() by {
                    assert(lb[k].len() == 0);
                }
            }
            self.layers.push(layer);
            proof {
                assert(self.entries() =~= before.push(lb));
                assert forall|j: int| 0 <= j < before.len() implies (#[trigger] self.entries()[j]).len()
                    == before[j].len() by {
                    assert(self.entries()[j] == before[j]);
                }
                assert forall|j: int, k: int, x: TaskId|
                    0 <= j < before.len() && 0 <= k < before[j].len() && #[trigger] before[j][k].contains(
                        x,
                    ) implies self.entries()[j][k].contains(x) by {
                    assert(self.entries()[j] == before[j]);
                }
                lemma_grows_trans(old(self).entries(), before, self.entries());
                assert(lb =~= empty_layer());
                assert(self.entries() =~= padded(old(self).entries(), (len + 1) as nat));
            }
            len = len + 1;
        }
        proof {
            assert(self.entries() =~= padded(old(self).entries(), layer_size as nat));
        }
    }

    /// Files `task`: records it under its id and appends it to the bucket of
    /// its deadline's top digit, in the layer of that digit.
    fn register_task_ref(&mut self, task: Task)
        requires
            old(self).wf_core(),
            task.wf(),
            task@.delay >= 1,
            task@.execute_at >= 1,
            task@.execute_at > old(self)@.timestamp || old(self)@.timestamp == usize::MAX,
            task@.execute_at >= old(self)@.timestamp,
            on_track(
                old(self)@.tasks.remove(task@.id),
                old(self).entries(),
                old(self)@.pending,
                old(self)@.timestamp,
            ),
            old(self)@.tasks.contains_key(task@.id) ==> old(self)@.tasks[task@.id].refed
                == task@.refed,
        ensures
            final(self).wf(),
            final(self)@ == (WheelView {
                tasks: old(self)@.tasks.insert(task@.id, task@),
                ..old(self)@
            }),
            final(self).layer_count() >= old(self).layer_count(),
            final(self).entries() == filed(old(self).entries(), task@.execute_at, task@.id),
            final(self).entries().len() == final(self).layer_count(),
    {
        proof {
            lemma_decompose_last_nonzero(task@.execute_at);
        }
        let layer_size = task.layer_size();
        self.expand_layers(layer_size);
        let id = task.get_id();
        proof {
            self.lemma_view_insert(id, task);
            self.lemma_tasks_finite();
            lemma_refed_insert(self@.tasks, id, task@);
            self.lemma_tasks_finite();
            lemma_refed_finite(self@.tasks);
        }
        let prev = self.tasks.insert(id, task);
        if prev.is_none() && task.has_ref() {
            proof {
                self.lemma_tasks_finite();
                lemma_refed_finite(self@.tasks);
                assert(self@.tasks.dom().len() == self.tasks@.len());
                assert(self.tasks@.len() == self.tasks.len());
            }
            self.ref_count = self.ref_count + 1;
        } else {
            proof {
                if task@.refed {
                    assert(refed_ids(old(self)@.tasks).contains(id));
                } else {
                    assert(!refed_ids(old(self)@.tasks).contains(id));
                }
            }
        }
        let ghost mid = self.entries();
        self.insert_into_layer(layer_size - 1, &task);
        proof {
            assert(mid == padded(old(self).entries(), layer_size as nat));
            assert(self.entries() == filed(old(self).entries(), task@.execute_at, task@.id));
            self.lemma_entries_shape();
            let tasks = old(self)@.tasks.insert(id, task@);
            lemma_grows_trans(old(self).entries(), mid, self.entries());
            lemma_on_track_grows(
                old(self)@.tasks.remove(id),
                old(self).entries(),
                self.entries(),
                self@.pending,
                self@.timestamp,
            );
            if task@.execute_at > self@.timestamp {
                self.lemma_entries_shape();
                lemma_filed_placed(self.entries(), id, task@.execute_at, self@.timestamp);
            }
            assert forall|x: TaskId| #[trigger] tasks.contains_key(x) implies task_on_track(
                tasks[x].execute_at,
                x,
                self.entries(),
                self@.pending,
                self@.timestamp,
            ) by {
                if x != id {
                    assert(old(self)@.tasks.remove(id).contains_key(x));
                }
            }
        }
    }

    /// Appends `task` to its bucket in layer `i`.
    fn insert_into_layer(&mut self, i: usize, task: &Task)
        requires
            old(self).wf_core(),
            i < old(self).layer_count(),
            task.wf(),
        ensures
            final(self).wf_core(),
            final(self)@ == old(self)@,
            final(self).layer_count() == old(self).layer_count(),
            final(self).entries() == old(self).entries().update(
                i as int,
                old(self).entries()[i as int].update(
                    digit_at(task@.execute_at, i as int) as int,
                    old(self).entries()[i as int][digit_at(
                        task@.execute_at,
                        i as int,
                    ) as int].push(task@.id),
                ),
            ),
            grows(old(self).entries(), final(self).entries()),
            final(self).entries()[i as int][digit_at(
                task@.execute_at,
                i as int,
            ) as int].contains(task@.id),
    {
        let ghost before = self.layers@;
        self.layers[i].insert(task);
        proof {
            assert forall|j: int| 0 <= j < self.layers@.len() implies {
                &&& (#[trigger] self.layers@[j]).wf()
                &&& self.layers@[j].layer() == j
            } by {
                if j != i {
                    assert(self.layers@[j] == before[j]);
                }
            }
            let b = digit_at(task@.execute_at, i as int) as int;
            let e0 = old(self).entries();
            old(self).lemma_entries_shape();
            lemma_digit_prefix(task@.execute_at, i as nat);
            let e1 = e0.update(i as int, e0[i as int].update(b, e0[i as int][b].push(task@.id)));
            assert(self.entries() =~= e1);
            lemma_push_grows(e0, i as int, b, task@.id);
            assert(e1[i as int][b] == e0[i as int][b].push(task@.id));
            assert(e1[i as int][b][e0[i as int][b].len() as int] == task@.id);
        }
    }

    /// Detaches bucket `b` of layer `i`; empty when it held nothing.
    fn drop_bucket(&mut self, i: usize, b: usize) -> (r: Vec<TaskId>)
        requires
            old(self).wf_core(),
            i < old(self).layer_count(),
            b < LAYER_SIZE,
        ensures
            final(self).wf_core(),
            final(self)@ == old(self)@,
            final(self).layer_count() == old(self).layer_count(),
            final(self).entries() == old(self).entries().update(
                i as int,
                old(self).entries()[i as int].update(b as int, seq![]),
            ),
            r@ == old(self).entries()[i as int][b as int],
    {
        let ghost before = self.layers@;
        let r = match self.layers[i].dropdown(b) {
            Some(tasks) => tasks,
            None => Vec::new(),
        };
        proof {
            assert forall|j: int| 0 <= j < self.layers@.len() implies {
                &&& (#[trigger] self.layers@[j]).wf()
                &&& self.layers@[j].layer() == j
            } by {
                if j != i {
                    assert(self.layers@[j] == before[j]);
                }
            }
            let e0 = old(self).entries();
            old(self).lemma_entries_shape();
            assert(self.entries() =~= e0.update(i as int, e0[i as int].update(b as int, seq![])));
            if r@.len() == 0 {
                assert(r@ =~= e0[i as int][b as int]);
            }
        }
        r
    }

    /// Pops empty layers off the top.
    fn reduce_layers(&mut self)
        requires
            old(self).wf_core(),
        ensures
            final(self).wf_core(),
            final(self)@ == old(self)@,
            final(self).layer_count() <= old(self).layer_count(),
            final(self).entries() == old(self).entries().subrange(
                0,
                final(self).layer_count() as int,
            ),
            forall|j: int, k: int, x: TaskId|
                final(self).layer_count() <= j < old(self).layer_count() && 0 <= k < LAYER_SIZE
                    ==> !(#[trigger] old(self).entries()[j][k].contains(x)),
            top_occupied(final(self).entries()),
    {
        loop
            invariant
                self.wf_core(),
                self@ == old(self)@,
                self.layer_count() <= old(self).layer_count(),
                self.entries() == old(self).entries().subrange(0, self.layer_count() as int),
                forall|j: int, k: int, x: TaskId|
                    self.layer_count() <= j < old(self).layer_count() && 0 <= k < LAYER_SIZE
                        ==> !(#[trigger] old(self).entries()[j][k].contains(x)),
            ensures
                top_occupied(self.entries()),
            decreases self.layers@.len(),
        {
            let len = self.layers.len();
            if len == 0 || !self.layers[len - 1].is_empty() {
                proof {
                    self.lemma_entries_shape();
                    if len > 0 {
                        let l = self.layers@[len - 1];
                        let k = choose|k: int| 0 <= k < LAYER_SIZE && !(l.buckets()[k].len() == 0);
                        assert(self.entries().last()[k].len() > 0);
                    }
                }
                break;
            }
            let ghost top = self.layers@[len - 1];
            proof {
                self.lemma_entries_shape();
                self.lemma_empty_layer(len - 1);
                assert(old(self).entries()[len - 1] == self.entries()[len - 1]);
            }
            self.layers.pop();
            proof {
                assert(self.entries() =~= old(self).entries().subrange(0, self.layer_count() as int));
            }
        }
    }

    /// One step of the cascade at the current time: from the top layer down,
    /// the entries carried from above are refiled by their digit in this
    /// layer, then this layer's bucket under the current hand is carried on.
    /// Returns what leaves layer 0: the entries due now. Entries of ids no
    /// longer registered are dropped on the way.
    fn dropdown(&mut self) -> (r: Vec<TaskId>)
        requires
            old(self).wf_core(),
            cascading(
                old(self)@.tasks,
                old(self).entries(),
                seq![],
                old(self)@.timestamp,
                old(self).layer_count() as int,
            ),
        ensures
            final(self).wf_core(),
            final(self)@ == old(self)@,
            final(self).layer_count() <= old(self).layer_count(),
            top_occupied(final(self).entries()),
            old(self).layer_count() > 0 && old(self)@.timestamp > 0 ==> is_prefix(
                old(self).entries()[0][digit_at(old(self)@.timestamp, 0) as int],
                r@,
            ),
            forall|id: TaskId| #[trigger]
                old(self)@.tasks.contains_key(id) ==> {
                    let e = old(self)@.tasks[id].execute_at;
                    &&& (e == old(self)@.timestamp ==> r@.contains(id))
                    &&& (e != old(self)@.timestamp ==> exists|j: int|
                        placed(final(self).entries(), id, e, old(self)@.timestamp, j))
                },
    {
        let ghost t = self@.timestamp;
        let ghost tasks = self@.tasks;
        proof {
            lemma_decompose_digits(t);
        }
        let mut carry: Vec<TaskId> = Vec::new();
        let mut i = self.layers.len();
        while i > 0
            invariant
                self.wf_core(),
                self@ == old(self)@,
                t == self@.timestamp,
                tasks == self@.tasks,
                i <= self.layer_count(),
                forall|j: int|
                    0 <= j < decompose(self.clock_hands@).len() ==> decompose(self.clock_hands@)[j]
                        < 64,
                cascading(tasks, self.entries(), carry@, t, i as int),
                self.layer_count() == old(self).layer_count(),
                forall|j: int| 0 <= j < i ==> #[trigger] self.entries()[j] == old(self).entries()[j],
                i == 0 && old(self).layer_count() > 0 && t > 0 ==> is_prefix(
                    old(self).entries()[0][digit_at(t, 0) as int],
                    carry@,
                ),
            decreases i,
        {
            i = i - 1;
            if self.layers[i].is_empty() && carry.len() == 0 {
                proof {
                    self.lemma_empty_layer(i as int);
                    let en = self.entries();
                    assert forall|id: TaskId| #[trigger] tasks.contains_key(id) implies task_cascading(
                        tasks[id].execute_at,
                        id,
                        en,
                        carry@,
                        t,
                        i as int,
                    ) by {
                        let e = tasks[id].execute_at;
                        assert(task_cascading(e, id, en, carry@, t, i + 1));
                        if exists|j: int| i + 1 <= j && #[trigger] placed(en, id, e, t, j) && prefix(
                            e,
                            j as nat,
                        ) != prefix(t, j as nat) {
                        } else if exists|j: int| j < i + 1 && #[trigger] placed(en, id, e, t, j) {
                            let j = choose|j: int| j < i + 1 && #[trigger] placed(en, id, e, t, j);
                            if j == i {
                                lemma_digit_prefix(e, j as nat);
                                assert(en[j][digit_at(e, j) as int].contains(id));
                            }
                        } else {
                            assert(carry@.contains(id));
                        }
                    }
                }
                proof {
                    if i == 0 && t > 0 {
                        self.lemma_entries_shape();
                        lemma_digit_prefix(t, 0);
                        let b = digit_at(t, 0) as int;
                        assert(self.entries()[0] == self.layers@[0].buckets());
                        assert(self.layers@[0].spec_is_empty());
                        assert(self.layers@[0].buckets()[b].len() == 0);
                        assert(old(self).entries()[0] == self.entries()[0]);
                        assert(carry@.len() == 0);
                        assert(old(self).entries()[0][b] =~= carry@);
                        assert(carry@.subrange(0, 0) =~= carry@);
                    }
                }
                continue;
            }
            let ghost e_a = self.entries();
            proof {
                assert forall|b: int| 0 <= b < LAYER_SIZE implies is_prefix(
                    #[trigger] e_a[i as int][b],
                    self.entries()[i as int][b],
                ) by {
                    assert(e_a[i as int][b].subrange(0, e_a[i as int][b].len() as int) =~= e_a[i as int][b]);
                }
            }
            let mut k: usize = 0;
            while k < carry.len()
                invariant
                    self.wf_core(),
                    self@ == old(self)@,
                    t == self@.timestamp,
                    tasks == self@.tasks,
                    i < self.layer_count(),
                    k <= carry@.len(),
                    grows(e_a, self.entries()),
                    self.layer_count() == old(self).layer_count(),
                    self.entries().len() == e_a.len(),
                    forall|j: int| 0 <= j < e_a.len() && j != i ==> #[trigger] self.entries()[j] == e_a[j],
                    forall|b: int|
                        0 <= b < LAYER_SIZE ==> is_prefix(#[trigger] e_a[i as int][b], self.entries()[i as int][b]),
                    forall|k2: int|
                        #![trigger carry@[k2]]
                        0 <= k2 < k && tasks.contains_key(carry@[k2]) && i + 1 < decompose(
                            tasks[carry@[k2]].execute_at,
                        ).len() && prefix(tasks[carry@[k2]].execute_at, (i + 1) as nat) == prefix(
                            t,
                            (i + 1) as nat,
                        ) ==> placed(
                            self.entries(),
                            carry@[k2],
                            tasks[carry@[k2]].execute_at,
                            t,
                            i as int,
                        ),
                decreases carry@.len() - k,
            {
                let id = carry[k];
                let ghost before = self.entries();
                proof {
                    self.lemma_entries_shape();
                    assert(before[i as int].len() == LAYER_SIZE);
                }
                match self.tasks.get(&id) {
                    Some(task) => {
                        let task = *task;
                        self.insert_into_layer(i, &task);
                        proof {
                            assert(task@ == tasks[id]);
                            let bb = digit_at(task@.execute_at, i as int) as int;
                            lemma_digit_prefix(task@.execute_at, i as nat);
                            assert(before[i as int].len() == LAYER_SIZE);
                            assert forall|b: int| 0 <= b < LAYER_SIZE implies is_prefix(
                                #[trigger] e_a[i as int][b],
                                self.entries()[i as int][b],
                            ) by {
                                assert(is_prefix(e_a[i as int][b], before[i as int][b]));
                                assert(task@.id == id);
                                if b == bb {
                                    assert(self.entries()[i as int][b] == before[i as int][b].push(id));
                                    lemma_prefix_push(e_a[i as int][b], before[i as int][b], id);
                                } else {
                                    assert(self.entries()[i as int][b] == before[i as int][b]);
                                }
                            }
                        }
                    },
                    None => {
                        proof {
                            assert(!tasks.contains_key(id));
                            assert(grows(before, self.entries()));
                        }
                    },
                }
                proof {
                    assert(tasks.contains_key(id) ==> self.entries()[i as int][digit_at(
                        tasks[id].execute_at,
                        i as int,
                    ) as int].contains(id));
                    self.lemma_entries_shape();
                    lemma_grows_trans(e_a, before, self.entries());
                    assert forall|k2: int|
                        #![trigger carry@[k2]]
                        0 <= k2 < k + 1 && tasks.contains_key(carry@[k2]) && i + 1 < decompose(
                            tasks[carry@[k2]].execute_at,
                        ).len() && prefix(tasks[carry@[k2]].execute_at, (i + 1) as nat) == prefix(
                            t,
                            (i + 1) as nat,
                        ) implies placed(
                        self.entries(),
                        carry@[k2],
                        tasks[carry@[k2]].execute_at,
                        t,
                        i as int,
                    ) by {
                        let x = carry@[k2];
                        let e = tasks[x].execute_at;
                        if k2 < k {
                            lemma_placed_grows(before, self.entries(), x, e, t, i as int);
                        } else {
                            lemma_digit_prefix(e, i as nat);
                        }
                    }
                }
                k = k + 1;
            }
            let ghost e_b = self.entries();
            proof {
                assert forall|id: TaskId| #[trigger] tasks.contains_key(id) implies task_cascading(
                    tasks[id].execute_at,
                    id,
                    e_b,
                    seq![],
                    t,
                    i + 1,
                ) by {
                    let e = tasks[id].execute_at;
                    assert(task_cascading(e, id, e_a, carry@, t, i + 1));
                    if exists|j: int| i + 1 <= j && #[trigger] placed(e_a, id, e, t, j) && prefix(
                        e,
                        j as nat,
                    ) != prefix(t, j as nat) {
                        let j = choose|j: int|
                            i + 1 <= j && #[trigger] placed(e_a, id, e, t, j) && prefix(e, j as nat)
                                != prefix(t, j as nat);
                        lemma_placed_grows(e_a, e_b, id, e, t, j);
                    } else if exists|j: int| j < i + 1 && #[trigger] placed(e_a, id, e, t, j) {
                        let j = choose|j: int| j < i + 1 && #[trigger] placed(e_a, id, e, t, j);
                        lemma_placed_grows(e_a, e_b, id, e, t, j);
                    } else {
                        let k2 = choose|k2: int| 0 <= k2 < carry@.len() && carry@[k2] == id;
                        assert(placed(e_b, carry@[k2], e, t, i as int));
                    }
                }
            }
            proof {
                self.lemma_entries_shape();
            }
            let hand = self.clock_hands.get(i);
            carry =
            match hand {
                Some(b) => self.drop_bucket(i, b),
                None => Vec::new(),
            };
            proof {
                if i == 0 && t > 0 {
                    lemma_digit_prefix(t, 0);
                    assert(hand == Some(digit_at(t, 0)));
                    assert(e_a[0] == old(self).entries()[0]);
                    assert(is_prefix(e_a[0][digit_at(t, 0) as int], e_b[0][digit_at(t, 0) as int]));
                }
            }
            proof {
                let e_c = self.entries();
                assert forall|id: TaskId| #[trigger] tasks.contains_key(id) implies task_cascading(
                    tasks[id].execute_at,
                    id,
                    e_c,
                    carry@,
                    t,
                    i as int,
                ) by {
                    let e = tasks[id].execute_at;
                    assert(task_cascading(e, id, e_b, seq![], t, i + 1));
                    assert(!seq![].contains(id));
                    if exists|j: int| i + 1 <= j && #[trigger] placed(e_b, id, e, t, j) && prefix(
                        e,
                        j as nat,
                    ) != prefix(t, j as nat) {
                        let j = choose|j: int|
                            i + 1 <= j && #[trigger] placed(e_b, id, e, t, j) && prefix(e, j as nat)
                                != prefix(t, j as nat);
                        assert(e_c[j] == e_b[j]);
                        assert(placed(e_c, id, e, t, j));
                    } else {
                        let j = choose|j: int| j < i + 1 && #[trigger] placed(e_b, id, e, t, j);
                        if j < i {
                            assert(e_c[j] == e_b[j]);
                            assert(placed(e_c, id, e, t, j));
                        } else {
                            let d = digit_at(e, j);
                            lemma_prefix_step(e, t, j as nat);
                            lemma_digit_prefix(e, j as nat);
                            lemma_digit_prefix(t, j as nat);
                            if prefix(e, j as nat) == prefix(t, j as nat) {
                                assert(hand == Some(d));
                                assert(carry@ == e_b[j][d as int]);
                            } else {
                                if hand.is_some() {
                                    assert(hand == Some(digit_at(t, j)));
                                    assert(e_c[j][d as int] == e_b[j][d as int]);
                                } else {
                                    assert(e_c =~= e_b);
                                }
                                assert(placed(e_c, id, e, t, j));
                            }
                        }
                    }
                }
            }
        }
        let ghost e_d = self.entries();
        self.reduce_layers();
        proof {
            assert forall|id: TaskId| #[trigger] old(self)@.tasks.contains_key(id) implies {
                let e = old(self)@.tasks[id].execute_at;
                &&& (e == old(self)@.timestamp ==> carry@.contains(id))
                &&& (e != old(self)@.timestamp ==> exists|j: int|
                    placed(self.entries(), id, e, old(self)@.timestamp, j))
            } by {
                let e = tasks[id].execute_at;
                assert(task_cascading(e, id, e_d, carry@, t, 0));
                lemma_prefix_zero(e);
                lemma_prefix_zero(t);
                if exists|j: int| 0 <= j && #[trigger] placed(e_d, id, e, t, j) && prefix(
                    e,
                    j as nat,
                ) != prefix(t, j as nat) {
                    let j = choose|j: int|
                        0 <= j && #[trigger] placed(e_d, id, e, t, j) && prefix(e, j as nat) != prefix(
                            t,
                            j as nat,
                        );
                    assert(e_d[j][digit_at(e, j) as int].contains(id));
                    assert(j < self.layer_count()) by {
                        if j >= self.layer_count() {
                            lemma_digit_prefix(e, j as nat);
                            assert(digit_at(e, j) < LAYER_SIZE);
                        }
                    }
                    assert(self.entries()[j] == e_d[j]);
                    assert(placed(self.entries(), id, e, t, j));
                } else if exists|j: int| j < 0 && #[trigger] placed(e_d, id, e, t, j) {
                } else {
                }
            }
        }
        carry
    }

    /// Looks at entry `id`, just taken from the pending ones: if its task is
    /// registered and due now, the task fires: it is removed, or, if it
    /// repeats, refiled `delay` later. Returns whether it fired.
    fn fire_entry(&mut self, id: TaskId) -> (r: bool)
        requires
            old(self).wf_core(),
            on_track(
                old(self)@.tasks,
                old(self).entries(),
                seq![id] + old(self)@.pending,
                old(self)@.timestamp,
            ),
        ensures
            final(self).wf(),
            r == (old(self)@.tasks.contains_key(id) && old(self)@.tasks[id].execute_at
                == old(self)@.timestamp),
            final(self)@ == (WheelView {
                tasks: if r {
                    after_firing(old(self)@.tasks, id, old(self)@.timestamp)
                } else {
                    old(self)@.tasks
                },
                ..old(self)@
            }),
            final(self).entries() == if r && old(self)@.tasks[id].is_interval {
                filed(
                    old(self).entries(),
                    deadline(old(self)@.timestamp, old(self)@.tasks[id].delay),
                    id,
                )
            } else {
                old(self).entries()
            },
    {
        proof {
            lemma_on_track_pop(self@.tasks, self.entries(), id, self@.pending, self@.timestamp);
        }
        let current = self.clock_hands.timestamp();
        let task = match self.tasks.get(&id) {
            Some(task) => *task,
            None => return false,
        };
        if task.get_execute_at() != current {
            return false;
        }
        self.unregister_task(id);
        if task.is_interval() {
            let mut task = task;
            task.set_scheduled_at(current);
            proof {
                assert(self@.tasks.remove(id) =~= self@.tasks);
            }
            self.register_task_ref(task);
            assert(self@.tasks =~= after_firing(old(self)@.tasks, id, old(self)@.timestamp));
        }
        true
    }

    /// Runs the pump until one task fires or the wheel has caught up with
    /// `now`. First the entries already surfaced at the current time are
    /// looked at; then time advances one millisecond at a time, each step
    /// surfacing the entries due then. Returns the id that fired, or `None`
    /// once time has reached `now` or no task is left, in which case the
    /// layers are dropped too.
    pub fn next_due(&mut self, now: usize) -> (r: Option<TaskId>)
        requires
            old(self).wf(),
        ensures
            final(self).wf(),
            final(self)@.last_id == old(self)@.last_id,
            old(self)@.timestamp <= final(self)@.timestamp,
            old(self)@.timestamp <= now ==> final(self)@.timestamp <= now,
            old(self)@.timestamp >= now ==> final(self)@.timestamp == old(self)@.timestamp,
            match r {
                Some(id) => {
                    &&& old(self)@.tasks.contains_key(id)
                    &&& old(self)@.tasks[id].execute_at == final(self)@.timestamp
                    &&& final(self)@.tasks == after_firing(
                        old(self)@.tasks,
                        id,
                        final(self)@.timestamp,
                    )
                    &&& (final(self)@.timestamp > old(self)@.timestamp || final(self)@.pending.len()
                        < old(self)@.pending.len())
                    &&& (old(self)@.tasks[id].is_interval ==> exists|e0: Seq<Seq<Seq<TaskId>>>|
                        final(self).entries() == filed(e0, final(self)@.tasks[id].execute_at, id))
                },
                None => {
                    &&& final(self)@.tasks == old(self)@.tasks
                    &&& final(self)@.pending.len() == 0
                    &&& (final(self)@.timestamp >= now || final(self)@.tasks.is_empty())
                    &&& (final(self)@.tasks.is_empty() ==> final(self).layer_count() == 0)
                    &&& forall|id: TaskId| #[trigger]
                        final(self)@.tasks.contains_key(id) ==> final(self)@.tasks[id].execute_at
                            > final(self)@.timestamp || final(self)@.timestamp == usize::MAX
                },
            },
            forall|k: int|
                #![trigger old(self)@.pending[k]]
                0 <= k < old(self)@.pending.len() && fires(
                    old(self)@.tasks,
                    old(self)@.pending[k],
                    old(self)@.timestamp,
                ) ==> {
                    &&& final(self)@.timestamp == old(self)@.timestamp
                    &&& exists|k0: int|
                        0 <= k0 <= k && r == Some(old(self)@.pending[k0]) && final(self)@.pending
                            == old(self)@.pending.subrange(k0 + 1, old(self)@.pending.len() as int)
                            && forall|k1: int|
                            0 <= k1 < k0 ==> !fires(
                                old(self)@.tasks,
                                #[trigger] old(self)@.pending[k1],
                                old(self)@.timestamp,
                            )
                },
    {
        let ghost w = self@;
        let ghost mut consumed: int = 0;
        proof {
            assert(w.pending.subrange(0, w.pending.len() as int) =~= w.pending);
        }
        loop
            invariant
                self.wf(),
                self@.tasks == old(self)@.tasks,
                self@.last_id == old(self)@.last_id,
                old(self)@.timestamp <= self@.timestamp,
                old(self)@.timestamp <= now ==> self@.timestamp <= now,
                self@.timestamp == old(self)@.timestamp ==> self@.pending.len() <= old(self)@.pending.len(),
                old(self)@.timestamp >= now ==> self@.timestamp == old(self)@.timestamp,
                w == old(self)@,
                self@.timestamp == w.timestamp ==> {
                    &&& 0 <= consumed <= w.pending.len()
                    &&& self@.pending == w.pending.subrange(consumed, w.pending.len() as int)
                    &&& forall|k1: int|
                        0 <= k1 < consumed ==> !fires(w.tasks, #[trigger] w.pending[k1], w.timestamp)
                },
                self@.timestamp > w.timestamp ==> forall|k1: int|
                    0 <= k1 < w.pending.len() ==> !fires(w.tasks, #[trigger] w.pending[k1], w.timestamp),
            decreases
                if self@.timestamp <= now {
                    now - self@.timestamp
                } else {
                    0
                },
                self@.pending.len(),
        {
            if self.cursor < self.due.len() {
                let id = self.due[self.cursor];
                let ghost before = self@.pending;
                self.cursor = self.cursor + 1;
                proof {
                    assert(before =~= seq![id] + self@.pending);
                }
                let ghost k0 = consumed;
                let ghost e0 = self.entries();
                if self.fire_entry(id) {
                    proof {
                        if w.tasks[id].is_interval {
                            assert(self.entries() == filed(e0, self@.tasks[id].execute_at, id));
                        }
                        if self@.timestamp == w.timestamp {
                            assert(w.pending[k0] == before[0]);
                            assert(self@.pending =~= before.subrange(1, before.len() as int));
                            assert(self@.pending =~= w.pending.subrange(k0 + 1, w.pending.len() as int));
                            assert forall|k: int|
                                #![trigger w.pending[k]]
                                0 <= k < w.pending.len() && fires(w.tasks, w.pending[k], w.timestamp)
                                    implies k0 <= k by {}
                        }
                    }
                    return Some(id);
                }
                proof {
                    if self@.timestamp == w.timestamp {
                        assert(w.pending[k0] == before[0]);
                        assert(!fires(w.tasks, w.pending[k0], w.timestamp));
                        consumed = k0 + 1;
                        assert(self@.pending =~= before.subrange(1, before.len() as int));
                        assert(self@.pending =~= w.pending.subrange(consumed, w.pending.len() as int));
                    }
                }
            } else {
                if self.tasks.is_empty() {
                    proof {
                        self.lemma_tasks_finite();
                    }
                    self.layers.clear();
                    self.due.clear();
                    self.cursor = 0;
                    assert(self@.pending.len() == 0);
                    return None;
                }
                let ghost t = self@.timestamp;
                let ghost pending = self@.pending;
                if !self.clock_hands.advance_until(now) {
                    proof {
                        self.lemma_tasks_finite();
                        assert forall|id: TaskId| #[trigger] self@.tasks.contains_key(id) implies self@.tasks[id].execute_at
                            > self@.timestamp || self@.timestamp == usize::MAX by {
                            assert(task_on_track(
                                self@.tasks[id].execute_at,
                                id,
                                self.entries(),
                                self@.pending,
                                self@.timestamp,
                            ));
                        }
                    }
                    return None;
                }
                proof {
                    lemma_on_track_advance(self@.tasks, self.entries(), pending, t);
                    if t == w.timestamp {
                        assert(consumed == w.pending.len());
                    }
                }
                let due = self.dropdown();
                self.due = due;
                self.cursor = 0;
                proof {
                    assert(self@.pending =~= due@);
                }
            }
        }
    }

    /// Advances the wheel to `now`, firing every task that falls due on the
    /// way, and returns their ids in firing order; see `tick_outcome`.
    pub fn tick_at(&mut self, now: usize) -> (r: Vec<TaskId>)
        requires
            old(self).wf(),
        ensures
            final(self).wf(),
            tick_outcome(old(self)@, final(self)@, final(self).layer_count(), now as nat, r@),
    {
        let ghost w = self@;
        let ghost bound = w.timestamp <= now && now < usize::MAX;
        let mut fired: Vec<TaskId> = Vec::new();
        let ghost mut times: Seq<nat> = seq![];
        let mut done = false;
        while !done
            invariant
                self.wf(),
                w == old(self)@,
                bound == (w.timestamp <= now && now < usize::MAX),
                self@.last_id == w.last_id,
                w.timestamp <= self@.timestamp,
                w.timestamp <= now ==> self@.timestamp <= now,
                done ==> self@.pending.len() == 0,
                done ==> (self@.timestamp >= now || self@.tasks.is_empty()),
                done ==> (self@.tasks.is_empty() ==> self.layer_count() == 0),
                done ==> forall|id: TaskId| #[trigger]
                    self@.tasks.contains_key(id) ==> self@.tasks[id].execute_at > self@.timestamp
                        || self@.timestamp == usize::MAX,
                self@.tasks.dom().subset_of(w.tasks.dom()),
                forall|k: int| 0 <= k < fired@.len() ==> w.tasks.contains_key(#[trigger] fired@[k]),
                forall|id: TaskId| #[trigger]
                    w.tasks.contains_key(id) ==> progress(w.tasks[id], self@.tasks, fired@, bound, now as nat, id),
                times.len() == fired@.len(),
                forall|k1: int, k2: int| 0 <= k1 <= k2 < times.len() ==> times[k1] <= times[k2],
                forall|k: int|
                    0 <= k < times.len() ==> w.timestamp <= #[trigger] times[k] <= self@.timestamp,
                forall|k: int|
                    0 <= k < times.len() && !w.tasks[fired@[k]].is_interval ==> #[trigger] times[k]
                        == w.tasks[fired@[k]].execute_at,
            decreases
                if done {
                    0int
                } else {
                    1int
                },
                if self@.timestamp <= now {
                    now - self@.timestamp
                } else {
                    0
                },
                self@.pending.len(),
        {
            let ghost before = self@;
            let ghost fired_before = fired@;
            match self.next_due(now) {
                Some(id) => {
                    fired.push(id);
                    proof {
                        times = times.push(self@.timestamp);
                        assert(fired@ == fired_before.push(id));
                        assert forall|y: TaskId| #[trigger]
                            w.tasks.contains_key(y) implies progress(
                            w.tasks[y],
                            self@.tasks,
                            fired@,
                            bound,
                            now as nat,
                            y,
                        ) by {
                            assert(progress(w.tasks[y], before.tasks, fired_before, bound, now as nat, y));
                            if y == id {
                                lemma_push_contains(fired_before, id, y);
                                if !w.tasks[y].is_interval {
                                    assert(before.tasks[id] == w.tasks[id]);
                                    assert(!fired_before.contains(id));
                                    assert(fired@[fired_before.len() as int] == id);
                                    assert forall|k1: int, k2: int|
                                        0 <= k1 < fired@.len() && 0 <= k2 < fired@.len() && fired@[k1]
                                            == y && fired@[k2] == y implies k1 == k2 by {
                                        if k1 < fired_before.len() {
                                            assert(fired_before[k1] == y);
                                        }
                                        if k2 < fired_before.len() {
                                            assert(fired_before[k2] == y);
                                        }
                                    }
                                }
                            } else {
                                lemma_push_contains(fired_before, id, y);
                                if !w.tasks[y].is_interval {
                                    assert forall|k1: int, k2: int|
                                        0 <= k1 < fired@.len() && 0 <= k2 < fired@.len() && fired@[k1]
                                            == y && fired@[k2] == y implies k1 == k2 by {
                                        assert(fired_before[k1] == y);
                                        assert(fired_before[k2] == y);
                                    }
                                }
                            }
                        }
                        assert forall|k: int|
                            0 <= k < times.len() && !w.tasks[fired@[k]].is_interval implies #[trigger] times[k]
                                == w.tasks[fired@[k]].execute_at by {
                            if k == times.len() - 1 {
                                assert(fired@[k] == id);
                                assert(progress(w.tasks[id], before.tasks, fired_before, bound, now as nat, id));
                                assert(before.tasks[id] == w.tasks[id]);
                            } else {
                                assert(fired@[k] == fired_before[k]);
                            }
                        }
                    }
                },
                None => {
                    done = true;
                },
            }
        }
        proof {
            let v = self@;
            assert forall|id: TaskId| #[trigger]
                w.tasks.contains_key(id) implies ticked_task(w.tasks[id], v, fired@, bound, now as nat, id) by {
                assert(progress(w.tasks[id], v.tasks, fired@, bound, now as nat, id));
                if v.tasks.contains_key(id) {
                    assert(!v.tasks.is_empty());
                }
            }
            assert(fire_order(w, v, fired@, times));
        }
        fired
    }

    /// Advances the wheel to the time on `timer`, firing every task that falls
    /// due on the way, and returns their ids in firing order; see
    /// `tick_outcome`, which holds at the time read from `timer`.
    pub fn tick<T: Timer>(&mut self, timer: &T) -> (r: Vec<TaskId>)
        requires
            old(self).wf(),
        ensures
            final(self).wf(),
            exists|now: usize|
                tick_outcome(old(self)@, final(self)@, final(self).layer_count(), now as nat, r@),
    {
        let now = timer.now();
        let r = self.tick_at(now);
        assert(tick_outcome(old(self)@, self@, self.layer_count(), now as nat, r@));
        r
    }

    /// Gives up on the entries surfaced now that the pump has not looked at
    /// yet, after a callback failed: the tasks among them that are due now are
    /// removed without firing.
    pub fn discard_due(&mut self)
        requires
            old(self).wf(),
        ensures
            final(self).wf(),
            final(self)@ == (WheelView {
                tasks: old(self)@.tasks.remove_keys(
                    due_ids(old(self)@.tasks, old(self)@.pending, old(self)@.timestamp),
                ),
                pending: seq![],
                ..old(self)@
            }),
    {
        let ghost start = self.cursor as int;
        let ghost ts = self@.timestamp;
        let ghost tasks0 = self@.tasks;
        let ghost pend0 = self@.pending;
        let ghost en = self.entries();
        let current = self.clock_hands.timestamp();
        assert(tasks0.remove_keys(due_ids(tasks0, self.due@.subrange(start, start), ts)) =~= tasks0);
        while self.cursor < self.due.len()
            invariant
                self.wf_core(),
                self@.timestamp == ts,
                current == ts,
                self@.last_id == old(self)@.last_id,
                self.entries() == en,
                self.due@ == old(self).due@,
                0 <= start <= self.cursor <= self.due@.len(),
                pend0 == self.due@.subrange(start, self.due@.len() as int),
                tasks0 == old(self)@.tasks,
                on_track(tasks0, en, pend0, ts),
                self@.tasks == tasks0.remove_keys(
                    due_ids(tasks0, self.due@.subrange(start, self.cursor as int), ts),
                ),
            decreases self.due@.len() - self.cursor,
        {
            let id = self.due[self.cursor];
            let ghost seg = self.due@.subrange(start, self.cursor as int);
            let ghost seg2 = self.due@.subrange(start, self.cursor + 1);
            assert(self.due@[self.cursor as int] == id);
            assert(seg2.len() == seg.len() + 1);
            assert(seg2[seg.len() as int] == id);
            assert forall|j: int| 0 <= j < seg.len() implies seg2[j] == seg[j] by {
                assert(seg2[j] == self.due@[start + j]);
            }
            assert(seg2 =~= seg.push(id));
            let ghost prev = self@.tasks;
            let due_now = match self.tasks.get(&id) {
                Some(task) => task.get_execute_at() == current,
                None => false,
            };
            assert(due_now == (prev.contains_key(id) && prev[id].execute_at == ts));
            if due_now {
                self.unregister_task(id);
            }
            proof {
                assert(forall|x: TaskId| seg2.contains(x) <==> (seg.contains(x) || x == id)) by {
                    assert forall|x: TaskId| seg2.contains(x) implies (seg.contains(x) || x == id) by {
                        let j = choose|j: int| 0 <= j < seg2.len() && seg2[j] == x;
                        if j < seg.len() {
                            assert(seg[j] == x);
                        }
                    }
                    assert forall|x: TaskId| (seg.contains(x) || x == id) implies seg2.contains(x) by {
                        if x == id {
                            assert(seg2[seg.len() as int] == id);
                        } else {
                            let j = choose|j: int| 0 <= j < seg.len() && seg[j] == x;
                            assert(seg2[j] == x);
                        }
                    }
                }
                let d1 = due_ids(tasks0, seg, ts);
                let d2 = due_ids(tasks0, seg2, ts);
                if tasks0.contains_key(id) && tasks0[id].execute_at == ts {
                    assert(d2 =~= d1.insert(id));
                    if !d1.contains(id) {
                        assert(prev.contains_key(id) && prev[id] == tasks0[id]);
                    }
                } else {
                    assert(d2 =~= d1);
                }
                assert(self@.tasks =~= tasks0.remove_keys(d2));
            }
            self.cursor = self.cursor + 1;
        }
        self.due.clear();
        self.cursor = 0;
        proof {
            assert(self@.pending =~= seq![]);
            let gone = due_ids(tasks0, pend0, ts);
            assert(old(self).due@.subrange(start, old(self).due@.len() as int) == pend0);
            assert forall|x: TaskId| #[trigger] self@.tasks.contains_key(x) implies task_on_track(
                self@.tasks[x].execute_at,
                x,
                en,
                self@.pending,
                ts,
            ) by {
                assert(tasks0.contains_key(x) && !gone.contains(x));
                assert(task_on_track(tasks0[x].execute_at, x, en, pend0, ts));
            }
        }
    }

    /// Picks the first id, counting up from the last one handed out and
    /// wrapping past the largest, that no registered task holds.
    pub fn new_id(&mut self) -> (r: TaskId)
        requires
            old(self).wf(),
            old(self)@.tasks.len() < 0x1_0000_0000,
        ensures
            final(self).wf(),
            !old(self)@.tasks.contains_key(r),
            !old(self)@.tasks.contains_key(old(self)@.last_id) ==> r == old(self)@.last_id,
            final(self)@ == (WheelView { last_id: r.wrapping_add(1), ..old(self)@ }),
            final(self).layer_count() == old(self).layer_count(),
            final(self).entries() == old(self).entries(),
    {
        proof {
            self.lemma_tasks_finite();
        }
        let ghost n = self@.tasks.len();
        let ghost start = self.last_id;
        let ghost mut seen: Set<TaskId> = Set::empty();
        let mut id = self.last_id;
        let ghost mut k: nat = 0;
        while self.tasks.contains_key(&id)
            invariant
                self.wf(),
                self@ == old(self)@,
                n == self@.tasks.len(),
                n < 0x1_0000_0000,
                start == self.last_id,
                k > 0 ==> self@.tasks.contains_key(start),
                seen.finite(),
                seen.len() == k,
                k <= n,
                seen.subset_of(self@.tasks.dom()),
                id as int == (start + k) % 0x1_0000_0000,
                forall|x: TaskId| #[trigger]
                    seen.contains(x) ==> ((x - start) % 0x1_0000_0000) < k,
            decreases n - k,
        {
            proof {
                assert(self@.tasks.contains_key(id));
                assert(!seen.contains(id)) by {
                    if seen.contains(id) {
                        assert(((id - start) % 0x1_0000_0000) == k);
                    }
                }
                seen = seen.insert(id);
                self.lemma_tasks_finite();
                lemma_len_subset(seen, self@.tasks.dom());
                k = k + 1;
            }
            id = id.wrapping_add(1);
        }
        self.last_id = id.wrapping_add(1);
        id
    }

    /// Moves the logical time back to zero and drops everything filed. Only
    /// called while no task is registered.
    fn reset(&mut self)
        requires
            old(self).wf_core(),
            old(self)@.tasks.is_empty(),
        ensures
            final(self).wf(),
            final(self)@ == (WheelView { timestamp: 0, pending: seq![], ..old(self)@ }),
            final(self).layer_count() == 0,
            final(self).entries() == Seq::<Seq<Seq<TaskId>>>::empty(),
    {
        self.clock_hands.reset();
        self.layers.clear();
        self.due.clear();
        self.cursor = 0;
        assert(self@.pending =~= seq![]);
        assert(self.entries() =~= Seq::<Seq<Seq<TaskId>>>::empty());
    }

    /// Registers a task due `delay` milliseconds after `now`, with `delay`
    /// moved into `[MIN_DELAY, MAX_DELAY]`, and returns its id. An idle wheel
    /// first restarts its time at zero; `now` is then read on the restarted
    /// clock.
    pub fn register_at(&mut self, now: usize, delay: i64, is_interval: bool) -> (r: TaskId)
        requires
            old(self).wf(),
            old(self)@.tasks.len() < 0x1_0000_0000,
            old(self)@.tasks.is_empty() || now >= old(self)@.timestamp,
        ensures
            final(self).wf(),
            !old(self)@.tasks.contains_key(r),
            !old(self)@.tasks.contains_key(old(self)@.last_id) ==> r == old(self)@.last_id,
            final(self)@ == registered(old(self)@, r, now as nat, delay as int, is_interval),
            final(self).entries() == filed(
                if old(self)@.tasks.is_empty() {
                    Seq::empty()
                } else {
                    old(self).entries()
                },
                new_task(r, now as nat, delay as int, is_interval).execute_at,
                r,
            ),
            final(self).layer_count() == final(self).entries().len(),
    {
        let delay = convert_delay(delay);
        if self.tasks.is_empty() {
            proof {
                assert(self@.tasks.dom() =~= self.tasks@.dom());
            }
            self.reset();
        }
        let id = self.new_id();
        let task = Task::new(id, now, delay, is_interval);
        proof {
            assert(self@.tasks.remove(id) =~= self@.tasks);
        }
        self.register_task_ref(task);
        id
    }

    /// Registers a task due `delay` milliseconds from now on `timer`; an idle
    /// wheel restarts `timer` first.
    pub fn register<T: Timer>(&mut self, timer: &mut T, delay: i64, is_interval: bool) -> (r:
        TaskId)
        requires
            old(self).wf(),
            old(self)@.tasks.len() < 0x1_0000_0000,
        ensures
            final(self).wf(),
            !old(self)@.tasks.contains_key(r),
            !old(self)@.tasks.contains_key(old(self)@.last_id) ==> r == old(self)@.last_id,
            exists|now: nat| final(self)@ == registered(old(self)@, r, now, delay as int, is_interval),
    {
        if self.is_empty() {
            timer.reset();
        }
        let read = timer.now();
        let current = self.timestamp();
        let now = if self.is_empty() || read >= current {
            read
        } else {
            current
        };
        self.register_at(now, delay, is_interval)
    }

    /// Removes task `id`; returns whether it was registered. Its bucket
    /// entries stay behind and are discarded when they surface.
    fn unregister_task(&mut self, id: TaskId) -> (r: bool)
        requires
            old(self).wf_core(),
        ensures
            final(self).wf_core(),
            final(self).entries() == old(self).entries(),
            r == old(self)@.tasks.contains_key(id),
            final(self)@ == unregistered(old(self)@, id),
            final(self).layer_count() == old(self).layer_count(),
            final(self).due == old(self).due,
            final(self).cursor == old(self).cursor,
    {
        proof {
            self.lemma_view_remove(id);
            lemma_refed_remove(self@.tasks, id);
            self.lemma_tasks_finite();
            lemma_refed_finite(self@.tasks);
        }
        let refed = match self.tasks.remove(&id) {
            Some(task) => task.has_ref(),
            None => {
                assert(self@.tasks =~= old(self)@.tasks.remove(id));
                return false;
            },
        };
        if refed {
            assert(refed_ids(old(self)@.tasks).contains(id));
            self.ref_count = self.ref_count - 1;
        }
        true
    }

    /// Cancels task `id`; nothing happens if it is absent.
    pub fn unregister(&mut self, id: TaskId)
        requires
            old(self).wf(),
        ensures
            final(self).wf(),
            final(self)@ == unregistered(old(self)@, id),
    {
        self.unregister_task(id);
        proof {
            lemma_on_track_sub(
                old(self)@.tasks,
                self@.tasks,
                self.entries(),
                self@.pending,
                self@.timestamp,
            );
        }
    }

    /// Reschedules task `id` to fall due its delay after `now`; nothing
    /// happens if it is absent.
    pub fn refresh_at(&mut self, id: TaskId, now: usize)
        requires
            old(self).wf(),
            now >= old(self)@.timestamp,
        ensures
            final(self).wf(),
            final(self)@ == refreshed(old(self)@, id, now as nat),
            final(self).entries() == if old(self)@.tasks.contains_key(id) {
                filed(old(self).entries(), deadline(now as nat, old(self)@.tasks[id].delay), id)
            } else {
                old(self).entries()
            },
    {
        let mut task = match self.tasks.get(&id) {
            Some(task) => *task,
            None => return,
        };
        task.set_scheduled_at(now);
        proof {
            lemma_on_track_sub(
                self@.tasks,
                self@.tasks.remove(id),
                self.entries(),
                self@.pending,
                self@.timestamp,
            );
        }
        self.register_task_ref(task);
    }

    /// Reschedules task `id` to fall due its delay from now on `timer`.
    pub fn refresh<T: Timer>(&mut self, timer: &T, id: TaskId)
        requires
            old(self).wf(),
        ensures
            final(self).wf(),
            exists|now: nat| final(self)@ == refreshed(old(self)@, id, now),
    {
        let read = timer.now();
        let current = self.timestamp();
        let now = if read >= current {
            read
        } else {
            current
        };
        self.refresh_at(id, now);
    }
}

/// A requested delay moved into `[MIN_DELAY, MAX_DELAY]`.
pub fn convert_delay(delay: i64) -> (r: usize)
    ensures
        r == clamp_delay(delay as int),
        1 <= r <= 0xFFFF_FFFF,
{
    if delay < MIN_DELAY {
        1
    } else if delay > MAX_DELAY {
        0xFFFF_FFFF
    } else {
        delay as usize
    }
}

} // verus!
