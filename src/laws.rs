use vstd::prelude::*;

use crate::constant::{MAX_DELAY, MAX_LAYERS};
use crate::radix::{decompose, lemma_decompose_len_usize};
use crate::task::{deadline, TaskId};
use crate::wheel::{after_firing, ref_cleared, ref_set, refed_ids, refreshed, registered, unregistered, WheelView};

verus! {

/// Registering a task and then unregistering the id it got leaves the same
/// tasks, and so the same refed tasks and the same emptiness, as before.
pub proof fn law_register_then_unregister(
    w: WheelView,
    id: TaskId,
    now: nat,
    delay: int,
    is_interval: bool,
)
    requires
        !w.tasks.contains_key(id),
    ensures
        unregistered(registered(w, id, now, delay, is_interval), id).tasks == w.tasks,
        refed_ids(unregistered(registered(w, id, now, delay, is_interval), id).tasks) == refed_ids(
            w.tasks,
        ),
        unregistered(registered(w, id, now, delay, is_interval), id).tasks.is_empty()
            == w.tasks.is_empty(),
{
    assert(w.tasks.insert(id, crate::wheel::new_task(id, now, delay, is_interval)).remove(id)
        =~= w.tasks);
}

/// `set_ref` twice does what `set_ref` once does.
pub proof fn law_set_ref_idempotent(w: WheelView, id: TaskId)
    ensures
        ref_set(ref_set(w, id), id) == ref_set(w, id),
{
    if w.tasks.contains_key(id) {
        let v = crate::task::TaskView { refed: true, ..w.tasks[id] };
        assert(w.tasks.insert(id, v).insert(id, v) =~= w.tasks.insert(id, v));
    }
}

/// `clear_ref` twice does what `clear_ref` once does.
pub proof fn law_clear_ref_idempotent(w: WheelView, id: TaskId)
    ensures
        ref_cleared(ref_cleared(w, id), id) == ref_cleared(w, id),
{
    if w.tasks.contains_key(id) {
        let v = crate::task::TaskView { refed: false, ..w.tasks[id] };
        assert(w.tasks.insert(id, v).insert(id, v) =~= w.tasks.insert(id, v));
    }
}

/// On a task that is refed (or absent), `clear_ref` then `set_ref` restores
/// the wheel, counts included.
pub proof fn law_clear_then_set_ref(w: WheelView, id: TaskId)
    requires
        w.tasks.contains_key(id) ==> w.tasks[id].refed,
    ensures
        ref_set(ref_cleared(w, id), id) == w,
        refed_ids(ref_set(ref_cleared(w, id), id).tasks) == refed_ids(w.tasks),
{
    if w.tasks.contains_key(id) {
        let v = crate::task::TaskView { refed: false, ..w.tasks[id] };
        let u = crate::task::TaskView { refed: true, ..v };
        assert(u == w.tasks[id]);
        assert(w.tasks.insert(id, v).insert(id, u) =~= w.tasks);
    }
}

/// On a task that is not refed (or absent), `set_ref` then `clear_ref`
/// restores the wheel, counts included.
pub proof fn law_set_then_clear_ref(w: WheelView, id: TaskId)
    requires
        w.tasks.contains_key(id) ==> !w.tasks[id].refed,
    ensures
        ref_cleared(ref_set(w, id), id) == w,
        refed_ids(ref_cleared(ref_set(w, id), id).tasks) == refed_ids(w.tasks),
{
    if w.tasks.contains_key(id) {
        let v = crate::task::TaskView { refed: true, ..w.tasks[id] };
        let u = crate::task::TaskView { refed: false, ..v };
        assert(u == w.tasks[id]);
        assert(w.tasks.insert(id, v).insert(id, u) =~= w.tasks);
    }
}

/// After `refresh` at `now`, the task is due its delay after `now`, and
/// nothing else changes.
pub proof fn law_refresh_deadline(w: WheelView, id: TaskId, now: nat)
    requires
        w.tasks.contains_key(id),
    ensures
        refreshed(w, id, now).tasks[id].execute_at == deadline(now, w.tasks[id].delay),
        refreshed(w, id, now).tasks.dom() == w.tasks.dom(),
        refreshed(w, id, now).tasks[id].refed == w.tasks[id].refed,
{
    assert(refreshed(w, id, now).tasks.dom() =~= w.tasks.dom());
}

/// A delay of zero is raised to one: the task is due one millisecond after
/// it was registered.
pub proof fn law_zero_delay(w: WheelView, id: TaskId, now: nat, is_interval: bool)
    requires
        now < usize::MAX,
    ensures
        registered(w, id, now, 0, is_interval).tasks[id].delay == 1,
        registered(w, id, now, 0, is_interval).tasks[id].execute_at == now + 1,
{
}

/// The longest delay, from any start time, gives a deadline whose digits fit
/// in the layers of the wheel.
pub proof fn law_max_delay_fits(now: usize)
    ensures
        deadline(now as nat, MAX_DELAY as nat) <= usize::MAX,
        decompose(deadline(now as nat, MAX_DELAY as nat)).len() <= MAX_LAYERS,
{
    lemma_decompose_len_usize(deadline(now as nat, MAX_DELAY as nat) as usize);
}

/// An interval task with a delay of one that fires at `ts` is due again at
/// `ts + 1`, and stays registered.
pub proof fn law_interval_rearm(tasks: Map<TaskId, crate::task::TaskView>, id: TaskId, ts: nat)
    requires
        tasks.contains_key(id),
        tasks[id].is_interval,
        tasks[id].delay == 1,
        ts < usize::MAX,
    ensures
        after_firing(tasks, id, ts).contains_key(id),
        after_firing(tasks, id, ts)[id].execute_at == ts + 1,
        after_firing(tasks, id, ts).dom() == tasks.dom(),
{
    assert(after_firing(tasks, id, ts).dom() =~= tasks.dom());
}

} // verus!
