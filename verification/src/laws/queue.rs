//! Laws of the task queue.

use crate::coord::{at_most, less, rounded, whole, Coord};
use crate::geometry::{apart, measured};
use crate::model::{
    attended, closed, dragged, faded, finished, finished_id, finished_text, grabbed_id,
    handle_used, held, ids, ids_below, is_faded, last_picked, moved, names_task, opened,
    panel_used, position, restored, rows_used, shown, slot, slot_above, slot_below, snapshot,
    stored, submitted, unfinished, AppModel, HandleReply, Pair, PanelReply, QueueModel,
    RowReply, StoredModel, TaskModel,
};
use crate::queue::{autosave_step, started, Autosave, SAVE_DELAY_NANOS};
use crate::text::{is_white_space, trimmed_back, trimmed_front};
use vstd::arithmetic::power2::pow2;
use vstd::prelude::*;

verus! {

/// Filtering keeps order, and takes exactly the elements for which the test holds.
pub(crate) proof fn lemma_filter<T>(s: Seq<T>, f: spec_fn(T) -> bool)
    ensures
        forall|i: int| 0 <= i < s.filter(f).len() ==> f(#[trigger] s.filter(f)[i]),
        forall|x: T| #[trigger] s.filter(f).contains(x) <==> s.contains(x) && f(x),
        s.filter(f).len() <= s.len(),
        (forall|i: int| 0 <= i < s.len() ==> f(#[trigger] s[i])) ==> s.filter(f) == s,
    decreases s.len(),
{
    reveal(Seq::filter);
    if s.len() > 0 {
        let front = s.drop_last();
        let t = front.filter(f);
        let x0 = s.last();
        lemma_filter(front, f);
        assert(s == front.push(x0));
        let r = s.filter(f);
        assert(r == if f(x0) {
            t.push(x0)
        } else {
            t
        });
        assert forall|x: T| #[trigger] r.contains(x) <==> s.contains(x) && f(x) by {
            if r.contains(x) {
                let i = choose|i: int| 0 <= i < r.len() && r[i] == x;
                if i < t.len() {
                    assert(t[i] == x);
                    assert(t.contains(x));
                    let k = choose|k: int| 0 <= k < front.len() && front[k] == x;
                    assert(s[k] == x);
                } else {
                    assert(s[s.len() - 1] == x);
                }
            }
            if s.contains(x) && f(x) {
                let k = choose|k: int| 0 <= k < s.len() && s[k] == x;
                if k < front.len() {
                    assert(front[k] == x);
                    assert(t.contains(x));
                    let i = choose|i: int| 0 <= i < t.len() && t[i] == x;
                    assert(r[i] == x);
                } else {
                    assert(r[t.len() as int] == x);
                }
            }
        }
        if forall|i: int| 0 <= i < s.len() ==> f(#[trigger] s[i]) {
            assert forall|i: int| 0 <= i < front.len() implies f(#[trigger] front[i]) by {
                assert(front[i] == s[i]);
            }
            assert(f(s[s.len() - 1]));
        }
    }
}

/// The unfinished tasks are those, and all of those, that are not done.
proof fn lemma_unfinished(tasks: Seq<TaskModel>)
    ensures
        forall|i: int| 0 <= i < unfinished(tasks).len() ==> !(#[trigger] unfinished(tasks)[i]).done,
        forall|t: TaskModel| #[trigger]
            unfinished(tasks).contains(t) <==> tasks.contains(t) && !t.done,
        (forall|i: int| 0 <= i < tasks.len() ==> !(#[trigger] tasks[i]).done) ==> unfinished(tasks)
            == tasks,
{
    lemma_filter(tasks, |t: TaskModel| !t.done);
}

/// A restart brings back the tasks that were still to do, as they were and in their
/// order, and none that was finished, even if it was still fading out.
pub proof fn restart_keeps_what_is_to_do(q: QueueModel, autostart: bool)
    ensures
        started(snapshot(q), autostart).tasks == unfinished(q.tasks),
{
    lemma_unfinished(q.tasks);
    let back = started(snapshot(q), autostart).tasks;
    assert forall|i: int| 0 <= i < back.len() implies back[i] == unfinished(q.tasks)[i] by {
        let t = unfinished(q.tasks)[i];
        assert(!t.done);
        assert(back[i] == restored(stored(t)));
    }
    assert(back =~= unfinished(q.tasks));
}

/// What is saved of a queue can be started from: no id is the greatest of all.
pub proof fn what_is_saved_can_be_started_from(q: QueueModel)
    requires
        q.wf(),
    ensures
        forall|i: int|
            0 <= i < snapshot(q).tasks.len() ==> (#[trigger] snapshot(q).tasks[i]).id < u64::MAX,
{
    lemma_unfinished(q.tasks);
    let s = snapshot(q);
    assert forall|i: int| 0 <= i < s.tasks.len() implies (#[trigger] s.tasks[i]).id
        < u64::MAX by {
        let t = unfinished(q.tasks)[i];
        assert(s.tasks[i] == stored(t));
        assert(unfinished(q.tasks).contains(t));
        let k = choose|k: int| 0 <= k < q.tasks.len() && q.tasks[k] == t;
        assert(q.tasks[k].id < q.next_id);
    }
}

/// The number on the handle is the number of tasks that are saved.
pub proof fn count_is_what_is_saved(q: QueueModel)
    ensures
        unfinished(q.tasks).len() == snapshot(q).tasks.len(),
{
}

/// Saving, starting again and saving changes nothing, except that a handle kept above
/// the screen comes back to its upper edge.
pub proof fn saving_again_after_a_restart_changes_nothing(
    q: QueueModel,
    autostart: bool,
)
    requires
        at_most(whole(0), rounded(q.handle_y)),
    ensures
        snapshot(started(snapshot(q), autostart)) == snapshot(q),
{
    let s = snapshot(q);
    let r = started(s, autostart);
    restart_keeps_what_is_to_do(q, autostart);
    lemma_unfinished(q.tasks);
    lemma_unfinished(r.tasks);
    assert(unfinished(r.tasks) == r.tasks);
    crate::laws::coord::rounding_twice_is_rounding_once(q.handle_x);
    crate::laws::coord::rounding_twice_is_rounding_once(q.handle_y);
    crate::laws::coord::rounding_twice_is_rounding_once(q.width);
    assert(r.handle_y == rounded(q.handle_y));
    assert(snapshot(r).tasks =~= s.tasks);
}

/// A handle that was kept above the screen comes back to its upper edge.
pub proof fn a_handle_above_the_screen_comes_back(q: QueueModel, autostart: bool)
    requires
        !at_most(whole(0), rounded(q.handle_y)),
    ensures
        started(snapshot(q), autostart).handle_y == whole(0),
{
    crate::laws::coord::whole_is_a_number(0);
}

/// No two tasks of a list have the same id.
pub open spec fn all_distinct(tasks: Seq<TaskModel>) -> bool {
    forall|i: int, j: int|
        0 <= i < j < tasks.len() ==> (#[trigger] tasks[i]).id != (#[trigger] tasks[j]).id
}

pub(crate) proof fn lemma_distinct(q: QueueModel)
    ensures
        q.distinct() <==> all_distinct(q.tasks),
{
    let d = ids(q.tasks);
    if q.distinct() {
        assert forall|i: int, j: int| 0 <= i < j < q.tasks.len() implies (#[trigger] q.tasks[i]).id
            != (#[trigger] q.tasks[j]).id by {
            assert(d[i] != d[j]);
        }
    }
    if all_distinct(q.tasks) {
        assert forall|i: int, j: int| 0 <= i < d.len() && 0 <= j < d.len() && i != j implies d[i]
            != d[j] by {
            assert(d[i] == q.tasks[i].id && d[j] == q.tasks[j].id);
            if i < j {
            } else {
                assert(q.tasks[j].id != q.tasks[i].id);
            }
        }
    }
}

/// Filtering keeps ids distinct and below their bound.
proof fn lemma_filter_ids(tasks: Seq<TaskModel>, f: spec_fn(TaskModel) -> bool, next_id: u64)
    ensures
        all_distinct(tasks) ==> all_distinct(tasks.filter(f)),
        ids_below(tasks, next_id) ==> ids_below(tasks.filter(f), next_id),
    decreases tasks.len(),
{
    reveal(Seq::filter);
    lemma_filter(tasks, f);
    let r = tasks.filter(f);
    if ids_below(tasks, next_id) {
        assert forall|i: int| 0 <= i < r.len() implies (#[trigger] r[i]).id < next_id by {
            assert(r.contains(r[i]));
            let k = choose|k: int| 0 <= k < tasks.len() && tasks[k] == r[i];
            assert(tasks[k].id < next_id);
        }
    }
    if tasks.len() > 0 && all_distinct(tasks) {
        let front = tasks.drop_last();
        let t = front.filter(f);
        let last = tasks.last();
        assert(all_distinct(front)) by {
            assert forall|i: int, j: int| 0 <= i < j < front.len() implies (#[trigger] front[i]).id
                != (#[trigger] front[j]).id by {
                assert(front[i] == tasks[i] && front[j] == tasks[j]);
            }
        }
        lemma_filter_ids(front, f, next_id);
        lemma_filter(front, f);
        assert forall|i: int, j: int| 0 <= i < j < r.len() implies (#[trigger] r[i]).id
            != (#[trigger] r[j]).id by {
            if j < t.len() {
                assert(r[i] == t[i] && r[j] == t[j]);
            } else {
                assert(r[i] == t[i] && r[j] == last);
                assert(t.contains(t[i]));
                let k = choose|k: int| 0 <= k < front.len() && front[k] == t[i];
                assert(tasks[k].id != tasks[tasks.len() - 1].id);
            }
        }
    }
}

/// Where the element in slot `k` of a moved list was before.
pub open spec fn source(i: int, j: int, k: int) -> int {
    if k == j {
        i
    } else {
        let m = if k < j {
            k
        } else {
            k - 1
        };
        if m < i {
            m
        } else {
            m + 1
        }
    }
}

/// Where the element in slot `k` of a list is after the move.
pub open spec fn target(i: int, j: int, k: int) -> int {
    if k == i {
        j
    } else {
        let m = if k < i {
            k
        } else {
            k - 1
        };
        if m < j {
            m
        } else {
            m + 1
        }
    }
}

/// The element in slot `k` of a moved list.
pub(crate) proof fn lemma_moved_at(tasks: Seq<TaskModel>, i: int, j: int, k: int)
    requires
        0 <= i < tasks.len(),
        0 <= j < tasks.len(),
        0 <= k < tasks.len(),
    ensures
        moved(tasks, i, j).len() == tasks.len(),
        0 <= source(i, j, k) < tasks.len(),
        0 <= target(i, j, k) < tasks.len(),
        source(i, j, target(i, j, k)) == k,
        moved(tasks, i, j)[k] == tasks[source(i, j, k)],
{
    let rest = tasks.remove(i);
    let x = tasks[i];
    rest.insert_ensures(j, x);
    if k > j {
        assert(rest.insert(j, x)[(k - 1) + 1] == rest[k - 1]);
    }
}

/// A moved list holds the same tasks, still with distinct ids.
proof fn lemma_moved(tasks: Seq<TaskModel>, i: int, j: int)
    requires
        0 <= i < tasks.len(),
        0 <= j < tasks.len(),
    ensures
        moved(tasks, i, j).len() == tasks.len(),
        forall|t: TaskModel| #[trigger] moved(tasks, i, j).contains(t) <==> tasks.contains(t),
        all_distinct(tasks) ==> all_distinct(moved(tasks, i, j)),
{
    let m = moved(tasks, i, j);
    assert(m.len() == tasks.len()) by {
        lemma_moved_at(tasks, i, j, i);
    }
    assert forall|t: TaskModel| #[trigger] m.contains(t) <==> tasks.contains(t) by {
        if m.contains(t) {
            let k = choose|k: int| 0 <= k < m.len() && m[k] == t;
            lemma_moved_at(tasks, i, j, k);
            assert(tasks[source(i, j, k)] == t);
        }
        if tasks.contains(t) {
            let k = choose|k: int| 0 <= k < tasks.len() && tasks[k] == t;
            lemma_moved_at(tasks, i, j, k);
            lemma_moved_at(tasks, i, j, target(i, j, k));
            assert(m[target(i, j, k)] == t);
        }
    }
    if all_distinct(tasks) {
        assert forall|a: int, b: int| 0 <= a < b < m.len() implies (#[trigger] m[a]).id
            != (#[trigger] m[b]).id by {
            lemma_moved_at(tasks, i, j, a);
            lemma_moved_at(tasks, i, j, b);
            let x = source(i, j, a);
            let y = source(i, j, b);
            if x < y {
                assert(tasks[x].id != tasks[y].id);
            } else {
                assert(tasks[y].id != tasks[x].id);
            }
        }
    }
}

/// Moving a task changes neither the tasks nor the order of the others.
pub proof fn moving_only_reorders(tasks: Seq<TaskModel>, i: int, j: int)
    requires
        0 <= i < tasks.len(),
        0 <= j < tasks.len(),
    ensures
        moved(tasks, i, j).to_multiset() == tasks.to_multiset(),
        moved(tasks, i, j)[j] == tasks[i],
        moved(tasks, i, j).remove(j) == tasks.remove(i),
{
    let rest = tasks.remove(i);
    tasks.to_multiset_ensures();
    rest.to_multiset_ensures();
    lemma_insert_multiset(rest, j, tasks[i]);
    assert(tasks.contains(tasks[i]));
    assert(tasks.to_multiset().count(tasks[i]) > 0);
    assert(rest.to_multiset() == tasks.to_multiset().remove(tasks[i]));
    assert(moved(tasks, i, j).to_multiset() =~= tasks.to_multiset());
    assert(moved(tasks, i, j).remove(j) =~= rest);
}

proof fn lemma_insert_multiset(s: Seq<TaskModel>, j: int, t: TaskModel)
    requires
        0 <= j <= s.len(),
    ensures
        s.insert(j, t).to_multiset() == s.to_multiset().insert(t),
{
    let r = s.insert(j, t);
    s.insert_ensures(j, t);
    r.to_multiset_ensures();
    assert(r.remove(j) =~= s);
    assert(r[j] == t);
    assert(r.contains(t));
    assert(r.to_multiset().count(t) > 0);
    assert(s.to_multiset().insert(t) =~= r.to_multiset());
}

/// What every event keeps: ids in use are below the next one to be given out, distinct
/// ids stay distinct, and the next id never goes back.
pub open spec fn keeps_ids(before: QueueModel, after: QueueModel) -> bool {
    &&& before.wf() ==> after.wf()
    &&& before.wf() && before.distinct() ==> after.distinct()
    &&& before.next_id <= after.next_id
}

/// A task that is submitted gets an id that no task has.
pub proof fn submitting_keeps_ids(q: QueueModel)
    requires
        names_task(q.input) ==> q.next_id < u64::MAX,
    ensures
        keeps_ids(q, submitted(q)),
        q.wf() && names_task(q.input) ==> !ids(q.tasks).contains(submitted(q).tasks.last().id),
{
    let r = submitted(q);
    lemma_distinct(q);
    lemma_distinct(r);
    if names_task(q.input) {
        let n = q.tasks.len() as int;
        if q.wf() {
            assert forall|i: int| 0 <= i < r.tasks.len() implies (#[trigger] r.tasks[i]).id
                < r.next_id by {
                if i < n {
                    assert(r.tasks[i] == q.tasks[i]);
                }
            }
            if ids(q.tasks).contains(q.next_id) {
                let k = choose|k: int| 0 <= k < ids(q.tasks).len() && ids(q.tasks)[k] == q.next_id;
                assert(q.tasks[k].id < q.next_id);
                assert(false);
            }
            if q.distinct() {
                assert forall|i: int, j: int| 0 <= i < j < r.tasks.len() implies (
                #[trigger] r.tasks[i]).id != (#[trigger] r.tasks[j]).id by {
                    assert(r.tasks[i] == q.tasks[i]);
                    if j < n {
                        assert(r.tasks[j] == q.tasks[j]);
                    } else {
                        assert(q.tasks[i].id < q.next_id);
                    }
                }
            }
        }
    } else {
        assert(r.tasks == q.tasks);
    }
}

/// A frame of the panel keeps ids.
pub proof fn the_panel_keeps_ids(q: QueueModel, r: PanelReply)
    requires
        r.entered && names_task(q.input) ==> q.next_id < u64::MAX,
    ensures
        keeps_ids(q, panel_used(q, r)),
{
    let p = QueueModel {
        focus_input: false,
        ..crate::model::autostart_chosen(q, r.want_autostart, r.autostart_written)
    };
    if r.entered {
        submitting_keeps_ids(p);
    }
}

/// Where a task with an id is.
pub(crate) proof fn lemma_position(tasks: Seq<TaskModel>, id: u64)
    ensures
        match position(tasks, id) {
            Some(i) => 0 <= i < tasks.len() && tasks[i].id == id,
            None => forall|k: int| 0 <= k < tasks.len() ==> (#[trigger] tasks[k]).id != id,
        },
{
    let d = ids(tasks);
    d.index_of_first_ensures(id);
    if position(tasks, id) is None {
        assert forall|k: int| 0 <= k < tasks.len() implies (#[trigger] tasks[k]).id != id by {
            assert(d[k] == tasks[k].id);
        }
    }
}

pub(crate) proof fn lemma_slot_range(rows: Seq<RowReply>, p: Coord, i: int)
    requires
        0 <= i < rows.len(),
    ensures
        0 <= slot_above(rows, p, i) <= i,
        i <= slot_below(rows, p, i) < rows.len(),
        0 <= slot(rows, p, i) < rows.len(),
{
    lemma_above_range(rows, p, i);
    lemma_below_range(rows, p, i);
}

proof fn lemma_above_range(rows: Seq<RowReply>, p: Coord, i: int)
    requires
        0 <= i < rows.len(),
    ensures
        0 <= slot_above(rows, p, i) <= i,
    decreases i,
{
    if 0 < i && less(p, rows[i - 1].center) {
        lemma_above_range(rows, p, i - 1);
    }
}

proof fn lemma_below_range(rows: Seq<RowReply>, p: Coord, i: int)
    requires
        0 <= i < rows.len(),
    ensures
        i <= slot_below(rows, p, i) < rows.len(),
    decreases rows.len() - i,
{
    if i + 1 < rows.len() && less(rows[i + 1].center, p) {
        lemma_below_range(rows, p, i + 1);
    }
}

/// Finishing and dragging keep the list's length and ids.
pub(crate) proof fn lemma_finished(q: QueueModel, id: Option<u64>)
    ensures
        finished(q, id).tasks.len() == q.tasks.len(),
        forall|k: int|
            0 <= k < q.tasks.len() ==> (#[trigger] finished(q, id).tasks[k]).id == q.tasks[k].id
                && finished(q, id).tasks[k].text == q.tasks[k].text,
        q.wf() ==> finished(q, id).wf(),
        all_distinct(q.tasks) ==> all_distinct(finished(q, id).tasks),
{
    let r = finished(q, id);
    if let Some(x) = id {
        lemma_position(q.tasks, x);
    }
    assert forall|k: int| 0 <= k < q.tasks.len() implies (#[trigger] r.tasks[k]).id
        == q.tasks[k].id && r.tasks[k].text == q.tasks[k].text by {}
    if all_distinct(q.tasks) {
        assert forall|i: int, j: int| 0 <= i < j < r.tasks.len() implies (#[trigger] r.tasks[i]).id
            != (#[trigger] r.tasks[j]).id by {
            assert(r.tasks[i].id == q.tasks[i].id && r.tasks[j].id == q.tasks[j].id);
        }
    }
    if q.wf() {
        assert forall|i: int| 0 <= i < r.tasks.len() implies (#[trigger] r.tasks[i]).id
            < r.next_id by {
            assert(r.tasks[i].id == q.tasks[i].id);
        }
    }
}

pub(crate) proof fn lemma_dragged(q: QueueModel, rows: Seq<RowReply>, pointer: Option<Coord>)
    requires
        rows.len() == q.tasks.len(),
    ensures
        dragged(q, rows, pointer).tasks.len() == q.tasks.len(),
        forall|t: TaskModel| #[trigger]
            dragged(q, rows, pointer).tasks.contains(t) <==> q.tasks.contains(t),
        q.wf() ==> dragged(q, rows, pointer).wf(),
        all_distinct(q.tasks) ==> all_distinct(dragged(q, rows, pointer).tasks),
        dragged(q, rows, pointer).tasks.to_multiset() == q.tasks.to_multiset(),
{
    let r = dragged(q, rows, pointer);
    if let (Some(id), Some(p)) = (q.drag, pointer) {
        lemma_position(q.tasks, id);
        if let Some(i) = position(q.tasks, id) {
            lemma_slot_range(rows, p, i);
            lemma_moved(q.tasks, i, slot(rows, p, i));
            moving_only_reorders(q.tasks, i, slot(rows, p, i));
        }
    }
    if q.wf() {
        assert forall|i: int| 0 <= i < r.tasks.len() implies (#[trigger] r.tasks[i]).id
            < r.next_id by {
            assert(r.tasks.contains(r.tasks[i]));
            let k = choose|k: int| 0 <= k < q.tasks.len() && q.tasks[k] == r.tasks[i];
            assert(q.tasks[k].id < q.next_id);
        }
    }
}

/// A frame of the rows keeps ids, and keeps them distinct whatever the next one is.
pub proof fn the_rows_keep_ids(
    q: QueueModel,
    rows: Seq<RowReply>,
    pointer: Option<Coord>,
    pointer_down: bool,
)
    requires
        rows.len() == q.tasks.len(),
    ensures
        keeps_ids(q, rows_used(q, rows, pointer, pointer_down)),
        q.distinct() ==> rows_used(q, rows, pointer, pointer_down).distinct(),
{
    let a = finished(q, finished_id(q.tasks, rows));
    let b = held(a, grabbed_id(q.tasks, rows), pointer_down);
    let c = dragged(b, rows, pointer);
    let r = rows_used(q, rows, pointer, pointer_down);
    lemma_finished(q, finished_id(q.tasks, rows));
    lemma_dragged(b, rows, pointer);
    lemma_filter_ids(c.tasks, |t: TaskModel| !is_faded(q.tasks, rows, t.id), c.next_id);
    lemma_distinct(q);
    lemma_distinct(r);
}

/// Only a click takes a task off what is to do: an unfinished task is there after a
/// frame exactly if it was there before and was not the one clicked.
pub proof fn only_a_click_finishes_a_task(
    q: QueueModel,
    rows: Seq<RowReply>,
    pointer: Option<Coord>,
    pointer_down: bool,
    t: TaskModel,
)
    requires
        rows.len() == q.tasks.len(),
        q.distinct(),
        !t.done,
    ensures
        rows_used(q, rows, pointer, pointer_down).tasks.contains(t) <==> q.tasks.contains(t)
            && finished_id(q.tasks, rows) != Some(t.id),
{
    let id = finished_id(q.tasks, rows);
    let a = finished(q, id);
    let b = held(a, grabbed_id(q.tasks, rows), pointer_down);
    let c = dragged(b, rows, pointer);
    let r = rows_used(q, rows, pointer, pointer_down);
    let f = |t: TaskModel| !is_faded(q.tasks, rows, t.id);
    lemma_distinct(q);
    lemma_finished(q, id);
    lemma_dragged(b, rows, pointer);
    lemma_filter(c.tasks, f);
    if let Some(x) = id {
        lemma_position(q.tasks, x);
    }
    if q.tasks.contains(t) && id != Some(t.id) {
        let k = choose|k: int| 0 <= k < q.tasks.len() && q.tasks[k] == t;
        assert(a.tasks[k] == t);
        assert(b.tasks.contains(t));
        assert(c.tasks.contains(t));
        if is_faded(q.tasks, rows, t.id) {
            let m = choose|m: int|
                0 <= m < q.tasks.len() && m < rows.len() && (#[trigger] q.tasks[m]).id == t.id
                    && faded(q.tasks[m], rows[m]);
            assert(q.tasks[k].id == t.id);
            if m < k {
                assert(q.tasks[m].id != q.tasks[k].id);
            } else if k < m {
                assert(q.tasks[k].id != q.tasks[m].id);
            }
            assert(false);
        }
        assert(f(t));
        assert(r.tasks.contains(t));
    }
    if r.tasks.contains(t) {
        assert(c.tasks.contains(t));
        assert(b.tasks.contains(t));
        let k = choose|k: int| 0 <= k < b.tasks.len() && b.tasks[k] == t;
        assert(a.tasks[k] == t);
        assert(q.tasks[k] == t);
        if id == Some(t.id) {
            let i = position(q.tasks, t.id).unwrap();
            assert(a.tasks[i].done);
            if i < k {
                assert(q.tasks[i].id != q.tasks[k].id);
            } else if k < i {
                assert(q.tasks[k].id != q.tasks[i].id);
            }
        }
    }
}

/// A finished task stays on the board, fading, until its fade has run out, and is gone
/// in the frame after.
pub proof fn a_finished_task_goes_when_it_has_faded(
    q: QueueModel,
    rows: Seq<RowReply>,
    pointer: Option<Coord>,
    pointer_down: bool,
    k: int,
)
    requires
        rows.len() == q.tasks.len(),
        q.distinct(),
        0 <= k < q.tasks.len(),
        q.tasks[k].done,
    ensures
        rows_used(q, rows, pointer, pointer_down).tasks.contains(q.tasks[k]) <==> !at_most(
            rows[k].fade,
            whole(0),
        ),
{
    let t = q.tasks[k];
    let id = finished_id(q.tasks, rows);
    let a = finished(q, id);
    let b = held(a, grabbed_id(q.tasks, rows), pointer_down);
    let c = dragged(b, rows, pointer);
    let f = |t: TaskModel| !is_faded(q.tasks, rows, t.id);
    lemma_distinct(q);
    lemma_finished(q, id);
    lemma_dragged(b, rows, pointer);
    lemma_filter(c.tasks, f);
    assert(a.tasks[k] == t) by {
        if let Some(x) = id {
            lemma_position(q.tasks, x);
        }
    }
    assert(b.tasks.contains(t));
    assert(c.tasks.contains(t));
    if at_most(rows[k].fade, whole(0)) {
        assert(faded(q.tasks[k], rows[k]));
        assert(is_faded(q.tasks, rows, t.id));
    } else if is_faded(q.tasks, rows, t.id) {
        let m = choose|m: int|
            0 <= m < q.tasks.len() && m < rows.len() && (#[trigger] q.tasks[m]).id == t.id && faded(
                q.tasks[m],
                rows[m],
            );
        if m < k {
            assert(q.tasks[m].id != q.tasks[k].id);
        } else if k < m {
            assert(q.tasks[k].id != q.tasks[m].id);
        }
    }
}

/// A task that is finished is at once no longer saved, and the change is to be saved.
pub proof fn a_finished_task_is_not_saved(q: QueueModel, id: u64)
    requires
        q.distinct(),
        position(q.tasks, id) is Some,
    ensures
        finished(q, Some(id)).dirty,
        forall|i: int|
            0 <= i < snapshot(finished(q, Some(id))).tasks.len() ==> (#[trigger] snapshot(
                finished(q, Some(id)),
            ).tasks[i]).id != id,
{
    let a = finished(q, Some(id));
    let s = snapshot(a);
    lemma_position(q.tasks, id);
    lemma_distinct(q);
    lemma_finished(q, Some(id));
    lemma_unfinished(a.tasks);
    let i0 = position(q.tasks, id).unwrap();
    assert forall|i: int| 0 <= i < s.tasks.len() implies (#[trigger] s.tasks[i]).id != id by {
        let t = unfinished(a.tasks)[i];
        assert(s.tasks[i] == stored(t));
        assert(unfinished(a.tasks).contains(t));
        let k = choose|k: int| 0 <= k < a.tasks.len() && a.tasks[k] == t;
        assert(a.tasks[i0].done);
        assert(k != i0);
        assert(a.tasks[k].id == q.tasks[k].id);
        if k < i0 {
            assert(q.tasks[k].id != q.tasks[i0].id);
        } else {
            assert(q.tasks[i0].id != q.tasks[k].id);
        }
    }
}

/// The rows stand one below the other.
pub open spec fn rows_descend(rows: Seq<RowReply>) -> bool {
    forall|i: int, j: int|
        0 <= i <= j < rows.len() ==> at_most(
            (#[trigger] rows[i]).center,
            (#[trigger] rows[j]).center,
        )
}

/// The slot next to `i`, on the way to the pointer: past a neighbour whose middle the
/// pointer has crossed.
pub open spec fn next_slot(rows: Seq<RowReply>, pointer: Coord, i: int) -> int {
    if 0 < i && less(pointer, rows[i - 1].center) {
        i - 1
    } else if i + 1 < rows.len() && less(rows[i + 1].center, pointer) {
        i + 1
    } else {
        i
    }
}

/// Swapping the dragged task with a neighbour, for as long as the pointer is past the
/// neighbour's middle, comes to an end, and at the slot that dragging gives: every swap
/// brings it one slot nearer.
pub proof fn every_swap_comes_nearer(rows: Seq<RowReply>, pointer: Coord, i: int)
    requires
        0 <= i < rows.len(),
        rows_descend(rows),
    ensures
        0 <= next_slot(rows, pointer, i) < rows.len(),
        slot(rows, pointer, next_slot(rows, pointer, i)) == slot(rows, pointer, i),
        next_slot(rows, pointer, i) == i <==> slot(rows, pointer, i) == i,
        next_slot(rows, pointer, i) < i ==> slot(rows, pointer, i) <= next_slot(rows, pointer, i),
        next_slot(rows, pointer, i) > i ==> slot(rows, pointer, i) >= next_slot(rows, pointer, i),
{
    lemma_slot_range(rows, pointer, i);
    let n = next_slot(rows, pointer, i);
    if n < i {
        lemma_slot_range(rows, pointer, i - 1);
        assert(at_most(rows[i - 1].center, rows[i].center));
        assert(!less(rows[i].center, pointer));
    } else if n > i {
        lemma_slot_range(rows, pointer, i + 1);
        assert(at_most(rows[i].center, rows[i + 1].center));
        assert(!less(pointer, rows[i].center));
    }
}

/// Where a drag ends, the pointer is past the middle of neither neighbour, so that
/// dragging again moves nothing.
pub proof fn a_dragged_task_comes_to_rest(rows: Seq<RowReply>, pointer: Coord, i: int)
    requires
        0 <= i < rows.len(),
        rows_descend(rows),
    ensures
        next_slot(rows, pointer, slot(rows, pointer, i)) == slot(rows, pointer, i),
        slot(rows, pointer, slot(rows, pointer, i)) == slot(rows, pointer, i),
    decreases
        if slot(rows, pointer, i) < i {
            i - slot(rows, pointer, i)
        } else {
            slot(rows, pointer, i) - i
        },
{
    every_swap_comes_nearer(rows, pointer, i);
    let n = next_slot(rows, pointer, i);
    if n != i {
        a_dragged_task_comes_to_rest(rows, pointer, n);
    }
}

/// A drag only reorders: the tasks are the same, and only the dragged one changes its
/// place among them.
pub proof fn dragging_only_reorders(q: QueueModel, rows: Seq<RowReply>, pointer: Option<Coord>)
    requires
        rows.len() == q.tasks.len(),
    ensures
        dragged(q, rows, pointer).tasks.to_multiset() == q.tasks.to_multiset(),
        dragged(q, rows, pointer).tasks != q.tasks ==> dragged(q, rows, pointer).dirty,
        dragged(q, rows, pointer).tasks != q.tasks ==> exists|i: int, j: int|
            0 <= i < q.tasks.len() && 0 <= j < q.tasks.len() && q.drag == Some(q.tasks[i].id)
                && dragged(q, rows, pointer).tasks == #[trigger] moved(q.tasks, i, j),
{
    lemma_dragged(q, rows, pointer);
    if let (Some(id), Some(p)) = (q.drag, pointer) {
        lemma_position(q.tasks, id);
        if let Some(i) = position(q.tasks, id) {
            lemma_slot_range(rows, p, i);
            let j = slot(rows, p, i);
            if j != i {
                assert(dragged(q, rows, pointer).tasks == moved(q.tasks, i, j));
            }
        }
    }
}

/// Nothing is dragged once the pointer is up, or the board closed.
pub proof fn letting_go_ends_a_drag(
    q: QueueModel,
    rows: Seq<RowReply>,
    pointer: Option<Coord>,
    focused: bool,
)
    ensures
        rows_used(q, rows, pointer, false).drag is None,
        closed(q).drag is None,
        q.expanded ==> attended(q, true, focused).drag is None,
{
}

/// A board that was just opened waits for the focus: not having it yet does not close
/// it.
pub proof fn a_board_waits_for_its_first_focus(q: QueueModel)
    ensures
        attended(opened(q), false, false) == opened(q),
{
}

/// An open board that had the focus closes when it loses it; Escape closes it in any
/// case; and with the focus and without Escape it stays.
pub proof fn losing_the_focus_or_escape_closes(q: QueueModel, focused: bool)
    requires
        q.expanded,
    ensures
        !attended(q, true, focused).expanded,
        attended(attended(q, false, true), false, false) == closed(q),
        attended(q, false, true).expanded,
{
}

/// A board that is closed is left alone by keys and focus.
pub proof fn a_closed_board_is_left_alone(q: QueueModel, escape: bool, focused: bool)
    requires
        !q.expanded,
    ensures
        attended(q, escape, focused) == q,
{
}

/// Waiting as long as was asked is enough to be allowed to save.
pub proof fn waiting_leads_to_saving(elapsed: nat)
    ensures
        match autosave_step(true, false, elapsed) {
            Autosave::Idle => false,
            Autosave::Save => elapsed >= SAVE_DELAY_NANOS,
            Autosave::Wait { nanos } => {
                &&& nanos > 0
                &&& autosave_step(true, false, elapsed + nanos as nat) == Autosave::Save
            },
        },
{
}

/// Nothing is saved while the pointer is down, nor when nothing has changed.
pub proof fn no_saving_while_the_pointer_is_down(dirty: bool, elapsed: nat)
    ensures
        autosave_step(dirty, true, elapsed) == Autosave::Idle,
        autosave_step(false, false, elapsed) == Autosave::Idle,
{
}

proof fn lemma_trimmed_front(s: Seq<char>)
    ensures
        trimmed_front(s).len() <= s.len(),
        trimmed_front(s).len() > 0 ==> !is_white_space(trimmed_front(s).first()),
    decreases s.len(),
{
    if s.len() > 0 && is_white_space(s.first()) {
        lemma_trimmed_front(s.drop_first());
    }
}

proof fn lemma_trimmed_back(s: Seq<char>)
    ensures
        trimmed_back(s).len() <= s.len(),
        trimmed_back(s).len() > 0 ==> !is_white_space(trimmed_back(s).last()) && trimmed_back(
            s,
        ).first() == s.first(),
    decreases s.len(),
{
    if s.len() > 0 && is_white_space(s.last()) {
        lemma_trimmed_back(s.drop_last());
    }
}

/// The text of a submitted task neither begins nor ends with white space, and is not
/// empty; the input line is empty afterwards either way.
pub proof fn submitted_text_is_trimmed(q: QueueModel)
    ensures
        submitted(q).input.len() == 0,
        names_task(q.input) ==> {
            let text = submitted(q).tasks.last().text;
            text.len() > 0 && !is_white_space(text.first()) && !is_white_space(text.last())
        },
        !names_task(q.input) ==> submitted(q).tasks == q.tasks && submitted(q).dirty == q.dirty,
{
    let front = trimmed_front(q.input);
    lemma_trimmed_front(q.input);
    lemma_trimmed_back(front);
}

/// Tasks that come back from disk have distinct ids if those on disk had.
pub proof fn starting_keeps_ids_distinct(state: AppModel, autostart: bool)
    requires
        state.tasks.map_values(|t: StoredModel| t.id).no_duplicates(),
    ensures
        started(state, autostart).distinct(),
{
    let q = started(state, autostart);
    assert(ids(q.tasks) =~= state.tasks.map_values(|t: StoredModel| t.id));
}

/// The handle does not jump when it is grabbed: in the frame in which a drag begins it
/// stays where the window is, if the pointer's place on the screen needs no rounding.
pub proof fn grabbing_the_handle_does_not_move_it(
    q: QueueModel,
    r: HandleReply,
    top: Coord,
    p: Coord,
)
    requires
        r.pointer_y == Some(p),
        r.window_top == Some(top),
        r.drag_started,
        r.dragged,
        crate::laws::coord::exact_sum(top, p),
    ensures
        handle_used(q, r).handle_y.is_finite(),
        handle_used(q, r).handle_y.units() == top.units(),
{
    crate::laws::coord::taking_away_what_was_added(top, p);
}

/// The handle does not jump when it is grabbed: below 2^22 points it stays within less
/// than half a point of where the window is, so that the window is left where it is.
pub proof fn grabbing_the_handle_hardly_moves_it(
    q: QueueModel,
    r: HandleReply,
    top: Coord,
    p: Coord,
)
    requires
        r.pointer_y == Some(p),
        r.window_top == Some(top),
        r.drag_started,
        r.dragged,
        top.is_finite(),
        p.is_finite(),
        -pow2(171) < top.units() < pow2(171),
        -pow2(171) < p.units() < pow2(171),
    ensures
        handle_used(q, r).handle_y.is_finite(),
        2 * crate::laws::coord::apart_by(handle_used(q, r).handle_y.units(), top.units())
            < crate::coord::point(),
        !apart(handle_used(q, r).handle_y, top),
{
    crate::laws::coord::adding_and_taking_away_is_nearly_nothing(top, p);
    crate::laws::coord::half_a_point_is_half();
    crate::laws::coord::what_is_near_is_not_apart(handle_used(q, r).handle_y, top);
}

/// A row that is picked is one of a task that is not finished.
proof fn lemma_picked(
    tasks: Seq<TaskModel>,
    rows: Seq<RowReply>,
    pick: spec_fn(RowReply) -> bool,
)
    requires
        rows.len() <= tasks.len(),
    ensures
        last_picked(tasks, rows, pick) matches Some(id) ==> exists|k: int|
            0 <= k < rows.len() && (#[trigger] tasks[k]).id == id && !tasks[k].done && shown(
                rows[k],
            ) && pick(rows[k]),
    decreases rows.len(),
{
    if rows.len() > 0 {
        let n = rows.len() - 1;
        if shown(rows.last()) && !tasks[n].done && pick(rows.last()) {
            assert(rows[n] == rows.last());
        } else {
            let front = rows.drop_last();
            lemma_picked(tasks, front, pick);
            if let Some(id) = last_picked(tasks, front, pick) {
                let k = choose|k: int|
                    0 <= k < front.len() && (#[trigger] tasks[k]).id == id && !tasks[k].done
                        && shown(front[k]) && pick(front[k]);
                assert(rows[k] == front[k]);
            }
        }
    }
}

/// What is recorded is the text of a task that was clicked while it was to do, and is
/// finished afterwards.
pub proof fn what_is_recorded_was_to_do(q: QueueModel, rows: Seq<RowReply>)
    requires
        rows.len() == q.tasks.len(),
        q.distinct(),
        finished_text(q, finished_id(q.tasks, rows)) is Some,
    ensures
        exists|k: int|
            0 <= k < q.tasks.len() && !(#[trigger] q.tasks[k]).done && rows[k].clicked && shown(
                rows[k],
            ) && finished_text(q, finished_id(q.tasks, rows)) == Some(q.tasks[k].text) && finished(
                q,
                finished_id(q.tasks, rows),
            ).tasks[k].done,
{
    let pick = |r: RowReply| r.clicked;
    let id = finished_id(q.tasks, rows).unwrap();
    lemma_picked(q.tasks, rows, pick);
    lemma_position(q.tasks, id);
    lemma_distinct(q);
    let k = choose|k: int|
        0 <= k < rows.len() && (#[trigger] q.tasks[k]).id == id && !q.tasks[k].done && shown(
            rows[k],
        ) && pick(rows[k]);
    let i = position(q.tasks, id).unwrap();
    if i < k {
        assert(q.tasks[i].id != q.tasks[k].id);
    } else if k < i {
        assert(q.tasks[k].id != q.tasks[i].id);
    }
    assert(rows[k].clicked);
}

/// A finished task is neither recorded again nor taken up for a drag.
pub proof fn a_finished_task_is_not_used_again(q: QueueModel, rows: Seq<RowReply>, k: int)
    requires
        rows.len() == q.tasks.len(),
        q.distinct(),
        0 <= k < q.tasks.len(),
        q.tasks[k].done,
    ensures
        finished_id(q.tasks, rows) != Some(q.tasks[k].id),
        grabbed_id(q.tasks, rows) != Some(q.tasks[k].id),
{
    lemma_distinct(q);
    lemma_picked(q.tasks, rows, |r: RowReply| r.clicked);
    lemma_picked(q.tasks, rows, |r: RowReply| r.drag_started);
    assert forall|m: int|
        0 <= m < q.tasks.len() && (#[trigger] q.tasks[m]).id == q.tasks[k].id implies m == k by {
        if m < k {
            assert(q.tasks[m].id != q.tasks[k].id);
        } else if k < m {
            assert(q.tasks[k].id != q.tasks[m].id);
        }
    }
}

/// What every event keeps of the promise to save: a change that is yet to be saved stays
/// so, and whatever changes what would be saved is marked.
pub open spec fn marks_changes(before: QueueModel, after: QueueModel) -> bool {
    &&& before.dirty ==> after.dirty
    &&& snapshot(before) != snapshot(after) ==> after.dirty
}

/// Two filters, of which the second lets nothing through that the first does not.
proof fn lemma_filter_twice<T>(s: Seq<T>, f: spec_fn(T) -> bool, g: spec_fn(T) -> bool)
    requires
        forall|i: int| 0 <= i < s.len() && g(#[trigger] s[i]) ==> f(s[i]),
    ensures
        s.filter(f).filter(g) == s.filter(g),
    decreases s.len(),
{
    reveal(Seq::filter);
    if s.len() > 0 {
        let front = s.drop_last();
        let t = front.filter(f);
        assert forall|i: int| 0 <= i < front.len() && g(#[trigger] front[i]) implies f(
            front[i],
        ) by {
            assert(front[i] == s[i]);
        }
        lemma_filter_twice(front, f, g);
        assert(s[s.len() - 1] == s.last());
        if f(s.last()) {
            assert(t.push(s.last()).drop_last() =~= t);
        }
    }
}

/// A frame of the rows marks what it changes.
pub proof fn the_rows_mark_changes(
    q: QueueModel,
    rows: Seq<RowReply>,
    pointer: Option<Coord>,
    pointer_down: bool,
)
    requires
        rows.len() == q.tasks.len(),
        q.distinct(),
    ensures
        marks_changes(q, rows_used(q, rows, pointer, pointer_down)),
{
    let r = rows_used(q, rows, pointer, pointer_down);
    let f = |t: TaskModel| !is_faded(q.tasks, rows, t.id);
    let g = |t: TaskModel| !t.done;
    lemma_distinct(q);
    if !r.dirty {
        let b = held(
            finished(q, finished_id(q.tasks, rows)),
            grabbed_id(q.tasks, rows),
            pointer_down,
        );
        assert(b.tasks == q.tasks);
        assert(dragged(b, rows, pointer).tasks == q.tasks);
        assert forall|i: int| 0 <= i < q.tasks.len() && g(#[trigger] q.tasks[i]) implies f(
            q.tasks[i],
        ) by {
            let t = q.tasks[i];
            if is_faded(q.tasks, rows, t.id) {
                let m = choose|m: int|
                    0 <= m < q.tasks.len() && m < rows.len() && (#[trigger] q.tasks[m]).id == t.id
                        && faded(q.tasks[m], rows[m]);
                if m < i {
                    assert(q.tasks[m].id != q.tasks[i].id);
                } else if i < m {
                    assert(q.tasks[i].id != q.tasks[m].id);
                }
            }
        }
        lemma_filter_twice(q.tasks, f, g);
        assert(unfinished(r.tasks) == unfinished(q.tasks));
    }
}

/// A frame of the panel marks what it changes.
pub proof fn the_panel_marks_changes(q: QueueModel, r: PanelReply)
    ensures
        marks_changes(q, panel_used(q, r)),
{
}

/// A frame of the handle marks what it changes, and leaves the tasks alone.
pub proof fn the_handle_marks_changes(q: QueueModel, r: HandleReply)
    ensures
        marks_changes(q, handle_used(q, r)),
        keeps_ids(q, handle_used(q, r)),
        handle_used(q, r).tasks == q.tasks,
        handle_used(q, r).input == q.input,
{
}

/// Keys and focus change nothing that is saved.
pub proof fn attention_changes_nothing_saved(q: QueueModel, escape: bool, focused: bool)
    ensures
        snapshot(attended(q, escape, focused)) == snapshot(q),
        attended(q, escape, focused).dirty == q.dirty,
        attended(q, escape, focused).input == q.input,
        keeps_ids(q, attended(q, escape, focused)),
{
}

/// A report of the window system marks what it changes, and leaves the tasks alone.
pub proof fn a_report_marks_changes(q: QueueModel, inner: Pair, monitor: Option<Pair>)
    ensures
        marks_changes(q, measured(q, inner, monitor)),
        keeps_ids(q, measured(q, inner, monitor)),
        measured(q, inner, monitor).tasks == q.tasks,
        measured(q, inner, monitor).input == q.input,
{
}

} // verus!
