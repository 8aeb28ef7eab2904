//! Laws of a frame of the rows: clicking, dragging and fading out.

use crate::coord::{at_most, less, point, Coord};
use crate::laws::queue::{
    lemma_distinct, lemma_dragged, lemma_filter, lemma_finished, lemma_moved_at,
    lemma_position, lemma_slot_range, rows_descend, source,
};
use crate::model::{
    dragged, faded, finished, finished_id, finished_text, grabbed_id, held, is_faded,
    last_picked, moved, position, rows_used, shown, slot, slot_above, slot_below, QueueModel,
    RowReply, TaskModel,
};
use vstd::prelude::*;

verus! {

/// A row that can be clicked and dragged: its task is to do, and it is at least half a
/// point high, however high beyond that.
pub open spec fn live(q: QueueModel, rows: Seq<RowReply>, k: int) -> bool {
    &&& 0 <= k < rows.len()
    &&& !q.tasks[k].done
    &&& rows[k].height.is_nan() || 2 * rows[k].height.units() >= point()
}

/// A row that was clicked and could be.
pub open spec fn live_click(q: QueueModel, rows: Seq<RowReply>, k: int) -> bool {
    live(q, rows, k) && rows[k].clicked
}

/// A row on which a drag began and could.
pub open spec fn live_grab(q: QueueModel, rows: Seq<RowReply>, k: int) -> bool {
    live(q, rows, k) && rows[k].drag_started
}

/// A task whose fade has run out.
pub open spec fn gone(q: QueueModel, rows: Seq<RowReply>, k: int) -> bool {
    q.tasks[k].done && !rows[k].fade.is_nan() && rows[k].fade.units() <= 0
}

proof fn lemma_live(q: QueueModel, rows: Seq<RowReply>, k: int)
    requires
        0 <= k < rows.len(),
    ensures
        live(q, rows, k) <==> shown(rows[k]) && !q.tasks[k].done,
        faded(q.tasks[k], rows[k]) <==> gone(q, rows, k),
{
    crate::laws::coord::half_a_point_is_half();
    crate::laws::coord::whole_is_a_number(0);
    assert(0 * point() == 0) by (nonlinear_arith);
}

/// The last row that is shown, to do and picked is the one that counts.
proof fn lemma_last_picked(
    tasks: Seq<TaskModel>,
    rows: Seq<RowReply>,
    pick: spec_fn(RowReply) -> bool,
    k: int,
)
    requires
        rows.len() <= tasks.len(),
        -1 <= k < rows.len(),
        k >= 0 ==> shown(rows[k]) && !tasks[k].done && pick(rows[k]),
        forall|m: int|
            k < m < rows.len() ==> !(shown(#[trigger] rows[m]) && !tasks[m].done && pick(rows[m])),
    ensures
        last_picked(tasks, rows, pick) == if k >= 0 {
            Some(tasks[k].id)
        } else {
            None
        },
    decreases rows.len(),
{
    if rows.len() > 0 && k < rows.len() - 1 {
        assert(rows[rows.len() - 1] == rows.last());
        let front = rows.drop_last();
        assert forall|m: int| k < m < front.len() implies !(shown(#[trigger] front[m])
            && !tasks[m].done && pick(front[m])) by {
            assert(front[m] == rows[m]);
        }
        lemma_last_picked(tasks, front, pick, k);
    }
}

/// The ids that a frame picks, from the last row of each kind; -1 stands for none.
proof fn lemma_ids_picked(q: QueueModel, rows: Seq<RowReply>, k: int, g: int)
    requires
        rows.len() == q.tasks.len(),
        -1 <= k < rows.len(),
        -1 <= g < rows.len(),
        k >= 0 ==> live_click(q, rows, k),
        g >= 0 ==> live_grab(q, rows, g),
        forall|m: int| k < m < rows.len() ==> !#[trigger] live_click(q, rows, m),
        forall|m: int| g < m < rows.len() ==> !#[trigger] live_grab(q, rows, m),
    ensures
        finished_id(q.tasks, rows) == if k >= 0 {
            Some(q.tasks[k].id)
        } else {
            None
        },
        grabbed_id(q.tasks, rows) == if g >= 0 {
            Some(q.tasks[g].id)
        } else {
            None
        },
{
    if k >= 0 {
        lemma_live(q, rows, k);
    }
    if g >= 0 {
        lemma_live(q, rows, g);
    }
    let click = |r: RowReply| r.clicked;
    let grab = |r: RowReply| r.drag_started;
    assert forall|m: int| k < m < rows.len() implies !(shown(#[trigger] rows[m])
        && !q.tasks[m].done && click(rows[m])) by {
        assert(!live_click(q, rows, m));
        lemma_live(q, rows, m);
    }
    assert forall|m: int| g < m < rows.len() implies !(shown(#[trigger] rows[m])
        && !q.tasks[m].done && grab(rows[m])) by {
        assert(!live_grab(q, rows, m));
        lemma_live(q, rows, m);
    }
    lemma_last_picked(q.tasks, rows, click, k);
    lemma_last_picked(q.tasks, rows, grab, g);
}

/// The last row with a live click, up to row `n`; -1 when there is none.
spec fn last_click(q: QueueModel, rows: Seq<RowReply>, n: int) -> int
    decreases n,
{
    if n <= 0 {
        -1
    } else if live_click(q, rows, n - 1) {
        n - 1
    } else {
        last_click(q, rows, n - 1)
    }
}

/// The last row with a live grab, up to row `n`; -1 when there is none.
spec fn last_grab(q: QueueModel, rows: Seq<RowReply>, n: int) -> int
    decreases n,
{
    if n <= 0 {
        -1
    } else if live_grab(q, rows, n - 1) {
        n - 1
    } else {
        last_grab(q, rows, n - 1)
    }
}

proof fn lemma_last_rows(q: QueueModel, rows: Seq<RowReply>, n: int)
    requires
        0 <= n <= rows.len(),
    ensures
        ({
            let k = last_click(q, rows, n);
            &&& -1 <= k < n
            &&& k >= 0 ==> live_click(q, rows, k)
            &&& forall|m: int| k < m < n ==> !#[trigger] live_click(q, rows, m)
        }),
        ({
            let g = last_grab(q, rows, n);
            &&& -1 <= g < n
            &&& g >= 0 ==> live_grab(q, rows, g)
            &&& forall|m: int| g < m < n ==> !#[trigger] live_grab(q, rows, m)
        }),
    decreases n,
{
    if n > 0 {
        lemma_last_rows(q, rows, n - 1);
    }
}

/// What a frame picks, whatever it is.
proof fn lemma_frame_picks(q: QueueModel, rows: Seq<RowReply>) -> (picked: (int, int))
    requires
        rows.len() == q.tasks.len(),
    ensures
        -1 <= picked.0 < rows.len(),
        -1 <= picked.1 < rows.len(),
        picked.0 >= 0 ==> live_click(q, rows, picked.0),
        picked.1 >= 0 ==> live_grab(q, rows, picked.1),
        forall|m: int| picked.0 < m < rows.len() ==> !#[trigger] live_click(q, rows, m),
        forall|m: int| picked.1 < m < rows.len() ==> !#[trigger] live_grab(q, rows, m),
        finished_id(q.tasks, rows) == if picked.0 >= 0 {
            Some(q.tasks[picked.0].id)
        } else {
            None
        },
        grabbed_id(q.tasks, rows) == if picked.1 >= 0 {
            Some(q.tasks[picked.1].id)
        } else {
            None
        },
{
    let n = rows.len() as int;
    lemma_last_rows(q, rows, n);
    lemma_ids_picked(q, rows, last_click(q, rows, n), last_grab(q, rows, n));
    (last_click(q, rows, n), last_grab(q, rows, n))
}

/// With distinct ids a task is known by its id.
proof fn lemma_by_id(q: QueueModel, a: int, b: int)
    requires
        q.distinct(),
        0 <= a < q.tasks.len(),
        0 <= b < q.tasks.len(),
        q.tasks[a].id == q.tasks[b].id,
    ensures
        a == b,
{
    lemma_distinct(q);
    if a < b {
        assert(q.tasks[a].id != q.tasks[b].id);
    } else if b < a {
        assert(q.tasks[b].id != q.tasks[a].id);
    }
}

/// The first task of an id is where the id is.
proof fn lemma_first(tasks: Seq<TaskModel>, f: int)
    requires
        0 <= f < tasks.len(),
        forall|m: int| 0 <= m < f ==> (#[trigger] tasks[m]).id != tasks[f].id,
    ensures
        position(tasks, tasks[f].id) == Some(f),
{
    let d = crate::model::ids(tasks);
    let id = tasks[f].id;
    assert(d[f] == id);
    d.index_of_first_ensures(id);
    let i = position(tasks, id).unwrap();
    if i < f {
        assert(d[i] == tasks[i].id);
    }
}

/// What the row `k` of a frame became in the middle of it, before fading and moving.
proof fn lemma_after_click(q: QueueModel, rows: Seq<RowReply>, k: int)
    requires
        rows.len() == q.tasks.len(),
        q.distinct(),
        0 <= k < q.tasks.len(),
    ensures
        finished(q, finished_id(q.tasks, rows)).tasks.len() == q.tasks.len(),
        finished(q, finished_id(q.tasks, rows)).tasks[k] == (TaskModel {
            done: q.tasks[k].done || finishes(q, rows, k),
            ..q.tasks[k]
        }),
{
    let (c, _g) = lemma_frame_picks(q, rows);
    let id = finished_id(q.tasks, rows);
    lemma_finished(q, id);
    if c >= 0 {
        lemma_position(q.tasks, q.tasks[c].id);
        let i = position(q.tasks, q.tasks[c].id).unwrap();
        lemma_by_id(q, i, c);
    }
    if finishes(q, rows, k) {
        if c < k {
            assert(!live_click(q, rows, k));
        } else if k < c {
            assert(!live_click(q, rows, c));
        }
    } else if c == k {
        assert(live_click(q, rows, k));
        assert(finishes(q, rows, k));
    }
}

/// The row whose click counts: the last one that was clicked and could be.
pub open spec fn finishes(q: QueueModel, rows: Seq<RowReply>, k: int) -> bool {
    live_click(q, rows, k) && forall|m: int|
        k < m < rows.len() ==> !#[trigger] live_click(q, rows, m)
}

/// A click on a row that can be clicked finishes its task, and hands its text out for the
/// record.  Of several clicks in a frame the last one counts.
pub proof fn a_click_finishes_the_task(
    q: QueueModel,
    rows: Seq<RowReply>,
    pointer: Option<Coord>,
    pointer_down: bool,
    k: int,
)
    requires
        rows.len() == q.tasks.len(),
        q.distinct(),
        live_click(q, rows, k),
        forall|m: int| k < m < rows.len() ==> !#[trigger] live_click(q, rows, m),
    ensures
        finished_text(q, finished_id(q.tasks, rows)) == Some(q.tasks[k].text),
        rows_used(q, rows, pointer, pointer_down).tasks.contains(
            (TaskModel { id: q.tasks[k].id, text: q.tasks[k].text, done: true }),
        ),
        !rows_used(q, rows, pointer, pointer_down).tasks.contains(q.tasks[k]),
        rows_used(q, rows, pointer, pointer_down).dirty,
{
    let (c, _g) = lemma_frame_picks(q, rows);
    if c < k {
        assert(!live_click(q, rows, k));
    } else if k < c {
        assert(!live_click(q, rows, c));
    }
    lemma_position(q.tasks, q.tasks[k].id);
    let i = position(q.tasks, q.tasks[k].id).unwrap();
    lemma_by_id(q, i, k);
    a_row_keeps_its_task(q, rows, pointer, pointer_down, k);
    crate::laws::queue::only_a_click_finishes_a_task(q, rows, pointer, pointer_down, q.tasks[k]);
}

/// A click finishes a task even where ids repeat: the first one with the clicked row's id.
pub proof fn a_click_finishes_the_first_of_its_id(
    q: QueueModel,
    rows: Seq<RowReply>,
    k: int,
    f: int,
)
    requires
        rows.len() == q.tasks.len(),
        live_click(q, rows, k),
        forall|m: int| k < m < rows.len() ==> !#[trigger] live_click(q, rows, m),
        0 <= f <= k,
        q.tasks[f].id == q.tasks[k].id,
        forall|m: int| 0 <= m < f ==> (#[trigger] q.tasks[m]).id != q.tasks[k].id,
    ensures
        finished_text(q, finished_id(q.tasks, rows)) == Some(q.tasks[f].text),
        finished(q, finished_id(q.tasks, rows)).tasks.len() == q.tasks.len(),
        finished(q, finished_id(q.tasks, rows)).tasks[f].done,
        forall|m: int|
            0 <= m < q.tasks.len() && m != f ==> #[trigger] finished(
                q,
                finished_id(q.tasks, rows),
            ).tasks[m] == q.tasks[m],
{
    let (c, _g) = lemma_frame_picks(q, rows);
    if c < k {
        assert(!live_click(q, rows, k));
    } else if k < c {
        assert(!live_click(q, rows, c));
    }
    lemma_first(q.tasks, f);
}

/// Without a click nothing is recorded and no task is finished.
pub proof fn without_a_click_nothing_is_finished(
    q: QueueModel,
    rows: Seq<RowReply>,
    pointer: Option<Coord>,
    pointer_down: bool,
    t: TaskModel,
)
    requires
        rows.len() == q.tasks.len(),
        forall|m: int| 0 <= m < rows.len() ==> !#[trigger] live_click(q, rows, m),
        rows_used(q, rows, pointer, pointer_down).tasks.contains(t),
    ensures
        finished_text(q, finished_id(q.tasks, rows)) is None,
        q.tasks.contains(t),
{
    let (c, _g) = lemma_frame_picks(q, rows);
    if c >= 0 {
        assert(!live_click(q, rows, c));
    }
    let b = held(q, grabbed_id(q.tasks, rows), pointer_down);
    lemma_dragged(b, rows, pointer);
    lemma_filter(
        dragged(b, rows, pointer).tasks,
        |t: TaskModel| !is_faded(q.tasks, rows, t.id),
    );
}

/// Every task is there after a frame, with its id and its text, unless its fade had run
/// out; it is finished if it was, or if its click counts; and no other task is there.
pub proof fn a_row_keeps_its_task(
    q: QueueModel,
    rows: Seq<RowReply>,
    pointer: Option<Coord>,
    pointer_down: bool,
    k: int,
)
    requires
        rows.len() == q.tasks.len(),
        q.distinct(),
        0 <= k < q.tasks.len(),
    ensures
        !gone(q, rows, k) ==> rows_used(q, rows, pointer, pointer_down).tasks.contains(
            (TaskModel {
                id: q.tasks[k].id,
                text: q.tasks[k].text,
                done: q.tasks[k].done || finishes(q, rows, k),
            }),
        ),
        forall|x: int|
            0 <= x < rows_used(q, rows, pointer, pointer_down).tasks.len() ==> (
            #[trigger] rows_used(q, rows, pointer, pointer_down).tasks[x]).id == q.tasks[k].id
                ==> !gone(q, rows, k) && rows_used(q, rows, pointer, pointer_down).tasks[x] == (
            TaskModel {
                id: q.tasks[k].id,
                text: q.tasks[k].text,
                done: q.tasks[k].done || finishes(q, rows, k),
            }),
{
    let id = finished_id(q.tasks, rows);
    let a = finished(q, id);
    let b = held(a, grabbed_id(q.tasks, rows), pointer_down);
    let c = dragged(b, rows, pointer);
    let r = rows_used(q, rows, pointer, pointer_down);
    let f = |t: TaskModel| !is_faded(q.tasks, rows, t.id);
    let now = TaskModel {
        id: q.tasks[k].id,
        text: q.tasks[k].text,
        done: q.tasks[k].done || finishes(q, rows, k),
    };
    lemma_after_click(q, rows, k);
    lemma_dragged(b, rows, pointer);
    lemma_filter(c.tasks, f);
    lemma_live(q, rows, k);
    assert(b.tasks[k] == now);
    assert(b.tasks.contains(now));
    assert(c.tasks.contains(now));
    assert(is_faded(q.tasks, rows, now.id) <==> gone(q, rows, k)) by {
        if is_faded(q.tasks, rows, now.id) {
            let m = choose|m: int|
                0 <= m < q.tasks.len() && m < rows.len() && (#[trigger] q.tasks[m]).id == now.id
                    && faded(q.tasks[m], rows[m]);
            lemma_by_id(q, m, k);
        }
        if gone(q, rows, k) {
            assert(q.tasks[k].id == now.id && faded(q.tasks[k], rows[k]));
        }
    }
    assert forall|x: int|
        0 <= x < r.tasks.len() && (#[trigger] r.tasks[x]).id == q.tasks[k].id implies !gone(
        q,
        rows,
        k,
    ) && r.tasks[x] == now by {
        assert(f(r.tasks[x]));
        assert(r.tasks.contains(r.tasks[x]));
        assert(c.tasks.contains(r.tasks[x]));
        assert(b.tasks.contains(r.tasks[x]));
        let m = choose|m: int| 0 <= m < b.tasks.len() && b.tasks[m] == r.tasks[x];
        lemma_after_click(q, rows, m);
        lemma_by_id(q, m, k);
    }
}

/// A frame of the rows brings in no task: each has the id of one that was there.
pub proof fn a_frame_brings_no_task_in(
    q: QueueModel,
    rows: Seq<RowReply>,
    pointer: Option<Coord>,
    pointer_down: bool,
    x: int,
)
    requires
        rows.len() == q.tasks.len(),
        0 <= x < rows_used(q, rows, pointer, pointer_down).tasks.len(),
    ensures
        exists|k: int|
            0 <= k < q.tasks.len() && rows_used(q, rows, pointer, pointer_down).tasks[x].id == (
            #[trigger] q.tasks[k]).id && rows_used(q, rows, pointer, pointer_down).tasks[x].text
                == q.tasks[k].text,
{
    let a = finished(q, finished_id(q.tasks, rows));
    let b = held(a, grabbed_id(q.tasks, rows), pointer_down);
    let c = dragged(b, rows, pointer);
    let r = rows_used(q, rows, pointer, pointer_down);
    lemma_finished(q, finished_id(q.tasks, rows));
    lemma_dragged(b, rows, pointer);
    lemma_filter(c.tasks, |t: TaskModel| !is_faded(q.tasks, rows, t.id));
    assert(r.tasks.contains(r.tasks[x]));
    assert(c.tasks.contains(r.tasks[x]));
    assert(b.tasks.contains(r.tasks[x]));
    let m = choose|m: int| 0 <= m < b.tasks.len() && b.tasks[m] == r.tasks[x];
    assert(a.tasks[m].id == q.tasks[m].id);
}

/// What is dragged after a frame: nothing when the pointer is up; else the task of the
/// last row on which a drag began, and if none began, what was dragged before.
pub proof fn a_drag_is_taken_up(
    q: QueueModel,
    rows: Seq<RowReply>,
    pointer: Option<Coord>,
    k: int,
)
    requires
        rows.len() == q.tasks.len(),
        -1 <= k < rows.len(),
        k >= 0 ==> live_grab(q, rows, k),
        forall|m: int| k < m < rows.len() ==> !#[trigger] live_grab(q, rows, m),
    ensures
        rows_used(q, rows, pointer, false).drag is None,
        k >= 0 ==> rows_used(q, rows, pointer, true).drag == Some(q.tasks[k].id),
        k < 0 ==> rows_used(q, rows, pointer, true).drag == q.drag,
{
    let (_c, g) = lemma_frame_picks(q, rows);
    if g < k {
        assert(!live_grab(q, rows, k));
    } else if k < g {
        assert(!live_grab(q, rows, g));
    }
}

/// A frame of the rows touches only the tasks, the drag and the mark for saving; and that
/// mark only sets, and only where a task is finished or dragged.
pub proof fn a_frame_of_the_rows_leaves_the_rest_alone(
    q: QueueModel,
    rows: Seq<RowReply>,
    pointer: Option<Coord>,
    pointer_down: bool,
)
    requires
        rows.len() == q.tasks.len(),
    ensures
        ({
            let r = rows_used(q, rows, pointer, pointer_down);
            &&& r.next_id == q.next_id
            &&& r.input == q.input
            &&& r.expanded == q.expanded
            &&& r.handle_x == q.handle_x
            &&& r.handle_y == q.handle_y
            &&& r.width == q.width
            &&& r.screen_h == q.screen_h
            &&& r.last_monitor == q.last_monitor
            &&& r.grab_dy == q.grab_dy
            &&& r.saw_focus == q.saw_focus
            &&& r.focus_input == q.focus_input
            &&& r.watching == q.watching
            &&& r.autostart == q.autostart
            &&& q.dirty ==> r.dirty
            &&& r.dirty && !q.dirty && (r.drag is None || pointer is None) ==> exists|k: int|
                #[trigger] live_click(q, rows, k)
        }),
{
    let (c, _g) = lemma_frame_picks(q, rows);
    if c >= 0 {
        assert(live_click(q, rows, c));
    }
}

/// Where the pointer holds a dragged task over its own row, or over the near half of a
/// neighbour, nothing is to be saved on that account.
pub proof fn a_drag_in_place_changes_nothing(
    q: QueueModel,
    rows: Seq<RowReply>,
    p: Coord,
    i: int,
)
    requires
        rows.len() == q.tasks.len(),
        0 <= i < q.tasks.len(),
        q.drag == Some(q.tasks[i].id),
        forall|m: int| 0 <= m < i ==> (#[trigger] q.tasks[m]).id != q.tasks[i].id,
        i > 0 ==> !less(p, rows[i - 1].center),
        i + 1 < rows.len() ==> !less(rows[i + 1].center, p),
    ensures
        dragged(q, rows, Some(p)) == q,
{
    lemma_first(q.tasks, i);
}

/// The same of a whole frame: holding a task where it is, without a click, leaves nothing to
/// save.
pub proof fn a_frame_of_holding_still_changes_nothing(
    q: QueueModel,
    rows: Seq<RowReply>,
    p: Coord,
    i: int,
)
    requires
        rows.len() == q.tasks.len(),
        0 <= i < q.tasks.len(),
        rows_used(q, rows, Some(p), true).drag == Some(q.tasks[i].id),
        forall|m: int| 0 <= m < i ==> (#[trigger] q.tasks[m]).id != q.tasks[i].id,
        i > 0 ==> !less(p, rows[i - 1].center),
        i + 1 < rows.len() ==> !less(rows[i + 1].center, p),
        forall|m: int| 0 <= m < rows.len() ==> !#[trigger] live_click(q, rows, m),
        forall|m: int| 0 <= m < rows.len() ==> !gone(q, rows, m),
    ensures
        rows_used(q, rows, Some(p), true).dirty == q.dirty,
        rows_used(q, rows, Some(p), true).tasks == q.tasks,
{
    let (c, _g) = lemma_frame_picks(q, rows);
    if c >= 0 {
        assert(!live_click(q, rows, c));
    }
    let b = held(q, grabbed_id(q.tasks, rows), true);
    let f = |t: TaskModel| !is_faded(q.tasks, rows, t.id);
    a_drag_in_place_changes_nothing(b, rows, p, i);
    lemma_filter(b.tasks, f);
    assert forall|k: int| 0 <= k < b.tasks.len() implies f(#[trigger] b.tasks[k]) by {
        if is_faded(q.tasks, rows, b.tasks[k].id) {
            let m = choose|m: int|
                0 <= m < q.tasks.len() && m < rows.len() && (#[trigger] q.tasks[m]).id
                    == b.tasks[k].id && faded(q.tasks[m], rows[m]);
            lemma_live(q, rows, m);
            assert(!gone(q, rows, m));
        }
    }
}

/// A task goes only if one of its id has faded out, even where ids repeat.
pub proof fn only_what_has_faded_goes(
    q: QueueModel,
    rows: Seq<RowReply>,
    pointer: Option<Coord>,
    pointer_down: bool,
    k: int,
)
    requires
        rows.len() == q.tasks.len(),
        0 <= k < q.tasks.len(),
        forall|m: int|
            0 <= m < q.tasks.len() && (#[trigger] q.tasks[m]).id == q.tasks[k].id ==> !gone(
                q,
                rows,
                m,
            ),
    ensures
        exists|x: int|
            0 <= x < rows_used(q, rows, pointer, pointer_down).tasks.len() && (
            #[trigger] rows_used(q, rows, pointer, pointer_down).tasks[x]).id == q.tasks[k].id
                && rows_used(q, rows, pointer, pointer_down).tasks[x].text == q.tasks[k].text,
{
    let a = finished(q, finished_id(q.tasks, rows));
    let b = held(a, grabbed_id(q.tasks, rows), pointer_down);
    let c = dragged(b, rows, pointer);
    let r = rows_used(q, rows, pointer, pointer_down);
    let f = |t: TaskModel| !is_faded(q.tasks, rows, t.id);
    lemma_finished(q, finished_id(q.tasks, rows));
    lemma_dragged(b, rows, pointer);
    lemma_filter(c.tasks, f);
    let t = b.tasks[k];
    assert(a.tasks[k].id == q.tasks[k].id && a.tasks[k].text == q.tasks[k].text);
    assert(b.tasks.contains(t));
    assert(c.tasks.contains(t));
    if is_faded(q.tasks, rows, t.id) {
        let m = choose|m: int|
            0 <= m < q.tasks.len() && m < rows.len() && (#[trigger] q.tasks[m]).id == t.id && faded(
                q.tasks[m],
                rows[m],
            );
        lemma_live(q, rows, m);
    }
    assert(f(t));
    assert(r.tasks.contains(t));
    let x = choose|x: int| 0 <= x < r.tasks.len() && r.tasks[x] == t;
    assert(r.tasks[x].id == q.tasks[k].id);
}

/// A filtered list keeps its order.
proof fn lemma_filter_order<T>(s: Seq<T>, f: spec_fn(T) -> bool, x: int, y: int) -> (at: (int, int))
    requires
        0 <= x < y < s.filter(f).len(),
    ensures
        0 <= at.0 < at.1 < s.len(),
        s[at.0] == s.filter(f)[x],
        s[at.1] == s.filter(f)[y],
    decreases s.len(),
{
    reveal(Seq::filter);
    if s.len() == 0 {
        (0, 0)
    } else {
        let front = s.drop_last();
        let t = front.filter(f);
        lemma_filter(front, f);
        if y < t.len() {
            let (a, b) = lemma_filter_order(front, f, x, y);
            assert(front[a] == s[a] && front[b] == s[b]);
            (a, b)
        } else {
            assert(t.contains(t[x]));
            let a = choose|a: int| 0 <= a < front.len() && front[a] == t[x];
            assert(front[a] == s[a]);
            (a, s.len() - 1)
        }
    }
}

/// The rows that going up passes, and the one that it stops at.
proof fn lemma_above(rows: Seq<RowReply>, p: Coord, i: int)
    requires
        0 <= i < rows.len(),
    ensures
        0 <= slot_above(rows, p, i) <= i,
        forall|k: int| slot_above(rows, p, i) <= k < i ==> less(p, (#[trigger] rows[k]).center),
        slot_above(rows, p, i) > 0 ==> !less(p, rows[slot_above(rows, p, i) - 1].center),
    decreases i,
{
    if 0 < i && less(p, rows[i - 1].center) {
        lemma_above(rows, p, i - 1);
    }
}

/// The rows that going down passes, and the one that it stops at.
proof fn lemma_below(rows: Seq<RowReply>, p: Coord, i: int)
    requires
        0 <= i < rows.len(),
    ensures
        i <= slot_below(rows, p, i) < rows.len(),
        forall|k: int| i < k <= slot_below(rows, p, i) ==> less((#[trigger] rows[k]).center, p),
        slot_below(rows, p, i) + 1 < rows.len() ==> !less(
            rows[slot_below(rows, p, i) + 1].center,
            p,
        ),
    decreases rows.len() - i,
{
    if i + 1 < rows.len() && less(rows[i + 1].center, p) {
        lemma_below(rows, p, i + 1);
    }
}

/// Which rows a drag passes.
proof fn lemma_passed(rows: Seq<RowReply>, p: Coord, i: int, k: int)
    requires
        0 <= i < rows.len(),
        0 <= k < rows.len(),
        rows_descend(rows),
    ensures
        0 <= slot(rows, p, i) < rows.len(),
        k < i ==> (less(p, rows[k].center) <==> slot(rows, p, i) <= k),
        k > i ==> (less(rows[k].center, p) <==> k <= slot(rows, p, i)),
{
    lemma_above(rows, p, i);
    lemma_below(rows, p, i);
    let u = slot_above(rows, p, i);
    let d = slot_below(rows, p, i);
    if k < i {
        if u > 0 && k < u {
            assert(at_most(rows[k].center, rows[u - 1].center));
        }
        assert(u <= k ==> less(p, rows[k].center));
    }
    if k > i {
        if d + 1 < rows.len() && d < k {
            assert(at_most(rows[d + 1].center, rows[k].center));
        }
        assert(k <= d ==> less(rows[k].center, p));
        if u < i {
            assert(less(p, rows[u].center));
            assert(at_most(rows[u].center, rows[k].center));
        }
    }
}

/// Where in a moved list a pair of tasks comes from.
proof fn lemma_moved_order(rows: Seq<RowReply>, p: Coord, i: int, a: int, b: int)
    requires
        0 <= i < rows.len(),
        0 <= a < b < rows.len(),
        rows_descend(rows),
    ensures
        ({
            let j = slot(rows, p, i);
            let k = source(i, j, a);
            let m = source(i, j, b);
            &&& k != i && m != i ==> k < m
            &&& k == i && m < i ==> less(p, rows[m].center)
            &&& k == i && m > i ==> !less(rows[m].center, p)
            &&& m == i && k < i ==> !less(p, rows[k].center)
            &&& m == i && k > i ==> less(rows[k].center, p)
        }),
{
    let j = slot(rows, p, i);
    lemma_slot_range(rows, p, i);
    let k = source(i, j, a);
    let m = source(i, j, b);
    assert(0 <= k < rows.len() && 0 <= m < rows.len());
    lemma_passed(rows, p, i, k);
    lemma_passed(rows, p, i, m);
}

/// The order after a frame: a task that is above another afterwards was above it before,
/// unless one of the two is dragged.  A dragged task stands above one that it was below
/// exactly if the pointer is above that one's middle, and below one that it was above
/// exactly if the pointer is below its middle: it passes the rows whose middle was
/// crossed, and no other.
pub proof fn a_dragged_task_passes_the_rows_it_crossed(
    q: QueueModel,
    rows: Seq<RowReply>,
    pointer: Option<Coord>,
    pointer_down: bool,
    x: int,
    y: int,
    k: int,
    m: int,
)
    requires
        rows.len() == q.tasks.len(),
        q.distinct(),
        rows_descend(rows),
        0 <= x < y < rows_used(q, rows, pointer, pointer_down).tasks.len(),
        0 <= k < q.tasks.len(),
        0 <= m < q.tasks.len(),
        rows_used(q, rows, pointer, pointer_down).tasks[x].id == q.tasks[k].id,
        rows_used(q, rows, pointer, pointer_down).tasks[y].id == q.tasks[m].id,
    ensures
        ({
            let drag = rows_used(q, rows, pointer, pointer_down).drag;
            match pointer {
                Some(p) => {
                    &&& drag != Some(q.tasks[k].id) && drag != Some(q.tasks[m].id) ==> k < m
                    &&& drag == Some(q.tasks[k].id) && m < k ==> less(p, rows[m].center)
                    &&& drag == Some(q.tasks[k].id) && m > k ==> !less(rows[m].center, p)
                    &&& drag == Some(q.tasks[m].id) && k < m ==> !less(p, rows[k].center)
                    &&& drag == Some(q.tasks[m].id) && k > m ==> less(rows[k].center, p)
                },
                None => k < m,
            }
        }),
        k != m,
{
    let a = finished(q, finished_id(q.tasks, rows));
    let b = held(a, grabbed_id(q.tasks, rows), pointer_down);
    let c = dragged(b, rows, pointer);
    let f = |t: TaskModel| !is_faded(q.tasks, rows, t.id);
    let (u, v) = lemma_filter_order(c.tasks, f, x, y);
    lemma_finished(q, finished_id(q.tasks, rows));
    lemma_distinct(q);
    lemma_dragged(b, rows, pointer);
    assert(c.tasks[u].id == q.tasks[k].id && c.tasks[v].id == q.tasks[m].id);
    let moves = b.drag is Some && pointer is Some && position(b.tasks, b.drag.unwrap()) is Some;
    if moves {
        let p = pointer.unwrap();
        let id = b.drag.unwrap();
        lemma_position(b.tasks, id);
        let i = position(b.tasks, id).unwrap();
        let j = slot(rows, p, i);
        lemma_slot_range(rows, p, i);
        lemma_moved_order(rows, p, i, u, v);
        lemma_moved_at(b.tasks, i, j, u);
        lemma_moved_at(b.tasks, i, j, v);
        let s = source(i, j, u);
        let t = source(i, j, v);
        assert(c.tasks[u] == b.tasks[s]);
        assert(c.tasks[v] == b.tasks[t]);
        assert(a.tasks[s].id == q.tasks[s].id && a.tasks[t].id == q.tasks[t].id);
        assert(a.tasks[i].id == q.tasks[i].id);
        lemma_by_id(q, s, k);
        lemma_by_id(q, t, m);
        if id == q.tasks[k].id {
            lemma_by_id(q, i, k);
        }
        if id == q.tasks[m].id {
            lemma_by_id(q, i, m);
        }
    } else {
        assert(c.tasks == b.tasks);
        assert(a.tasks[u].id == q.tasks[u].id && a.tasks[v].id == q.tasks[v].id);
        lemma_by_id(q, u, k);
        lemma_by_id(q, v, m);
        if b.drag is Some && pointer is Some {
            lemma_position(b.tasks, b.drag.unwrap());
            assert(a.tasks[k].id == b.tasks[k].id && a.tasks[m].id == b.tasks[m].id);
        }
    }
}

/// A dragged task comes to stand where neither neighbour's middle is crossed, and the
/// others keep their order around it.
pub proof fn a_dragged_task_stands_at_the_pointer(
    q: QueueModel,
    rows: Seq<RowReply>,
    p: Coord,
    i: int,
    j: int,
)
    requires
        rows.len() == q.tasks.len(),
        q.distinct(),
        rows_descend(rows),
        0 <= i < q.tasks.len(),
        q.drag == Some(q.tasks[i].id),
        0 <= j < dragged(q, rows, Some(p)).tasks.len(),
        dragged(q, rows, Some(p)).tasks[j].id == q.tasks[i].id,
    ensures
        dragged(q, rows, Some(p)).tasks.len() == q.tasks.len(),
        dragged(q, rows, Some(p)).tasks[j] == q.tasks[i],
        dragged(q, rows, Some(p)).tasks.remove(j) == q.tasks.remove(i),
        !(j > 0 && less(p, rows[j - 1].center)),
        !(j + 1 < rows.len() && less(rows[j + 1].center, p)),
        forall|k: int| j <= k < i ==> less(p, (#[trigger] rows[k]).center),
        forall|k: int| i < k <= j ==> less((#[trigger] rows[k]).center, p),
{
    lemma_position(q.tasks, q.tasks[i].id);
    let f = position(q.tasks, q.tasks[i].id).unwrap();
    lemma_by_id(q, f, i);
    let s = slot(rows, p, i);
    let r = dragged(q, rows, Some(p));
    lemma_slot_range(rows, p, i);
    lemma_moved_at(q.tasks, i, s, j);
    crate::laws::queue::moving_only_reorders(q.tasks, i, s);
    assert(moved(q.tasks, i, i) =~= q.tasks);
    assert(r.tasks == moved(q.tasks, i, s));
    lemma_by_id(q, source(i, s, j), i);
    assert(j == s);
    lemma_above(rows, p, i);
    lemma_below(rows, p, i);
    if j > 0 {
        lemma_passed(rows, p, i, j - 1);
        if j - 1 == i {
            assert(less(rows[j].center, p));
            assert(at_most(rows[i].center, rows[j].center));
        } else if j - 1 > i {
            assert(at_most(rows[j - 1].center, rows[j].center));
            assert(less(rows[j].center, p));
        }
    }
    if j + 1 < rows.len() {
        lemma_passed(rows, p, i, j + 1);
        if j + 1 <= i {
            assert(less(p, rows[j].center));
            assert(at_most(rows[j].center, rows[j + 1].center));
        }
    }
    assert forall|k: int| j <= k < i implies less(p, (#[trigger] rows[k]).center) by {
        lemma_passed(rows, p, i, k);
    }
    assert forall|k: int| i < k <= j implies less((#[trigger] rows[k]).center, p) by {
        lemma_passed(rows, p, i, k);
    }
}

/// A task is finished in a frame exactly if some row was clicked that could be, and taken up
/// exactly if a drag began on one that could.
pub proof fn a_click_or_a_drag_is_never_lost(q: QueueModel, rows: Seq<RowReply>)
    requires
        rows.len() == q.tasks.len(),
    ensures
        finished_id(q.tasks, rows) is Some <==> exists|k: int| #[trigger] live_click(q, rows, k),
        grabbed_id(q.tasks, rows) is Some <==> exists|k: int| #[trigger] live_grab(q, rows, k),
{
    let (c, g) = lemma_frame_picks(q, rows);
    if exists|k: int| #[trigger] live_click(q, rows, k) {
        let k = choose|k: int| #[trigger] live_click(q, rows, k);
        if c < 0 {
            assert(!live_click(q, rows, k));
        }
    }
    if exists|k: int| #[trigger] live_grab(q, rows, k) {
        let k = choose|k: int| #[trigger] live_grab(q, rows, k);
        if g < 0 {
            assert(!live_grab(q, rows, k));
        }
    }
}

} // verus!
