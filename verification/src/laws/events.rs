//! Laws of single events: Enter, the handle, keys and focus, starting and saving.

use crate::coord::{infinity, opposite, point, rounded, sum, whole, Coord};
use crate::laws::coord::{
    a_sum_is_nearly_exact, apart_by, exact_sum, half_a_point_is_half,
    rounding_goes_to_the_nearest_whole_point, the_opposite_has_the_opposite_value,
    whole_is_a_number,
};
use crate::model::{
    attended, closed, handle_used, names_task, opened, panel_used, snapshot, stored, submitted,
    unfinished, AppModel, HandleReply, PanelReply, QueueModel, StoredModel, TaskModel,
};
use crate::queue::{autosave_step, first_free, started, Autosave};
use crate::text::{is_white_space, trimmed, trimmed_back, trimmed_front};
use vstd::arithmetic::power2::{lemma_pow2_pos, lemma_pow2_unfold, pow2};
use vstd::prelude::*;

verus! {

/// Nothing but white space.
pub open spec fn blank(s: Seq<char>) -> bool {
    forall|i: int| 0 <= i < s.len() ==> is_white_space(#[trigger] s[i])
}

/// `text` is what stands in `input` from `a` up to `b`, with nothing but white space
/// before and behind it and none at its ends.
pub open spec fn stands_between(input: Seq<char>, text: Seq<char>, a: int, b: int) -> bool {
    &&& 0 <= a < b <= input.len()
    &&& text == input.subrange(a, b)
    &&& blank(input.take(a))
    &&& blank(input.skip(b))
    &&& !is_white_space(input[a])
    &&& !is_white_space(input[b - 1])
}

proof fn lemma_front(s: Seq<char>) -> (a: int)
    ensures
        0 <= a <= s.len(),
        trimmed_front(s) == s.skip(a),
        forall|i: int| 0 <= i < a ==> is_white_space(#[trigger] s[i]),
        a < s.len() ==> !is_white_space(s[a]),
    decreases s.len(),
{
    if s.len() > 0 && is_white_space(s.first()) {
        let rest = s.drop_first();
        let a = lemma_front(rest);
        assert(rest.skip(a) =~= s.skip(a + 1));
        assert forall|i: int| 0 <= i < a + 1 implies is_white_space(#[trigger] s[i]) by {
            if i > 0 {
                assert(s[i] == rest[i - 1]);
            }
        }
        a + 1
    } else {
        assert(s.skip(0) =~= s);
        0
    }
}

proof fn lemma_back(s: Seq<char>) -> (b: int)
    ensures
        0 <= b <= s.len(),
        trimmed_back(s) == s.take(b),
        forall|i: int| b <= i < s.len() ==> is_white_space(#[trigger] s[i]),
        b > 0 ==> !is_white_space(s[b - 1]),
    decreases s.len(),
{
    if s.len() > 0 && is_white_space(s.last()) {
        let rest = s.drop_last();
        let b = lemma_back(rest);
        assert(rest.take(b) =~= s.take(b));
        assert forall|i: int| b <= i < s.len() implies is_white_space(#[trigger] s[i]) by {
            if i < rest.len() {
                assert(s[i] == rest[i]);
            }
        }
        b
    } else {
        assert(s.take(s.len() as int) =~= s);
        s.len() as int
    }
}

/// Trimming takes the white space off both ends, and nothing else: what is blank goes,
/// and of anything else the stretch from the first to the last other character stays.
pub proof fn trimming_takes_only_the_white_space(s: Seq<char>)
    ensures
        blank(s) <==> trimmed(s).len() == 0,
        !blank(s) ==> exists|a: int, b: int| #[trigger] stands_between(s, trimmed(s), a, b),
{
    let a = lemma_front(s);
    let f = s.skip(a);
    let b = lemma_back(f);
    if trimmed(s).len() == 0 {
        assert(b == 0);
        if a < s.len() {
            assert(f[0] == s[a]);
        }
    } else {
        assert(a < s.len());
        assert(!blank(s));
        let t = trimmed(s);
        assert(t =~= s.subrange(a, a + b));
        assert forall|i: int| 0 <= i < s.take(a).len() implies is_white_space(
            #[trigger] s.take(a)[i],
        ) by {
            assert(s.take(a)[i] == s[i]);
        }
        assert forall|i: int| 0 <= i < s.skip(a + b).len() implies is_white_space(
            #[trigger] s.skip(a + b)[i],
        ) by {
            assert(s.skip(a + b)[i] == f[b + i]);
        }
        assert(s[a + b - 1] == f[b - 1]);
        assert(stands_between(s, t, a, a + b));
    }
}

/// What Enter makes of the tasks: a blank line adds nothing; any other adds one task at the
/// end, to do, under the next id, with the line's text without the white space around it.
/// The tasks that were there stay as they are, and the line is empty.
pub open spec fn added(q: QueueModel, r: QueueModel) -> bool {
    let n = q.tasks.len() as int;
    &&& r.input.len() == 0
    &&& r.tasks.len() == if blank(q.input) {
        n
    } else {
        n + 1
    }
    &&& forall|i: int| 0 <= i < n ==> #[trigger] r.tasks[i] == q.tasks[i]
    &&& blank(q.input) ==> r.next_id == q.next_id && r.dirty == q.dirty
    &&& !blank(q.input) ==> {
        &&& r.tasks[n].id == q.next_id
        &&& !r.tasks[n].done
        &&& exists|a: int, b: int| #[trigger] stands_between(q.input, r.tasks[n].text, a, b)
        &&& r.next_id == q.next_id + 1
        &&& r.dirty
    }
}

/// The two are alike in where the window and the handle are, and in the watchdog.
pub open spec fn same_window(q: QueueModel, r: QueueModel) -> bool {
    &&& r.handle_x == q.handle_x
    &&& r.handle_y == q.handle_y
    &&& r.width == q.width
    &&& r.screen_h == q.screen_h
    &&& r.last_monitor == q.last_monitor
    &&& r.grab_dy == q.grab_dy
    &&& r.watching == q.watching
}

/// The two are alike in their tasks, and in what is said of them.
pub open spec fn same_tasks(q: QueueModel, r: QueueModel) -> bool {
    &&& r.tasks == q.tasks
    &&& r.next_id == q.next_id
    &&& r.input == q.input
    &&& r.dirty == q.dirty
}

/// Enter never loses or changes a task: see [`added`].
pub proof fn entering_adds_a_task(q: QueueModel)
    requires
        !blank(q.input) ==> q.next_id < u64::MAX,
    ensures
        added(q, submitted(q)),
        same_window(q, submitted(q)),
        submitted(q).drag == q.drag,
        submitted(q).expanded == q.expanded,
        submitted(q).saw_focus == q.saw_focus,
        submitted(q).focus_input == q.focus_input,
        submitted(q).autostart == q.autostart,
        names_task(q.input) <==> !blank(q.input),
{
    trimming_takes_only_the_white_space(q.input);
    let r = submitted(q);
    let n = q.tasks.len() as int;
    if !blank(q.input) {
        assert(r.tasks[n].text == trimmed(q.input));
    }
}

/// A frame of the panel's head: Enter adds a task, and without it tasks and line stay; the
/// counter closes the board; the box for starting at login changes only when the registry
/// did, and then to what is asked.
pub proof fn what_the_panel_does(q: QueueModel, r: PanelReply)
    requires
        r.entered && !blank(q.input) ==> q.next_id < u64::MAX,
    ensures
        ({
            let p = panel_used(q, r);
            &&& r.entered ==> added(q, p)
            &&& !r.entered ==> same_tasks(q, p)
            &&& same_window(q, p)
            &&& p.expanded == (q.expanded && !r.collapse)
            &&& p.saw_focus == (q.saw_focus && !r.collapse)
            &&& p.drag == if r.collapse {
                None
            } else {
                q.drag
            }
            &&& !p.focus_input
            &&& p.autostart == if r.autostart_written {
                r.want_autostart
            } else {
                q.autostart
            }
        }),
{
    let p = QueueModel {
        focus_input: false,
        ..crate::model::autostart_chosen(q, r.want_autostart, r.autostart_written)
    };
    if r.entered {
        entering_adds_a_task(p);
        let s = submitted(p);
        let e = panel_used(q, r);
        assert(e.tasks == s.tasks);
        assert forall|i: int| 0 <= i < q.tasks.len() implies #[trigger] e.tasks[i]
            == q.tasks[i] by {
            assert(s.tasks[i] == p.tasks[i]);
        }
    }
}

/// Opening asks for the focus and waits for it; closing ends a drag; neither touches tasks
/// or handle.
pub proof fn what_opening_and_closing_do(q: QueueModel)
    ensures
        opened(q).expanded && opened(q).focus_input && !opened(q).saw_focus,
        same_tasks(q, opened(q)) && same_window(q, opened(q)),
        opened(q).drag == q.drag && opened(q).autostart == q.autostart,
        !closed(q).expanded && !closed(q).saw_focus && closed(q).drag is None,
        same_tasks(q, closed(q)) && same_window(q, closed(q)),
        closed(q).focus_input == q.focus_input && closed(q).autostart == q.autostart,
{
}

/// Where in the handle a frame's drag holds it.
pub open spec fn grab(q: QueueModel, r: HandleReply, p: Coord) -> Coord {
    if r.drag_started {
        p
    } else {
        q.grab_dy
    }
}

/// In every frame of a drag the grabbed point stays under the pointer: the handle's top and
/// the grab are together where the window's top and the pointer are; if the sums need no
/// rounding.
pub proof fn the_handle_follows_the_pointer(q: QueueModel, r: HandleReply, top: Coord, p: Coord)
    requires
        r.pointer_y == Some(p),
        r.window_top == Some(top),
        r.dragged,
        exact_sum(top, p),
        exact_sum(sum(top, p), opposite(grab(q, r, p))),
        grab(q, r, p).is_finite(),
    ensures
        handle_used(q, r).handle_y.units() + grab(q, r, p).units() == top.units() + p.units(),
        handle_used(q, r).dirty,
{
    the_opposite_has_the_opposite_value(grab(q, r, p));
}

/// In every frame of a drag the grabbed point stays under the pointer, to within less than
/// half a point, for coordinates below 2^21 points.
pub proof fn the_handle_closely_follows_the_pointer(
    q: QueueModel,
    r: HandleReply,
    top: Coord,
    p: Coord,
)
    requires
        r.pointer_y == Some(p),
        r.window_top == Some(top),
        r.dragged,
        top.is_finite(),
        p.is_finite(),
        grab(q, r, p).is_finite(),
        -pow2(170) < top.units() < pow2(170),
        -pow2(170) < p.units() < pow2(170),
        -pow2(170) < grab(q, r, p).units() < pow2(170),
    ensures
        handle_used(q, r).handle_y.is_finite(),
        2 * apart_by(
            handle_used(q, r).handle_y.units() + grab(q, r, p).units(),
            top.units() + p.units(),
        ) < point(),
        handle_used(q, r).dirty,
{
    let g = grab(q, r, p);
    the_opposite_has_the_opposite_value(g);
    half_a_point_is_half();
    lemma_pow2_unfold(148);
    lemma_pow2_unfold(147);
    lemma_pow2_unfold(171);
    lemma_pow2_unfold(172);
    lemma_pow2_pos(146);
    vstd::arithmetic::power2::lemma_pow2_strictly_increases(147, 170);
    a_sum_is_nearly_exact(top, p, 147);
    a_sum_is_nearly_exact(sum(top, p), opposite(g), 148);
}

/// Where the window's top is not known it counts as the screen's.
pub proof fn an_unknown_top_is_the_top_of_the_screen(q: QueueModel, r: HandleReply)
    requires
        r.window_top is None,
    ensures
        handle_used(q, r) == handle_used(q, HandleReply { window_top: Some(whole(0)), ..r }),
        whole(0).units() == 0,
{
    whole_is_a_number(0);
    assert(0 * point() == 0) by (nonlinear_arith);
}

/// The rest of what a frame of the handle does: it is held where it was grabbed; without a
/// drag it stays; a click opens the board; tasks and the handle's left edge stay in any case.
pub proof fn what_the_handle_does(q: QueueModel, r: HandleReply)
    ensures
        ({
            let h = handle_used(q, r);
            &&& h.grab_dy == match r.pointer_y {
                Some(p) => grab(q, r, p),
                None => q.grab_dy,
            }
            &&& !r.dragged || r.pointer_y is None ==> h.handle_y == q.handle_y && h.dirty
                == q.dirty
            &&& h.expanded == (q.expanded || r.clicked)
            &&& h.focus_input == (q.focus_input || r.clicked)
            &&& h.saw_focus == (q.saw_focus && !r.clicked)
            &&& h.tasks == q.tasks
            &&& h.next_id == q.next_id
            &&& h.input == q.input
            &&& h.drag == q.drag
            &&& h.handle_x == q.handle_x
            &&& h.width == q.width
            &&& h.screen_h == q.screen_h
            &&& h.last_monitor == q.last_monitor
            &&& h.watching == q.watching
            &&& h.autostart == q.autostart
        }),
{
}

/// An open board stays open exactly if Escape is not pressed and it has the focus, or has
/// not had it yet; whether it has had the focus is noted; and nothing else is touched but
/// a drag, which ends with the board.
pub proof fn what_keys_and_focus_do(q: QueueModel, escape: bool, focused: bool)
    ensures
        ({
            let r = attended(q, escape, focused);
            &&& r.expanded == (q.expanded && !escape && (focused || !q.saw_focus))
            &&& q.expanded ==> r.saw_focus == focused
            &&& !q.expanded ==> r.saw_focus == q.saw_focus && r.drag == q.drag
            &&& q.expanded ==> r.drag == if r.expanded {
                q.drag
            } else {
                None
            }
            &&& same_tasks(q, r)
            &&& same_window(q, r)
            &&& r.focus_input == q.focus_input
            &&& r.autostart == q.autostart
        }),
{
}

/// A change is saved as soon as the pointer is up and 400 ms have gone by since the last
/// try; before that the wait lasts exactly until then.
pub proof fn a_wait_ends_when_the_delay_is_over(dirty: bool, pointer_down: bool, elapsed: nat)
    ensures
        autosave_step(dirty, pointer_down, elapsed) is Save <==> dirty && !pointer_down && elapsed
            >= 400_000_000,
        autosave_step(dirty, pointer_down, elapsed) is Wait <==> dirty && !pointer_down && elapsed
            < 400_000_000,
        autosave_step(dirty, pointer_down, elapsed) matches Autosave::Wait { nanos } ==> elapsed
            + nanos == 400_000_000,
{
}

/// The next id after a start is above every kept one, and no higher than it must be.
pub proof fn the_next_id_is_the_first_free(tasks: Seq<StoredModel>)
    ensures
        tasks.len() == 0 ==> first_free(tasks) == 1,
        forall|i: int| 0 <= i < tasks.len() ==> (#[trigger] tasks[i]).id < first_free(tasks),
        tasks.len() > 0 ==> exists|i: int|
            0 <= i < tasks.len() && (#[trigger] tasks[i]).id + 1 == first_free(tasks),
    decreases tasks.len(),
{
    if tasks.len() > 0 {
        let front = tasks.drop_last();
        the_next_id_is_the_first_free(front);
        let n = tasks.len() - 1;
        assert(tasks[n] == tasks.last());
        if first_free(tasks) != tasks.last().id + 1 {
            let i = choose|i: int|
                0 <= i < front.len() && (#[trigger] front[i]).id + 1 == first_free(front);
            assert(tasks[i] == front[i]);
        }
        assert forall|i: int| 0 <= i < tasks.len() implies (#[trigger] tasks[i]).id < first_free(
            tasks,
        ) by {
            if i < n {
                assert(front[i] == tasks[i]);
            }
        }
    }
}

/// A start takes over what was kept: every task, in its place and to do; the window's left
/// edge and width; and its height on the screen, unless that is above the screen or no
/// number.  Where no window was kept it is 320 points wide and the handle 200 points down.
/// The board is closed, nothing is dragged or to be saved, and the screen is not known yet.
pub proof fn what_a_start_takes_over(state: AppModel, autostart: bool)
    requires
        forall|i: int| 0 <= i < state.tasks.len() ==> (#[trigger] state.tasks[i]).id < u64::MAX,
    ensures
        ({
            let q = started(state, autostart);
            &&& q.tasks.len() == state.tasks.len()
            &&& forall|i: int|
                0 <= i < state.tasks.len() ==> {
                    &&& (#[trigger] q.tasks[i]).id == state.tasks[i].id
                    &&& q.tasks[i].text == state.tasks[i].text
                    &&& !q.tasks[i].done
                    &&& q.tasks[i].id < q.next_id
                }
            &&& state.tasks.len() == 0 ==> q.next_id == 1
            &&& state.tasks.len() > 0 ==> exists|i: int|
                0 <= i < state.tasks.len() && (#[trigger] state.tasks[i]).id + 1 == q.next_id
            &&& match state.window {
                Some(w) => {
                    &&& q.handle_x == w.x
                    &&& q.width == w.width
                    &&& !w.y.is_nan() && w.y.units() >= 0 ==> q.handle_y == w.y
                    &&& w.y.is_nan() || w.y.units() < 0 ==> q.handle_y.is_finite()
                        && q.handle_y.units() == 0
                },
                None => {
                    &&& q.handle_x.is_finite() && q.handle_x.units() == 0
                    &&& q.handle_y.is_finite() && q.handle_y.units() == 200 * point()
                    &&& q.width.is_finite() && q.width.units() == 320 * point()
                },
            }
            &&& q.input.len() == 0
            &&& q.drag is None
            &&& !q.dirty && !q.expanded && !q.saw_focus && !q.focus_input && !q.watching
            &&& q.screen_h == infinity()
            &&& q.last_monitor is None
            &&& q.grab_dy.is_finite() && q.grab_dy.units() == 0
            &&& q.autostart == autostart
        }),
{
    let q = started(state, autostart);
    the_next_id_is_the_first_free(state.tasks);
    whole_is_a_number(0);
    whole_is_a_number(200);
    whole_is_a_number(320);
    assert(0 * point() == 0) by (nonlinear_arith);
    lemma_pow2_pos(149);
    assert(200 * point() >= 0) by (nonlinear_arith);
    if state.tasks.len() > 0 {
        let i = choose|i: int|
            0 <= i < state.tasks.len() && (#[trigger] state.tasks[i]).id + 1 == first_free(
                state.tasks,
            );
        assert(state.tasks[i].id < u64::MAX);
    }
    assert(q.next_id == first_free(state.tasks));
}

/// What is saved of a list is what is saved of its parts, one behind the other.
pub proof fn saving_goes_part_by_part(q: QueueModel, a: Seq<TaskModel>, b: Seq<TaskModel>)
    requires
        q.tasks == a + b,
    ensures
        snapshot(q).tasks == snapshot(QueueModel { tasks: a, ..q }).tasks + snapshot(
            QueueModel { tasks: b, ..q },
        ).tasks,
{
    let f = |t: TaskModel| !t.done;
    Seq::<TaskModel>::filter_distributes_over_add(a, b, f);
    assert(unfinished(q.tasks) == unfinished(a) + unfinished(b));
    assert(snapshot(q).tasks =~= snapshot(QueueModel { tasks: a, ..q }).tasks + snapshot(
        QueueModel { tasks: b, ..q },
    ).tasks);
}

/// Of a task that is to do its id and its text are saved; of a finished one, nothing.
pub proof fn what_is_saved_of_a_task(q: QueueModel, t: TaskModel)
    requires
        q.tasks == seq![t],
    ensures
        t.done ==> snapshot(q).tasks.len() == 0,
        !t.done ==> snapshot(q).tasks == seq![StoredModel { id: t.id, text: t.text }],
{
    reveal(Seq::filter);
    assert(q.tasks.drop_last() =~= Seq::<TaskModel>::empty());
    assert(q.tasks.last() == t);
    let none = Seq::<TaskModel>::empty().filter(|t: TaskModel| !t.done);
    assert(none =~= Seq::<TaskModel>::empty());
    if !t.done {
        assert(unfinished(q.tasks) =~= seq![t]);
        assert(snapshot(q).tasks =~= seq![stored(t)]);
    } else {
        assert(unfinished(q.tasks).len() == 0);
    }
}

/// `r` is the whole number of points nearest to `a`; where there is no such, `a` itself.
pub open spec fn nearest_point(a: Coord, r: Coord) -> bool {
    if a.is_finite() {
        &&& r.is_finite()
        &&& r.units() % (point() as int) == 0
        &&& 2 * apart_by(r.units(), a.units()) <= point()
    } else {
        r == a
    }
}

/// The handle's place and the board's width are saved to the nearest whole point.
pub proof fn the_window_is_saved_to_the_nearest_point(q: QueueModel)
    ensures
        snapshot(q).window matches Some(w) && nearest_point(q.handle_x, w.x) && nearest_point(
            q.handle_y,
            w.y,
        ) && nearest_point(q.width, w.width),
{
    rounding_goes_to_the_nearest_whole_point(q.handle_x);
    rounding_goes_to_the_nearest_whole_point(q.handle_y);
    rounding_goes_to_the_nearest_whole_point(q.width);
    assert(snapshot(q).window.unwrap().x == rounded(q.handle_x));
}

} // verus!
