//! The task queue: a single column of tasks, gone when done.
//!
//! One window has two shapes: a small handle at the right edge of the screen that shows
//! how many tasks are left, and the whole board, which opens to the left of it.

use crate::coord::{infinity, whole, Coord};
use crate::model::{
    attended, closed, dragged, faded, finished, finished_id, finished_text, handle_used, held,
    ids, is_faded, last_picked, moved, names_task, opened, panel_used, position, restored,
    rows_used, slot, slot_above, slot_below, snapshot, stored, submitted, unfinished, AppModel,
    HandleReply, Pair, PanelReply, QueueModel, RowReply, StoredModel, TaskModel,
};
use crate::storage::{default_window, AppState, StoredTask, WindowState};
use crate::text::trim;
use vstd::prelude::*;

verus! {

/// A task on the board.
#[derive(Debug)]
pub struct Task {
    pub id: u64,
    pub text: String,
    /// Finished, and fading out until it is removed.
    pub done: bool,
}

impl View for Task {
    type V = TaskModel;

    open spec fn view(&self) -> TaskModel {
        TaskModel { id: self.id, text: self.text@, done: self.done }
    }
}

impl View for StoredTask {
    type V = StoredModel;

    open spec fn view(&self) -> StoredModel {
        StoredModel { id: self.id, text: self.text@ }
    }
}

impl View for AppState {
    type V = AppModel;

    open spec fn view(&self) -> AppModel {
        AppModel { tasks: self.tasks@.map_values(|t: StoredTask| t@), window: self.window }
    }
}

/// The widget.
pub struct TaskQueue {
    pub tasks: Vec<Task>,
    /// The id that the next task gets.
    pub next_id: u64,
    /// What stands in the input line.
    pub input: String,
    /// The id of the task that is being dragged.
    pub drag: Option<u64>,
    /// Whether something is yet to be saved.
    pub dirty: bool,
    pub expanded: bool,
    /// Left edge of the handle.
    pub handle_x: Coord,
    /// Top edge of the handle, which the user moves by dragging it.
    pub handle_y: Coord,
    /// Width of the open board.
    pub width: Coord,
    /// Height of the screen, from the last reading that could be trusted.
    pub screen_h: Coord,
    /// The size of the monitor as it was reported in the last frame.
    pub last_monitor: Option<Pair>,
    /// How far below its top edge the handle was grabbed.
    pub grab_dy: Coord,
    /// Whether the open board has had the focus.
    pub saw_focus: bool,
    /// Whether the input line is to get the focus.
    pub focus_input: bool,
    /// Whether the watchdog runs.
    pub watching: bool,
    /// Whether the program is registered to start at login.
    pub autostart: bool,
}

/// The models of the tasks.
pub open spec fn models(tasks: Seq<Task>) -> Seq<TaskModel> {
    tasks.map_values(|t: Task| t@)
}

impl View for TaskQueue {
    type V = QueueModel;

    open spec fn view(&self) -> QueueModel {
        QueueModel {
            tasks: models(self.tasks@),
            next_id: self.next_id,
            input: self.input@,
            drag: self.drag,
            dirty: self.dirty,
            expanded: self.expanded,
            handle_x: self.handle_x,
            handle_y: self.handle_y,
            width: self.width,
            screen_h: self.screen_h,
            last_monitor: self.last_monitor,
            grab_dy: self.grab_dy,
            saw_focus: self.saw_focus,
            focus_input: self.focus_input,
            watching: self.watching,
            autostart: self.autostart,
        }
    }
}

/// Nanoseconds between two saves: 400 ms.
pub const SAVE_DELAY_NANOS: u64 = 400_000_000;

/// What to do about saving.
#[derive(Clone, Copy, Debug, PartialEq, Eq, Structural)]
pub enum Autosave {
    /// Nothing.
    Idle,
    /// Save now.
    Save,
    /// Look again after this time.
    Wait { nanos: u64 },
}

/// Changes are saved at most every 400 ms, and never while the pointer is down.
pub open spec fn autosave_step(dirty: bool, pointer_down: bool, elapsed: nat) -> Autosave {
    if !dirty || pointer_down {
        Autosave::Idle
    } else if elapsed >= SAVE_DELAY_NANOS {
        Autosave::Save
    } else {
        Autosave::Wait { nanos: (SAVE_DELAY_NANOS - elapsed) as u64 }
    }
}

/// The first id above those of the kept tasks; 1 when there are none.
pub open spec fn first_free(tasks: Seq<StoredModel>) -> int
    decreases tasks.len(),
{
    if tasks.len() == 0 {
        1
    } else if tasks.len() == 1 || tasks.last().id + 1 > first_free(tasks.drop_last()) {
        tasks.last().id + 1
    } else {
        first_free(tasks.drop_last())
    }
}

/// The widget as it starts from a kept state.
pub open spec fn started(state: AppModel, autostart: bool) -> QueueModel {
    let window = match state.window {
        Some(w) => w,
        None => default_window(),
    };
    QueueModel {
        tasks: state.tasks.map_values(|t: StoredModel| restored(t)),
        next_id: first_free(state.tasks) as u64,
        input: Seq::empty(),
        drag: None,
        dirty: false,
        expanded: false,
        handle_x: window.x,
        handle_y: crate::coord::larger(window.y, whole(0)),
        width: window.width,
        screen_h: infinity(),
        last_monitor: None,
        grab_dy: whole(0),
        saw_focus: false,
        focus_input: false,
        watching: false,
        autostart,
    }
}

impl TaskQueue {
    /// The widget as it starts from a kept state: closed, with every kept task to do.
    pub fn new(state: AppState, autostart: bool) -> (q: TaskQueue)
        requires
            forall|i: int|
                0 <= i < state.tasks@.len() ==> (#[trigger] state.tasks@[i]).id < u64::MAX,
        ensures
            q@ == started(state@, autostart),
            q@.wf(),
    {
        let window = match state.window {
            Some(w) => w,
            None => WindowState::default(),
        };
        let ghost kept = state@.tasks;
        let mut tasks: Vec<Task> = Vec::new();
        let mut next_id: u64 = 1;
        let ghost all = state.tasks@;
        for t in it: state.tasks
            invariant
                it.seq() == all,
                kept == all.map_values(|t: StoredTask| t@),
                forall|k: int| 0 <= k < all.len() ==> (#[trigger] all[k]).id < u64::MAX,
                models(tasks@) == kept.take(it.index() as int).map_values(
                    |t: StoredModel| restored(t),
                ),
                tasks@.len() == it.index(),
                next_id == first_free(kept.take(it.index() as int)),
                forall|k: int| 0 <= k < it.index() ==> (#[trigger] kept[k]).id < next_id,
        {
            let ghost i = it.index() as int;
            assert(kept[i] == t@);
            if tasks.len() == 0 || t.id + 1 > next_id {
                next_id = t.id + 1;
            }
            assert(kept.take(i + 1).drop_last() == kept.take(i));
            let ghost before = tasks@;
            tasks.push(Task { id: t.id, text: t.text, done: false });
            assert(models(tasks@) == models(before).push(restored(kept[i])));
            assert(kept.take(i + 1).map_values(|t: StoredModel| restored(t)) == kept.take(
                i,
            ).map_values(|t: StoredModel| restored(t)).push(restored(kept[i])));
        }
        assert(kept.take(all.len() as int) == kept);
        let zero = Coord::from_points(0);
        let q = TaskQueue {
            tasks,
            next_id,
            input: String::new(),
            drag: None,
            dirty: false,
            expanded: false,
            handle_x: window.x,
            handle_y: window.y.max(zero),
            width: window.width,
            screen_h: Coord::from_bits(0x7f80_0000),
            last_monitor: None,
            grab_dy: zero,
            saw_focus: false,
            focus_input: false,
            watching: false,
            autostart,
        };
        assert(q@.wf()) by {
            assert forall|k: int| 0 <= k < q@.tasks.len() implies (#[trigger] q@.tasks[k]).id
                < q@.next_id by {
                assert(q@.tasks[k] == restored(kept[k]));
            }
        }
        q
    }

    /// How many tasks are still to do.
    pub fn pending(&self) -> (n: usize)
        ensures
            n == unfinished(self@.tasks).len(),
    {
        let ghost all = self@.tasks;
        let mut n: usize = 0;
        let mut i: usize = 0;
        while i < self.tasks.len()
            invariant
                i <= self.tasks@.len(),
                n <= i,
                all == models(self.tasks@),
                n == unfinished(all.take(i as int)).len(),
            decreases self.tasks@.len() - i,
        {
            proof {
                reveal(Seq::filter);
                assert(all.take(i + 1).drop_last() == all.take(i as int));
                assert(all.take(i + 1).last() == self.tasks@[i as int]@);
            }
            if !self.tasks[i].done {
                n = n + 1;
            }
            i = i + 1;
        }
        assert(all.take(all.len() as int) == all);
        n
    }

    /// Opens the board.  The window is to ask for the focus, this once.
    pub fn expand(&mut self)
        ensures
            final(self)@ == opened(old(self)@),
    {
        self.expanded = true;
        self.saw_focus = false;
        self.focus_input = true;
    }

    /// Closes the board.
    pub fn collapse(&mut self)
        ensures
            final(self)@ == closed(old(self)@),
    {
        self.expanded = false;
        self.saw_focus = false;
        self.drag = None;
    }

    /// Enter in the input line.
    pub fn submit(&mut self)
        requires
            names_task(old(self)@.input) ==> old(self).next_id < u64::MAX,
        ensures
            final(self)@ == submitted(old(self)@),
    {
        let mut input = String::new();
        std::mem::swap(&mut input, &mut self.input);
        let text = trim(input.as_str());
        if !text.as_str().is_empty() {
            let ghost before = self.tasks@;
            self.tasks.push(Task { id: self.next_id, text, done: false });
            self.next_id = self.next_id + 1;
            self.dirty = true;
            assert(models(self.tasks@) == models(before).push(self.tasks@.last()@));
        }
        assert(self@ =~= submitted(old(self)@));
    }

    /// Whether the tick for starting at login asks for a change of the registry.
    pub fn autostart_differs(&self, want: bool) -> (r: bool)
        ensures
            r <==> want != self@.autostart,
    {
        want != self.autostart
    }

    /// A frame of the panel's head; whether the input line is to get the focus.
    pub fn panel(&mut self, reply: PanelReply) -> (focus: bool)
        requires
            reply.entered && names_task(old(self)@.input) ==> old(self).next_id < u64::MAX,
        ensures
            final(self)@ == panel_used(old(self)@, reply),
            focus <==> old(self)@.focus_input || reply.entered,
    {
        if reply.want_autostart != self.autostart && reply.autostart_written {
            self.autostart = reply.want_autostart;
        }
        let focus = self.focus_input || reply.entered;
        self.focus_input = false;
        if reply.entered {
            self.submit();
        }
        if reply.collapse {
            self.collapse();
        }
        focus
    }

    /// A frame of the handle; whether the window is to ask for the focus.
    pub fn handle_ui(&mut self, reply: HandleReply) -> (focus: bool)
        ensures
            final(self)@ == handle_used(old(self)@, reply),
            focus <==> reply.clicked,
    {
        if let Some(p) = reply.pointer_y {
            if reply.drag_started {
                self.grab_dy = p;
            }
            if reply.dragged {
                let top = match reply.window_top {
                    Some(y) => y,
                    None => Coord::from_points(0),
                };
                self.handle_y = top.plus(p).minus(self.grab_dy);
                self.dirty = true;
            }
        }
        if reply.clicked {
            self.expand();
        }
        reply.clicked
    }

    /// The start of a frame: what Escape and the focus do to an open board.
    pub fn ui(&mut self, escape: bool, focused: Option<bool>)
        ensures
            final(self)@ == attended(old(self)@, escape, focused == Some(true)),
    {
        if self.expanded {
            if escape {
                self.collapse();
            }
            let focused = match focused {
                Some(b) => b,
                None => false,
            };
            if focused {
                self.saw_focus = true;
            } else if self.saw_focus {
                self.collapse();
            }
        }
    }

    /// Where the first task with this id is.
    fn find(&self, id: u64) -> (r: Option<usize>)
        ensures
            match r {
                Some(i) => i < self.tasks@.len() && position(self@.tasks, id) == Some(i as int),
                None => position(self@.tasks, id) is None,
            },
    {
        let ghost all = ids(self@.tasks);
        let mut i: usize = 0;
        while i < self.tasks.len()
            invariant
                i <= self.tasks@.len(),
                all == ids(models(self.tasks@)),
                forall|k: int| 0 <= k < i ==> all[k] != id,
            decreases self.tasks@.len() - i,
        {
            assert(all[i as int] == self.tasks@[i as int].id);
            if self.tasks[i].id == id {
                proof {
                    all.index_of_first_ensures(id);
                }
                return Some(i);
            }
            i = i + 1;
        }
        proof {
            all.index_of_first_ensures(id);
        }
        None
    }

    /// Finishes a task; its text, for the record.
    fn finish(&mut self, id: Option<u64>) -> (text: Option<String>)
        ensures
            final(self)@ == finished(old(self)@, id),
            final(self).tasks@.len() == old(self).tasks@.len(),
            match text {
                Some(t) => finished_text(old(self)@, id) == Some(t@),
                None => finished_text(old(self)@, id) is None,
            },
    {
        if let Some(id) = id {
            if let Some(i) = self.find(id) {
                let ghost before = self.tasks@;
                let text = self.tasks[i].text.clone();
                self.tasks[i].done = true;
                self.dirty = true;
                assert(models(self.tasks@) == models(before).update(
                    i as int,
                    TaskModel { done: true, ..models(before)[i as int] },
                ));
                return Some(text);
            }
        }
        None
    }

    /// Brings the dragged task to where the pointer is.
    fn drag_to(&mut self, rows: &Vec<RowReply>, pointer: Option<Coord>)
        requires
            rows@.len() == old(self).tasks@.len(),
        ensures
            final(self)@ == dragged(old(self)@, rows@, pointer),
            final(self).tasks@.len() == old(self).tasks@.len(),
    {
        if let (Some(id), Some(p)) = (self.drag, pointer) {
            if let Some(i) = self.find(id) {
                let mut j: usize = i;
                while 0 < j && p.lt(rows[j - 1].center)
                    invariant
                        j <= i < rows@.len(),
                        slot_above(rows@, p, i as int) == slot_above(rows@, p, j as int),
                    decreases j,
                {
                    j = j - 1;
                }
                if j == i {
                    while j < rows.len() - 1 && rows[j + 1].center.lt(p)
                        invariant
                            i <= j < rows@.len(),
                            slot_below(rows@, p, i as int) == slot_below(rows@, p, j as int),
                        decreases rows@.len() - j,
                    {
                        j = j + 1;
                    }
                }
                assert(j == slot(rows@, p, i as int));
                if j != i {
                    let ghost before = self.tasks@;
                    let task = self.tasks.remove(i);
                    self.tasks.insert(j, task);
                    self.dirty = true;
                    assert(models(self.tasks@) == moved(models(before), i as int, j as int));
                }
            }
        }
        assert(self@ =~= dragged(old(self)@, rows@, pointer));
    }

    /// Removes the tasks with the given ids.
    fn remove_all(&mut self, dead: &Vec<u64>)
        ensures
            final(self)@ == (QueueModel {
                tasks: old(self)@.tasks.filter(|t: TaskModel| !dead@.contains(t.id)),
                ..old(self)@
            }),
    {
        let ghost keep = |t: TaskModel| !dead@.contains(t.id);
        let ghost all = self@.tasks;
        let total: usize = self.tasks.len();
        let mut i: usize = 0;
        let ghost mut seen: int = 0;
        assert(all.take(0) == Seq::<TaskModel>::empty());
        reveal(Seq::filter);
        while i < self.tasks.len()
            invariant
                0 <= seen <= all.len(),
                i <= self.tasks@.len(),
                self.tasks@.len() - i == all.len() - seen,
                keep == |t: TaskModel| !dead@.contains(t.id),
                models(self.tasks@).take(i as int) == all.take(seen).filter(keep),
                models(self.tasks@).skip(i as int) == all.skip(seen),
                self@ == (QueueModel { tasks: models(self.tasks@), ..old(self)@ }),
            decreases self.tasks@.len() - i,
        {
            let ghost before = self.tasks@;
            let id = self.tasks[i].id;
            assert(all[seen] == models(before).skip(i as int)[0]);
            assert(all.take(seen + 1).drop_last() == all.take(seen));
            reveal(Seq::filter);
            if contains(dead, id) {
                let _gone = self.tasks.remove(i);
                assert(models(self.tasks@).take(i as int) == models(before).take(i as int));
                assert(models(self.tasks@).skip(i as int) == models(before).skip(i as int).skip(1));
                assert(all.skip(seen + 1) == all.skip(seen).skip(1));
            } else {
                assert(models(before).take(i + 1) == models(before).take(i as int).push(all[seen]));
                assert(models(before).skip(i + 1) == models(before).skip(i as int).skip(1));
                assert(all.skip(seen + 1) == all.skip(seen).skip(1));
                i = i + 1;
            }
            proof {
                seen = seen + 1;
            }
        }
        assert(all.take(all.len() as int) == all);
        assert(models(self.tasks@).take(i as int) == models(self.tasks@));
    }

    /// A frame of the rows; the text of a task that was finished, for the record.
    ///
    /// `rows` holds the report of every row, in order.  A row whose task is fading out is
    /// neither clicked nor dragged, whatever its report says.
    pub fn rows(
        &mut self,
        rows: &Vec<RowReply>,
        pointer: Option<Coord>,
        pointer_down: bool,
    ) -> (done: Option<String>)
        requires
            rows@.len() == old(self).tasks@.len(),
        ensures
            final(self)@ == rows_used(old(self)@, rows@, pointer, pointer_down),
            match done {
                Some(t) => finished_text(old(self)@, finished_id(old(self)@.tasks, rows@)) == Some(
                    t@,
                ),
                None => finished_text(old(self)@, finished_id(old(self)@.tasks, rows@)) is None,
            },
    {
        let ghost q = self@;
        let ghost click = |r: RowReply| r.clicked;
        let ghost grab = |r: RowReply| r.drag_started;
        let half = Coord::half_point();
        let zero = Coord::from_points(0);
        let mut dead: Vec<u64> = Vec::new();
        let mut finished: Option<u64> = None;
        let mut grabbed: Option<u64> = None;
        let mut i: usize = 0;
        while i < rows.len()
            invariant
                i <= rows@.len() == self.tasks@.len(),
                self@ == q,
                half == crate::coord::half(),
                zero == whole(0),
                click == |r: RowReply| r.clicked,
                grab == |r: RowReply| r.drag_started,
                finished == last_picked(q.tasks, rows@.take(i as int), click),
                grabbed == last_picked(q.tasks, rows@.take(i as int), grab),
                forall|id: u64| dead@.contains(id) <==> is_faded(q.tasks, rows@.take(i as int), id),
            decreases rows@.len() - i,
        {
            let row = rows[i];
            let id = self.tasks[i].id;
            let ghost was = dead@;
            let ghost past = rows@.take(i as int);
            let ghost now = rows@.take(i + 1);
            assert(now.drop_last() == past);
            assert(now.last() == row);
            assert(q.tasks[i as int] == self.tasks@[i as int]@);
            if self.tasks[i].done && row.fade.le(zero) {
                dead.push(id);
            }
            proof {
                lemma_faded_step(q.tasks, rows@, i as int, was, dead@);
            }
            if !row.height.lt(half) && !self.tasks[i].done {
                if row.clicked {
                    finished = Some(id);
                }
                if row.drag_started {
                    grabbed = Some(id);
                }
            }
            i = i + 1;
        }
        assert(rows@.take(rows@.len() as int) == rows@);
        let done = self.finish(finished);
        if grabbed.is_some() {
            self.drag = grabbed;
        }
        if !pointer_down {
            self.drag = None;
        }
        assert(self@ == held(crate::model::finished(q, finished), grabbed, pointer_down));
        self.drag_to(rows, pointer);
        let ghost r = self@;
        self.remove_all(&dead);
        proof {
            let f = |t: TaskModel| !dead@.contains(t.id);
            let g = |t: TaskModel| !is_faded(q.tasks, rows@, t.id);
            assert(f =~= g);
        }
        done
    }

    /// The window to set the watchdog on, once there is one and none is watched yet.
    pub fn logic(&mut self, window: Option<isize>) -> (watch: Option<isize>)
        ensures
            watch == if old(self)@.watching {
                None
            } else {
                window
            },
            final(self)@ == (QueueModel {
                watching: old(self)@.watching || window is Some,
                ..old(self)@
            }),
    {
        if self.watching {
            return None;
        }
        if window.is_some() {
            self.watching = true;
        }
        window
    }

    /// What is to be saved.
    pub fn save_now(&self) -> (state: AppState)
        ensures
            state@ == snapshot(self@),
    {
        let ghost all = self@.tasks;
        let ghost keep = |t: TaskModel| stored(t);
        let mut tasks: Vec<StoredTask> = Vec::new();
        let mut i: usize = 0;
        while i < self.tasks.len()
            invariant
                i <= self.tasks@.len(),
                all == models(self.tasks@),
                keep == |t: TaskModel| stored(t),
                tasks@.map_values(|t: StoredTask| t@) == unfinished(all.take(i as int)).map_values(
                    keep,
                ),
            decreases self.tasks@.len() - i,
        {
            proof {
                reveal(Seq::filter);
                assert(all.take(i + 1).drop_last() == all.take(i as int));
                assert(all.take(i + 1).last() == self.tasks@[i as int]@);
            }
            if !self.tasks[i].done {
                let ghost before = tasks@;
                tasks.push(
                    StoredTask { id: self.tasks[i].id, text: self.tasks[i].text.clone() },
                );
                assert(tasks@.map_values(|t: StoredTask| t@) == before.map_values(
                    |t: StoredTask| t@,
                ).push(stored(all[i as int])));
                assert(unfinished(all.take(i + 1)).map_values(keep) == unfinished(
                    all.take(i as int),
                ).map_values(keep).push(stored(all[i as int])));
            }
            i = i + 1;
        }
        assert(all.take(all.len() as int) == all);
        let window = WindowState {
            x: self.handle_x.round(),
            y: self.handle_y.round(),
            width: self.width.round(),
        };
        AppState { tasks, window: Some(window) }
    }

    /// A save was tried: only one that went through leaves nothing to save.
    pub fn saved(&mut self, ok: bool)
        ensures
            final(self)@ == (QueueModel { dirty: old(self)@.dirty && !ok, ..old(self)@ }),
    {
        if ok {
            self.dirty = false;
        }
    }

    /// What to do about saving, `elapsed` nanoseconds after the last try.
    pub fn autosave(&self, pointer_down: bool, elapsed: u128) -> (step: Autosave)
        ensures
            step == autosave_step(self@.dirty, pointer_down, elapsed as nat),
    {
        if !self.dirty {
            return Autosave::Idle;
        }
        if pointer_down {
            return Autosave::Idle;
        }
        if elapsed >= SAVE_DELAY_NANOS as u128 {
            Autosave::Save
        } else {
            Autosave::Wait { nanos: SAVE_DELAY_NANOS - elapsed as u64 }
        }
    }
}

/// Whether `ids` holds `id`.
fn contains(ids: &Vec<u64>, id: u64) -> (r: bool)
    ensures
        r == ids@.contains(id),
{
    let mut i: usize = 0;
    while i < ids.len()
        invariant
            i <= ids@.len(),
            forall|k: int| 0 <= k < i ==> ids@[k] != id,
        decreases ids@.len() - i,
    {
        if ids[i] == id {
            return true;
        }
        i = i + 1;
    }
    false
}

/// The ids of the faded tasks, one row further.
proof fn lemma_faded_step(
    tasks: Seq<TaskModel>,
    rows: Seq<RowReply>,
    i: int,
    was: Seq<u64>,
    now: Seq<u64>,
)
    requires
        0 <= i < rows.len() == tasks.len(),
        forall|id: u64| was.contains(id) <==> is_faded(tasks, rows.take(i), id),
        now == if faded(tasks[i], rows[i]) {
            was.push(tasks[i].id)
        } else {
            was
        },
    ensures
        forall|id: u64| now.contains(id) <==> is_faded(tasks, rows.take(i + 1), id),
{
    let past = rows.take(i);
    let next = rows.take(i + 1);
    assert forall|id: u64| now.contains(id) <==> is_faded(tasks, next, id) by {
        if now.contains(id) {
            if was.contains(id) {
                assert(is_faded(tasks, past, id));
                let k = choose|k: int|
                    0 <= k < tasks.len() && k < past.len() && (#[trigger] tasks[k]).id == id
                        && faded(tasks[k], past[k]);
                assert(next[k] == past[k]);
                assert(is_faded(tasks, next, id));
            } else {
                let k = choose|k: int| 0 <= k < now.len() && now[k] == id;
                assert(k == was.len());
                assert(faded(tasks[i], rows[i]));
                assert(next[i] == rows[i]);
                assert(tasks[i].id == id && faded(tasks[i], next[i]));
            }
        }
        if is_faded(tasks, next, id) {
            let k = choose|k: int|
                0 <= k < tasks.len() && k < next.len() && (#[trigger] tasks[k]).id == id && faded(
                    tasks[k],
                    next[k],
                );
            if k < i {
                assert(past[k] == next[k]);
                assert(is_faded(tasks, past, id));
                assert(was.contains(id));
                let j = choose|j: int| 0 <= j < was.len() && was[j] == id;
                assert(now[j] == id);
            } else {
                assert(now[was.len() as int] == id);
            }
        }
    }
}

} // verus!
