//! The task queue as a mathematical object, and what each event does to it.

use crate::coord::{at_most, difference, half, less, sum, whole, Coord};
use crate::storage::WindowState;
use crate::text::trimmed;
use vstd::prelude::*;

verus! {

/// Two lengths, or a point.
#[derive(Clone, Copy, Debug)]
pub struct Pair {
    pub x: Coord,
    pub y: Coord,
}

/// A task on the board.
#[verifier::ext_equal]
pub struct TaskModel {
    pub id: u64,
    pub text: Seq<char>,
    /// Finished, and fading out until it is removed.
    pub done: bool,
}

/// A task as it is kept on disk.
#[verifier::ext_equal]
pub struct StoredModel {
    pub id: u64,
    pub text: Seq<char>,
}

/// What is kept on disk.
#[verifier::ext_equal]
pub struct AppModel {
    pub tasks: Seq<StoredModel>,
    pub window: Option<WindowState>,
}

/// The whole state of the widget.
#[verifier::ext_equal]
pub struct QueueModel {
    pub tasks: Seq<TaskModel>,
    /// The id that the next task gets.
    pub next_id: u64,
    /// What stands in the input line.
    pub input: Seq<char>,
    /// The id of the task that is being dragged.
    pub drag: Option<u64>,
    /// Whether something is yet to be saved.
    pub dirty: bool,
    pub expanded: bool,
    pub handle_x: Coord,
    pub handle_y: Coord,
    pub width: Coord,
    pub screen_h: Coord,
    pub last_monitor: Option<Pair>,
    pub grab_dy: Coord,
    pub saw_focus: bool,
    pub focus_input: bool,
    pub watching: bool,
    pub autostart: bool,
}

/// What the window system reports of one row of the board.
#[derive(Clone, Copy, Debug)]
pub struct RowReply {
    /// How far the row has yet to fade: 1 when it is there, 0 when it is gone.
    pub fade: Coord,
    /// The row's height, as drawn.
    pub height: Coord,
    /// The vertical middle of the row, as drawn.
    pub center: Coord,
    /// The circle at the row's front was clicked.
    pub clicked: bool,
    /// A drag began on the row's text.
    pub drag_started: bool,
}

/// What the window system reports of the panel's head.
#[derive(Clone, Copy, Debug)]
pub struct PanelReply {
    /// Whether starting at login is ticked.
    pub want_autostart: bool,
    /// Whether a change of it reached the registry.
    pub autostart_written: bool,
    /// Enter was pressed in the input line.
    pub entered: bool,
    /// The counter was clicked.
    pub collapse: bool,
}

/// What the window system reports of the handle.
#[derive(Clone, Copy, Debug)]
pub struct HandleReply {
    /// How far down in the window the pointer holds the handle.
    pub pointer_y: Option<Coord>,
    pub drag_started: bool,
    pub dragged: bool,
    pub clicked: bool,
    /// The top edge of the window on the screen.
    pub window_top: Option<Coord>,
}

/// The ids of the tasks, in order.
pub open spec fn ids(tasks: Seq<TaskModel>) -> Seq<u64> {
    tasks.map_values(|t: TaskModel| t.id)
}

/// The tasks that are still to do, in order.
pub open spec fn unfinished(tasks: Seq<TaskModel>) -> Seq<TaskModel> {
    tasks.filter(|t: TaskModel| !t.done)
}

/// A task as it is kept on disk.
pub open spec fn stored(t: TaskModel) -> StoredModel {
    StoredModel { id: t.id, text: t.text }
}

/// A task as it comes back from disk.
pub open spec fn restored(t: StoredModel) -> TaskModel {
    TaskModel { id: t.id, text: t.text, done: false }
}

/// Every id is below the next one to be given out.
pub open spec fn ids_below(tasks: Seq<TaskModel>, next_id: u64) -> bool {
    forall|i: int| 0 <= i < tasks.len() ==> (#[trigger] tasks[i]).id < next_id
}

impl QueueModel {
    /// The invariant: ids that are in use are never given out again.
    pub open spec fn wf(self) -> bool {
        ids_below(self.tasks, self.next_id)
    }

    /// No two tasks have the same id.
    pub open spec fn distinct(self) -> bool {
        ids(self.tasks).no_duplicates()
    }
}

/// The board open: the user asked for it, so the input line gets the focus.
pub open spec fn opened(q: QueueModel) -> QueueModel {
    QueueModel { expanded: true, saw_focus: false, focus_input: true, ..q }
}

/// The board closed.
pub open spec fn closed(q: QueueModel) -> QueueModel {
    QueueModel { expanded: false, saw_focus: false, drag: None, ..q }
}

/// Whether the input line holds a task.
pub open spec fn names_task(input: Seq<char>) -> bool {
    trimmed(input).len() > 0
}

/// Enter in the input line: its text, without the white space around it, becomes the
/// last task, unless nothing is left of it.
pub open spec fn submitted(q: QueueModel) -> QueueModel {
    if names_task(q.input) {
        QueueModel {
            tasks: q.tasks.push(
                TaskModel { id: q.next_id, text: trimmed(q.input), done: false },
            ),
            next_id: (q.next_id + 1) as u64,
            input: Seq::empty(),
            dirty: true,
            ..q
        }
    } else {
        QueueModel { input: Seq::empty(), ..q }
    }
}

/// The box for starting at login: it follows the user only when the registry did.
pub open spec fn autostart_chosen(q: QueueModel, want: bool, written: bool) -> QueueModel {
    QueueModel {
        autostart: if want != q.autostart && written {
            want
        } else {
            q.autostart
        },
        ..q
    }
}

/// What a frame of the panel's head does.
pub open spec fn panel_used(q: QueueModel, r: PanelReply) -> QueueModel {
    let q = autostart_chosen(q, r.want_autostart, r.autostart_written);
    let q = QueueModel { focus_input: false, ..q };
    let q = if r.entered {
        submitted(q)
    } else {
        q
    };
    if r.collapse {
        closed(q)
    } else {
        q
    }
}

/// Whether a row is tall enough to be drawn and used.
pub open spec fn shown(row: RowReply) -> bool {
    !less(row.height, half())
}

/// The id of the last row for which `pick` holds, among those that are shown and whose
/// task is not finished yet.
pub open spec fn last_picked(
    tasks: Seq<TaskModel>,
    rows: Seq<RowReply>,
    pick: spec_fn(RowReply) -> bool,
) -> Option<u64>
    decreases rows.len(),
{
    if rows.len() == 0 {
        None
    } else if shown(rows.last()) && !tasks[rows.len() - 1].done && pick(rows.last()) {
        Some(tasks[rows.len() - 1].id)
    } else {
        last_picked(tasks, rows.drop_last(), pick)
    }
}

/// The id of the task whose circle was clicked.
pub open spec fn finished_id(tasks: Seq<TaskModel>, rows: Seq<RowReply>) -> Option<u64> {
    last_picked(tasks, rows, |r: RowReply| r.clicked)
}

/// The id of the task on which a drag began.
pub open spec fn grabbed_id(tasks: Seq<TaskModel>, rows: Seq<RowReply>) -> Option<u64> {
    last_picked(tasks, rows, |r: RowReply| r.drag_started)
}

/// Where a task is on the board.
pub open spec fn position(tasks: Seq<TaskModel>, id: u64) -> Option<int> {
    ids(tasks).index_of_first(id)
}

/// A task finished: it fades out, and is to be saved no more.
pub open spec fn finished(q: QueueModel, id: Option<u64>) -> QueueModel {
    match id {
        None => q,
        Some(id) => match position(q.tasks, id) {
            None => q,
            Some(i) => QueueModel {
                tasks: q.tasks.update(i, TaskModel { done: true, ..q.tasks[i] }),
                dirty: true,
                ..q
            },
        },
    }
}

/// The text of a task that was just finished, for the record.
pub open spec fn finished_text(q: QueueModel, id: Option<u64>) -> Option<Seq<char>> {
    match id {
        None => None,
        Some(id) => match position(q.tasks, id) {
            None => None,
            Some(i) => Some(q.tasks[i].text),
        },
    }
}

/// A drag taken up, kept up or let go.
pub open spec fn held(q: QueueModel, grabbed: Option<u64>, pointer_down: bool) -> QueueModel {
    QueueModel {
        drag: if !pointer_down {
            None
        } else if grabbed is Some {
            grabbed
        } else {
            q.drag
        },
        ..q
    }
}

/// The slot reached from slot `i` by going up past every row whose middle the pointer
/// is above.
pub open spec fn slot_above(rows: Seq<RowReply>, pointer: Coord, i: int) -> int
    decreases i,
{
    if 0 < i && less(pointer, rows[i - 1].center) {
        slot_above(rows, pointer, i - 1)
    } else {
        i
    }
}

/// The slot reached from slot `i` by going down past every row whose middle the pointer
/// is below.
pub open spec fn slot_below(rows: Seq<RowReply>, pointer: Coord, i: int) -> int
    decreases rows.len() - i,
{
    if i + 1 < rows.len() && less(rows[i + 1].center, pointer) {
        slot_below(rows, pointer, i + 1)
    } else {
        i
    }
}

/// The slot to which the pointer drags the task in slot `i`.
pub open spec fn slot(rows: Seq<RowReply>, pointer: Coord, i: int) -> int {
    if slot_above(rows, pointer, i) < i {
        slot_above(rows, pointer, i)
    } else {
        slot_below(rows, pointer, i)
    }
}

/// The tasks with the one in slot `i` taken out and put into slot `j`.
pub open spec fn moved(tasks: Seq<TaskModel>, i: int, j: int) -> Seq<TaskModel> {
    tasks.remove(i).insert(j, tasks[i])
}

/// The dragged task brought to where the pointer is.
pub open spec fn dragged(
    q: QueueModel,
    rows: Seq<RowReply>,
    pointer: Option<Coord>,
) -> QueueModel {
    match (q.drag, pointer) {
        (Some(id), Some(p)) => match position(q.tasks, id) {
            None => q,
            Some(i) => {
                let j = slot(rows, p, i);
                if j == i {
                    q
                } else {
                    QueueModel { tasks: moved(q.tasks, i, j), dirty: true, ..q }
                }
            },
        },
        _ => q,
    }
}

/// Whether a finished task has faded out.
pub open spec fn faded(task: TaskModel, row: RowReply) -> bool {
    task.done && at_most(row.fade, whole(0))
}

/// Whether a task with this id has faded out.
pub open spec fn is_faded(tasks: Seq<TaskModel>, rows: Seq<RowReply>, id: u64) -> bool {
    exists|i: int|
        0 <= i < tasks.len() && i < rows.len() && (#[trigger] tasks[i]).id == id && faded(
            tasks[i],
            rows[i],
        )
}

/// What a frame of the rows does: the clicked task is finished, the drag goes on, and
/// the tasks that had faded out by the start of the frame go.
pub open spec fn rows_used(
    q: QueueModel,
    rows: Seq<RowReply>,
    pointer: Option<Coord>,
    pointer_down: bool,
) -> QueueModel {
    let r = finished(q, finished_id(q.tasks, rows));
    let r = held(r, grabbed_id(q.tasks, rows), pointer_down);
    let r = dragged(r, rows, pointer);
    QueueModel {
        tasks: r.tasks.filter(|t: TaskModel| !is_faded(q.tasks, rows, t.id)),
        ..r
    }
}

/// What a frame of the handle does: it follows the pointer up and down, and opens the
/// board on a click.
pub open spec fn handle_used(q: QueueModel, r: HandleReply) -> QueueModel {
    let q = match r.pointer_y {
        None => q,
        Some(p) => {
            let q = QueueModel {
                grab_dy: if r.drag_started {
                    p
                } else {
                    q.grab_dy
                },
                ..q
            };
            if r.dragged {
                let top = match r.window_top {
                    Some(y) => y,
                    None => whole(0),
                };
                QueueModel { handle_y: difference(sum(top, p), q.grab_dy), dirty: true, ..q }
            } else {
                q
            }
        },
    };
    if r.clicked {
        opened(q)
    } else {
        q
    }
}

/// What the keyboard and the focus do at the start of a frame: Escape closes the board,
/// and so does losing a focus that it once had.
pub open spec fn attended(q: QueueModel, escape: bool, focused: bool) -> QueueModel {
    if !q.expanded {
        q
    } else {
        let q = if escape {
            closed(q)
        } else {
            q
        };
        if focused {
            QueueModel { saw_focus: true, ..q }
        } else if q.saw_focus {
            closed(q)
        } else {
            q
        }
    }
}

/// What is saved of a queue: the tasks still to do, and the window in whole points.
pub open spec fn snapshot(q: QueueModel) -> AppModel {
    AppModel {
        tasks: unfinished(q.tasks).map_values(|t: TaskModel| stored(t)),
        window: Some(
            WindowState {
                x: crate::coord::rounded(q.handle_x),
                y: crate::coord::rounded(q.handle_y),
                width: crate::coord::rounded(q.width),
            },
        ),
    }
}

} // verus!
