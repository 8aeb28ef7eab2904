//! What is kept on disk, and the decisions around reading and writing it.
//!
//! Two files stand in one directory: the state (tasks still to do, and the window),
//! rewritten as a whole by writing a draft and renaming it into place; and the record
//! of finished tasks, one JSON object a line, which is only ever appended to.

use crate::coord::{same, whole, Coord};
use crate::json::{object_text, pair_object};
use vstd::prelude::*;

verus! {

/// A task as it is kept on disk.
#[derive(Clone, Debug)]
pub struct StoredTask {
    pub id: u64,
    pub text: String,
}

/// The window as it is kept on disk.
#[derive(Clone, Copy, Debug)]
pub struct WindowState {
    /// Left edge of the handle; set right on every start by the monitor's right edge.
    pub x: Coord,
    /// Top edge of the handle, where the user dragged it to.
    pub y: Coord,
    /// Width of the open panel.
    pub width: Coord,
}

impl PartialEq for WindowState {
    fn eq(&self, other: &WindowState) -> (r: bool) {
        self.x.equals(other.x) && self.y.equals(other.y) && self.width.equals(other.width)
    }
}

impl vstd::std_specs::cmp::PartialEqSpecImpl for WindowState {
    open spec fn obeys_eq_spec() -> bool {
        true
    }

    open spec fn eq_spec(&self, other: &WindowState) -> bool {
        same(self.x, other.x) && same(self.y, other.y) && same(self.width, other.width)
    }
}

impl Default for WindowState {
    fn default() -> (w: WindowState)
        ensures
            w == default_window(),
    {
        WindowState {
            x: Coord::from_points(0),
            y: Coord::from_points(200),
            width: Coord::from_points(320),
        }
    }
}

/// The window before anything was ever kept: 200 points down, 320 wide when open.
pub open spec fn default_window() -> WindowState {
    WindowState { x: whole(0), y: whole(200), width: whole(320) }
}

/// Everything that is kept of the application.
#[derive(Clone, Debug)]
pub struct AppState {
    pub tasks: Vec<StoredTask>,
    pub window: Option<WindowState>,
}

impl Default for AppState {
    fn default() -> (s: AppState)
        ensures
            s.tasks@.len() == 0,
            s.window is None,
    {
        AppState { tasks: Vec::new(), window: None }
    }
}

/// The files in the data directory.
#[derive(Clone, Copy, Debug, PartialEq, Eq, Structural)]
pub enum StoreFile {
    /// The state.
    State,
    /// The next state, until it is whole.
    Draft,
    /// A state that could not be read, set aside.
    Broken,
    /// The record of finished tasks.
    Done,
}

/// The name of a file in the data directory.
pub open spec fn name_of(file: StoreFile) -> Seq<char> {
    match file {
        StoreFile::State => "state.json"@,
        StoreFile::Draft => "state.json.tmp"@,
        StoreFile::Broken => "state.json.broken"@,
        StoreFile::Done => "done.jsonl"@,
    }
}

/// The name of a file in the data directory.
pub fn file_name(file: StoreFile) -> (r: &'static str)
    ensures
        r@ == name_of(file),
{
    match file {
        StoreFile::State => "state.json",
        StoreFile::Draft => "state.json.tmp",
        StoreFile::Broken => "state.json.broken",
        StoreFile::Done => "done.jsonl",
    }
}

/// The steps from the working directory to a data file: the directory for application
/// data (the working directory itself where there is none), this program's directory in
/// it, and the file.
pub fn state_file(app_data: Option<String>, file: StoreFile) -> (path: Vec<String>)
    ensures
        path@.len() == 3,
        path@[0]@ == (match app_data {
            Some(dir) => dir@,
            None => "."@,
        }),
        path@[1]@ == "desktop-task-queue"@,
        path@[2]@ == name_of(file),
{
    let base = match app_data {
        Some(dir) => dir,
        None => ".".to_owned(),
    };
    let mut path: Vec<String> = Vec::new();
    path.push(base);
    path.push("desktop-task-queue".to_owned());
    path.push(file_name(file).to_owned());
    path
}

/// What came of reading the state file.
pub enum ReadOutcome {
    /// There is no file, or it cannot be read.
    Unreadable,
    /// The file does not hold a state.
    Broken,
    /// The state that the file holds.
    Parsed(AppState),
}

/// The state to start from, and whether the file is to be set aside as broken.
pub fn load(outcome: ReadOutcome) -> (r: (AppState, bool))
    ensures
        r.1 <==> outcome is Broken,
        match outcome {
            ReadOutcome::Parsed(state) => r.0 == state,
            _ => r.0.tasks@.len() == 0 && r.0.window is None,
        },
{
    match outcome {
        ReadOutcome::Unreadable => (AppState::default(), false),
        ReadOutcome::Broken => (AppState::default(), true),
        ReadOutcome::Parsed(state) => (state, false),
    }
}

/// Where a save stands.
#[derive(Clone, Copy, Debug, PartialEq, Eq, Structural)]
pub enum SaveStep {
    /// Make sure that the directory is there.
    MakeDirectory,
    /// Write the whole state to the draft.
    WriteDraft,
    /// Rename the draft over the state file.
    Replace,
    /// The state file holds the new state.
    Saved,
    /// A step failed.
    Failed,
}

/// The step that follows.
pub open spec fn following(step: SaveStep, ok: bool) -> SaveStep {
    match step {
        SaveStep::Saved => SaveStep::Saved,
        SaveStep::Failed => SaveStep::Failed,
        _ => if !ok {
            SaveStep::Failed
        } else {
            match step {
                SaveStep::MakeDirectory => SaveStep::WriteDraft,
                SaveStep::WriteDraft => SaveStep::Replace,
                _ => SaveStep::Saved,
            }
        },
    }
}

/// The next step of a save, from the step that was carried out and whether it went
/// well.
pub fn save(step: SaveStep, ok: bool) -> (next: SaveStep)
    ensures
        next == following(step, ok),
{
    match step {
        SaveStep::MakeDirectory => if ok {
            SaveStep::WriteDraft
        } else {
            SaveStep::Failed
        },
        SaveStep::WriteDraft => if ok {
            SaveStep::Replace
        } else {
            SaveStep::Failed
        },
        SaveStep::Replace => if ok {
            SaveStep::Saved
        } else {
            SaveStep::Failed
        },
        SaveStep::Saved => SaveStep::Saved,
        SaveStep::Failed => SaveStep::Failed,
    }
}

/// The record of a task finished at `done_at`.
pub open spec fn done_record(done_at: Seq<char>, text: Seq<char>) -> Seq<char> {
    pair_object("done_at"@, done_at, "text"@, text).push('\n')
}

/// The line to append to the record of finished tasks.
pub fn log_done(done_at: &str, text: &str) -> (line: String)
    ensures
        line@ == done_record(done_at@, text@),
{
    proof {
        reveal_strlit("done_at");
        reveal_strlit("text");
    }
    let mut line = object_text("done_at", done_at, "text", text);
    line.push('\n');
    line
}

} // verus!
