//! What is asked of Windows, and what its answers mean.
//!
//! The calls themselves are made by the application.  It hands over the raw answers
//! (handles, status codes, clock fields) and gets back names, flags and decisions.  On
//! a platform without the facility there is no answer, which is an input here too.

use crate::text::{encode_utf16, push_padded};
use vstd::prelude::*;

verus! {

/// The status of a call that went through.
pub const ERROR_SUCCESS: i32 = 0;

/// The registry value to delete was not there.
pub const ERROR_FILE_NOT_FOUND: i32 = 2;

/// The named object existed before it was asked for.
pub const ERROR_ALREADY_EXISTS: u32 = 183;

/// Seconds between two claims to the top of the topmost windows.
pub const RAISE_INTERVAL_SECS: u64 = 2;

/// Keep the window's size when placing it.
pub const SWP_NOSIZE: u32 = 0x0001;

/// Keep the window's position when placing it.
pub const SWP_NOMOVE: u32 = 0x0002;

/// Leave the focus where it is when placing the window.
pub const SWP_NOACTIVATE: u32 = 0x0010;

/// Do not wait for the thread that owns the window.
pub const SWP_ASYNCWINDOWPOS: u32 = 0x4000;

/// A program asked not to be disturbed.
pub const QUNS_BUSY: i32 = 2;

/// A full-screen Direct3D program runs.
pub const QUNS_RUNNING_D3D_FULL_SCREEN: i32 = 3;

/// Presentation mode is on.
pub const QUNS_PRESENTATION_MODE: i32 = 4;

/// A text as Windows takes it: UTF-16, with a NUL at the end.
pub open spec fn utf16_nul(s: Seq<char>) -> Seq<u16> {
    crate::text::utf16(s).push(0)
}

/// The text in the form in which Windows takes it.
pub fn wide(s: &str) -> (r: Vec<u16>)
    ensures
        r@ == utf16_nul(s@),
{
    let mut r = encode_utf16(s);
    r.push(0);
    r
}

/// The name of the object that marks the one running instance of a login session.
pub fn instance_name() -> (r: Vec<u16>)
    ensures
        r@ == utf16_nul("Local\\desktop-task-queue-single-instance"@),
{
    wide("Local\\desktop-task-queue-single-instance")
}

/// The registry key, below the current user's, that lists what starts at login.
pub fn run_subkey() -> (r: Vec<u16>)
    ensures
        r@ == utf16_nul("Software\\Microsoft\\Windows\\CurrentVersion\\Run"@),
{
    wide("Software\\Microsoft\\Windows\\CurrentVersion\\Run")
}

/// The name of this program's value under that key.
pub fn run_value() -> (r: Vec<u16>)
    ensures
        r@ == utf16_nul("desktop-task-queue"@),
{
    wide("desktop-task-queue")
}

/// The answer to creating the instance object.
pub struct InstanceReply {
    /// The object's handle, 0 when it could not be created.
    pub handle: isize,
    /// The last error right after the call.
    pub error: u32,
}

/// Whether this is the only instance.
///
/// Where the object cannot be created, or the platform has none, the user is let
/// through.
pub fn claim_single_instance(reply: Option<InstanceReply>) -> (only: bool)
    ensures
        only <==> (reply matches Some(r) ==> r.handle == 0 || r.error != ERROR_ALREADY_EXISTS),
{
    match reply {
        None => true,
        Some(r) => r.handle == 0 || r.error != ERROR_ALREADY_EXISTS,
    }
}

/// The opened registry key, if opening it went through.
pub fn open_run_key(status: i32, key: isize) -> (r: Option<isize>)
    ensures
        r == if status == ERROR_SUCCESS {
            Some(key)
        } else {
            None
        },
{
    if status == ERROR_SUCCESS {
        Some(key)
    } else {
        None
    }
}

/// Whether the program is registered to start at login, from the status of looking
/// its value up; `None` where the key could not be opened or there is no registry.
pub fn autostart_enabled(status: Option<i32>) -> (on: bool)
    ensures
        on <==> status == Some(ERROR_SUCCESS),
{
    match status {
        Some(status) => status == ERROR_SUCCESS,
        None => false,
    }
}

/// What to do to the registry value.
pub enum AutostartWrite {
    /// Nothing: the program does not know its own path.
    Skip,
    /// Set it to this text, `size` bytes long.
    Store { data: Vec<u16>, size: u32 },
    /// Delete it.
    Delete,
}

/// The change to the registry that turns starting at login on or off, for a program at
/// `exe`.  The path is put in quotes, as it may hold spaces.
pub fn autostart_write(on: bool, exe: Option<&str>) -> (r: AutostartWrite)
    ensures
        match r {
            AutostartWrite::Skip => on && exe is None,
            AutostartWrite::Store { data, size } => {
                &&& on
                &&& exe is Some
                &&& data@ == utf16_nul(seq!['"'] + exe.unwrap()@ + seq!['"'])
                &&& size == (2 * data@.len()) % 0x1_0000_0000
            },
            AutostartWrite::Delete => !on,
        },
{
    if !on {
        return AutostartWrite::Delete;
    }
    match exe {
        None => AutostartWrite::Skip,
        Some(path) => {
            let mut command = String::new();
            command.push('"');
            command.append(path);
            command.push('"');
            assert(command@ == seq!['"'] + path@ + seq!['"']);
            let data = wide(command.as_str());
            let bytes: u128 = 2 * data.len() as u128;
            let size: u32 = (bytes % 0x1_0000_0000) as u32;
            AutostartWrite::Store { data, size }
        },
    }
}

/// Whether starting at login is now as asked, from the status of the change; `None`
/// where no change was carried out.  A value that was not there to delete is as good
/// as deleted.
pub fn set_autostart(on: bool, status: Option<i32>) -> (done: bool)
    ensures
        done <==> (status matches Some(s) && (s == ERROR_SUCCESS || (!on && s
            == ERROR_FILE_NOT_FOUND))),
{
    match status {
        Some(s) => s == ERROR_SUCCESS || (!on && s == ERROR_FILE_NOT_FOUND),
        None => false,
    }
}

/// What starting at login is to be set to when the program starts: a registration that
/// is found is made anew, so that it names the program's present path.
pub open spec fn renewal(enabled: bool) -> Option<bool> {
    if enabled {
        Some(true)
    } else {
        None
    }
}

/// What to set starting at login to when the program starts, given whether it was found
/// on; `None` where nothing is to be set.
pub fn renew_autostart(enabled: bool) -> (set: Option<bool>)
    ensures
        set == renewal(enabled),
{
    if enabled {
        Some(true)
    } else {
        None
    }
}

/// What the watchdog does at a heartbeat.
#[derive(Clone, Copy, Debug, PartialEq, Eq, Structural)]
pub enum WatchStep {
    /// The window is gone: end, lest another window that gets its handle is raised.
    Stop,
    /// Give way to what fills the screen.
    Rest,
    /// Put the window back on top.
    Raise,
}

/// The watchdog's decision at a heartbeat; `None` where windows cannot be raised, and the
/// watchdog ends before it has begun.
pub fn watch_topmost(alive: Option<bool>, busy: bool) -> (step: WatchStep)
    ensures
        step == WatchStep::Stop <==> alive != Some(true),
        step == WatchStep::Rest <==> alive == Some(true) && busy,
        step == WatchStep::Raise <==> alive == Some(true) && !busy,
{
    match alive {
        Some(true) => if busy {
            WatchStep::Rest
        } else {
            WatchStep::Raise
        },
        _ => WatchStep::Stop,
    }
}

/// Whether the system asks not to be disturbed.  Where it cannot tell, it does not.
pub fn system_busy(status: i32, state: i32) -> (busy: bool)
    ensures
        busy <==> status == 0 && (state == QUNS_BUSY || state == QUNS_RUNNING_D3D_FULL_SCREEN
            || state == QUNS_PRESENTATION_MODE),
{
    status == 0 && (state == QUNS_BUSY || state == QUNS_RUNNING_D3D_FULL_SCREEN || state
        == QUNS_PRESENTATION_MODE)
}

/// Whether the handle still names a window.
pub fn is_window(answer: i32) -> (alive: bool)
    ensures
        alive <==> answer != 0,
{
    answer != 0
}

/// The flags with which the window is raised: it keeps its place, its size and the
/// focus where it is.
pub fn keep_on_top() -> (flags: u32)
    ensures
        flags == 0x4013,
        flags & SWP_NOSIZE == SWP_NOSIZE,
        flags & SWP_NOMOVE == SWP_NOMOVE,
        flags & SWP_NOACTIVATE == SWP_NOACTIVATE,
        flags & SWP_ASYNCWINDOWPOS == SWP_ASYNCWINDOWPOS,
{
    let flags: u32 = SWP_NOMOVE | SWP_NOSIZE | SWP_NOACTIVATE | SWP_ASYNCWINDOWPOS;
    assert(0x2u32 | 0x1u32 | 0x10u32 | 0x4000u32 == 0x4013u32) by (bit_vector);
    assert(0x4013u32 & 0x1u32 == 0x1u32 && 0x4013u32 & 0x2u32 == 0x2u32 && 0x4013u32 & 0x10u32
        == 0x10u32 && 0x4013u32 & 0x4000u32 == 0x4000u32) by (bit_vector);
    flags
}

/// A reading of the clock.
pub enum Clock {
    /// The fields of local time.
    Local { year: u16, month: u16, day: u16, hour: u16, minute: u16 },
    /// Seconds since the epoch, where local time is not to be had.
    Unix { seconds: u64 },
    /// The clock stands before the epoch.
    Unset,
}

/// The time stamp for a clock reading.
pub open spec fn stamp(clock: Clock) -> Seq<char> {
    match clock {
        Clock::Local { year, month, day, hour, minute } => crate::text::padded(year as nat, 4)
            + seq!['-'] + crate::text::padded(month as nat, 2) + seq!['-'] + crate::text::padded(
            day as nat,
            2,
        ) + seq![' '] + crate::text::padded(hour as nat, 2) + seq![':'] + crate::text::padded(
            minute as nat,
            2,
        ),
        Clock::Unix { seconds } => crate::text::decimal(seconds as nat),
        Clock::Unset => seq!['?'],
    }
}

/// The time stamp: `YYYY-MM-DD HH:MM` in local time, else seconds since the epoch.
pub fn local_now(clock: Clock) -> (r: String)
    ensures
        r@ == stamp(clock),
{
    let mut r = String::new();
    match clock {
        Clock::Local { year, month, day, hour, minute } => {
            push_padded(&mut r, year as u64, 4);
            r.push('-');
            push_padded(&mut r, month as u64, 2);
            r.push('-');
            push_padded(&mut r, day as u64, 2);
            r.push(' ');
            push_padded(&mut r, hour as u64, 2);
            r.push(':');
            push_padded(&mut r, minute as u64, 2);
        },
        Clock::Unix { seconds } => {
            push_padded(&mut r, seconds, 0);
        },
        Clock::Unset => {
            r.push('?');
        },
    }
    assert(r@ == stamp(clock));
    r
}

} // verus!
