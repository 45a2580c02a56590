//! The revision watcher's decisions: which directories to watch, and the
//! debounce of file-system events into re-resolutions of the range.
use vstd::prelude::*;
use crate::testspec::texts;

verus! {

/// The debounce timer: idle, or armed and due to fire.
#[derive(Debug, Clone, Copy, PartialEq, Eq, Structural)]
pub enum Debounce {
    Idle,
    Armed,
}

/// What the watcher's loop sees.
#[derive(Debug, Clone, Copy, PartialEq, Eq, Structural)]
pub enum WatchEvent {
    /// Something changed under a watched directory.
    FsEvent,
    /// The armed timer fired.
    TimerExpired,
}

/// What the watcher's loop does next.
#[derive(Debug, Clone, Copy, PartialEq, Eq, Structural)]
pub enum WatchAction {
    Nothing,
    /// Arm the one-second timer.
    ArmTimer,
    /// Resolve the range again and emit the result.
    Resolve,
}

/// One step of the debounce: the first event arms the timer, the events
/// that follow while it is armed are absorbed, and its expiry resolves the
/// range once.
pub fn debounce_step(state: Debounce, event: WatchEvent) -> (r: (Debounce, WatchAction))
    ensures
        state == Debounce::Idle && event == WatchEvent::FsEvent ==> r == (Debounce::Armed, WatchAction::ArmTimer),
        state == Debounce::Armed && event == WatchEvent::FsEvent ==> r == (Debounce::Armed, WatchAction::Nothing),
        state == Debounce::Armed && event == WatchEvent::TimerExpired ==> r == (Debounce::Idle, WatchAction::Resolve),
        state == Debounce::Idle && event == WatchEvent::TimerExpired ==> r == (Debounce::Idle, WatchAction::Nothing),
{
    match (state, event) {
        (Debounce::Idle, WatchEvent::FsEvent) => (Debounce::Armed, WatchAction::ArmTimer),
        (Debounce::Armed, WatchEvent::FsEvent) => (Debounce::Armed, WatchAction::Nothing),
        (Debounce::Armed, WatchEvent::TimerExpired) => (Debounce::Idle, WatchAction::Resolve),
        (Debounce::Idle, WatchEvent::TimerExpired) => (Debounce::Idle, WatchAction::Nothing),
    }
}

/// The directories to watch: the worktree's own git directory, and the
/// common one where it differs.
pub fn watch_dirs(git_dir: &String, common_dir: &String) -> (r: Vec<String>)
    ensures
        git_dir@ == common_dir@ ==> texts(r@) == seq![git_dir@],
        git_dir@ != common_dir@ ==> texts(r@) == seq![git_dir@, common_dir@],
{
    let mut r: Vec<String> = Vec::new();
    r.push(git_dir.clone());
    if !git_dir.eq(common_dir) {
        r.push(common_dir.clone());
    }
    assert(texts(r@) =~= if git_dir@ == common_dir@ { seq![git_dir@] } else { seq![git_dir@, common_dir@] });
    r
}

} // verus!
