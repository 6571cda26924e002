//! Decisions of the regeneration loop: which filesystem events rebuild the
//! catalog. The loop that receives events and runs the rebuild stands
//! outside the library; it runs one rebuild at a time.

use vstd::prelude::*;

verus! {

/// The kind of a filesystem event.
#[derive(Debug, Clone, Copy, PartialEq, Eq, Structural)]
pub enum EventKind {
    Create,
    Modify,
    Remove,
    Access,
    Other,
}

/// What the watcher received.
#[derive(Debug, Clone, Copy, PartialEq, Eq, Structural)]
pub enum WatchEvent {
    /// A filesystem event.
    Changed(EventKind),
    /// The notifier reported an error.
    Failed,
    /// The event channel was closed.
    Closed,
}

/// What the loop does next.
#[derive(Debug, Clone, Copy, PartialEq, Eq, Structural)]
pub enum WatchAction {
    /// Rebuild the catalog, then wait for the next event.
    Regenerate,
    /// Log the event, then wait for the next one.
    Report,
    /// Log the error, then wait for the next event.
    ReportError,
    /// Nothing to do; wait for the next event.
    Ignore,
    /// Stop watching.
    Stop,
}

/// Events that change the packages tree.
pub open spec fn changes_tree(k: EventKind) -> bool {
    k == EventKind::Create || k == EventKind::Modify || k == EventKind::Remove
}

/// The loop's next step for `event`. With `regenerate`, creations,
/// modifications and removals rebuild the catalog and other events are
/// ignored; without it, every event is reported.
pub open spec fn watch_action(event: WatchEvent, regenerate: bool) -> WatchAction {
    match event {
        WatchEvent::Closed => WatchAction::Stop,
        WatchEvent::Failed => WatchAction::ReportError,
        WatchEvent::Changed(k) => if !regenerate {
            WatchAction::Report
        } else if changes_tree(k) {
            WatchAction::Regenerate
        } else {
            WatchAction::Ignore
        },
    }
}

/// Decides the loop's next step for `event`.
pub fn next_action(event: WatchEvent, regenerate: bool) -> (r: WatchAction)
    ensures
        r == watch_action(event, regenerate),
{
    match event {
        WatchEvent::Closed => WatchAction::Stop,
        WatchEvent::Failed => WatchAction::ReportError,
        WatchEvent::Changed(k) => {
            if !regenerate {
                WatchAction::Report
            } else {
                match k {
                    EventKind::Create | EventKind::Modify | EventKind::Remove => {
                        WatchAction::Regenerate
                    },
                    _ => WatchAction::Ignore,
                }
            }
        },
    }
}

} // verus!
