//! The records that the tracker keeps and exchanges.

use vstd::prelude::*;
use crate::time::{Timestamp, nanos_between, whole_seconds, seconds_between};

verus! {

/// A reusable task: a name, an optional project and default tags.
#[derive(Clone, Debug)]
pub struct Task {
    pub id: String,
    pub name: String,
    pub project: Option<String>,
    pub tags: Vec<String>,
    pub created_at: Timestamp,
    pub updated_at: Timestamp,
    pub source_device: String,
    pub deleted: bool,
}

/// One tracked interval, with the task's name, project and tags as they were
/// when the timer started.
#[derive(Clone, Debug)]
pub struct TimeEntry {
    pub id: String,
    pub task_id: String,
    pub task_name: String,
    pub project: Option<String>,
    pub tags: Vec<String>,
    pub started_at: Timestamp,
    pub stopped_at: Option<Timestamp>,
    pub updated_at: Timestamp,
    pub source_device: String,
    pub deleted: bool,
}

/// A manually configured sync peer.
#[derive(Clone, Debug)]
pub struct Peer {
    pub name: String,
    pub url: String,
}

/// What one side of a sync sends: its device and its complete record set.
#[derive(Clone, Debug)]
pub struct SyncRequest {
    pub device_id: String,
    pub tasks: Vec<Task>,
    pub entries: Vec<TimeEntry>,
}

/// What the other side answers: its device and its resulting record set.
#[derive(Clone, Debug)]
pub struct SyncResponse {
    pub device_id: String,
    pub tasks: Vec<Task>,
    pub entries: Vec<TimeEntry>,
}

/// How many incoming records a merge wrote.
#[derive(Clone, Copy, Debug, PartialEq, Eq, Structural)]
pub struct MergeSummary {
    pub tasks_applied: usize,
    pub entries_applied: usize,
}

impl Default for MergeSummary {
    fn default() -> (res: MergeSummary)
        ensures
            res.tasks_applied == 0,
            res.entries_applied == 0,
    {
        MergeSummary { tasks_applied: 0, entries_applied: 0 }
    }
}

/// The instant at which an entry's interval ends when measured at `now`: its
/// stop, or `now` while it is running.
pub open spec fn interval_end(entry: TimeEntry, now: Timestamp) -> Timestamp {
    match entry.stopped_at {
        Some(stop) => stop,
        None => now,
    }
}

/// Whole seconds that an entry has lasted at `now`, never negative.
pub open spec fn elapsed_spec(entry: TimeEntry, now: Timestamp) -> int {
    let end = interval_end(entry, now);
    let secs = whole_seconds(
        nanos_between(
            end.unix_secs(),
            end.subsec_nanos(),
            entry.started_at.unix_secs(),
            entry.started_at.subsec_nanos(),
        ),
    );
    if secs > 0 {
        secs
    } else {
        0
    }
}

/// The elapsed time of an entry is the span from its start to its stop (or
/// to `now` while it runs) in whole seconds, rounded toward zero, whenever
/// that span is positive, however long; otherwise it is zero.
pub proof fn lemma_elapsed_is_the_span(entry: TimeEntry, now: Timestamp)
    ensures
        ({
            let end = match entry.stopped_at {
                Some(stop) => stop,
                None => now,
            };
            let span = whole_seconds(nanos_between(
                end.unix_secs(),
                end.subsec_nanos(),
                entry.started_at.unix_secs(),
                entry.started_at.subsec_nanos(),
            ));
            &&& span > 0 ==> elapsed_spec(entry, now) == span
            &&& span <= 0 ==> elapsed_spec(entry, now) == 0
        }),
{
}

impl TimeEntry {
    /// Whole seconds from the start to the stop (or to `now` while running),
    /// and zero when that span is negative.
    pub fn elapsed_seconds_at(&self, now: Timestamp) -> (res: i64)
        ensures
            res == elapsed_spec(*self, now),
    {
        let end = match self.stopped_at {
            Some(stop) => stop,
            None => now,
        };
        let secs = seconds_between(end, self.started_at);
        if secs > 0 {
            secs
        } else {
            0
        }
    }
}

} // verus!
