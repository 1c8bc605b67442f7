//! One tracked unit of work: a named activity with optional tags, a start
//! timestamp, and an optional end timestamp. A task with no end timestamp is
//! running; setting the end timestamp completes it. No ordering between the
//! two timestamps is enforced: a task may be completed at an instant before
//! it started, and the resulting negative span is accepted.

use vstd::prelude::*;

use crate::time::{epoch_nanos, now_local, Duration, Timestamp};

verus! {

/// The mathematical content of a [`Task`].
pub ghost struct TaskView {
    pub name: Seq<char>,
    pub tags: Seq<Seq<char>>,
    pub start_time: Timestamp,
    pub end_time: Option<Timestamp>,
}

/// One tracked activity.
#[derive(Debug)]
pub struct Task {
    /// Display name, set at creation.
    pub name: String,
    /// Tags in insertion order, set at creation.
    pub tags: Vec<String>,
    /// When the activity began; set at creation, possibly backdated.
    pub start_time: Timestamp,
    /// When the activity ended; `None` while it is still running.
    pub end_time: Option<Timestamp>,
}

impl View for Task {
    type V = TaskView;

    open spec fn view(&self) -> TaskView {
        TaskView {
            name: self.name@,
            tags: self.tags.deep_view(),
            start_time: self.start_time,
            end_time: self.end_time,
        }
    }
}

impl TaskView {
    /// The timestamps denote real calendar dates and times.
    pub open spec fn wf(self) -> bool {
        &&& self.start_time.valid()
        &&& match self.end_time {
            Some(e) => e.valid(),
            None => true,
        }
    }

    /// A task is completed exactly when its end timestamp is set.
    pub open spec fn is_completed(self) -> bool {
        self.end_time is Some
    }

    /// The span the task has covered as of the instant `at`: up to its end
    /// timestamp once completed, else up to `at`.
    pub open spec fn elapsed_nanos(self, at: Timestamp) -> int {
        match self.end_time {
            Some(e) => epoch_nanos(e) - epoch_nanos(self.start_time),
            None => epoch_nanos(at) - epoch_nanos(self.start_time),
        }
    }
}

impl Task {
    /// The timestamps denote real calendar dates and times.
    pub open spec fn wf(&self) -> bool {
        self@.wf()
    }

    /// Builds a task from explicit fields. No ordering of the two
    /// timestamps is checked: any combination is accepted.
    pub fn new(name: String, tags: Vec<String>, start_time: Timestamp, end_time: Option<
        Timestamp,
    >) -> (r: Task)
        requires
            start_time.valid(),
            match end_time {
                Some(e) => e.valid(),
                None => true,
            },
        ensures
            r@.name == name@,
            r@.tags == tags.deep_view(),
            r@.start_time == start_time,
            r@.end_time == end_time,
            r.wf(),
    {
        Task { name, tags, start_time, end_time }
    }

    /// Builds a running task that starts at the current local time.
    pub fn create_now(name: String, tags: Vec<String>) -> (r: Task)
        ensures
            r@.name == name@,
            r@.tags == tags.deep_view(),
            r@.end_time is None,
            r.wf(),
    {
        let start = now_local();
        Task::new(name, tags, start, None)
    }

    /// A task is completed exactly when its end timestamp is set.
    pub fn is_completed(&self) -> (r: bool)
        ensures
            r == self@.is_completed(),
    {
        match self.end_time {
            Some(_) => true,
            None => false,
        }
    }

    /// The span from the task's start to the given instant `at` if it is
    /// running, or to its end timestamp if it is completed; in the latter
    /// case `at` plays no part in the result.
    pub fn elapsed_at(&self, at: &Timestamp) -> (d: Duration)
        requires
            self.wf(),
            at.valid(),
        ensures
            d.nanos == self@.elapsed_nanos(*at),
    {
        match self.end_time {
            Some(end) => end.since(&self.start_time),
            None => at.since(&self.start_time),
        }
    }

    /// The span from the task's start until its end if completed, or until
    /// now if it is still running. For a completed task the result is fixed
    /// by the two timestamps alone; for a running one it depends on the
    /// clock reading taken during the call.
    pub fn elapsed(&self) -> (d: Duration)
        requires
            self.wf(),
        ensures
            self@.is_completed() ==> d.nanos == epoch_nanos(self@.end_time->0) - epoch_nanos(
                self@.start_time,
            ),
            exists|at: Timestamp| at.valid() && d.nanos == self@.elapsed_nanos(at),
    {
        let at = now_local();
        self.elapsed_at(&at)
    }

    /// Sets the end timestamp to `date`, completing the task; an already
    /// completed task is silently given the new end timestamp.
    pub fn complete_at(&mut self, date: Timestamp)
        requires
            old(self).wf(),
            date.valid(),
        ensures
            final(self)@.end_time == Some(date),
            final(self)@.name == old(self)@.name,
            final(self)@.tags == old(self)@.tags,
            final(self)@.start_time == old(self)@.start_time,
            final(self).wf(),
    {
        self.end_time = Some(date);
    }

    /// Completes the task at the current local time.
    pub fn complete_now(&mut self)
        requires
            old(self).wf(),
        ensures
            final(self)@.end_time is Some,
            final(self)@.name == old(self)@.name,
            final(self)@.tags == old(self)@.tags,
            final(self)@.start_time == old(self)@.start_time,
            final(self).wf(),
    {
        let date = now_local();
        self.complete_at(date);
    }
}

impl Clone for Task {
    /// Clones the task; the copy has the same mathematical content.
    fn clone(&self) -> (r: Self)
        ensures
            r@ == self@,
    {
        let tags = self.tags.clone();
        proof {
            assert forall|i: int| 0 <= i < self.tags@.len() implies tags@[i] == self.tags@[i] by {
                assert(cloned::<String>(self.tags@[i], tags@[i]));
            }
            assert(tags@ =~= self.tags@);
            assert(tags.deep_view() =~= self.tags.deep_view());
        }
        Task {
            name: self.name.clone(),
            tags,
            start_time: self.start_time,
            end_time: self.end_time,
        }
    }
}

/// The identifier-and-view pairs of a sequence of stored entries.
pub open spec fn entry_views(s: Seq<(u32, Task)>) -> Seq<(u32, TaskView)> {
    Seq::new(s.len(), |i: int| (s[i].0, s[i].1@))
}

/// Once a task is completed, its elapsed span is a constant of the task:
/// it equals the span from its start timestamp to its end timestamp —
/// negative when the end lies before the start — whatever instant it is
/// asked at.
pub proof fn lemma_elapsed_completed_constant(t: TaskView, at1: Timestamp, at2: Timestamp)
    requires
        t.is_completed(),
    ensures
        t.elapsed_nanos(at1) == t.elapsed_nanos(at2),
        t.elapsed_nanos(at1) == epoch_nanos(t.end_time->0) - epoch_nanos(t.start_time),
{
}

/// While a task is running, its elapsed span grows strictly with the
/// instant it is asked at.
pub proof fn lemma_elapsed_running_increases(t: TaskView, at1: Timestamp, at2: Timestamp)
    requires
        !t.is_completed(),
        epoch_nanos(at1) < epoch_nanos(at2),
    ensures
        t.elapsed_nanos(at1) < t.elapsed_nanos(at2),
{
}

} // verus!
