//! Progress of a long-running background task, and the task slots that
//! allow at most one run of each named task.

use crate::error::Error;
use crate::model::ObjectError;
use vstd::prelude::*;

verus! {

/// How many error records the buffer may hold before a flush is owed.
pub const MAX_ERRORS: usize = 100;

/// The identifier and message text of each record, in order.
pub open spec fn records_view(s: Seq<ObjectError>) -> Seq<(u128, Seq<char>)> {
    s.map_values(|e: ObjectError| (e.object_id, e.message@))
}

/// Two runs that agree on everything observable.
pub open spec fn progress_eq(a: Progress, b: Progress) -> bool {
    &&& a.spec_started() == b.spec_started()
    &&& a.spec_ended() == b.spec_ended()
    &&& a.spec_total() == b.spec_total()
    &&& a.spec_completed() == b.spec_completed()
    &&& a.spec_errors() == b.spec_errors()
    &&& a.spec_messages() == b.spec_messages()
}

/// The observable state of one background run: counters, the error
/// record buffer, and the start and end instants.
#[derive(Debug)]
pub struct Progress {
    started: u64,
    ended: Option<u64>,
    total: u64,
    completed: u64,
    errors: u64,
    messages: Vec<ObjectError>,
}

impl Clone for Progress {
    fn clone(&self) -> (r: Self)
        ensures
            progress_eq(r, *self),
    {
        let mut messages: Vec<ObjectError> = Vec::new();
        let mut i: usize = 0;
        while i < self.messages.len()
            invariant
                i <= self.messages@.len(),
                messages@ =~= self.messages@.subrange(0, i as int),
            decreases self.messages@.len() - i,
        {
            messages.push(self.messages[i].clone());
            i = i + 1;
        }
        proof {
            assert(messages@ =~= self.messages@);
        }
        Progress {
            started: self.started,
            ended: self.ended,
            total: self.total,
            completed: self.completed,
            errors: self.errors,
            messages,
        }
    }
}

impl Progress {
    /// A run never ends before it starts, never completes more work than
    /// it was given, and never counts more failures than completions.
    pub open spec fn wf(&self) -> bool {
        &&& (self.spec_ended() matches Some(e) ==> e >= self.spec_started())
        &&& self.spec_completed() <= self.spec_total()
        &&& self.spec_errors() <= self.spec_completed()
    }

    pub closed spec fn spec_started(&self) -> u64 {
        self.started
    }

    pub closed spec fn spec_ended(&self) -> Option<u64> {
        self.ended
    }

    pub closed spec fn spec_total(&self) -> u64 {
        self.total
    }

    pub closed spec fn spec_completed(&self) -> u64 {
        self.completed
    }

    pub closed spec fn spec_errors(&self) -> u64 {
        self.errors
    }

    /// The buffered error records, oldest first.
    pub closed spec fn spec_messages(&self) -> Seq<ObjectError> {
        self.messages@
    }

    /// A fresh run over `total` pieces of work, started at `started`.
    pub fn new(started: u64, total: u64) -> (r: Self)
        ensures
            r.wf(),
            r.spec_started() == started,
            r.spec_ended() is None,
            r.spec_total() == total,
            r.spec_completed() == 0,
            r.spec_errors() == 0,
            r.spec_messages() == Seq::<ObjectError>::empty(),
    {
        Progress {
            started,
            ended: None,
            total,
            completed: 0,
            errors: 0,
            messages: Vec::new(),
        }
    }

    pub fn started(&self) -> (r: u64)
        ensures
            r == self.spec_started(),
    {
        self.started
    }

    pub fn ended(&self) -> (r: Option<u64>)
        ensures
            r == self.spec_ended(),
    {
        self.ended
    }

    pub fn total(&self) -> (r: u64)
        ensures
            r == self.spec_total(),
    {
        self.total
    }

    pub fn completed(&self) -> (r: u64)
        ensures
            r == self.spec_completed(),
    {
        self.completed
    }

    pub fn errors(&self) -> (r: u64)
        ensures
            r == self.spec_errors(),
    {
        self.errors
    }

    /// How long the run has been going: up to its end if it has one, else
    /// up to `now`.
    pub fn elapsed(&self, now: u64) -> (r: u64)
        requires
            self.wf(),
            self.spec_ended() is None ==> now >= self.spec_started(),
        ensures
            r == match self.spec_ended() {
                Some(e) => e - self.spec_started(),
                None => now - self.spec_started(),
            },
    {
        match self.ended {
            Some(e) => e - self.started,
            None => now - self.started,
        }
    }

    /// Whether every piece of work has been completed.
    pub fn finished(&self) -> (r: bool)
        ensures
            r == (self.spec_completed() == self.spec_total()),
    {
        self.completed == self.total
    }

    /// Marks the run as ended at `now`.
    pub fn finish(&mut self, now: u64)
        requires
            old(self).wf(),
            now >= old(self).spec_started(),
        ensures
            final(self).wf(),
            final(self).spec_ended() == Some(now),
            final(self).spec_started() == old(self).spec_started(),
            final(self).spec_total() == old(self).spec_total(),
            final(self).spec_completed() == old(self).spec_completed(),
            final(self).spec_errors() == old(self).spec_errors(),
            final(self).spec_messages() == old(self).spec_messages(),
    {
        self.ended = Some(now);
    }

    /// Counts one more completed piece of work.
    pub fn increment(&mut self)
        requires
            old(self).spec_completed() < old(self).spec_total(),
        ensures
            final(self).spec_completed() == old(self).spec_completed() + 1,
            final(self).spec_started() == old(self).spec_started(),
            final(self).spec_ended() == old(self).spec_ended(),
            final(self).spec_total() == old(self).spec_total(),
            final(self).spec_errors() == old(self).spec_errors(),
            final(self).spec_messages() == old(self).spec_messages(),
    {
        self.completed = self.completed + 1;
    }

    /// Buffers one error record; past `MAX_ERRORS` buffered records the
    /// whole buffer is handed back for an immediate flush, otherwise the
    /// result is empty.
    fn push_record(&mut self, id: u128, message: String) -> (r: Vec<ObjectError>)
        ensures
            ({
                let appended = records_view(old(self).spec_messages()).push((id, message@));
                if appended.len() > MAX_ERRORS {
                    final(self).spec_messages() == Seq::<ObjectError>::empty() && records_view(
                        r@,
                    ) == appended
                } else {
                    records_view(final(self).spec_messages()) == appended && r@ == Seq::<
                        ObjectError,
                    >::empty()
                }
            }),
            final(self).spec_started() == old(self).spec_started(),
            final(self).spec_ended() == old(self).spec_ended(),
            final(self).spec_total() == old(self).spec_total(),
            final(self).spec_completed() == old(self).spec_completed(),
            final(self).spec_errors() == old(self).spec_errors(),
    {
        self.messages.push(ObjectError { object_id: id, message });
        proof {
            assert(records_view(self.messages@) =~= records_view(
                old(self).spec_messages(),
            ).push((id, self.messages@.last().message@)));
        }
        if self.messages.len() > MAX_ERRORS {
            let mut drained: Vec<ObjectError> = Vec::new();
            core::mem::swap(&mut drained, &mut self.messages);
            drained
        } else {
            Vec::new()
        }
    }

    /// Records a failure for `id`: one more error, and a buffered record
    /// carrying the message.
    pub fn error(&mut self, id: u128, message: String) -> (r: Vec<ObjectError>)
        requires
            old(self).spec_errors() < u64::MAX,
        ensures
            final(self).spec_errors() == old(self).spec_errors() + 1,
            ({
                let appended = records_view(old(self).spec_messages()).push((id, message@));
                if appended.len() > MAX_ERRORS {
                    final(self).spec_messages() == Seq::<ObjectError>::empty() && records_view(
                        r@,
                    ) == appended
                } else {
                    records_view(final(self).spec_messages()) == appended && r@ == Seq::<
                        ObjectError,
                    >::empty()
                }
            }),
            final(self).spec_started() == old(self).spec_started(),
            final(self).spec_ended() == old(self).spec_ended(),
            final(self).spec_total() == old(self).spec_total(),
            final(self).spec_completed() == old(self).spec_completed(),
    {
        self.errors = self.errors + 1;
        self.push_record(id, message)
    }

    /// Records a sound object: a buffered record with an empty message,
    /// which clears any stored error for `id` once flushed.
    pub fn clear_error(&mut self, id: u128) -> (r: Vec<ObjectError>)
        ensures
            ({
                let appended = records_view(old(self).spec_messages()).push(
                    (id, Seq::<char>::empty()),
                );
                if appended.len() > MAX_ERRORS {
                    final(self).spec_messages() == Seq::<ObjectError>::empty() && records_view(
                        r@,
                    ) == appended
                } else {
                    records_view(final(self).spec_messages()) == appended && r@ == Seq::<
                        ObjectError,
                    >::empty()
                }
            }),
            final(self).spec_started() == old(self).spec_started(),
            final(self).spec_ended() == old(self).spec_ended(),
            final(self).spec_total() == old(self).spec_total(),
            final(self).spec_completed() == old(self).spec_completed(),
            final(self).spec_errors() == old(self).spec_errors(),
    {
        let message = String::new();
        self.push_record(id, message)
    }

    /// Drains whatever records are still buffered.
    pub fn messages(&mut self) -> (r: Vec<ObjectError>)
        ensures
            r@ == old(self).spec_messages(),
            final(self).spec_messages() == Seq::<ObjectError>::empty(),
            final(self).spec_started() == old(self).spec_started(),
            final(self).spec_ended() == old(self).spec_ended(),
            final(self).spec_total() == old(self).spec_total(),
            final(self).spec_completed() == old(self).spec_completed(),
            final(self).spec_errors() == old(self).spec_errors(),
    {
        let mut drained: Vec<ObjectError> = Vec::new();
        core::mem::swap(&mut drained, &mut self.messages);
        drained
    }
}

/// A slot for one named background task; at most one run may be installed
/// at a time.
#[derive(Debug)]
pub struct Task {
    progress: Option<Progress>,
}

impl Task {
    pub closed spec fn spec_progress(&self) -> Option<Progress> {
        self.progress
    }

    /// An idle task slot.
    pub fn new() -> (r: Self)
        ensures
            r.spec_progress() is None,
    {
        Task { progress: None }
    }

    /// Installs a run. Fails with `InProgress`, changing nothing, exactly
    /// when a run is already installed.
    pub fn start(&mut self, progress: Progress) -> (r: Result<(), Error>)
        ensures
            r is Ok <==> old(self).spec_progress() is None,
            r is Ok ==> final(self).spec_progress() == Some(progress),
            r is Err ==> *final(self) == *old(self) && r->Err_0 is InProgress,
    {
        if self.progress.is_some() {
            return Err(Error::InProgress);
        }
        self.progress = Some(progress);
        Ok(())
    }

    /// Takes the installed run out, leaving the slot idle.
    pub fn take(&mut self) -> (r: Option<Progress>)
        ensures
            r == old(self).spec_progress(),
            final(self).spec_progress() is None,
    {
        let mut taken: Option<Progress> = None;
        core::mem::swap(&mut taken, &mut self.progress);
        taken
    }

    /// Empties the slot.
    pub fn clear(&mut self)
        ensures
            final(self).spec_progress() is None,
    {
        self.progress = None;
    }

    /// A snapshot of the installed run, if any.
    pub fn progress(&self) -> (r: Option<Progress>)
        ensures
            r is Some <==> self.spec_progress() is Some,
            r matches Some(p) ==> progress_eq(p, self.spec_progress()->Some_0),
    {
        match &self.progress {
            Some(p) => Some(p.clone()),
            None => None,
        }
    }
}

} // verus!
