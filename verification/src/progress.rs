//! Progress accounting for a running job: its total, how much is done, and
//! whether it finished. The program redraws a bar from it and a desktop
//! front end polls it; timing and drawing live with them.

use vstd::prelude::*;

use crate::text::copy_str;

verus! {

/// Progress of one job. Counters wrap on overflow, as atomic adds do.
#[derive(Debug)]
pub struct ProgressState {
    total: u64,
    label: String,
    done: u64,
    finished: bool,
}

impl View for ProgressState {
    /// `(total, label, done, finished)`.
    type V = (u64, Seq<char>, u64, bool);

    closed spec fn view(&self) -> Self::V {
        (self.total, self.label@, self.done, self.finished)
    }
}

impl ProgressState {
    /// A job of `total` units named `label`, nothing done yet.
    pub fn new(total: u64, label: &str) -> (r: Self)
        ensures
            r@ == (total, label@, 0u64, false),
    {
        ProgressState { total, label: copy_str(label), done: 0, finished: false }
    }

    /// The job's size.
    pub fn total(&self) -> (r: u64)
        ensures
            r == self@.0,
    {
        self.total
    }

    /// Sets the job's size once it is known; nothing else changes.
    pub fn set_total(&mut self, n: u64)
        ensures
            final(self)@ == (n, old(self)@.1, old(self)@.2, old(self)@.3),
    {
        self.total = n;
    }

    /// The job's name.
    pub fn label(&self) -> (r: &str)
        ensures
            r@ == self@.1,
    {
        self.label.as_str()
    }

    /// Units done so far.
    pub fn done_bytes(&self) -> (r: u64)
        ensures
            r == self@.2,
    {
        self.done
    }

    /// Counts `n` more units done (wrapping, as an atomic add does).
    pub fn add(&mut self, n: u64)
        ensures
            final(self)@ == (old(self)@.0, old(self)@.1, old(self)@.2.wrapping_add(n), old(self)@.3),
    {
        self.done = self.done.wrapping_add(n);
    }

    /// Marks the job finished; nothing else changes.
    pub fn finish(&mut self)
        ensures
            final(self)@ == (old(self)@.0, old(self)@.1, old(self)@.2, true),
    {
        self.finished = true;
    }

    /// Whether the job finished.
    pub fn is_finished(&self) -> (r: bool)
        ensures
            r == self@.3,
    {
        self.finished
    }
}

/// Whether a terminal progress bar stays silent: when asked to, when
/// standard error is not a terminal, or when there is nothing to measure.
pub fn is_quiet(quiet: bool, stderr_tty: bool, total: u64) -> (r: bool)
    ensures
        r == (quiet || !stderr_tty || total == 0),
{
    quiet || !stderr_tty || total == 0
}

} // verus!
