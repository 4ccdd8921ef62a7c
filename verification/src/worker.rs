//! Mailbox of a latest-request background worker: only the newest pending
//! request is worked on, and each result carries the generation it answers.
use vstd::prelude::*;

verus! {

/// Requests and results exchanged with one background worker.
pub struct Worker<I, O> {
    pending: Option<(u64, I)>,
    completed: Option<(u64, O)>,
    closed: bool,
    generation: u64,
}

impl<I, O> Worker<I, O> {
    pub closed spec fn pending(self) -> Option<(u64, I)> {
        self.pending
    }

    pub closed spec fn completed(self) -> Option<(u64, O)> {
        self.completed
    }

    pub closed spec fn is_closed(self) -> bool {
        self.closed
    }

    /// Generation of the latest request.
    pub closed spec fn generation(self) -> u64 {
        self.generation
    }

    /// An open mailbox with nothing requested.
    pub fn new() -> (r: Self)
        ensures
            r.pending() is None,
            r.completed() is None,
            !r.is_closed(),
            r.generation() == 0,
    {
        Worker { pending: None, completed: None, closed: false, generation: 0 }
    }

    /// Generation of the latest request (0 before the first).
    pub fn current_generation(&self) -> (r: u64)
        ensures
            r == self.generation(),
    {
        self.generation
    }

    /// Requests work on `input`; a request not yet started is replaced.
    /// Returns the new request's generation.
    pub fn request(&mut self, input: I) -> (r: u64)
        requires
            old(self).generation() < u64::MAX,
        ensures
            r == old(self).generation() + 1,
            final(self).generation() == r,
            final(self).pending() == Some((r, input)),
            final(self).completed() == old(self).completed(),
            final(self).is_closed() == old(self).is_closed(),
    {
        self.generation = self.generation + 1;
        self.pending = Some((self.generation, input));
        self.generation
    }

    /// Takes the latest completed result, if any.
    pub fn take(&mut self) -> (r: Option<(u64, O)>)
        ensures
            r == old(self).completed(),
            final(self).completed() is None,
            final(self).pending() == old(self).pending(),
            final(self).is_closed() == old(self).is_closed(),
            final(self).generation() == old(self).generation(),
    {
        self.completed.take()
    }

    /// Whether the worker thread has anything to do (work or shutting down).
    pub fn has_work(&self) -> (r: bool)
        ensures
            r == (self.pending() is Some || self.is_closed()),
    {
        self.pending.is_some() || self.closed
    }

    /// Starts the pending request: it leaves the mailbox. Nothing is started
    /// once the mailbox is closed.
    pub fn start_next(&mut self) -> (r: Option<(u64, I)>)
        ensures
            r == if old(self).is_closed() { None } else { old(self).pending() },
            final(self).pending() == if old(self).is_closed() { old(self).pending() } else { None },
            final(self).completed() == old(self).completed(),
            final(self).is_closed() == old(self).is_closed(),
            final(self).generation() == old(self).generation(),
    {
        if self.closed {
            None
        } else {
            self.pending.take()
        }
    }

    /// Stores the result of a finished request, replacing an untaken older
    /// one, which is handed back to be dropped. A closed mailbox accepts
    /// nothing and hands the result back.
    pub fn complete(&mut self, generation: u64, output: O) -> (r: Option<(u64, O)>)
        ensures
            old(self).is_closed() ==> r == Some((generation, output)) && final(self).completed() == old(
                self,
            ).completed(),
            !old(self).is_closed() ==> r == old(self).completed() && final(self).completed() == Some(
                (generation, output),
            ),
            final(self).pending() == old(self).pending(),
            final(self).is_closed() == old(self).is_closed(),
            final(self).generation() == old(self).generation(),
    {
        if self.closed {
            return Some((generation, output));
        }
        let previous = self.completed.take();
        self.completed = Some((generation, output));
        previous
    }

    /// Closes the mailbox; the worker thread stops at its next check.
    pub fn close(&mut self)
        ensures
            final(self).is_closed(),
            final(self).pending() == old(self).pending(),
            final(self).completed() == old(self).completed(),
            final(self).generation() == old(self).generation(),
    {
        self.closed = true;
    }
}

} // verus!
