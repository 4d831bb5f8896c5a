//! What a server decides: whom to let in, how long to wait after a failed
//! accept, what to do with a frame that came in, and when everything is over.
//!
//! Sockets, timers and tasks are the caller's. The caller asks here before it
//! acts and tells what happened afterwards.

use vstd::prelude::*;
use crate::cmd::{applied, command_of, Command, Outcome};
use crate::connection::Connection;
use crate::db::Db;
use crate::frame::Frame;

verus! {

/// How many connections a server serves at once.
pub const MAX_CONNECTIONS: usize = 256;

/// The longest wait after a failed accept, in seconds, that is still
/// followed by another try.
pub const MAX_BACKOFF: u64 = 64;

/// The waits between tries to accept a connection.
#[derive(Debug)]
pub struct Backoff {
    secs: u64,
}

impl View for Backoff {
    type V = u64;

    /// The wait that follows the next failure, in seconds.
    closed spec fn view(&self) -> u64 {
        self.secs
    }
}

impl Backoff {
    /// The waits before the first failure: the first wait is one second.
    pub fn new() -> (b: Backoff)
        ensures
            b@ == 1,
    {
        Backoff { secs: 1 }
    }

    /// What to do after a failed accept: wait so many seconds and try again,
    /// or give up. Each wait is twice the one before; a failure gives up
    /// when the wait has grown beyond [`MAX_BACKOFF`].
    pub fn on_failure(&mut self) -> (wait: Option<u64>)
        ensures
            match wait {
                Some(secs) => old(self)@ <= MAX_BACKOFF && secs == old(self)@ && final(self)@ == 2
                    * old(self)@,
                None => old(self)@ > MAX_BACKOFF && final(self)@ == old(self)@,
            },
    {
        if self.secs > MAX_BACKOFF {
            return None;
        }
        let secs = self.secs;
        self.secs = secs * 2;
        Some(secs)
    }
}

/// The books of a listener: how many connections are served, and whether
/// the server is shutting down.
#[derive(Debug)]
pub struct Listener {
    limit: usize,
    active: usize,
    shutdown: bool,
}

/// What a [`Listener`] holds, as mathematics sees it.
pub struct ListenerView {
    /// How many connections may be served at once.
    pub limit: nat,
    /// How many connections are served right now.
    pub active: nat,
    /// Whether the server is shutting down.
    pub shutdown: bool,
}

impl ListenerView {
    /// Whether leave to serve one more connection is given: fewer
    /// connections are served than may be.
    pub open spec fn grants(self) -> bool {
        self.active < self.limit
    }

    /// The books once leave to serve one more connection was asked for.
    pub open spec fn try_acquire(self) -> ListenerView {
        if self.grants() {
            ListenerView { active: self.active + 1, ..self }
        } else {
            self
        }
    }

    /// The books once leave was asked for `count` times in a row.
    pub open spec fn try_acquire_times(self, count: nat) -> ListenerView
        decreases count,
    {
        if count == 0 {
            self
        } else {
            self.try_acquire().try_acquire_times((count - 1) as nat)
        }
    }

    /// The books once a connection is done.
    pub open spec fn release(self) -> ListenerView {
        ListenerView { active: (self.active - 1) as nat, ..self }
    }

    /// Whether the server may return from running.
    pub open spec fn finished(self) -> bool {
        self.shutdown && self.active == 0
    }
}

impl View for Listener {
    type V = ListenerView;

    closed spec fn view(&self) -> ListenerView {
        ListenerView { limit: self.limit as nat, active: self.active as nat, shutdown: self.shutdown }
    }
}

impl Listener {
    /// Whether no more connections are served than may be. Every listener
    /// that this module hands out is well formed, and every operation keeps
    /// it so.
    pub open spec fn wf(&self) -> bool {
        self@.active <= self@.limit
    }

    /// The books of a listener that serves up to `limit` connections at once
    /// and serves none yet.
    pub fn new(limit: usize) -> (l: Listener)
        ensures
            l.wf(),
            l@ == (ListenerView { limit: limit as nat, active: 0, shutdown: false }),
    {
        Listener { limit, active: 0, shutdown: false }
    }

    /// Asks for leave to serve one more connection. Leave is given while
    /// fewer connections are served than may be; it has to be asked for
    /// before a connection is accepted, and given back with
    /// [`Listener::release`] when the connection is done.
    pub fn try_acquire(&mut self) -> (granted: bool)
        requires
            old(self).wf(),
        ensures
            final(self).wf(),
            granted == old(self)@.grants(),
            final(self)@ == old(self)@.try_acquire(),
    {
        if self.active < self.limit {
            self.active = self.active + 1;
            true
        } else {
            false
        }
    }

    /// Gives back the leave of a connection that is done, however it ended.
    pub fn release(&mut self)
        requires
            old(self).wf(),
            old(self)@.active > 0,
        ensures
            final(self).wf(),
            final(self)@ == old(self)@.release(),
    {
        self.active = self.active - 1;
    }

    /// How many connections are served right now.
    pub fn active(&self) -> (n: usize)
        ensures
            n == self@.active,
    {
        self.active
    }

    /// Starts shutting down. There is no way back.
    pub fn shutdown(&mut self)
        requires
            old(self).wf(),
        ensures
            final(self).wf(),
            final(self)@ == (ListenerView { shutdown: true, ..old(self)@ }),
    {
        self.shutdown = true;
    }

    /// Whether the server is shutting down.
    pub fn is_shutdown(&self) -> (r: bool)
        ensures
            r == self@.shutdown,
    {
        self.shutdown
    }

    /// Whether the server may return from running: it is shutting down, and
    /// every connection it served is done.
    pub fn finished(&self) -> (r: bool)
        ensures
            r == self@.finished(),
    {
        self.shutdown && self.active == 0
    }
}

/// However often leave is asked for, no more connections are served than
/// may be: once as many are served, every further asking is refused, until a
/// connection is done; then leave is given once more.
pub proof fn lemma_admission(books: ListenerView, count: nat)
    requires
        books.active <= books.limit,
    ensures
        books.try_acquire_times(count).active <= books.limit,
        books.try_acquire_times(count).active == if books.active + count <= books.limit {
            books.active + count
        } else {
            books.limit
        },
        books.active + count >= books.limit ==> !books.try_acquire_times(count).grants(),
        books.active + count >= books.limit && books.limit > 0 ==> books.try_acquire_times(
            count,
        ).release().grants(),
    decreases count,
{
    if count > 0 {
        lemma_admission(books.try_acquire(), (count - 1) as nat);
    }
}

/// A server is finished only when it serves no connection any more; while
/// one is served, it is not, whether it shuts down or not.
pub proof fn lemma_finished_means_drained(books: ListenerView)
    ensures
        books.finished() ==> books.active == 0 && books.shutdown,
        books.active > 0 ==> !books.finished(),
        books.shutdown && books.active == 1 ==> books.release().finished(),
{
}

/// What a handler does when the signal to stop comes while it waits: it
/// stops without an error, and leaves whatever it was doing undone.
pub fn on_shutdown() -> (r: Result<Option<Outcome>, String>)
    ensures
        r matches Ok(None),
{
    Ok(None)
}

/// What a handler does with what reading from its connection brought: a
/// frame, or nothing when the peer has closed the connection.
///
/// A frame is read as a command, and the command applied to the store `db`
/// at the moment `now`; the answer is written to `dst`, and what came of the
/// command is handed back. Nothing is handed back when the handler has to
/// stop. An error ends this connection and no other.
pub fn on_frame(maybe_frame: Option<Frame>, db: &mut Db, dst: &mut Connection, now: u64) -> (r:
    Result<Option<Outcome>, String>)
    requires
        old(db).wf(),
    ensures
        final(db).wf(),
        final(dst).buffered() == old(dst).buffered(),
        match maybe_frame {
            None => {
                &&& r matches Ok(None)
                &&& final(db)@ == old(db)@
                &&& final(dst).pending() == old(dst).pending()
            },
            Some(frame) => match command_of(frame@) {
                Err(text) => {
                    &&& r matches Err(e) && e@ == text
                    &&& final(db)@ == old(db)@
                    &&& final(dst).pending() == old(dst).pending()
                },
                Ok(cmd) => match r {
                    Ok(Some(outcome)) => applied(
                        cmd,
                        old(db)@,
                        old(dst).pending(),
                        now,
                        final(db)@,
                        final(dst).pending(),
                        Ok(outcome),
                    ),
                    Ok(None) => false,
                    Err(e) => applied(
                        cmd,
                        old(db)@,
                        old(dst).pending(),
                        now,
                        final(db)@,
                        final(dst).pending(),
                        Err(e),
                    ),
                },
            },
        },
{
    let frame = match maybe_frame {
        Some(frame) => frame,
        None => {
            return Ok(None);
        },
    };
    let cmd = Command::from_frame(frame)?;
    match cmd.apply(db, dst, now) {
        Ok(outcome) => Ok(Some(outcome)),
        Err(e) => Err(e),
    }
}

} // verus!
