//! The signal that tells a handler to stop.

use vstd::prelude::*;

verus! {

/// Whether the signal to stop has been seen. Once it has, it stays so.
#[derive(Debug)]
pub struct Shutdown {
    is_shutdown: bool,
}

impl View for Shutdown {
    type V = bool;

    /// Whether the signal has been seen.
    closed spec fn view(&self) -> bool {
        self.is_shutdown
    }
}

impl Shutdown {
    /// A watcher that has not seen the signal.
    pub fn new() -> (s: Shutdown)
        ensures
            !s@,
    {
        Shutdown { is_shutdown: false }
    }

    /// Whether the signal has been seen.
    pub fn is_shutdown(&self) -> (r: bool)
        ensures
            r == self@,
    {
        self.is_shutdown
    }

    /// Takes note that the signal was given. Nothing takes the note back.
    pub fn recv(&mut self)
        ensures
            final(self)@,
    {
        self.is_shutdown = true;
    }
}

} // verus!
