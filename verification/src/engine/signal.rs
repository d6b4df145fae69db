//! The signal that wakes a worker when a player joins the queue.

use std::sync::Arc;

use tokio::sync::Notify;
use vstd::prelude::*;

verus! {

/// `tokio::sync::Notify`, which wakes a waiting task. Nothing is stated of what a
/// value of it holds.
#[verifier::external_type_specification]
#[verifier::external_body]
pub struct ExNotify(tokio::sync::Notify);

/// `tokio::sync::Notify::new` makes a signal that nobody has given yet. Nothing
/// is stated of it.
pub assume_specification[ tokio::sync::Notify::new ]() -> tokio::sync::Notify;

/// A signal to the workers, and how often it has been given.
pub struct WakeSignal {
    notify: Arc<Notify>,
    given: Ghost<nat>,
}

impl WakeSignal {
    /// How often the signal has been given.
    pub closed spec fn given(self) -> nat {
        self.given@
    }

    /// What a worker waits on.
    pub closed spec fn target(self) -> Arc<Notify> {
        self.notify
    }

    /// A signal that has not been given yet.
    pub fn new() -> (signal: Self)
        ensures
            signal.given() == 0,
    {
        WakeSignal { notify: Arc::new(Notify::new()), given: Ghost(0) }
    }

    /// `tokio::sync::Notify::notify_one`, called once. It wakes one waiting task,
    /// or lets the next to wait go on at once. Stated is that the signal has then
    /// been given once more, to those who wait on the same target as before; which
    /// task wakes, and when, is up to the runtime.
    #[verifier::external_body]
    pub(crate) fn give(&mut self)
        ensures
            final(self).given() == old(self).given() + 1,
            final(self).target() == old(self).target(),
    {
        self.notify.notify_one();
    }

    /// A handle to wait on.
    pub fn handle(&self) -> (notify: Arc<Notify>)
        ensures
            notify == self.target(),
    {
        self.notify.clone()
    }
}

} // verus!
