//! The channel that carries messages between tasks.

use crate::error::Error;
use vstd::prelude::*;

verus! {

/// A channel as the host provides it. Nothing is said here of what an
/// implementation does with a message: the messaging layer hands messages
/// to a channel and takes them from it, and reports what the channel
/// reports.
pub trait Communicate {
    /// Sends `msg`, waiting as long as it takes.
    fn send<T: Send>(&self, msg: T) -> Result<(), Error>;

    /// Sends `msg`, waiting `timeout` milliseconds at most.
    fn try_send<T: Send>(&self, msg: T, timeout: i32) -> Result<(), Error>;

    /// Receives a message, waiting as long as it takes.
    fn recv<T: Send>(&self) -> Result<T, Error>;

    /// Receives a message if one arrives within `timeout` milliseconds.
    fn try_recv<T: Send>(&self, timeout: i32) -> Result<Option<T>, Error>;
}

} // verus!
