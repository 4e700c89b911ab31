//! An allocation-free publish/subscribe messaging core: fixed-capacity
//! open-addressed tables, and a topic broker built on them.

use vstd::prelude::*;

pub mod collections;
pub mod dds;
pub mod error;
pub mod hash;
pub mod ipc;
pub mod math;
pub mod msg;
pub mod string;

verus! {

/// The capacity of a topic name.
pub const TOPIC_LEN: usize = 64;

/// The capacity of the text an error carries.
pub const ERROR_LEN: usize = 64;

} // verus!
