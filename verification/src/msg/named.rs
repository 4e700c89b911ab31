//! Messages addressed by a topic name.

use crate::string::SString;
use crate::TOPIC_LEN;
use vstd::prelude::*;

verus! {

/// The number of a message.
pub type MsgId = u32;

/// A payload on its way to the subscribers of a named topic.
pub struct Msg<T: Send> {
    pub topic: SString<TOPIC_LEN>,
    pub mid: MsgId,
    pub data: T,
}

} // verus!
