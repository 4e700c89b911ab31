//! Messages addressed by a numeric topic.

use vstd::prelude::*;

pub mod broker;
pub mod named;

verus! {

/// The number that names a topic.
pub type Topic = u32;

/// The number that names an endpoint.
pub type Address = u16;

/// A payload on its way to the subscribers of a topic.
pub struct Msg<T: Send> {
    pub topic: Topic,
    pub data: T,
}

impl<T: Send> Msg<T> {
    pub fn new(topic: Topic, data: T) -> (msg: Self)
        ensures
            msg.topic == topic,
            msg.data == data,
    {
        Msg { topic: topic, data: data }
    }
}

} // verus!
