//! The headers of the transport below the messaging layer.

pub mod pkt;
