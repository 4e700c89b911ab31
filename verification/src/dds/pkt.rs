//! The layout of the transport's headers: declarations of data, without
//! behaviour beyond the numbers that stand for a kind on the wire.

use vstd::prelude::*;

verus! {

/// What kind of entity an identifier names.
#[derive(Debug, Clone, Copy)]
pub enum EntityKind {
    Unknown,
    WriterWKey,
    WriterNoKey,
    ReaderNoKey,
    ReaderWKey,
    WriterGroup,
    ReaderGroup,
}

impl EntityKind {
    /// The octet that stands for the kind on the wire.
    pub open spec fn octet_spec(self) -> u8 {
        match self {
            EntityKind::Unknown => 0x00,
            EntityKind::WriterWKey => 0x02,
            EntityKind::WriterNoKey => 0x03,
            EntityKind::ReaderNoKey => 0x04,
            EntityKind::ReaderWKey => 0x07,
            EntityKind::WriterGroup => 0x08,
            EntityKind::ReaderGroup => 0x09,
        }
    }

    /// The octet that stands for the kind on the wire.
    pub fn octet(self) -> (octet: u8)
        ensures
            octet == self.octet_spec(),
    {
        match self {
            EntityKind::Unknown => 0x00,
            EntityKind::WriterWKey => 0x02,
            EntityKind::WriterNoKey => 0x03,
            EntityKind::ReaderNoKey => 0x04,
            EntityKind::ReaderWKey => 0x07,
            EntityKind::WriterGroup => 0x08,
            EntityKind::ReaderGroup => 0x09,
        }
    }
}

/// The protocol that a header announces.
#[derive(Debug, Clone, Copy)]
pub enum Protocol {
    RTPS,
}

impl Protocol {
    /// The four octets that announce the protocol: its name in ASCII.
    pub open spec fn magic_spec(self) -> u32 {
        match self {
            Protocol::RTPS => 0x52545053,
        }
    }

    /// The four octets that announce the protocol.
    pub fn magic(self) -> (magic: u32)
        ensures
            magic == self.magic_spec(),
    {
        match self {
            Protocol::RTPS => 0x52545053,
        }
    }
}

#[derive(Debug, Clone, Copy)]
pub struct EntityId {
    pub key: [u8; 3],
    pub kind: EntityKind,
}

#[derive(Debug, Clone, Copy)]
pub struct GuidPrefix {
    vendor: u16,
    prefix: [u8; 10],
}

#[derive(Debug, Clone, Copy)]
pub struct Guid {
    prefix: GuidPrefix,
    entity_id: EntityId,
}

/// The number of this vendor.
pub const VENDOR_ID: u16 = 0x1E00;

#[derive(Debug, Clone, Copy)]
pub struct RtpsHdr {
    protocol: Protocol,
    version: [u8; 2],
    vendor: u16,
    guid: Guid,
}

#[derive(Debug, Clone, Copy)]
pub struct SubmessageHdr {
    pub id: u8,
    pub flags: u8,
    pub octent_count: u16,
}

/// A DATA submessage that carries one sample: the identifiers of the reader
/// and the writer concerned, and the sequence number of the sample. Inline
/// QoS and the payload follow it on the wire.
#[derive(Debug, Clone, Copy)]
pub struct DataSubmessage {
    pub header: SubmessageHdr,
    pub extra_flags: u16,
    pub octets_to_inline_qos: u16,
    pub reader_id: EntityId,
    pub writer_id: EntityId,
    pub writer_sn: u64,
}

} // verus!
