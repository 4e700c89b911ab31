use juno::dds::pkt::{DataSubmessage, EntityId, EntityKind, Protocol, SubmessageHdr, VENDOR_ID};

#[test]
fn entity_kinds_on_the_wire() {
    assert_eq!(EntityKind::Unknown.octet(), 0x00);
    assert_eq!(EntityKind::WriterWKey.octet(), 0x02);
    assert_eq!(EntityKind::WriterNoKey.octet(), 0x03);
    assert_eq!(EntityKind::ReaderNoKey.octet(), 0x04);
    assert_eq!(EntityKind::ReaderWKey.octet(), 0x07);
    assert_eq!(EntityKind::WriterGroup.octet(), 0x08);
    assert_eq!(EntityKind::ReaderGroup.octet(), 0x09);
}

#[test]
fn protocol_magic_spells_its_name() {
    assert_eq!(Protocol::RTPS.magic(), 0x52545053);
    assert_eq!(&Protocol::RTPS.magic().to_be_bytes(), b"RTPS");
    assert_eq!(VENDOR_ID, 0x1E00);
}

#[test]
fn data_submessage_is_plain_data() {
    let reader = EntityId { key: [1, 2, 3], kind: EntityKind::ReaderNoKey };
    let writer = EntityId { key: [4, 5, 6], kind: EntityKind::WriterNoKey };
    let data = DataSubmessage {
        header: SubmessageHdr { id: 0x15, flags: 1, octent_count: 24 },
        extra_flags: 0,
        octets_to_inline_qos: 16,
        reader_id: reader,
        writer_id: writer,
        writer_sn: 7,
    };
    let copy = data;
    assert_eq!(copy.header.id, 0x15);
    assert_eq!(copy.reader_id.key, [1, 2, 3]);
    assert_eq!(copy.writer_id.kind.octet(), 0x03);
    assert_eq!(data.writer_sn, 7);
}
