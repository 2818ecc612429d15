use naia_core::packet_reader::PacketReader;
use naia_core::packet_writer::{NetEvent, PacketWriter, ServerEntityMessage};

fn event(gaia_id: u16, len: usize) -> NetEvent {
    NetEvent { gaia_id, payload: vec![0xAA; len] }
}

#[test]
fn empty_writer_has_no_bytes() {
    let mut w = PacketWriter::new();
    assert!(!w.has_bytes());
    assert_eq!(w.bytes_number(), 0);
    assert!(w.get_bytes().is_empty());
}

#[test]
fn one_event_framing() {
    let mut w = PacketWriter::new();
    assert!(w.write_event(&NetEvent { gaia_id: 0x0102, payload: vec![7, 8, 9] }));
    assert!(w.has_bytes());
    assert_eq!(w.bytes_number(), 6);
    assert_eq!(w.get_bytes(), vec![1, 1, 0x01, 0x02, 3, 7, 8, 9]);
    assert!(!w.has_bytes());
    assert_eq!(w.event_count(), 0);
}

#[test]
fn mtu_refusal_after_six_events() {
    let mut w = PacketWriter::new();
    for _ in 0..6 {
        assert!(w.write_event(&event(4, 80)));
    }
    assert_eq!(w.event_count(), 6);
    assert_eq!(w.bytes_number(), 498);
    assert!(!w.write_event(&event(4, 80)));
    assert!(w.has_bytes());
    assert_eq!(w.event_count(), 6);
    assert_eq!(w.bytes_number(), 498);
    let body = w.get_bytes();
    assert_eq!(&body[..2], &[0x01, 0x06]);
    assert_eq!(body.len(), 500);
    assert_eq!(&body[2..5], &[0, 4, 80]);
}

#[test]
fn oversized_event_is_refused() {
    let mut w = PacketWriter::new();
    assert!(!w.write_event(&event(1, 256)));
    assert!(!w.has_bytes());
    assert!(w.write_event(&event(1, 255)));
    assert_eq!(w.bytes_number(), 258);
}

#[test]
fn first_event_counts_section_header() {
    let mut w = PacketWriter::new();
    assert!(w.write_event(&event(1, 255)));
    assert!(w.write_event(&event(1, 237)));
    assert_eq!(w.bytes_number(), 498);
}

#[test]
fn entity_messages_framing() {
    let mut w = PacketWriter::new();
    assert!(w.write_entity_message(&ServerEntityMessage::Create(0x0A0B, 0x0001, vec![5, 6])));
    assert!(w.write_entity_message(&ServerEntityMessage::Delete(0x0203)));
    assert!(w.write_entity_message(&ServerEntityMessage::Update(0x0001, vec![0xF0], vec![9])));
    assert_eq!(w.entity_message_count(), 3);
    let body = w.get_bytes();
    assert_eq!(
        body,
        vec![2, 3, 0, 0x0A, 0x0B, 0x00, 0x01, 2, 5, 6, 1, 0x02, 0x03, 2, 0x00, 0x01, 0xF0, 1, 9]
    );
}

#[test]
fn events_then_entities() {
    let mut w = PacketWriter::new();
    assert!(w.write_entity_message(&ServerEntityMessage::Delete(7)));
    assert!(w.write_event(&NetEvent { gaia_id: 3, payload: vec![] }));
    assert_eq!(w.get_bytes(), vec![1, 1, 0, 3, 0, 2, 1, 1, 0, 7]);
}

#[test]
fn oversized_entity_payload_is_refused() {
    let mut w = PacketWriter::new();
    assert!(!w.write_entity_message(&ServerEntityMessage::Create(1, 1, vec![0; 256])));
    assert!(!w.has_bytes());
}

#[test]
fn small_items_fill_the_budget() {
    let mut w = PacketWriter::new();
    let mut accepted = 0;
    for _ in 0..300 {
        if w.write_event(&NetEvent { gaia_id: 1, payload: vec![] }) {
            accepted += 1;
        }
    }
    assert_eq!(accepted, 166);
    let mut w2 = PacketWriter::new();
    let mut n = 0;
    for _ in 0..300 {
        if w2.write_entity_message(&ServerEntityMessage::Delete(1)) {
            n += 1;
        }
    }
    assert_eq!(n, 166);
}

#[test]
fn reader_reads_and_stops_at_end() {
    let mut r = PacketReader::new(vec![1, 0x12, 0x34, 9]);
    assert!(r.has_more());
    assert_eq!(r.read_u8(), Some(1));
    assert_eq!(r.read_u16_be(), Some(0x1234));
    assert_eq!(r.read_bytes(2), None);
    assert_eq!(r.read_bytes(1), Some(vec![9]));
    assert!(!r.has_more());
    assert_eq!(r.read_u8(), None);
    assert_eq!(r.read_u16_be(), None);
}
