use naia_core::ack_manager::{AckManager, AckNotice};
use naia_core::connection::Connection;
use naia_core::event_manager::EventManager;
use naia_core::packet_writer::NetEvent;
use naia_core::server_connection::ServerConnection;
use naia_core::standard_header::{PacketType, StandardHeader};

fn ev(gaia_id: u16, payload: &[u8]) -> NetEvent {
    NetEvent { gaia_id, payload: payload.to_vec() }
}

#[test]
fn heartbeat_only() {
    let mut c = Connection::new(100, 1000, 0);
    assert!(!c.should_send_heartbeat(99));
    assert!(c.should_send_heartbeat(101));
    c.mark_sent(50);
    assert!(!c.should_send_heartbeat(101));
    assert!(c.should_send_heartbeat(151));
}

#[test]
fn timeout_after_silence() {
    let mut c = Connection::new(100, 200, 0);
    c.mark_heard(0);
    assert!(!c.should_drop(199));
    assert!(c.should_drop(201));
    c.mark_heard(150);
    assert!(!c.should_drop(201));
}

#[test]
fn drop_notification_requeues_event() {
    let mut m = EventManager::new();
    let e = ev(9, &[1, 2]);
    assert!(m.queue_event(&e));
    assert!(m.has_outgoing_events());
    assert_eq!(m.pop_outgoing_event(7), Some(e.clone()));
    assert!(!m.has_outgoing_events());
    m.notify_packet_dropped(7);
    assert_eq!(m.pop_outgoing_event(8), Some(e.clone()));
    m.notify_packet_delivered(8);
    m.notify_packet_dropped(8);
    assert_eq!(m.pop_outgoing_event(9), None);
}

#[test]
fn unpop_puts_event_back_in_front() {
    let mut m = EventManager::new();
    m.queue_event(&ev(1, &[]));
    m.queue_event(&ev(2, &[]));
    let first = m.pop_outgoing_event(0).unwrap();
    m.unpop_outgoing_event(0, &first);
    m.notify_packet_dropped(0);
    assert_eq!(m.pop_outgoing_event(1), Some(ev(1, &[])));
    assert_eq!(m.pop_outgoing_event(1), Some(ev(2, &[])));
    assert_eq!(m.pop_outgoing_event(1), None);
}

#[test]
fn incoming_events_in_order() {
    let mut m = EventManager::new();
    assert_eq!(m.get_incoming_event(), None);
    m.push_incoming_event(ev(1, &[1]));
    m.push_incoming_event(ev(2, &[2]));
    assert_eq!(m.get_incoming_event(), Some(ev(1, &[1])));
    assert_eq!(m.get_incoming_event(), Some(ev(2, &[2])));
}

#[test]
fn outgoing_packet_carries_queued_events() {
    let mut client = ServerConnection::new(100, 1000, 0);
    assert_eq!(client.get_outgoing_packet(), None);
    client.queue_event(&ev(0x0102, &[7]));
    client.queue_event(&ev(0x0003, &[]));
    let packet = client.get_outgoing_packet().unwrap();
    let (h, body) = StandardHeader::read(&packet);
    assert_eq!(h.packet_type(), PacketType::Data);
    assert_eq!(h.sequence(), 0);
    assert_eq!(body, vec![1, 2, 0x01, 0x02, 1, 7, 0x00, 0x03, 0]);
    assert_eq!(client.get_next_packet_index(), 1);
    assert_eq!(client.get_outgoing_packet(), None);
}

#[test]
fn outgoing_packet_leaves_what_does_not_fit() {
    let mut client = ServerConnection::new(100, 1000, 0);
    for _ in 0..7 {
        client.queue_event(&ev(4, &[0; 80]));
    }
    let first = client.get_outgoing_packet().unwrap();
    assert_eq!(first.len(), 9 + 500);
    assert_eq!(&first[9..11], &[1, 6]);
    let second = client.get_outgoing_packet().unwrap();
    assert_eq!(&second[9..11], &[1, 1]);
    assert_eq!(StandardHeader::read(&second).0.sequence(), 1);
}

#[test]
fn dropped_packet_events_are_sent_again() {
    let mut client = ServerConnection::new(100, 1000, 0);
    let mut server = AckManager::new();
    client.queue_event(&ev(5, b"hi"));
    let lost = client.get_outgoing_packet().unwrap();
    assert_eq!(StandardHeader::read(&lost).0.sequence(), 0);
    let hb = client.process_outgoing_header(PacketType::Heartbeat, &[]);
    let mut ns = Vec::new();
    server.process_incoming(&hb, &mut ns);
    let reply = server.process_outgoing(PacketType::Heartbeat, &[]);
    let mut notices = Vec::new();
    assert_eq!(client.process_incoming_header(&reply, 10, &mut notices), Some(vec![]));
    assert_eq!(notices, vec![AckNotice::Dropped(0)]);
    let again = client.get_outgoing_packet().unwrap();
    let (h, body) = StandardHeader::read(&again);
    assert_eq!(h.sequence(), 2);
    assert_eq!(body, vec![1, 1, 0, 5, 2, b'h', b'i']);
}

#[test]
fn short_datagram_is_refused() {
    let mut client = ServerConnection::new(100, 200, 0);
    let mut notices = Vec::new();
    assert_eq!(client.process_incoming_header(&[1, 2, 3], 150, &mut notices), None);
    assert!(notices.is_empty());
    assert_eq!(client.get_next_packet_index(), 0);
    assert!(client.should_drop(201));
}

#[test]
fn valid_datagram_marks_heard() {
    let mut client = ServerConnection::new(100, 200, 0);
    let mut server = AckManager::new();
    let hb = server.process_outgoing(PacketType::Heartbeat, &[]);
    let mut notices = Vec::new();
    assert_eq!(client.process_incoming_header(&hb, 150, &mut notices), Some(vec![]));
    assert!(!client.should_drop(201));
    assert!(client.should_drop(351));
}

#[test]
fn incoming_data_queues_events() {
    let mut client = ServerConnection::new(100, 1000, 0);
    let rest = client.process_incoming_data(vec![1, 2, 0, 9, 1, 42, 0, 8, 0, 2, 1, 1, 0, 7], &[8, 9]);
    assert_eq!(rest, Some(vec![2, 1, 1, 0, 7]));
    assert_eq!(client.get_incoming_event(), Some(ev(9, &[42])));
    assert_eq!(client.get_incoming_event(), Some(ev(8, &[])));
    assert_eq!(client.get_incoming_event(), None);
}

#[test]
fn truncated_event_section_is_refused() {
    let mut client = ServerConnection::new(100, 1000, 0);
    assert_eq!(client.process_incoming_data(vec![1, 2, 0, 9, 1, 42, 0, 8], &[8, 9]), None);
    assert_eq!(client.get_incoming_event(), None);
    assert_eq!(client.process_incoming_data(vec![], &[8, 9]), None);
}

#[test]
fn entity_only_data_passes_through() {
    let mut client = ServerConnection::new(100, 1000, 0);
    assert_eq!(client.process_incoming_data(vec![2, 1, 1, 0, 7], &[]), Some(vec![1, 1, 0, 7]));
    assert_eq!(client.get_incoming_event(), None);
}

#[test]
fn unknown_section_byte_is_refused() {
    let mut client = ServerConnection::new(100, 1000, 0);
    assert_eq!(client.process_incoming_data(vec![7, 1, 0, 9, 0], &[9]), None);
    assert_eq!(client.get_incoming_event(), None);
}

#[test]
fn heartbeat_with_body_is_refused() {
    let mut client = ServerConnection::new(100, 200, 0);
    let mut server = AckManager::new();
    let hb = server.process_outgoing(PacketType::Heartbeat, &[1]);
    let mut notices = Vec::new();
    assert_eq!(client.process_incoming_header(&hb, 150, &mut notices), None);
    assert!(client.should_drop(201));
    let data = server.process_outgoing(PacketType::Data, &[1]);
    assert_eq!(client.process_incoming_header(&data, 150, &mut notices), Some(vec![1]));
    assert!(!client.should_drop(201));
}

#[test]
fn unknown_event_id_is_refused() {
    let mut client = ServerConnection::new(100, 1000, 0);
    assert_eq!(client.process_incoming_data(vec![1, 2, 0, 9, 1, 42, 0, 8, 0], &[9]), None);
    assert_eq!(client.get_incoming_event(), None);
    assert_eq!(client.process_incoming_data(vec![1, 1, 0, 9, 1, 42], &[9]), Some(vec![]));
    assert_eq!(client.get_incoming_event(), Some(ev(9, &[42])));
}

#[test]
fn oversized_event_is_dropped_and_reported() {
    let mut client = ServerConnection::new(100, 1000, 0);
    assert!(!client.queue_event(&ev(1, &[0; 256])));
    assert!(client.queue_event(&ev(2, &[0; 255])));
    let packet = client.get_outgoing_packet().unwrap();
    let (_, body) = StandardHeader::read(&packet);
    assert_eq!(&body[..5], &[1, 1, 0, 2, 255]);
    assert_eq!(body.len(), 2 + 3 + 255);
    assert_eq!(client.get_outgoing_packet(), None);
    let mut m = EventManager::new();
    assert!(!m.queue_event(&ev(1, &[0; 300])));
    assert!(!m.has_outgoing_events());
}
