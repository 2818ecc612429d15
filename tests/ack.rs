use naia_core::ack_manager::{AckManager, AckNotice};
use naia_core::sequence::{sequence_greater_than, sequence_less_than};
use naia_core::sequence_buffer::SequenceBuffer;
use naia_core::standard_header::{PacketType, StandardHeader};

fn header(bytes: &[u8]) -> StandardHeader {
    StandardHeader::read(bytes).0
}

#[test]
fn sequence_order_wraps() {
    assert!(sequence_greater_than(1, 0));
    assert!(sequence_greater_than(0, 65535));
    assert!(!sequence_greater_than(0, 0));
    assert!(sequence_less_than(65535, 0));
    assert!(!sequence_greater_than(32768, 0));
    assert!(!sequence_greater_than(0, 32768));
    assert!(sequence_greater_than(32767, 0));
}

#[test]
fn header_round_trip_and_big_endian() {
    let h = StandardHeader::new(PacketType::Data, 0x1234, 0xABCD, 0x01020304);
    let mut buf = Vec::new();
    h.write(&mut buf);
    assert_eq!(buf, vec![1, 0x12, 0x34, 0xAB, 0xCD, 1, 2, 3, 4]);
    buf.extend_from_slice(&[9, 8]);
    let (back, rest) = StandardHeader::read(&buf);
    assert_eq!(back, h);
    assert_eq!(rest, vec![9, 8]);
    assert_eq!(StandardHeader::bytes_number(), 9);
}

#[test]
fn local_sequence_numbers_count_up() {
    let mut a = AckManager::new();
    for k in 0..5u16 {
        assert_eq!(a.local_sequence_num(), k);
        let out = a.process_outgoing(PacketType::Data, &[7]);
        assert_eq!(header(&out).sequence(), k);
    }
    assert_eq!(a.local_sequence_num(), 5);
}

#[test]
fn outgoing_then_incoming_keeps_payload() {
    let mut a = AckManager::new();
    let mut b = AckManager::new();
    let payload = vec![1u8, 2, 3, 250, 0];
    let framed = a.process_outgoing(PacketType::Data, &payload);
    assert_eq!(framed.len(), 9 + payload.len());
    let mut notices = Vec::new();
    let body = b.process_incoming(&framed, &mut notices);
    assert_eq!(body, payload);
    assert!(notices.is_empty());
}

#[test]
fn ack_header_reflects_received() {
    let mut a = AckManager::new();
    let mut b = AckManager::new();
    let mut frames = Vec::new();
    for _ in 0..8 {
        frames.push(a.process_outgoing(PacketType::Heartbeat, &[]));
    }
    let mut notices = Vec::new();
    for k in [3usize, 5, 7] {
        b.process_incoming(&frames[k], &mut notices);
    }
    let out = b.process_outgoing(PacketType::Heartbeat, &[]);
    let h = header(&out);
    assert_eq!(h.ack_seq(), 7);
    assert_eq!(h.ack_field(), 0b1010);
    assert!(notices.is_empty());
}

#[test]
fn fresh_manager_acks_nothing() {
    let mut a = AckManager::new();
    let out = a.process_outgoing(PacketType::Heartbeat, &[]);
    let h = header(&out);
    assert_eq!(h.ack_seq(), 65535);
    assert_eq!(h.ack_field(), 0);
    assert_eq!(h.packet_type(), PacketType::Heartbeat);
}

#[test]
fn single_round_trip_delivers_once() {
    let mut a = AckManager::new();
    let mut b = AckManager::new();
    let mut na = Vec::new();
    let mut nb = Vec::new();
    let x = a.process_outgoing(PacketType::Data, b"X");
    assert_eq!(b.process_incoming(&x, &mut nb), b"X".to_vec());
    let reply = b.process_outgoing(PacketType::Data, &[]);
    let h = header(&reply);
    assert_eq!((h.sequence(), h.ack_seq(), h.ack_field()), (0, 0, 0));
    a.process_incoming(&reply, &mut na);
    assert_eq!(na, vec![AckNotice::Delivered(0)]);
    a.process_incoming(&reply, &mut na);
    assert_eq!(na, vec![AckNotice::Delivered(0)]);
}

#[test]
fn drop_then_deliver_via_bitfield() {
    let mut a = AckManager::new();
    let mut b = AckManager::new();
    let frames: Vec<Vec<u8>> = (0..5).map(|_| a.process_outgoing(PacketType::Data, &[1])).collect();
    let mut nb = Vec::new();
    for k in [0usize, 2, 3, 4] {
        b.process_incoming(&frames[k], &mut nb);
    }
    let reply = b.process_outgoing(PacketType::Data, &[]);
    let h = header(&reply);
    assert_eq!(h.ack_seq(), 4);
    assert_eq!(h.ack_field() & 0b1111, 0b1011);
    let mut na = Vec::new();
    a.process_incoming(&reply, &mut na);
    assert_eq!(
        na,
        vec![
            AckNotice::Delivered(4),
            AckNotice::Delivered(3),
            AckNotice::Delivered(2),
            AckNotice::Dropped(1),
            AckNotice::Delivered(0),
        ]
    );
    a.process_incoming(&reply, &mut na);
    assert_eq!(na.len(), 5);
}

#[test]
fn heartbeats_get_no_notices() {
    let mut a = AckManager::new();
    let mut b = AckManager::new();
    let mut nb = Vec::new();
    let hb = a.process_outgoing(PacketType::Heartbeat, &[]);
    b.process_incoming(&hb, &mut nb);
    let reply = b.process_outgoing(PacketType::Data, &[]);
    let mut na = Vec::new();
    a.process_incoming(&reply, &mut na);
    assert!(na.is_empty());
}

#[test]
fn packet_behind_window_is_dropped() {
    let mut a = AckManager::new();
    let mut b = AckManager::new();
    let frames: Vec<Vec<u8>> = (0..34).map(|_| a.process_outgoing(PacketType::Data, &[])).collect();
    let mut nb = Vec::new();
    b.process_incoming(&frames[0], &mut nb);
    b.process_incoming(&frames[33], &mut nb);
    let reply = b.process_outgoing(PacketType::Data, &[]);
    let h = header(&reply);
    assert_eq!(h.ack_seq(), 33);
    let mut na = Vec::new();
    a.process_incoming(&reply, &mut na);
    assert_eq!(na[0], AckNotice::Delivered(33));
    assert!(na.contains(&AckNotice::Dropped(1)));
    assert!(na.contains(&AckNotice::Dropped(32)));
    assert_eq!(na[33], AckNotice::Dropped(0));
    assert!(!na.contains(&AckNotice::Delivered(0)));
    assert_eq!(na.len(), 34);
    a.process_incoming(&reply, &mut na);
    assert_eq!(na.len(), 34);
}

#[test]
fn ack_far_ahead_settles_skipped_packets() {
    let mut a = AckManager::new();
    let mut b = AckManager::new();
    let frames: Vec<Vec<u8>> = (0..40).map(|_| a.process_outgoing(PacketType::Data, &[])).collect();
    let mut nb = Vec::new();
    b.process_incoming(&frames[39], &mut nb);
    let reply = b.process_outgoing(PacketType::Data, &[]);
    let mut na = Vec::new();
    a.process_incoming(&reply, &mut na);
    assert_eq!(na.len(), 40);
    assert_eq!(na[0], AckNotice::Delivered(39));
    for s in 0..39u16 {
        assert_eq!(na[(39 - s) as usize], AckNotice::Dropped(s));
    }
}

#[test]
fn packets_ahead_of_ack_stay_in_flight() {
    let mut a = AckManager::new();
    let mut b = AckManager::new();
    let first = a.process_outgoing(PacketType::Data, &[]);
    let mut nb = Vec::new();
    b.process_incoming(&first, &mut nb);
    let reply = b.process_outgoing(PacketType::Data, &[]);
    let later = a.process_outgoing(PacketType::Data, &[]);
    let mut na = Vec::new();
    a.process_incoming(&reply, &mut na);
    assert_eq!(na, vec![AckNotice::Delivered(0)]);
    b.process_incoming(&later, &mut nb);
    let reply2 = b.process_outgoing(PacketType::Data, &[]);
    a.process_incoming(&reply2, &mut na);
    assert_eq!(na, vec![AckNotice::Delivered(0), AckNotice::Delivered(1)]);
}

#[test]
fn wrap_around_sequences() {
    let mut a = AckManager::new();
    for _ in 0..0xFFFEu32 {
        a.process_outgoing(PacketType::Heartbeat, &[]);
    }
    let mut b = AckManager::new();
    let mut seqs = Vec::new();
    let mut frames = Vec::new();
    for _ in 0..4 {
        let f = a.process_outgoing(PacketType::Data, &[5]);
        seqs.push(header(&f).sequence());
        frames.push(f);
    }
    assert_eq!(seqs, vec![0xFFFE, 0xFFFF, 0x0000, 0x0001]);
    let mut nb = Vec::new();
    b.process_incoming(&frames[1], &mut nb);
    let r1 = b.process_outgoing(PacketType::Data, &[]);
    assert_eq!(header(&r1).ack_seq(), 0xFFFF);
    b.process_incoming(&frames[3], &mut nb);
    let r2 = b.process_outgoing(PacketType::Data, &[]);
    assert_eq!(header(&r2).ack_seq(), 0x0001);
    assert_eq!(header(&r2).ack_field() & 0b11, 0b10);
    let mut na = Vec::new();
    a.process_incoming(&r1, &mut na);
    assert_eq!(na, vec![AckNotice::Delivered(0xFFFF), AckNotice::Dropped(0xFFFE)]);
    a.process_incoming(&r2, &mut na);
    assert_eq!(
        &na[2..],
        &[AckNotice::Delivered(0x0001), AckNotice::Dropped(0x0000)]
    );
}

#[test]
fn sequence_buffer_evicts_old_numbers() {
    let mut buf = SequenceBuffer::with_capacity(33);
    assert_eq!(buf.sequence_num(), 0);
    buf.insert(5);
    assert!(buf.exists_seq(5));
    assert_eq!(buf.sequence_num(), 6);
    buf.insert(5);
    assert!(buf.exists_seq(5));
    buf.insert(3);
    assert!(buf.exists_seq(3));
    assert_eq!(buf.sequence_num(), 6);
    buf.insert(100);
    assert!(buf.exists_seq(100));
    assert!(!buf.exists_seq(5));
    assert!(!buf.exists_seq(3));
    buf.insert(10);
    assert!(!buf.exists_seq(10));
    assert_eq!(buf.sequence_num(), 101);
}
