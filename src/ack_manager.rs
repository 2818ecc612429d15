//! Acknowledgement tracking: stamps outgoing packets with sequence and ack
//! information and turns incoming acks into delivered / dropped notices.

use crate::bytes::tail_from;
use crate::sequence::{seq_back, seq_diff, seq_greater, sequence_greater_than, SequenceNumber};
use crate::sequence_buffer::{in_window, inserted, lemma_receipts_recorded, max_seq, SequenceBuffer};
use crate::standard_header::{header_bytes, header_of, PacketType, StandardHeader};
use std::collections::HashMap;
use vstd::prelude::*;

verus! {

broadcast use vstd::std_specs::hash::group_hash_axioms;

/// Number of packets before the newest one that each ack bitfield covers.
pub const REDUNDANT_PACKET_ACKS_SIZE: u16 = 32;

/// Initial capacity of the table of packets in flight.
pub const DEFAULT_SEND_PACKETS_SIZE: usize = 256;

/// A packet sent and not yet acknowledged either way.
#[derive(Clone, Copy, Debug, PartialEq, Eq, Structural)]
pub struct SentPacket {
    pub id: u32,
    pub packet_type: PacketType,
}

/// Marker of a received sequence number.
#[derive(Clone, Copy, Debug, Default)]
pub struct ReceivedPacket;

/// What an incoming ack tells about one of our Data packets.
#[derive(Clone, Copy, Debug, PartialEq, Eq, Structural)]
pub enum AckNotice {
    Delivered(SequenceNumber),
    Dropped(SequenceNumber),
}

/// Bit `i` of an ack field.
pub open spec fn bit_set(field: u32, i: int) -> bool {
    (field >> (i as u32)) & 1u32 == 1u32
}

/// Number of sequence numbers before an acked one that the ack settles:
/// all that lie less than half the sequence space behind it.
pub const SETTLE_SPAN: u16 = 32767;

/// `s` is the acked sequence itself or lies less than half the sequence
/// space behind it: an ack of `ras` settles `s` either way.
pub open spec fn settled_by(ras: u16, s: u16) -> bool {
    seq_diff(ras, s) < 32768
}

/// Whether an ack field reports `ras - i` as received: only the 32 numbers
/// just before `ras` have a bit; older ones count as lost.
pub open spec fn acked_at(field: u32, i: int) -> bool {
    i <= 32 && bit_set(field, i - 1)
}

/// The notice for `s`, if it is a Data packet still in flight.
pub open spec fn ack_notice(sent: Map<u16, SentPacket>, s: u16, delivered: bool) -> Seq<AckNotice> {
    if sent.contains_key(s) && sent[s].packet_type == PacketType::Data {
        seq![if delivered { AckNotice::Delivered(s) } else { AckNotice::Dropped(s) }]
    } else {
        seq![]
    }
}

/// Notices for `ras - 1` down to `ras - n`, in that order: delivered when
/// `acked_at(field, i)` reports `ras - i` as received, dropped otherwise.
pub open spec fn window_notices(sent: Map<u16, SentPacket>, ras: u16, field: u32, n: nat) -> Seq<AckNotice>
    decreases n,
{
    if n == 0 {
        seq![]
    } else {
        window_notices(sent, ras, field, (n - 1) as nat) + ack_notice(
            sent,
            seq_back(ras, n as int),
            acked_at(field, n as int),
        )
    }
}

/// All notices an incoming ack (`ras`, `field`) produces against `sent`.
pub open spec fn incoming_notices(sent: Map<u16, SentPacket>, ras: u16, field: u32) -> Seq<AckNotice> {
    ack_notice(sent, ras, true) + window_notices(sent, ras, field, 32767)
}

/// The packets in flight once an ack of `ras` has been handled.
pub open spec fn sent_after_ack(sent: Map<u16, SentPacket>, ras: u16) -> Map<u16, SentPacket> {
    sent.remove_keys(Set::new(|s: u16| settled_by(ras, s)))
}

/// Per-connection sequence and acknowledgement state.
#[derive(Debug)]
pub struct AckManager {
    sequence_number: SequenceNumber,
    remote_ack_sequence_num: SequenceNumber,
    sent_packets: HashMap<u16, SentPacket>,
    received_packets: SequenceBuffer,
}

impl AckManager {
    /// The sequence number the next outgoing packet gets.
    pub closed spec fn local_seq(&self) -> u16 {
        self.sequence_number
    }

    /// The newest ack sequence heard from the peer.
    pub closed spec fn remote_ack(&self) -> u16 {
        self.remote_ack_sequence_num
    }

    /// Packets in flight, by the sequence they were stamped with.
    pub closed spec fn sent(&self) -> Map<u16, SentPacket> {
        self.sent_packets@
    }

    /// Which of the peer's sequence numbers are remembered as received.
    pub closed spec fn received(&self) -> SequenceBuffer {
        self.received_packets
    }

    pub closed spec fn wf(&self) -> bool {
        &&& self.received_packets.wf()
        &&& self.received_packets.cap() == 33
        &&& forall|k: u16| #[trigger]
            self.sent_packets@.contains_key(k) ==> self.sent_packets@[k].id == k as u32
    }

    /// The newest received sequence of the peer, acked in outgoing headers.
    pub open spec fn remote_seq(&self) -> u16 {
        seq_back(self.received().head(), 1)
    }

    /// An ack field that marks exactly the received numbers among the 32
    /// before `remote_seq`.
    pub open spec fn acks_received(&self, field: u32) -> bool {
        forall|i: int|
            0 <= i < 32 ==> #[trigger] bit_set(field, i) == self.received().contains(
                seq_back(self.remote_seq(), i + 1),
            )
    }

    /// A fresh manager: nothing sent, nothing received, local sequence 0.
    pub fn new() -> (r: AckManager)
        ensures
            r.wf(),
            r.local_seq() == 0,
            r.remote_ack() == 65535,
            r.sent() == Map::<u16, SentPacket>::empty(),
            r.received().head() == 0,
            r.received().cap() == 33,
            forall|s: u16| !r.received().contains(s),
    {
        AckManager {
            sequence_number: 0,
            remote_ack_sequence_num: u16::MAX,
            sent_packets: HashMap::with_capacity(DEFAULT_SEND_PACKETS_SIZE),
            received_packets: SequenceBuffer::with_capacity(REDUNDANT_PACKET_ACKS_SIZE + 1),
        }
    }

    /// The sequence number of the next outgoing packet.
    pub fn local_sequence_num(&self) -> (r: SequenceNumber)
        ensures
            r == self.local_seq(),
    {
        self.sequence_number
    }

    fn remote_sequence_num(&self) -> (r: SequenceNumber)
        ensures
            r == self.remote_seq(),
    {
        self.received_packets.sequence_num().wrapping_sub(1)
    }

    fn ack_bitfield(&self) -> (r: u32)
        requires
            self.wf(),
        ensures
            self.acks_received(r),
    {
        let most_recent_remote_seq_num: u16 = self.remote_sequence_num();
        let mut ack_bitfield: u32 = 0;
        let mut i: u16 = 1;
        proof {
            lemma_zero_bits();
        }
        while i <= REDUNDANT_PACKET_ACKS_SIZE
            invariant
                1 <= i <= 33,
                self.wf(),
                most_recent_remote_seq_num == self.remote_seq(),
                forall|j: int|
                    0 <= j < i - 1 ==> #[trigger] bit_set(ack_bitfield, j) == self.received().contains(
                        seq_back(most_recent_remote_seq_num, j + 1),
                    ),
                forall|j: int| i - 1 <= j < 32 ==> !#[trigger] bit_set(ack_bitfield, j),
            decreases 33 - i,
        {
            let sequence = most_recent_remote_seq_num.wrapping_sub(i);
            assert(sequence == seq_back(most_recent_remote_seq_num, i as int));
            let k: u32 = (i - 1) as u32;
            if self.received_packets.exists_seq(sequence) {
                let old_bits = ack_bitfield;
                ack_bitfield = ack_bitfield | (1u32 << k);
                proof {
                    lemma_set_bit(old_bits, k);
                }
            }
            i = i + 1;
        }
        ack_bitfield
    }

    /// Frames `payload` behind a header that carries our next sequence
    /// number and what we have received, records the packet as in flight,
    /// and advances the local sequence number.
    pub fn process_outgoing(&mut self, packet_type: PacketType, payload: &[u8]) -> (r: Vec<u8>)
        requires
            old(self).wf(),
        ensures
            final(self).wf(),
            r@ == header_bytes(header_of(r@)) + payload@,
            header_of(r@).packet_type == packet_type,
            header_of(r@).sequence == old(self).local_seq(),
            header_of(r@).ack_seq == old(self).remote_seq(),
            old(self).acks_received(header_of(r@).ack_field),
            final(self).local_seq() == seq_back(old(self).local_seq(), -1),
            final(self).sent() == old(self).sent().insert(
                old(self).local_seq(),
                SentPacket { id: old(self).local_seq() as u32, packet_type },
            ),
            final(self).remote_ack() == old(self).remote_ack(),
            final(self).received() == old(self).received(),
    {
        let mut header_bytes_out: Vec<u8> = Vec::new();
        let seq_num = self.local_sequence_num();
        let last_seq = self.remote_sequence_num();
        let bit_field = self.ack_bitfield();
        let header = StandardHeader::new(packet_type, seq_num, last_seq, bit_field);
        header.write(&mut header_bytes_out);
        self.sent_packets.insert(
            self.sequence_number,
            SentPacket { id: self.sequence_number as u32, packet_type },
        );
        self.sequence_number = self.sequence_number.wrapping_add(1);
        let mut out = header_bytes_out;
        let mut i: usize = 0;
        while i < payload.len()
            invariant
                i <= payload@.len(),
                out@ == header_bytes(header) + payload@.subrange(0, i as int),
            decreases payload@.len() - i,
        {
            out.push(payload[i]);
            i = i + 1;
        }
        proof {
            crate::standard_header::lemma_header_round_trip(header, payload@);
            assert(payload@.subrange(0, payload@.len() as int) =~= payload@);
        }
        out
    }

    /// Reads the header off an incoming datagram: records its sequence as
    /// received, moves the remote ack forward, and settles every packet in
    /// flight that the ack passes, Data packets with a notice appended to
    /// `notices`. Returns the bytes after the header.
    pub fn process_incoming(&mut self, payload: &[u8], notices: &mut Vec<AckNotice>) -> (r: Vec<u8>)
        requires
            old(self).wf(),
            payload@.len() >= 9,
        ensures
            final(self).wf(),
            r@ == payload@.subrange(9, payload@.len() as int),
            final(self).local_seq() == old(self).local_seq(),
            inserted(old(self).received(), final(self).received(), header_of(payload@).sequence),
            final(self).remote_ack() == (if seq_greater(header_of(payload@).ack_seq, old(self).remote_ack()) {
                header_of(payload@).ack_seq
            } else {
                old(self).remote_ack()
            }),
            final(self).sent() == sent_after_ack(old(self).sent(), header_of(payload@).ack_seq),
            final(notices)@ == old(notices)@ + incoming_notices(
                old(self).sent(),
                header_of(payload@).ack_seq,
                header_of(payload@).ack_field,
            ),
    {
        let (header, stripped_message) = StandardHeader::read(payload);
        let remote_seq_num = header.sequence();
        let remote_ack_seq = header.ack_seq();
        let remote_ack_field = header.ack_field();

        self.received_packets.insert(remote_seq_num);

        if sequence_greater_than(remote_ack_seq, self.remote_ack_sequence_num) {
            self.remote_ack_sequence_num = remote_ack_seq;
        }

        let ghost sent0 = self.sent_packets@;
        let ghost received1 = self.received_packets;
        let ghost remote_ack1 = self.remote_ack_sequence_num;
        let ghost notices0 = notices@;
        match self.sent_packets.get(&remote_ack_seq) {
            Some(sent_packet) => {
                if sent_packet.packet_type == PacketType::Data {
                    self.notify_packet_delivered(remote_ack_seq, notices);
                }
                self.sent_packets.remove(&remote_ack_seq);
            },
            None => {},
        }
        proof {
            assert(self.sent_packets@ =~= sent0.remove_keys(
                Set::new(|s: u16| seq_diff(remote_ack_seq, s) < 1),
            ));
            assert(notices@ =~= notices0 + ack_notice(sent0, remote_ack_seq, true) + window_notices(
                sent0,
                remote_ack_seq,
                remote_ack_field,
                0,
            ));
        }

        let mut i: u16 = 1;
        while i <= SETTLE_SPAN && !self.sent_packets.is_empty()
            invariant
                1 <= i <= 32768,
                self.sequence_number == old(self).sequence_number,
                self.received_packets == received1,
                self.remote_ack_sequence_num == remote_ack1,
                received1.wf(),
                received1.cap() == 33,
                sent0.dom().finite(),
                forall|k: u16| #[trigger] sent0.contains_key(k) ==> sent0[k].id == k as u32,
                self.sent_packets@ == sent0.remove_keys(
                    Set::new(|s: u16| seq_diff(remote_ack_seq, s) < i),
                ),
                notices@ == notices0 + ack_notice(sent0, remote_ack_seq, true) + window_notices(
                    sent0,
                    remote_ack_seq,
                    remote_ack_field,
                    (i - 1) as nat,
                ),
            decreases 32768 - i,
        {
            let ack_sequence = remote_ack_seq.wrapping_sub(i);
            assert(ack_sequence == seq_back(remote_ack_seq, i as int));
            assert(seq_diff(remote_ack_seq, ack_sequence) == i);
            let ghost before = notices@;
            let acked = i <= REDUNDANT_PACKET_ACKS_SIZE && (remote_ack_field >> ((i - 1) as u32)) & 1u32
                == 1u32;
            match self.sent_packets.get(&ack_sequence) {
                Some(sent_packet) => {
                    if acked {
                        if sent_packet.packet_type == PacketType::Data {
                            self.notify_packet_delivered(ack_sequence, notices);
                        }
                    } else {
                        if sent_packet.packet_type == PacketType::Data {
                            self.notify_packet_dropped(ack_sequence, notices);
                        }
                    }
                    self.sent_packets.remove(&ack_sequence);
                },
                None => {},
            }
            proof {
                assert(notices@ =~= before + ack_notice(sent0, ack_sequence, acked_at(remote_ack_field, i as int)));
                assert(self.sent_packets@ =~= sent0.remove_keys(
                    Set::new(|s: u16| seq_diff(remote_ack_seq, s) < i + 1),
                ));
            }
            i = i + 1;
        }
        proof {
            if i <= SETTLE_SPAN {
                assert(self.sent_packets@.is_empty());
                assert forall|k: u16| sent0.contains_key(k) implies seq_diff(remote_ack_seq, k) < i by {
                    if seq_diff(remote_ack_seq, k) >= i {
                        assert(self.sent_packets@.contains_key(k));
                        assert(self.sent_packets@.dom().contains(k));
                    }
                }
                lemma_nothing_left(sent0, remote_ack_seq, remote_ack_field, (i - 1) as nat, 32767);
            }
            assert(self.sent_packets@ =~= sent_after_ack(sent0, remote_ack_seq));
        }
        stripped_message
    }

    fn notify_packet_delivered(&self, packet_sequence_number: u16, notices: &mut Vec<AckNotice>)
        ensures
            final(notices)@ == old(notices)@.push(AckNotice::Delivered(packet_sequence_number)),
    {
        notices.push(AckNotice::Delivered(packet_sequence_number));
    }

    fn notify_packet_dropped(&self, packet_sequence_number: u16, notices: &mut Vec<AckNotice>)
        ensures
            final(notices)@ == old(notices)@.push(AckNotice::Dropped(packet_sequence_number)),
    {
        notices.push(AckNotice::Dropped(packet_sequence_number));
    }
}

/// Once every packet in flight lies within `m` of `ras`, the notices for
/// farther numbers add nothing.
proof fn lemma_nothing_left(sent: Map<u16, SentPacket>, ras: u16, field: u32, m: nat, n: nat)
    requires
        m <= n <= 32767,
        forall|k: u16| sent.contains_key(k) ==> seq_diff(ras, k) <= m,
    ensures
        window_notices(sent, ras, field, n) == window_notices(sent, ras, field, m),
    decreases n,
{
    if n > m {
        lemma_nothing_left(sent, ras, field, m, (n - 1) as nat);
        let x = seq_back(ras, n as int);
        assert(seq_diff(ras, x) == n);
        assert(!sent.contains_key(x));
        assert(window_notices(sent, ras, field, n) =~= window_notices(sent, ras, field, (n - 1) as nat));
    }
}

/// The sequence number a notice is about.
pub open spec fn notice_seq(n: AckNotice) -> u16 {
    match n {
        AckNotice::Delivered(s) => s,
        AckNotice::Dropped(s) => s,
    }
}

/// How many notices of `ns` are about `s`.
pub open spec fn notices_for(ns: Seq<AckNotice>, s: u16) -> nat
    decreases ns.len(),
{
    if ns.len() == 0 {
        0
    } else {
        notices_for(ns.drop_last(), s) + (if notice_seq(ns.last()) == s {
            1nat
        } else {
            0nat
        })
    }
}

/// `s` is a Data packet in flight.
pub open spec fn data_in_flight(sent: Map<u16, SentPacket>, s: u16) -> bool {
    sent.contains_key(s) && sent[s].packet_type == PacketType::Data
}

proof fn lemma_notices_for_concat(a: Seq<AckNotice>, b: Seq<AckNotice>, s: u16)
    ensures
        notices_for(a + b, s) == notices_for(a, s) + notices_for(b, s),
    decreases b.len(),
{
    if b.len() == 0 {
        assert(a + b =~= a);
    } else {
        assert((a + b).drop_last() =~= a + b.drop_last());
        lemma_notices_for_concat(a, b.drop_last(), s);
    }
}

proof fn lemma_notices_for_one(sent: Map<u16, SentPacket>, x: u16, delivered: bool, s: u16)
    ensures
        notices_for(ack_notice(sent, x, delivered), s) == (if x == s && data_in_flight(sent, x) {
            1nat
        } else {
            0nat
        }),
{
    let ns = ack_notice(sent, x, delivered);
    if ns.len() > 0 {
        assert(ns.drop_last() =~= Seq::<AckNotice>::empty());
        assert(notices_for(Seq::<AckNotice>::empty(), s) == 0);
        assert(notice_seq(ns.last()) == x);
    } else {
        assert(notices_for(ns, s) == 0);
    }
}

proof fn lemma_window_notices_for(sent: Map<u16, SentPacket>, ras: u16, field: u32, n: nat, s: u16)
    requires
        n <= 32767,
    ensures
        notices_for(window_notices(sent, ras, field, n), s) == (if 1 <= seq_diff(ras, s) <= n
            && data_in_flight(sent, s) {
            1nat
        } else {
            0nat
        }),
    decreases n,
{
    if n > 0 {
        let x = seq_back(ras, n as int);
        lemma_window_notices_for(sent, ras, field, (n - 1) as nat, s);
        lemma_notices_for_concat(
            window_notices(sent, ras, field, (n - 1) as nat),
            ack_notice(sent, x, acked_at(field, n as int)),
            s,
        );
        lemma_notices_for_one(sent, x, acked_at(field, n as int), s);
        assert((x == s) == (seq_diff(ras, s) == n));
    }
}

/// An ack settles each packet exactly once: handling an ack of `ras` emits
/// one notice about `s` when `s` is a Data packet in flight at `ras` or
/// less than half the sequence space behind it, none otherwise, and leaves
/// nothing in flight in that range, so no later ack can emit a notice about
/// `s` again until `s` is sent anew. A packet the 32-bit window has passed
/// is thus declared dropped by the first ack that passes it.
pub proof fn lemma_ack_settles_once(sent: Map<u16, SentPacket>, ras: u16, field: u32, s: u16)
    ensures
        notices_for(incoming_notices(sent, ras, field), s) == (if settled_by(ras, s)
            && data_in_flight(sent, s) {
            1nat
        } else {
            0nat
        }),
        settled_by(ras, s) ==> !sent_after_ack(sent, ras).contains_key(s),
        !settled_by(ras, s) ==> sent_after_ack(sent, ras).contains_key(s) == sent.contains_key(s),
        !sent.contains_key(s) ==> notices_for(incoming_notices(sent, ras, field), s) == 0,
{
    lemma_notices_for_concat(ack_notice(sent, ras, true), window_notices(sent, ras, field, 32767), s);
    lemma_notices_for_one(sent, ras, true, s);
    lemma_window_notices_for(sent, ras, field, 32767, s);
    assert((ras == s) == (seq_diff(ras, s) == 0));
}

/// After a fresh manager has received distinct sequence numbers `rs`
/// (`bs` being its received-packet record after each one, as
/// `process_incoming` states), an outgoing header acks the largest of them
/// and sets bit `i` of its field exactly when `ack_seq - (i + 1)` is one of
/// them. Numbers are kept below 32735, where wrap-around order agrees with
/// integer order from a fresh start.
pub proof fn lemma_ack_header_reflects_receipts(
    bs: Seq<SequenceBuffer>,
    rs: Seq<u16>,
    a: AckManager,
    field: u32,
)
    requires
        rs.len() > 0,
        bs.len() == rs.len() + 1,
        bs[0].cap() == 33,
        bs[0].head() == 0,
        forall|t: u16| !#[trigger] bs[0].contains(t),
        forall|j: int| 0 <= j < rs.len() ==> inserted(#[trigger] bs[j], bs[j + 1], rs[j]),
        forall|j: int| 0 <= j < rs.len() ==> #[trigger] rs[j] < 32735,
        forall|x: int, y: int| 0 <= x < y < rs.len() ==> #[trigger] rs[x] != #[trigger] rs[y],
        a.received() == bs.last(),
        a.acks_received(field),
    ensures
        a.remote_seq() == max_seq(rs),
        forall|i: int|
            0 <= i < 32 ==> #[trigger] bit_set(field, i) == rs.contains(seq_back(a.remote_seq(), i + 1)),
{
    lemma_receipts_recorded(bs, rs);
    let m = max_seq(rs);
    let b = bs.last();
    assert(b.head() == m + 1);
    assert(a.remote_seq() == m);
    assert forall|i: int| 0 <= i < 32 implies #[trigger] bit_set(field, i) == rs.contains(
        seq_back(a.remote_seq(), i + 1),
    ) by {
        let t = seq_back(m as u16, i + 1);
        lemma_window_back(m, i);
        assert(b.contains(t) <==> rs.contains(t));
        assert(bit_set(field, i) == b.contains(t));
    }
}

/// Over any run of sends, each stamping the manager's local sequence and
/// advancing it as `process_outgoing` states (`ms[j + 1]` is `ms[j]` after
/// the send that stamped `hs[j]`), the stamped numbers are `s0, s0 + 1, ...`
/// modulo 2^16.
pub proof fn lemma_send_sequence(ms: Seq<AckManager>, hs: Seq<u16>)
    requires
        ms.len() == hs.len() + 1,
        forall|j: int| 0 <= j < hs.len() ==> #[trigger] hs[j] == ms[j].local_seq(),
        forall|j: int|
            0 <= j < hs.len() ==> #[trigger] ms[j + 1].local_seq() == seq_back(ms[j].local_seq(), -1),
    ensures
        forall|j: int| 0 <= j < hs.len() ==> #[trigger] hs[j] == (ms[0].local_seq() + j) % 65536,
        ms.last().local_seq() == (ms[0].local_seq() + hs.len()) % 65536,
    decreases hs.len(),
{
    if hs.len() > 0 {
        let k = hs.len() - 1;
        let mp = ms.drop_last();
        let hp = hs.drop_last();
        assert forall|j: int| 0 <= j < hp.len() implies #[trigger] hp[j] == mp[j].local_seq() by {
            assert(hs[j] == ms[j].local_seq());
        }
        assert forall|j: int| 0 <= j < hp.len() implies #[trigger] mp[j + 1].local_seq() == seq_back(
            mp[j].local_seq(),
            -1,
        ) by {
            assert(ms[j + 1].local_seq() == seq_back(ms[j].local_seq(), -1));
        }
        lemma_send_sequence(mp, hp);
        assert(mp.last() == ms[k]);
        assert(hs[k] == ms[k].local_seq());
        assert(ms[k + 1].local_seq() == seq_back(ms[k].local_seq(), -1));
        assert forall|j: int| 0 <= j < hs.len() implies #[trigger] hs[j] == (ms[0].local_seq() + j) % 65536 by {
            if j < k {
                assert(hp[j] == hs[j]);
            }
        }
    }
}

/// The positions of the set bits of an ack field.
pub open spec fn acked_positions(field: u32) -> Set<int> {
    Set::new(|i: int| 0 <= i < 32 && bit_set(field, i))
}

/// An outgoing ack field sets at most 32 bits: one for each of the 32
/// sequence numbers before the acked one that was received, and no other.
pub proof fn lemma_ack_field_bits(a: AckManager, field: u32)
    requires
        a.acks_received(field),
    ensures
        acked_positions(field) == Set::new(
            |i: int| 0 <= i < 32 && a.received().contains(seq_back(a.remote_seq(), i + 1)),
        ),
        acked_positions(field).finite(),
        acked_positions(field).len() <= 32,
{
    assert(acked_positions(field) =~= Set::new(
        |i: int| 0 <= i < 32 && a.received().contains(seq_back(a.remote_seq(), i + 1)),
    ));
    vstd::set_lib::lemma_int_range(0, 32);
    assert(acked_positions(field).subset_of(vstd::set_lib::set_int_range(0, 32)));
    vstd::set_lib::lemma_len_subset(acked_positions(field), vstd::set_lib::set_int_range(0, 32));
}

proof fn lemma_window_back(m: int, i: int)
    requires
        0 <= m < 32735,
        0 <= i < 32,
    ensures
        in_window((m + 1) as u16, 33, seq_back(m as u16, i + 1)),
{
    let t = seq_back(m as u16, i + 1);
    if m - i - 1 >= 0 {
        assert(t == m - i - 1);
    } else {
        assert(t == m - i - 1 + 65536);
    }
}

/// No bit of zero is set.
proof fn lemma_zero_bits()
    ensures
        forall|j: int| 0 <= j < 32 ==> !#[trigger] bit_set(0u32, j),
{
    assert forall|j: int| 0 <= j < 32 implies !#[trigger] bit_set(0u32, j) by {
        let jj = j as u32;
        assert((0u32 >> jj) & 1u32 != 1u32) by (bit_vector);
    }
}

/// Setting bit `k` of `b` changes that bit alone.
proof fn lemma_set_bit(b: u32, k: u32)
    requires
        k < 32,
    ensures
        forall|j: int|
            0 <= j < 32 ==> #[trigger] bit_set(b | (1u32 << k), j) == (j == k || bit_set(b, j)),
{
    assert forall|j: int| 0 <= j < 32 implies #[trigger] bit_set(b | (1u32 << k), j) == (j == k
        || bit_set(b, j)) by {
        let jj = j as u32;
        assert(((b | (1u32 << k)) >> jj) & 1u32 == 1u32 <==> (jj == k || (b >> jj) & 1u32 == 1u32))
            by (bit_vector)
            requires
                k < 32,
                jj < 32,
        ;
    }
}

} // verus!
