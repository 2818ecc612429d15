//! The client side's connection to the server: event packing on send,
//! event sections on receive.

use crate::ack_manager::AckNotice;
use crate::connection::{carried_in, Connection, EventsView};
use crate::packet_reader::PacketReader;
use crate::packet_writer::{ManagerType, NetEvent};
use crate::timer::{rings, Timer};
use crate::event_manager::event_view;
use crate::packet_writer::{event_item, section, PacketWriter, MTU_SIZE};
use crate::sequence::seq_back;
use crate::standard_header::{header_bytes, header_of, PacketType};
use vstd::prelude::*;

verus! {

/// Wire form of an event given as a value.
pub open spec fn event_item_of(e: (u16, Seq<u8>)) -> Seq<u8> {
    crate::bytes::be16(e.0) + seq![e.1.len() as u8] + e.1
}

/// The wire forms of `evs`, one after the other.
pub open spec fn event_items(evs: EventsView) -> Seq<u8>
    decreases evs.len(),
{
    if evs.len() == 0 {
        Seq::empty()
    } else {
        event_items(evs.drop_last()) + event_item_of(evs.last())
    }
}

/// `b` starts with a well-formed event section holding `evs`: a count
/// byte, then each event's wire form, each payload at most 255 bytes.
pub open spec fn starts_with_events(b: Seq<u8>, evs: EventsView) -> bool {
    &&& evs.len() <= 255
    &&& forall|i: int| 0 <= i < evs.len() ==> #[trigger] evs[i].1.len() <= 255
    &&& 1 + event_items(evs).len() <= b.len()
    &&& b.subrange(0, 1 + event_items(evs).len() as int) == seq![evs.len() as u8] + event_items(evs)
}

/// The wire forms of two lists of events, one after the other.
pub proof fn lemma_event_items_concat(a: EventsView, b: EventsView)
    ensures
        event_items(a + b) == event_items(a) + event_items(b),
    decreases b.len(),
{
    if b.len() == 0 {
        assert(a + b =~= a);
        assert(event_items(a) + event_items(b) =~= event_items(a));
    } else {
        assert((a + b).drop_last() =~= a + b.drop_last());
        lemma_event_items_concat(a, b.drop_last());
        assert(event_items(a + b) =~= event_items(a) + event_items(b));
    }
}

/// The wire form of `evs` is at least three bytes per event.
pub proof fn lemma_event_items_len(evs: EventsView)
    ensures
        event_items(evs).len() >= 3 * evs.len(),
    decreases evs.len(),
{
    if evs.len() > 0 {
        lemma_event_items_len(evs.drop_last());
    }
}

/// Where event `i`'s wire form lies in the wire form of `evs`.
pub proof fn lemma_event_item_at(evs: EventsView, i: int)
    requires
        0 <= i < evs.len(),
    ensures
        event_items(evs.take(i + 1)) == event_items(evs.take(i)) + event_item_of(evs[i]),
        event_items(evs.take(i)).len() + event_item_of(evs[i]).len() <= event_items(evs).len(),
        event_items(evs).subrange(
            event_items(evs.take(i)).len() as int,
            event_items(evs.take(i)).len() + event_item_of(evs[i]).len() as int,
        ) == event_item_of(evs[i]),
{
    assert(evs.take(i + 1).drop_last() =~= evs.take(i));
    assert(evs =~= evs.take(i + 1) + evs.skip(i + 1));
    lemma_event_items_concat(evs.take(i + 1), evs.skip(i + 1));
    let pre = event_items(evs.take(i));
    let it = event_item_of(evs[i]);
    let all = event_items(evs);
    assert(all =~= pre + it + event_items(evs.skip(i + 1)));
    assert(all.subrange(pre.len() as int, pre.len() + it.len() as int) =~= it);
}

/// Whether event `j` of `evs` is accepted by a writer that holds the
/// events before it, `used` item bytes in all.
pub open spec fn event_fits(evs: EventsView, j: nat, used: nat) -> bool {
    &&& j < 255
    &&& evs[j as int].1.len() <= 255
    &&& used + event_item_of(evs[j as int]).len() + (if j == 0 {
        2nat
    } else {
        0nat
    }) < MTU_SIZE
}

/// How many events of `evs`, taken in order from the `j`-th, a writer
/// accepts before the first refusal.
pub open spec fn events_packed(evs: EventsView, j: nat, used: nat) -> nat
    decreases evs.len() - j,
{
    if j >= evs.len() {
        j
    } else if event_fits(evs, j, used) {
        events_packed(evs, j + 1, used + event_item_of(evs[j as int]).len())
    } else {
        j
    }
}

/// The writer never packs fewer events than it has already accepted.
proof fn lemma_packed_at_least(evs: EventsView, j: nat, used: nat)
    ensures
        events_packed(evs, j, used) >= j,
    decreases evs.len() - j,
{
    if j < evs.len() && event_fits(evs, j, used) {
        lemma_packed_at_least(evs, j + 1, used + event_item_of(evs[j as int]).len());
    }
}

/// A client's connection to the server.
#[derive(Debug)]
pub struct ServerConnection {
    connection: Connection,
}

impl ServerConnection {
    pub closed spec fn conn(&self) -> Connection {
        self.connection
    }

    /// A connection whose heartbeat and timeout periods are given in
    /// milliseconds, with both timers started at `now_ms`.
    pub fn new(heartbeat_interval_ms: u64, disconnection_timeout_ms: u64, now_ms: u64) -> (r: ServerConnection)
        ensures
            r.conn().wf(),
            r.conn().heartbeat() == (crate::timer::Timer { duration_ms: heartbeat_interval_ms, last_ms: now_ms }),
            r.conn().timeout() == (crate::timer::Timer { duration_ms: disconnection_timeout_ms, last_ms: now_ms }),
            r.conn().acks().local_seq() == 0,
            r.conn().acks().remote_ack() == 65535,
            r.conn().acks().received().head() == 0,
            r.conn().acks().received().cap() == 33,
            forall|t: u16| !r.conn().acks().received().contains(t),
            r.conn().acks().sent() == Map::<u16, crate::ack_manager::SentPacket>::empty(),
            r.conn().events().outgoing() == Seq::<(u16, Seq<u8>)>::empty(),
            r.conn().events().incoming() == Seq::<(u16, Seq<u8>)>::empty(),
            r.conn().events().in_flight() == Map::<u16, EventsView>::empty(),
    {
        ServerConnection { connection: Connection::new(heartbeat_interval_ms, disconnection_timeout_ms, now_ms) }
    }

    /// Packs as many queued events as fit, oldest first, into one Data
    /// packet stamped with the next sequence number; the packet records
    /// which events it carries. Returns `None`, with the queue as it was,
    /// when no event is queued or the oldest one does not fit.
    pub fn get_outgoing_packet(&mut self) -> (r: Option<Vec<u8>>)
        requires
            old(self).conn().wf(),
        ensures
            final(self).conn().wf(),
            ({
                let out0 = old(self).conn().events().outgoing();
                let k = events_packed(out0, 0, 0);
                let idx = old(self).conn().acks().local_seq();
                &&& final(self).conn().events().outgoing() == out0.skip(k as int)
                &&& forall|i: u16| #[trigger] carried_in(final(self).conn().events().in_flight(), i) == if i == idx {
                    carried_in(old(self).conn().events().in_flight(), i) + out0.take(k as int)
                } else {
                    carried_in(old(self).conn().events().in_flight(), i)
                }
                &&& out0.len() > 0 ==> k > 0
                &&& k == 0 ==> r is None && final(self).conn().acks() == old(self).conn().acks()
                &&& k > 0 ==> {
                    &&& r is Some
                    &&& r->0@ == header_bytes(header_of(r->0@)) + section(1, k as u8, event_items(out0.take(k as int)))
                    &&& header_of(r->0@).packet_type == PacketType::Data
                    &&& header_of(r->0@).sequence == idx
                    &&& header_of(r->0@).ack_seq == old(self).conn().acks().remote_seq()
                    &&& old(self).conn().acks().acks_received(header_of(r->0@).ack_field)
                    &&& final(self).conn().acks().local_seq() == seq_back(idx, -1)
                }
            }),
            final(self).conn().events().incoming() == old(self).conn().events().incoming(),
            final(self).conn().heartbeat() == old(self).conn().heartbeat(),
            final(self).conn().timeout() == old(self).conn().timeout(),
    {
        let ghost out0 = self.connection.events().outgoing();
        let ghost fl0 = self.connection.events().in_flight();
        proof {
            if out0.len() > 0 {
                assert(out0[0].1.len() <= 255);
                assert(event_fits(out0, 0, 0));
                lemma_packed_at_least(out0, 1, event_item_of(out0[0]).len());
            }
        }
        let ghost acks0 = self.connection.acks();
        let next_packet_index: u16 = self.connection.get_next_packet_index();
        let mut writer = PacketWriter::new();
        if self.connection.has_outgoing_events() {
            let ghost mut j: nat = 0;
            let mut done = false;
            proof {
                assert(out0.take(0) =~= Seq::<(u16, Seq<u8>)>::empty());
                assert(out0.skip(0) =~= out0);
            }
            while !done
                invariant
                    j <= out0.len(),
                    self.connection.events().outgoing() == out0.skip(j as int),
                    self.connection.events().incoming() == old(self).conn().events().incoming(),
                    self.connection.acks() == acks0,
                    acks0.wf(),
                    self.connection.events().wf(),
                    next_packet_index == acks0.local_seq(),
                    self.connection.heartbeat() == old(self).conn().heartbeat(),
                    self.connection.timeout() == old(self).conn().timeout(),
                    writer.wf(),
                    writer.events_count() == j,
                    writer.events() == event_items(out0.take(j as int)),
                    writer.entities_count() == 0,
                    writer.entities() == Seq::<u8>::empty(),
                    events_packed(out0, 0, 0) == (if done {
                        j
                    } else {
                        events_packed(out0, j, writer.working_len())
                    }),
                    forall|i: u16| #[trigger] carried_in(self.connection.events().in_flight(), i) == if i
                        == next_packet_index {
                        carried_in(fl0, i) + out0.take(j as int)
                    } else {
                        carried_in(fl0, i)
                    },
                decreases self.connection.events().outgoing().len() + (if done {
                    0int
                } else {
                    1int
                }),
            {
                let ghost fl_before = self.connection.events().in_flight();
                assert(self.connection.events().carried(next_packet_index) == carried_in(fl_before, next_packet_index));
                match self.connection.pop_outgoing_event(next_packet_index) {
                    Some(popped_event) => {
                        proof {
                            assert(event_item(popped_event) =~= event_item_of(out0[j as int]));
                        }
                        if writer.write_event(&popped_event) {
                            proof {
                                assert(out0.take(j + 1int).drop_last() =~= out0.take(j as int));
                                assert(carried_in(fl0, next_packet_index) + out0.take(j + 1int) =~= (
                                carried_in(fl0, next_packet_index) + out0.take(j as int)).push(out0[j as int]));
                                assert(out0.skip(j as int).drop_first() =~= out0.skip(j + 1int));
                                j = j + 1;
                                assert forall|i: u16| #[trigger] carried_in(self.connection.events().in_flight(), i) == if i
                                    == next_packet_index {
                                    carried_in(fl0, i) + out0.take(j as int)
                                } else {
                                    carried_in(fl0, i)
                                } by {
                                    if i == next_packet_index {
                                    } else {
                                        assert(carried_in(fl_before, i) == carried_in(fl0, i));
                                    }
                                }
                            }
                        } else {
                            self.connection.unpop_outgoing_event(next_packet_index, &popped_event);
                            proof {
                                let c = carried_in(fl0, next_packet_index) + out0.take(j as int);
                                assert(c.push(out0[j as int]).drop_last() =~= c);
                                assert forall|i: u16| #[trigger] carried_in(self.connection.events().in_flight(), i) == if i
                                    == next_packet_index {
                                    carried_in(fl0, i) + out0.take(j as int)
                                } else {
                                    carried_in(fl0, i)
                                } by {
                                    if i == next_packet_index {
                                    } else {
                                        assert(carried_in(fl_before, i) == carried_in(fl0, i));
                                    }
                                }
                                assert(seq![out0[j as int]] + out0.skip(j + 1int) =~= out0.skip(j as int));
                            }
                            done = true;
                        }
                    },
                    None => {
                        done = true;
                    },
                }
            }
        } else {
            proof {
                assert(out0.skip(0) =~= out0);
                assert(out0.take(0) =~= Seq::<(u16, Seq<u8>)>::empty());
            }
        }
        if writer.has_bytes() {
            let out_bytes = writer.get_bytes();
            let payload = self.connection.process_outgoing_header(PacketType::Data, out_bytes.as_slice());
            return Some(payload);
        }
        None
    }

    /// Reads a received body: an event section first, if the body starts
    /// with one, whose events are queued as received. Returns the bytes
    /// left after it, which belong to the entity section, or `None`, with
    /// nothing queued, when the body is empty, starts with a byte that is
    /// no section kind, or its event section is truncated or names a type
    /// id that is not among `known_event_ids`.
    pub fn process_incoming_data(&mut self, data: Vec<u8>, known_event_ids: &[u16]) -> (r: Option<Vec<u8>>)
        ensures
            data@.len() == 0 ==> r is None,
            r is None ==> final(self).conn().events().incoming() == old(self).conn().events().incoming(),
            data@.len() > 0 && data@[0] == 2 ==> r is Some && r->0@ == data@.subrange(1, data@.len() as int)
                && final(self).conn() == old(self).conn(),
            data@.len() > 0 && data@[0] != 1 && data@[0] != 2 ==> r is None && final(self).conn() == old(
                self,
            ).conn(),
            data@.len() > 0 && data@[0] == 1 && r is Some ==> exists|evs: EventsView, n: int| {
                &&& 1 <= n <= data@.len()
                &&& #[trigger] final(self).conn().events().incoming() == old(self).conn().events().incoming() + evs
                &&& data@.subrange(1, n) == seq![evs.len() as u8] + event_items(evs)
                &&& crate::connection::ids_known(evs, known_event_ids@)
                &&& r->0@ == data@.subrange(n, data@.len() as int)
            },
            forall|evs: EventsView|
                data@.len() > 0 && data@[0] == 1 && #[trigger] starts_with_events(
                    data@.subrange(1, data@.len() as int),
                    evs,
                ) && !crate::connection::ids_known(evs, known_event_ids@) ==> r is None,
            forall|evs: EventsView|
                data@.len() > 0 && data@[0] == 1 && #[trigger] starts_with_events(
                    data@.subrange(1, data@.len() as int),
                    evs,
                ) && crate::connection::ids_known(evs, known_event_ids@) ==> r is Some && final(self).conn().events().incoming() == old(self).conn().events().incoming()
                    + evs && r->0@ == data@.subrange(2 + event_items(evs).len() as int, data@.len() as int),
            final(self).conn().events().outgoing() == old(self).conn().events().outgoing(),
            final(self).conn().events().in_flight() == old(self).conn().events().in_flight(),
            final(self).conn().acks() == old(self).conn().acks(),
    {
        let ghost d = data@;
        let mut reader = PacketReader::new(data);
        let start_manager_type = match reader.read_u8() {
            Some(b) => ManagerType::from_byte(b),
            None => return None,
        };
        let ghost mut evs: EventsView = Seq::empty();
        assert(reader.rest() =~= d.subrange(1, d.len() as int));
        if start_manager_type == ManagerType::Unknown {
            return None;
        }
        if start_manager_type == ManagerType::Event {
            if !self.connection.process_event_data(&mut reader, known_event_ids) {
                return None;
            }
            proof {
                evs = choose|e: EventsView| {
                    &&& #[trigger] self.connection.events().incoming() == old(self).conn().events().incoming() + e
                    &&& data@.subrange(1, reader.pos() as int) == seq![e.len() as u8] + event_items(e)
                    &&& crate::connection::ids_known(e, known_event_ids@)
                };
            }
        }
        let ghost n = reader.pos() as int;
        let rest = match reader.read_bytes(reader_remaining(&reader)) {
            Some(b) => b,
            None => return None,
        };
        proof {
            if start_manager_type == ManagerType::Event {
                assert(1 <= n <= data@.len());
                assert(self.connection.events().incoming() == old(self).conn().events().incoming() + evs);
            }
        }
        Some(rest)
    }

    /// Restarts the heartbeat period at `now_ms`.
    pub fn mark_sent(&mut self, now_ms: u64)
        ensures
            final(self).conn().heartbeat() == (Timer { duration_ms: old(self).conn().heartbeat().duration_ms, last_ms: now_ms }),
            final(self).conn().timeout() == old(self).conn().timeout(),
            final(self).conn().acks() == old(self).conn().acks(),
            final(self).conn().events() == old(self).conn().events(),
    {
        self.connection.mark_sent(now_ms)
    }

    /// Whether a heartbeat is due at `now_ms`.
    pub fn should_send_heartbeat(&self, now_ms: u64) -> (r: bool)
        ensures
            r == rings(self.conn().heartbeat().duration_ms, self.conn().heartbeat().last_ms, now_ms),
    {
        self.connection.should_send_heartbeat(now_ms)
    }

    /// Restarts the silence period at `now_ms`.
    pub fn mark_heard(&mut self, now_ms: u64)
        ensures
            final(self).conn().timeout() == (Timer { duration_ms: old(self).conn().timeout().duration_ms, last_ms: now_ms }),
            final(self).conn().heartbeat() == old(self).conn().heartbeat(),
            final(self).conn().acks() == old(self).conn().acks(),
            final(self).conn().events() == old(self).conn().events(),
    {
        self.connection.mark_heard(now_ms)
    }

    /// Whether the server has been silent too long at `now_ms`.
    pub fn should_drop(&self, now_ms: u64) -> (r: bool)
        ensures
            r == rings(self.conn().timeout().duration_ms, self.conn().timeout().last_ms, now_ms),
    {
        self.connection.should_drop(now_ms)
    }

    /// Handles an incoming datagram's header (see
    /// `Connection::process_incoming_header`).
    pub fn process_incoming_header(&mut self, payload: &[u8], now_ms: u64, notices: &mut Vec<AckNotice>) -> (r: Option<Vec<u8>>)
        requires
            old(self).conn().wf(),
        ensures
            final(self).conn().wf(),
            crate::connection::refused_datagram(payload@) ==> r is None && final(self).conn() == old(self).conn()
                && final(notices)@ == old(notices)@,
            !crate::connection::refused_datagram(payload@) ==> {
                let h = header_of(payload@);
                let ns = crate::ack_manager::incoming_notices(old(self).conn().acks().sent(), h.ack_seq, h.ack_field);
                let applied = crate::connection::apply_notices(
                    old(self).conn().events().outgoing(),
                    old(self).conn().events().in_flight(),
                    ns,
                );
                &&& r is Some
                &&& r->0@ == payload@.subrange(9, payload@.len() as int)
                &&& final(notices)@ == old(notices)@ + ns
                &&& final(self).conn().acks().sent() == crate::ack_manager::sent_after_ack(
                    old(self).conn().acks().sent(),
                    h.ack_seq,
                )
                &&& crate::sequence_buffer::inserted(
                    old(self).conn().acks().received(),
                    final(self).conn().acks().received(),
                    h.sequence,
                )
                &&& final(self).conn().acks().local_seq() == old(self).conn().acks().local_seq()
                &&& final(self).conn().events().outgoing() == applied.0
                &&& final(self).conn().events().in_flight() == applied.1
                &&& final(self).conn().events().incoming() == old(self).conn().events().incoming()
                &&& final(self).conn().timeout() == (Timer {
                    duration_ms: old(self).conn().timeout().duration_ms,
                    last_ms: now_ms,
                })
                &&& final(self).conn().heartbeat() == old(self).conn().heartbeat()
            },
    {
        self.connection.process_incoming_header(payload, now_ms, notices)
    }

    /// Frames `payload` for sending (see `Connection::process_outgoing_header`).
    pub fn process_outgoing_header(&mut self, packet_type: PacketType, payload: &[u8]) -> (r: Vec<u8>)
        requires
            old(self).conn().wf(),
        ensures
            final(self).conn().wf(),
            r@ == header_bytes(header_of(r@)) + payload@,
            header_of(r@).packet_type == packet_type,
            header_of(r@).sequence == old(self).conn().acks().local_seq(),
            header_of(r@).ack_seq == old(self).conn().acks().remote_seq(),
            old(self).conn().acks().acks_received(header_of(r@).ack_field),
            final(self).conn().acks().local_seq() == seq_back(old(self).conn().acks().local_seq(), -1),
            final(self).conn().acks().sent() == old(self).conn().acks().sent().insert(
                old(self).conn().acks().local_seq(),
                crate::ack_manager::SentPacket { id: old(self).conn().acks().local_seq() as u32, packet_type },
            ),
            final(self).conn().acks().received() == old(self).conn().acks().received(),
            final(self).conn().events() == old(self).conn().events(),
            final(self).conn().heartbeat() == old(self).conn().heartbeat(),
            final(self).conn().timeout() == old(self).conn().timeout(),
    {
        self.connection.process_outgoing_header(packet_type, payload)
    }

    /// The sequence number the next outgoing packet gets.
    pub fn get_next_packet_index(&self) -> (r: u16)
        ensures
            r == self.conn().acks().local_seq(),
    {
        self.connection.get_next_packet_index()
    }

    /// Queues an event for sending; an event whose payload does not fit a
    /// length byte is dropped, and `false` reports it.
    pub fn queue_event(&mut self, event: &NetEvent) -> (r: bool)
        requires
            old(self).conn().wf(),
        ensures
            final(self).conn().wf(),
            r == (event.payload@.len() <= crate::event_manager::MAX_EVENT_PAYLOAD),
            r ==> final(self).conn().events().outgoing() == old(self).conn().events().outgoing().push(
                event_view(*event),
            ),
            !r ==> final(self).conn().events().outgoing() == old(self).conn().events().outgoing(),
            final(self).conn().events().incoming() == old(self).conn().events().incoming(),
            final(self).conn().events().in_flight() == old(self).conn().events().in_flight(),
            final(self).conn().acks() == old(self).conn().acks(),
    {
        self.connection.queue_event(event)
    }

    /// Takes the oldest received event.
    pub fn get_incoming_event(&mut self) -> (r: Option<NetEvent>)
        ensures
            old(self).conn().events().incoming().len() == 0 ==> r is None && final(self).conn().events().incoming()
                == old(self).conn().events().incoming(),
            old(self).conn().events().incoming().len() > 0 ==> r is Some && event_view(r->0) == old(
                self,
            ).conn().events().incoming()[0] && final(self).conn().events().incoming() == old(self).conn().events().incoming().drop_first(),
            final(self).conn().events().outgoing() == old(self).conn().events().outgoing(),
            final(self).conn().acks() == old(self).conn().acks(),
    {
        self.connection.get_incoming_event()
    }
}

/// Number of bytes `reader` has not read yet.
fn reader_remaining(reader: &PacketReader) -> (r: usize)
    requires
        reader.wf(),
    ensures
        r == reader.bytes().len() - reader.pos(),
{
    reader.remaining()
}

} // verus!
