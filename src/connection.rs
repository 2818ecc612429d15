//! The per-peer façade: acknowledgements, event queues and liveness timers.

use crate::ack_manager::{AckManager, AckNotice, incoming_notices, sent_after_ack};
use crate::event_manager::{EventManager, event_view};
use crate::packet_reader::PacketReader;
use crate::packet_writer::NetEvent;
use crate::sequence::{seq_back, SequenceNumber};
use crate::standard_header::{header_of, PacketType, HEADER_BYTES};
use crate::server_connection::{event_item_of, event_items, lemma_event_item_at, starts_with_events};
use crate::timer::{rings, Timer};
use vstd::prelude::*;

verus! {

/// Outgoing queue and per-packet record of an event manager, as values.
pub type EventsView = Seq<(u16, Seq<u8>)>;

/// The events packet `s` carries in `fl`.
pub open spec fn carried_in(fl: Map<u16, EventsView>, s: u16) -> EventsView {
    if fl.contains_key(s) {
        fl[s]
    } else {
        Seq::empty()
    }
}

/// The outgoing queue and per-packet record after one notice: a delivered
/// packet's events are forgotten, a dropped packet's go back in the queue.
pub open spec fn apply_notice(out: EventsView, fl: Map<u16, EventsView>, n: AckNotice) -> (
    EventsView,
    Map<u16, EventsView>,
) {
    match n {
        AckNotice::Delivered(s) => (out, fl.remove(s)),
        AckNotice::Dropped(s) => (out + carried_in(fl, s), fl.remove(s)),
    }
}

/// `apply_notice` over a list of notices, first to last.
pub open spec fn apply_notices(out: EventsView, fl: Map<u16, EventsView>, ns: Seq<AckNotice>) -> (
    EventsView,
    Map<u16, EventsView>,
)
    decreases ns.len(),
{
    if ns.len() == 0 {
        (out, fl)
    } else {
        let prev = apply_notices(out, fl, ns.drop_last());
        apply_notice(prev.0, prev.1, ns.last())
    }
}

/// A datagram that is dropped before its header is applied: too short to
/// hold a header, or a Heartbeat that carries a body.
pub open spec fn refused_datagram(p: Seq<u8>) -> bool {
    p.len() < 9 || (p[0] == 2 && p.len() > 9)
}

/// One peer's connection state.
#[derive(Debug)]
pub struct Connection {
    heartbeat_manager: Timer,
    timeout_manager: Timer,
    ack_manager: AckManager,
    event_manager: EventManager,
}

impl Connection {
    pub closed spec fn heartbeat(&self) -> Timer {
        self.heartbeat_manager
    }

    pub closed spec fn timeout(&self) -> Timer {
        self.timeout_manager
    }

    pub closed spec fn acks(&self) -> AckManager {
        self.ack_manager
    }

    pub closed spec fn events(&self) -> EventManager {
        self.event_manager
    }

    pub open spec fn wf(&self) -> bool {
        self.acks().wf() && self.events().wf()
    }

    /// A connection with fresh ack state and empty queues, both timers
    /// started at `now_ms`.
    pub fn new(heartbeat_interval_ms: u64, timeout_duration_ms: u64, now_ms: u64) -> (r: Connection)
        ensures
            r.wf(),
            r.heartbeat() == (Timer { duration_ms: heartbeat_interval_ms, last_ms: now_ms }),
            r.timeout() == (Timer { duration_ms: timeout_duration_ms, last_ms: now_ms }),
            r.acks().local_seq() == 0,
            r.acks().remote_ack() == 65535,
            r.acks().received().head() == 0,
            r.acks().received().cap() == 33,
            forall|t: u16| !r.acks().received().contains(t),
            r.acks().sent() == Map::<u16, crate::ack_manager::SentPacket>::empty(),
            r.events().outgoing() == Seq::<(u16, Seq<u8>)>::empty(),
            r.events().incoming() == Seq::<(u16, Seq<u8>)>::empty(),
            r.events().in_flight() == Map::<u16, EventsView>::empty(),
    {
        Connection {
            heartbeat_manager: Timer::new(heartbeat_interval_ms, now_ms),
            timeout_manager: Timer::new(timeout_duration_ms, now_ms),
            ack_manager: AckManager::new(),
            event_manager: EventManager::new(),
        }
    }

    /// A packet went out at `now_ms`: the heartbeat period restarts.
    pub fn mark_sent(&mut self, now_ms: u64)
        ensures
            final(self).heartbeat() == (Timer { duration_ms: old(self).heartbeat().duration_ms, last_ms: now_ms }),
            final(self).timeout() == old(self).timeout(),
            final(self).acks() == old(self).acks(),
            final(self).events() == old(self).events(),
    {
        self.heartbeat_manager.reset(now_ms);
    }

    /// Whether nothing has been sent for longer than the heartbeat interval.
    pub fn should_send_heartbeat(&self, now_ms: u64) -> (r: bool)
        ensures
            r == rings(self.heartbeat().duration_ms, self.heartbeat().last_ms, now_ms),
    {
        self.heartbeat_manager.ringing(now_ms)
    }

    /// A valid packet arrived at `now_ms`: the silence period restarts.
    pub fn mark_heard(&mut self, now_ms: u64)
        ensures
            final(self).timeout() == (Timer { duration_ms: old(self).timeout().duration_ms, last_ms: now_ms }),
            final(self).heartbeat() == old(self).heartbeat(),
            final(self).acks() == old(self).acks(),
            final(self).events() == old(self).events(),
    {
        self.timeout_manager.reset(now_ms);
    }

    /// Whether the peer has been silent for longer than the timeout.
    pub fn should_drop(&self, now_ms: u64) -> (r: bool)
        ensures
            r == rings(self.timeout().duration_ms, self.timeout().last_ms, now_ms),
    {
        self.timeout_manager.ringing(now_ms)
    }

    /// The sequence number the next outgoing packet gets.
    pub fn get_next_packet_index(&self) -> (r: SequenceNumber)
        ensures
            r == self.acks().local_seq(),
    {
        self.ack_manager.local_sequence_num()
    }

    /// Frames `payload` for sending (see `AckManager::process_outgoing`).
    pub fn process_outgoing_header(&mut self, packet_type: PacketType, payload: &[u8]) -> (r: Vec<u8>)
        requires
            old(self).wf(),
        ensures
            final(self).wf(),
            r@ == crate::standard_header::header_bytes(header_of(r@)) + payload@,
            header_of(r@).packet_type == packet_type,
            header_of(r@).sequence == old(self).acks().local_seq(),
            header_of(r@).ack_seq == old(self).acks().remote_seq(),
            old(self).acks().acks_received(header_of(r@).ack_field),
            final(self).acks().local_seq() == seq_back(old(self).acks().local_seq(), -1),
            final(self).acks().sent() == old(self).acks().sent().insert(
                old(self).acks().local_seq(),
                crate::ack_manager::SentPacket { id: old(self).acks().local_seq() as u32, packet_type },
            ),
            final(self).acks().received() == old(self).acks().received(),
            final(self).events() == old(self).events(),
            final(self).heartbeat() == old(self).heartbeat(),
            final(self).timeout() == old(self).timeout(),
    {
        self.ack_manager.process_outgoing(packet_type, payload)
    }

    /// Handles an incoming datagram's header. A datagram shorter than a
    /// header, or a Heartbeat with a body, is refused with nothing changed. Otherwise the ack state is
    /// updated, the notices it yields are appended to `notices` and applied
    /// to the event queues (a dropped packet's events are queued again),
    /// the silence period restarts at `now_ms`, and the body is returned.
    pub fn process_incoming_header(
        &mut self,
        payload: &[u8],
        now_ms: u64,
        notices: &mut Vec<AckNotice>,
    ) -> (r: Option<Vec<u8>>)
        requires
            old(self).wf(),
        ensures
            final(self).wf(),
            refused_datagram(payload@) ==> r is None && *final(self) == *old(self) && final(notices)@ == old(notices)@,
            !refused_datagram(payload@) ==> {
                let h = header_of(payload@);
                let ns = incoming_notices(old(self).acks().sent(), h.ack_seq, h.ack_field);
                let applied = apply_notices(old(self).events().outgoing(), old(self).events().in_flight(), ns);
                &&& r is Some
                &&& r->0@ == payload@.subrange(9, payload@.len() as int)
                &&& final(notices)@ == old(notices)@ + ns
                &&& final(self).acks().sent() == sent_after_ack(old(self).acks().sent(), h.ack_seq)
                &&& crate::sequence_buffer::inserted(old(self).acks().received(), final(self).acks().received(), h.sequence)
                &&& final(self).acks().local_seq() == old(self).acks().local_seq()
                &&& final(self).events().outgoing() == applied.0
                &&& final(self).events().in_flight() == applied.1
                &&& final(self).events().incoming() == old(self).events().incoming()
                &&& final(self).timeout() == (Timer { duration_ms: old(self).timeout().duration_ms, last_ms: now_ms })
                &&& final(self).heartbeat() == old(self).heartbeat()
            },
    {
        if payload.len() < HEADER_BYTES {
            return None;
        }
        if PacketType::from_byte(payload[0]) == PacketType::Heartbeat && payload.len() > HEADER_BYTES {
            return None;
        }
        let mut fresh: Vec<AckNotice> = Vec::new();
        let body = self.ack_manager.process_incoming(payload, &mut fresh);
        let ghost ns = fresh@;
        let ghost out0 = self.event_manager.outgoing();
        let ghost fl0 = self.event_manager.in_flight();
        let ghost acks1 = self.ack_manager;
        let mut i: usize = 0;
        while i < fresh.len()
            invariant
                i <= fresh@.len(),
                fresh@ == ns,
                notices@ == old(notices)@ + ns.subrange(0, i as int),
                (self.event_manager.outgoing(), self.event_manager.in_flight()) == apply_notices(
                    out0,
                    fl0,
                    ns.subrange(0, i as int),
                ),
                self.event_manager.incoming() == old(self).events().incoming(),
                self.ack_manager == acks1,
                acks1.wf(),
                self.event_manager.wf(),
                self.heartbeat_manager == old(self).heartbeat_manager,
                self.timeout_manager == old(self).timeout_manager,
            decreases fresh@.len() - i,
        {
            let n = fresh[i];
            match n {
                AckNotice::Delivered(s) => self.event_manager.notify_packet_delivered(s),
                AckNotice::Dropped(s) => self.event_manager.notify_packet_dropped(s),
            }
            notices.push(n);
            proof {
                assert(ns.subrange(0, i + 1).drop_last() =~= ns.subrange(0, i as int));
                assert(notices@ =~= old(notices)@ + ns.subrange(0, i + 1));
            }
            i = i + 1;
        }
        proof {
            assert(ns.subrange(0, ns.len() as int) =~= ns);
        }
        self.mark_heard(now_ms);
        Some(body)
    }

    /// Queues an event for sending; an event whose payload does not fit a
    /// length byte is dropped, and `false` reports it.
    pub fn queue_event(&mut self, event: &NetEvent) -> (r: bool)
        requires
            old(self).wf(),
        ensures
            final(self).wf(),
            r == (event.payload@.len() <= crate::event_manager::MAX_EVENT_PAYLOAD),
            r ==> final(self).events().outgoing() == old(self).events().outgoing().push(event_view(*event)),
            !r ==> final(self).events().outgoing() == old(self).events().outgoing(),
            final(self).events().incoming() == old(self).events().incoming(),
            final(self).events().in_flight() == old(self).events().in_flight(),
            final(self).acks() == old(self).acks(),
            final(self).heartbeat() == old(self).heartbeat(),
            final(self).timeout() == old(self).timeout(),
    {
        self.event_manager.queue_event(event)
    }

    /// Takes the oldest outgoing event for packet `packet_index` (see
    /// `EventManager::pop_outgoing_event`).
    pub fn pop_outgoing_event(&mut self, packet_index: u16) -> (r: Option<NetEvent>)
        requires
            old(self).wf(),
        ensures
            final(self).wf(),
            old(self).events().outgoing().len() == 0 ==> r is None && *final(self) == *old(self),
            old(self).events().outgoing().len() > 0 ==> {
                &&& r is Some
                &&& event_view(r->0) == old(self).events().outgoing()[0]
                &&& final(self).events().outgoing() == old(self).events().outgoing().drop_first()
                &&& final(self).events().in_flight() == old(self).events().in_flight().insert(
                    packet_index,
                    old(self).events().carried(packet_index).push(old(self).events().outgoing()[0]),
                )
            },
            final(self).events().incoming() == old(self).events().incoming(),
            final(self).acks() == old(self).acks(),
            final(self).heartbeat() == old(self).heartbeat(),
            final(self).timeout() == old(self).timeout(),
    {
        self.event_manager.pop_outgoing_event(packet_index)
    }

    /// Puts back the event last taken for packet `packet_index` (see
    /// `EventManager::unpop_outgoing_event`).
    pub fn unpop_outgoing_event(&mut self, packet_index: u16, event: &NetEvent)
        requires
            old(self).wf(),
            event.payload@.len() <= crate::event_manager::MAX_EVENT_PAYLOAD,
        ensures
            final(self).wf(),
            final(self).events().outgoing() == seq![event_view(*event)] + old(self).events().outgoing(),
            final(self).events().incoming() == old(self).events().incoming(),
            old(self).events().carried(packet_index).len() > 0 ==> final(self).events().in_flight()
                == old(self).events().in_flight().insert(
                packet_index,
                old(self).events().carried(packet_index).drop_last(),
            ),
            old(self).events().carried(packet_index).len() == 0 ==> final(self).events().in_flight()
                == old(self).events().in_flight(),
            final(self).acks() == old(self).acks(),
            final(self).heartbeat() == old(self).heartbeat(),
            final(self).timeout() == old(self).timeout(),
    {
        self.event_manager.unpop_outgoing_event(packet_index, event)
    }

    /// Reads an event section's count and items from `reader` and queues
    /// the events as received. A truncated section is refused: nothing is
    /// queued, and the caller drops the datagram.
    pub fn process_event_data(&mut self, reader: &mut PacketReader, known_event_ids: &[u16]) -> (r: bool)
        requires
            old(reader).wf(),
        ensures
            final(reader).wf(),
            final(reader).bytes() == old(reader).bytes(),
            r ==> final(reader).pos() > old(reader).pos(),
            r ==> exists|evs: EventsView| {
                &&& #[trigger] final(self).events().incoming() == old(self).events().incoming() + evs
                &&& old(reader).bytes().subrange(old(reader).pos() as int, final(reader).pos() as int)
                    == seq![evs.len() as u8] + crate::server_connection::event_items(evs)
                &&& ids_known(evs, known_event_ids@)
            },
            !r ==> final(self).events().incoming() == old(self).events().incoming(),
            forall|evs: EventsView| #[trigger] starts_with_events(old(reader).rest(), evs) ==> (r
                <==> ids_known(evs, known_event_ids@)),
            forall|evs: EventsView|
                #[trigger] starts_with_events(old(reader).rest(), evs) && ids_known(evs, known_event_ids@) ==> r
                && final(self).events().incoming() == old(self).events().incoming() + evs
                && final(reader).pos() == old(reader).pos() + 1 + event_items(evs).len(),
            final(self).events().outgoing() == old(self).events().outgoing(),
            final(self).events().in_flight() == old(self).events().in_flight(),
            final(self).acks() == old(self).acks(),
            final(self).heartbeat() == old(self).heartbeat(),
            final(self).timeout() == old(self).timeout(),
    {
        let ghost start = reader.pos();
        let ghost bytes = reader.bytes();
        let ghost rest0 = reader.rest();
        let ghost has = exists|evs: EventsView| starts_with_events(rest0, evs);
        let ghost evs0 = if has {
            choose|evs: EventsView| starts_with_events(rest0, evs)
        } else {
            Seq::empty()
        };
        proof {
            if has {
                assert(rest0.subrange(0, 1)[0] == rest0[0]);
                assert(bytes[start as int] == evs0.len() as u8);
            }
        }
        let count = match reader.read_u8() {
            Some(c) => c,
            None => return false,
        };
        let mut events: Vec<NetEvent> = Vec::new();
        let mut i: u8 = 0;
        while i < count
            invariant
                reader.wf(),
                reader.bytes() == bytes,
                bytes == old(reader).bytes(),
                start == old(reader).pos(),
                start + 1 <= reader.pos(),
                bytes[start as int] == count,
                i <= count,
                events@.len() == i,
                bytes.subrange(start + 1int, reader.pos() as int) == crate::server_connection::event_items(
                    crate::event_manager::events_view(events@),
                ),
                rest0 == bytes.subrange(start as int, bytes.len() as int),
                has == exists|evs: EventsView| starts_with_events(rest0, evs),
                has ==> starts_with_events(rest0, evs0),
                has ==> count == evs0.len(),
                has ==> crate::event_manager::events_view(events@) == evs0.take(i as int),
                ids_known(crate::event_manager::events_view(events@), known_event_ids@),
                crate::event_manager::all_sendable(crate::event_manager::events_view(events@)),
            decreases count - i,
        {
            let ghost p0 = reader.pos();
            proof {
                if has {
                    lemma_event_in_section(bytes, start as int, evs0, i as int, p0 as int);
                    assert(event_item_of(evs0[i as int]).len() == 3 + evs0[i as int].1.len());
                    assert(p0 + 3 + evs0[i as int].1.len() <= bytes.len());
                }
            }
            let gaia_id = match reader.read_u16_be() {
                Some(g) => g,
                None => {
                    assert(!has);
                    return false;
                },
            };
            proof {
                if has {
                    crate::bytes::lemma_be16_round_trip(evs0[i as int].0);
                    assert(gaia_id == evs0[i as int].0);
                }
            }
            if !is_known(gaia_id, known_event_ids) {
                proof {
                    if has {
                        assert(!ids_known(evs0, known_event_ids@));
                        assert forall|other: EventsView| #[trigger] starts_with_events(rest0, other) implies !ids_known(
                            other,
                            known_event_ids@,
                        ) by {
                            lemma_section_unique(rest0, other, evs0);
                        }
                    }
                }
                return false;
            }
            assert(has ==> reader.pos() == p0 + 2);
            let len = match reader.read_u8() {
                Some(l) => l,
                None => {
                    assert(!has);
                    return false;
                },
            };
            assert(has ==> len == evs0[i as int].1.len() as u8);
            assert(has ==> len as int == evs0[i as int].1.len());
            let payload = match reader.read_bytes(len as usize) {
                Some(p) => p,
                None => return false,
            };
            let e = NetEvent { gaia_id, payload };
            let ghost before = events@;
            events.push(e);
            proof {
                let ev = crate::event_manager::events_view(events@);
                assert(ev.drop_last() =~= crate::event_manager::events_view(before));
                crate::bytes::lemma_be16_round_trip(gaia_id);
                assert(bytes.subrange(p0 as int, reader.pos() as int) =~= crate::server_connection::event_item_of(
                    event_view(e),
                )) by {
                    lemma_u16_bytes(bytes[p0 as int], bytes[p0 + 1int]);
                }
                assert(bytes.subrange(start + 1int, reader.pos() as int) =~= bytes.subrange(start + 1int, p0 as int)
                    + bytes.subrange(p0 as int, reader.pos() as int));
                assert(ids_known(ev, known_event_ids@)) by {
                    assert forall|j: int| 0 <= j < ev.len() implies known_event_ids@.contains(#[trigger] ev[j].0) by {
                        if j < ev.len() - 1 {
                            assert(ev[j] == crate::event_manager::events_view(before)[j]);
                        }
                    }
                }
                assert(crate::event_manager::all_sendable(ev)) by {
                    assert forall|j: int| 0 <= j < ev.len() implies #[trigger] ev[j].1.len() <= 255 by {
                        if j < ev.len() - 1 {
                            assert(ev[j] == crate::event_manager::events_view(before)[j]);
                        }
                    }
                }
                if has {
                    let g = evs0[i as int];
                    crate::bytes::lemma_be16_round_trip(g.0);
                    assert(gaia_id == g.0);
                    assert(len as int == g.1.len());
                    assert(e.payload@ =~= g.1);
                    assert(ev =~= evs0.take(i + 1));
                }
            }
            i = i + 1;
        }
        let ghost evs = crate::event_manager::events_view(events@);
        let mut k: usize = 0;
        while k < events.len()
            invariant
                k <= events@.len(),
                evs == crate::event_manager::events_view(events@),
                self.event_manager.incoming() == old(self).events().incoming() + evs.subrange(0, k as int),
                self.event_manager.outgoing() == old(self).events().outgoing(),
                self.event_manager.in_flight() == old(self).events().in_flight(),
                self.ack_manager == old(self).ack_manager,
                self.heartbeat_manager == old(self).heartbeat_manager,
                self.timeout_manager == old(self).timeout_manager,
            decreases events@.len() - k,
        {
            let e = crate::event_manager::copy_event(&events[k]);
            self.event_manager.push_incoming_event(e);
            assert(self.event_manager.incoming() =~= old(self).events().incoming() + evs.subrange(0, k + 1));
            k = k + 1;
        }
        proof {
            if has {
                assert(evs0.take(count as int) =~= evs0);
                assert forall|other: EventsView| #[trigger] starts_with_events(rest0, other) implies other == evs0 by {
                    lemma_section_unique(rest0, other, evs0);
                }
            }
            assert(evs.subrange(0, evs.len() as int) =~= evs);
            assert(bytes.subrange(start as int, reader.pos() as int) =~= seq![evs.len() as u8] + bytes.subrange(
                start + 1int,
                reader.pos() as int,
            ));
            assert(final(self).events().incoming() == old(self).events().incoming() + evs);
            crate::server_connection::lemma_event_items_len(evs);
            assert(rest0.subrange(0, 1 + event_items(evs).len() as int) =~= bytes.subrange(
                start as int,
                reader.pos() as int,
            ));
            assert(starts_with_events(rest0, evs));
            assert forall|other: EventsView| #[trigger] starts_with_events(rest0, other) implies other == evs by {
                lemma_section_unique(rest0, other, evs);
            }
        }
        true
    }

    /// Whether any event waits to be sent.
    pub fn has_outgoing_events(&self) -> (r: bool)
        ensures
            r == (self.events().outgoing().len() > 0),
    {
        self.event_manager.has_outgoing_events()
    }

    /// Takes the oldest received event.
    pub fn get_incoming_event(&mut self) -> (r: Option<NetEvent>)
        ensures
            old(self).events().incoming().len() == 0 ==> r is None && final(self).events().incoming() == old(
                self,
            ).events().incoming(),
            old(self).events().incoming().len() > 0 ==> r is Some && event_view(r->0) == old(
                self,
            ).events().incoming()[0] && final(self).events().incoming() == old(self).events().incoming().drop_first(),
            final(self).events().outgoing() == old(self).events().outgoing(),
            final(self).events().in_flight() == old(self).events().in_flight(),
            final(self).acks() == old(self).acks(),
            final(self).heartbeat() == old(self).heartbeat(),
            final(self).timeout() == old(self).timeout(),
    {
        self.event_manager.get_incoming_event()
    }
}

/// Inside a well-formed event section starting at `start`, once the events
/// before `i` are read, the bytes at `p` are event `i`'s wire form.
proof fn lemma_event_in_section(bytes: Seq<u8>, start: int, evs: EventsView, i: int, p: int)
    requires
        0 <= start < bytes.len(),
        starts_with_events(bytes.subrange(start, bytes.len() as int), evs),
        0 <= i < evs.len(),
        start + 1 <= p <= bytes.len(),
        bytes.subrange(start + 1, p) == event_items(evs.take(i)),
    ensures
        p + event_item_of(evs[i]).len() <= bytes.len(),
        bytes.subrange(p, p + event_item_of(evs[i]).len()) == event_item_of(evs[i]),
        bytes[p] == crate::bytes::be16(evs[i].0)[0],
        bytes[p + 1] == crate::bytes::be16(evs[i].0)[1],
        bytes[p + 2] == evs[i].1.len() as u8,
        bytes.subrange(p + 3, p + 3 + evs[i].1.len()) == evs[i].1,
{
    lemma_event_item_at(evs, i);
    let rest = bytes.subrange(start, bytes.len() as int);
    let items = event_items(evs);
    let pre = event_items(evs.take(i));
    let it = event_item_of(evs[i]);
    assert(p == start + 1 + pre.len());
    assert(rest.subrange(0, 1 + items.len() as int) == seq![evs.len() as u8] + items);
    assert forall|k: int| 0 <= k < it.len() implies bytes[p + k] == it[k] by {
        assert(items[pre.len() + k] == it[k]);
        assert((seq![evs.len() as u8] + items)[1 + pre.len() + k] == items[pre.len() + k]);
        assert(rest[1 + pre.len() + k] == bytes[start + 1 + pre.len() + k]);
    }
    assert(bytes.subrange(p, p + it.len()) =~= it);
    assert(it[0] == crate::bytes::be16(evs[i].0)[0]);
    assert(it[1] == crate::bytes::be16(evs[i].0)[1]);
    assert(it[2] == evs[i].1.len() as u8);
    assert(bytes.subrange(p + 3, p + 3 + evs[i].1.len()) =~= it.subrange(3, it.len() as int));
    assert(it.subrange(3, it.len() as int) =~= evs[i].1);
}

proof fn lemma_take_prefix(x: EventsView, i: int)
    requires
        0 <= i <= x.len(),
    ensures
        event_items(x.take(i)).len() <= event_items(x).len(),
        forall|k: int| 0 <= k < event_items(x.take(i)).len() ==> event_items(x)[k] == #[trigger] event_items(x.take(i))[k],
{
    assert(x =~= x.take(i) + x.skip(i));
    crate::server_connection::lemma_event_items_concat(x.take(i), x.skip(i));
}

/// A well-formed event section determines its events.
proof fn lemma_section_unique(b: Seq<u8>, x: EventsView, y: EventsView)
    requires
        starts_with_events(b, x),
        starts_with_events(b, y),
    ensures
        x == y,
{
    assert(b[0] == x.len() as u8) by {
        assert(b.subrange(0, 1 + event_items(x).len() as int)[0] == b[0]);
    }
    assert(b[0] == y.len() as u8) by {
        assert(b.subrange(0, 1 + event_items(y).len() as int)[0] == b[0]);
    }
    assert(x.len() == y.len());
    lemma_section_prefix(b, x, y, x.len() as int);
    assert(x =~= x.take(x.len() as int));
    assert(y =~= y.take(y.len() as int));
}

proof fn lemma_section_prefix(b: Seq<u8>, x: EventsView, y: EventsView, n: int)
    requires
        starts_with_events(b, x),
        starts_with_events(b, y),
        x.len() == y.len(),
        0 <= n <= x.len(),
    ensures
        x.take(n) == y.take(n),
    decreases n,
{
    if n == 0 {
        assert(x.take(0) =~= y.take(0));
    } else {
        let i = n - 1;
        lemma_section_prefix(b, x, y, i);
        lemma_event_item_at(x, i);
        lemma_event_item_at(y, i);
        let p: int = 1 + event_items(x.take(i)).len() as int;
        assert(b.subrange(0, b.len() as int) =~= b);
        assert(b.subrange(1, p) =~= event_items(x.take(i))) by {
            assert forall|k: int| 0 <= k < p - 1 implies b[1 + k] == event_items(x.take(i))[k] by {
                let items = event_items(x);
                assert(b.subrange(0, 1 + items.len() as int) == seq![x.len() as u8] + items);
                assert((seq![x.len() as u8] + items)[1 + k] == items[k]);
                assert(b.subrange(0, 1 + items.len() as int)[1 + k] == b[1 + k]);
                assert(event_items(x.take(i + 1)) == event_items(x.take(i)) + event_item_of(x[i]));
                lemma_take_prefix(x, i);
            }
        }
        assert(b.subrange(1, p) =~= event_items(y.take(i))) by {
            assert(x.take(i) == y.take(i));
        }
        lemma_event_in_section(b, 0, x, i, p);
        lemma_event_in_section(b, 0, y, i, p);
        crate::bytes::lemma_be16_round_trip(x[i].0);
        crate::bytes::lemma_be16_round_trip(y[i].0);
        assert(x[i].0 == y[i].0);
        assert(x[i].1.len() == y[i].1.len());
        assert(x[i].1 == y[i].1);
        assert(x.take(i + 1) =~= x.take(i).push(x[i]));
        assert(y.take(i + 1) =~= y.take(i).push(y[i]));
    }
}

/// Every event of `evs` has a type id among `known`.
pub open spec fn ids_known(evs: EventsView, known: Seq<u16>) -> bool {
    forall|i: int| 0 <= i < evs.len() ==> known.contains(#[trigger] evs[i].0)
}

/// Whether `id` is among `known`.
fn is_known(id: u16, known: &[u16]) -> (r: bool)
    ensures
        r == known@.contains(id),
{
    let mut i: usize = 0;
    while i < known.len()
        invariant
            i <= known@.len(),
            forall|j: int| 0 <= j < i ==> known@[j] != id,
        decreases known@.len() - i,
    {
        if known[i] == id {
            assert(known@[i as int] == id);
            return true;
        }
        i = i + 1;
    }
    false
}

/// The big-endian bytes of a decoded `u16` are the bytes it came from.
proof fn lemma_u16_bytes(b0: u8, b1: u8)
    ensures
        crate::bytes::be16(crate::bytes::from_be16(b0, b1)) == seq![b0, b1],
{
    let n = crate::bytes::from_be16(b0, b1);
    assert(((((b0 as u16) << 8u16) | (b1 as u16)) >> 8u16) as u8 == b0) by (bit_vector);
    assert((((b0 as u16) << 8u16) | (b1 as u16)) as u8 == b1) by (bit_vector);
    assert(crate::bytes::be16(n) =~= seq![b0, b1]);
}

} // verus!
