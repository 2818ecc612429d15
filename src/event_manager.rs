//! Queues of outgoing and incoming events, and the record of which events
//! went out in which packet so that a dropped packet's events are sent again.

use crate::packet_writer::NetEvent;
use std::collections::HashMap;
use vstd::prelude::*;

verus! {

broadcast use vstd::std_specs::hash::group_hash_axioms;

/// The value of an event: its type id and its payload.
pub open spec fn event_view(e: NetEvent) -> (u16, Seq<u8>) {
    (e.gaia_id, e.payload@)
}

/// The values of a list of events.
pub open spec fn events_view(v: Seq<NetEvent>) -> Seq<(u16, Seq<u8>)> {
    v.map_values(|e: NetEvent| event_view(e))
}

/// Largest payload an event can carry: its length must fit one byte.
pub const MAX_EVENT_PAYLOAD: usize = 255;

/// Every event of `evs` has a payload that fits a length byte.
pub open spec fn all_sendable(evs: Seq<(u16, Seq<u8>)>) -> bool {
    forall|i: int| 0 <= i < evs.len() ==> #[trigger] evs[i].1.len() <= 255
}

/// A copy of an event.
pub fn copy_event(e: &NetEvent) -> (r: NetEvent)
    ensures
        event_view(r) == event_view(*e),
{
    let mut payload: Vec<u8> = Vec::new();
    crate::bytes::append_bytes(&mut payload, e.payload.as_slice());
    assert(payload@ =~= e.payload@);
    NetEvent { gaia_id: e.gaia_id, payload }
}

/// Outgoing queue, incoming queue, and the events carried by each packet
/// still in flight.
#[derive(Debug)]
pub struct EventManager {
    queued_outgoing_events: Vec<NetEvent>,
    queued_incoming_events: Vec<NetEvent>,
    sent_events: HashMap<u16, Vec<NetEvent>>,
}

impl EventManager {
    /// Events waiting to be sent, oldest first.
    pub closed spec fn outgoing(&self) -> Seq<(u16, Seq<u8>)> {
        events_view(self.queued_outgoing_events@)
    }

    /// Events received and not yet taken, oldest first.
    pub closed spec fn incoming(&self) -> Seq<(u16, Seq<u8>)> {
        events_view(self.queued_incoming_events@)
    }

    /// The events each packet in flight carries, by packet sequence.
    pub closed spec fn in_flight(&self) -> Map<u16, Seq<(u16, Seq<u8>)>> {
        self.sent_events@.map_values(|v: Vec<NetEvent>| events_view(v@))
    }

    /// The events packet `index` carries, none if it carries none.
    pub open spec fn carried(&self, index: u16) -> Seq<(u16, Seq<u8>)> {
        if self.in_flight().contains_key(index) {
            self.in_flight()[index]
        } else {
            Seq::empty()
        }
    }

    /// Only events whose payload fits a length byte are queued or in
    /// flight, so the oldest queued event always fits an empty packet.
    pub open spec fn wf(&self) -> bool {
        &&& all_sendable(self.outgoing())
        &&& forall|k: u16| #[trigger] self.in_flight().contains_key(k) ==> all_sendable(self.in_flight()[k])
    }

    /// A manager with nothing queued and nothing in flight.
    pub fn new() -> (r: EventManager)
        ensures
            r.wf(),
            r.outgoing() == Seq::<(u16, Seq<u8>)>::empty(),
            r.incoming() == Seq::<(u16, Seq<u8>)>::empty(),
            r.in_flight() == Map::<u16, Seq<(u16, Seq<u8>)>>::empty(),
    {
        let r = EventManager {
            queued_outgoing_events: Vec::new(),
            queued_incoming_events: Vec::new(),
            sent_events: HashMap::new(),
        };
        assert(r.outgoing() =~= Seq::<(u16, Seq<u8>)>::empty());
        assert(r.incoming() =~= Seq::<(u16, Seq<u8>)>::empty());
        assert(r.in_flight() =~= Map::<u16, Seq<(u16, Seq<u8>)>>::empty());
        r
    }

    /// Whether any event waits to be sent.
    pub fn has_outgoing_events(&self) -> (r: bool)
        ensures
            r == (self.outgoing().len() > 0),
    {
        self.queued_outgoing_events.len() > 0
    }

    /// Puts an event at the back of the outgoing queue. An event whose
    /// payload does not fit a length byte can never be written: it is
    /// dropped, and `false` reports it.
    pub fn queue_event(&mut self, event: &NetEvent) -> (r: bool)
        requires
            old(self).wf(),
        ensures
            final(self).wf(),
            r == (event.payload@.len() <= MAX_EVENT_PAYLOAD),
            r ==> final(self).outgoing() == old(self).outgoing().push(event_view(*event)),
            !r ==> final(self).outgoing() == old(self).outgoing(),
            final(self).incoming() == old(self).incoming(),
            final(self).in_flight() == old(self).in_flight(),
    {
        if event.payload.len() > MAX_EVENT_PAYLOAD {
            return false;
        }
        let e = copy_event(event);
        self.queued_outgoing_events.push(e);
        assert(final(self).outgoing() =~= old(self).outgoing().push(event_view(*event)));
        assert forall|i: int| 0 <= i < final(self).outgoing().len() implies #[trigger] final(self).outgoing()[i].1.len()
            <= 255 by {
            if i < old(self).outgoing().len() {
                assert(old(self).outgoing()[i] == final(self).outgoing()[i]);
            }
        }
        assert(final(self).in_flight() == old(self).in_flight());
        assert forall|k: u16| #[trigger] final(self).in_flight().contains_key(k) implies all_sendable(
            final(self).in_flight()[k],
        ) by {
            assert(old(self).in_flight().contains_key(k));
        }
        true
    }

    /// Puts a received event at the back of the incoming queue.
    pub fn push_incoming_event(&mut self, event: NetEvent)
        ensures
            final(self).incoming() == old(self).incoming().push(event_view(event)),
            final(self).outgoing() == old(self).outgoing(),
            final(self).in_flight() == old(self).in_flight(),
    {
        self.queued_incoming_events.push(event);
        assert(final(self).incoming() =~= old(self).incoming().push(event_view(event)));
    }

    /// Takes the oldest received event.
    pub fn get_incoming_event(&mut self) -> (r: Option<NetEvent>)
        ensures
            old(self).incoming().len() == 0 ==> r is None && final(self).incoming() == old(
                self,
            ).incoming(),
            old(self).incoming().len() > 0 ==> r is Some && event_view(r->0) == old(
                self,
            ).incoming()[0] && final(self).incoming() == old(self).incoming().drop_first(),
            final(self).outgoing() == old(self).outgoing(),
            final(self).in_flight() == old(self).in_flight(),
    {
        if self.queued_incoming_events.len() == 0 {
            return None;
        }
        let e = self.queued_incoming_events.remove(0);
        assert(final(self).incoming() =~= old(self).incoming().drop_first());
        Some(e)
    }

    /// Takes the oldest outgoing event for packet `packet_index`, and
    /// records that the packet carries it.
    pub fn pop_outgoing_event(&mut self, packet_index: u16) -> (r: Option<NetEvent>)
        requires
            old(self).wf(),
        ensures
            final(self).wf(),
            old(self).outgoing().len() == 0 ==> r is None && *final(self) == *old(self),
            old(self).outgoing().len() > 0 ==> {
                &&& r is Some
                &&& event_view(r->0) == old(self).outgoing()[0]
                &&& final(self).outgoing() == old(self).outgoing().drop_first()
                &&& final(self).in_flight() == old(self).in_flight().insert(
                    packet_index,
                    old(self).carried(packet_index).push(old(self).outgoing()[0]),
                )
            },
            final(self).incoming() == old(self).incoming(),
    {
        if self.queued_outgoing_events.len() == 0 {
            return None;
        }
        let e = self.queued_outgoing_events.remove(0);
        let copy = copy_event(&e);
        let mut list = match self.sent_events.remove(&packet_index) {
            Some(l) => l,
            None => Vec::new(),
        };
        list.push(copy);
        self.sent_events.insert(packet_index, list);
        assert(final(self).outgoing() =~= old(self).outgoing().drop_first());
        assert(events_view(list@) =~= old(self).carried(packet_index).push(old(self).outgoing()[0]));
        assert(final(self).in_flight() =~= old(self).in_flight().insert(
            packet_index,
            old(self).carried(packet_index).push(old(self).outgoing()[0]),
        ));
        Some(e)
    }

    /// Undoes the last `pop_outgoing_event` for packet `packet_index`: the
    /// event goes back to the front of the outgoing queue and the packet no
    /// longer carries it.
    pub fn unpop_outgoing_event(&mut self, packet_index: u16, event: &NetEvent)
        requires
            old(self).wf(),
            event.payload@.len() <= MAX_EVENT_PAYLOAD,
        ensures
            final(self).wf(),
            final(self).outgoing() == seq![event_view(*event)] + old(self).outgoing(),
            final(self).incoming() == old(self).incoming(),
            old(self).carried(packet_index).len() > 0 ==> final(self).in_flight() == old(
                self,
            ).in_flight().insert(packet_index, old(self).carried(packet_index).drop_last()),
            old(self).carried(packet_index).len() == 0 ==> final(self).in_flight() == old(
                self,
            ).in_flight(),
    {
        let e = copy_event(event);
        self.queued_outgoing_events.insert(0, e);
        assert(self.outgoing() =~= seq![event_view(*event)] + old(self).outgoing());
        assert forall|i: int| 0 <= i < self.outgoing().len() implies #[trigger] self.outgoing()[i].1.len() <= 255 by {
            if i > 0 {
                assert(self.outgoing()[i] == old(self).outgoing()[i - 1]);
            }
        }
        let ghost mid = self.in_flight();
        match self.sent_events.remove(&packet_index) {
            Some(mut list) => {
                if list.len() > 0 {
                    list.pop();
                }
                let ghost lv = list@;
                self.sent_events.insert(packet_index, list);
                proof {
                    assert(all_sendable(events_view(lv))) by {
                        assert forall|i: int| 0 <= i < events_view(lv).len() implies #[trigger] events_view(lv)[i].1.len()
                            <= 255 by {
                            assert(events_view(lv)[i] == old(self).carried(packet_index)[i]);
                        }
                    }
                    assert forall|k: u16| #[trigger] final(self).in_flight().contains_key(k) implies all_sendable(
                        final(self).in_flight()[k],
                    ) by {
                        if k != packet_index {
                            assert(old(self).in_flight().contains_key(k));
                            assert(final(self).in_flight()[k] == old(self).in_flight()[k]);
                        } else {
                            assert(final(self).in_flight()[k] == events_view(lv));
                        }
                    }
                    if old(self).carried(packet_index).len() > 0 {
                        assert(events_view(lv) =~= old(self).carried(packet_index).drop_last());
                        assert(final(self).in_flight() =~= old(self).in_flight().insert(
                            packet_index,
                            old(self).carried(packet_index).drop_last(),
                        ));
                    } else {
                        assert(events_view(lv) =~= old(self).carried(packet_index));
                        assert(final(self).in_flight() =~= old(self).in_flight());
                    }
                }
            },
            None => {
                assert(self.sent_events@ =~= old(self).sent_events@);
                assert(self.in_flight() =~= old(self).in_flight());
            },
        }
    }

    /// Packet `packet_index` arrived: forget the events it carried.
    pub fn notify_packet_delivered(&mut self, packet_index: u16)
        requires
            old(self).wf(),
        ensures
            final(self).wf(),
            final(self).in_flight() == old(self).in_flight().remove(packet_index),
            final(self).outgoing() == old(self).outgoing(),
            final(self).incoming() == old(self).incoming(),
    {
        self.sent_events.remove(&packet_index);
        assert(final(self).in_flight() =~= old(self).in_flight().remove(packet_index));
    }

    /// Packet `packet_index` was lost: the events it carried go to the back
    /// of the outgoing queue, in the order they were sent.
    pub fn notify_packet_dropped(&mut self, packet_index: u16)
        requires
            old(self).wf(),
        ensures
            final(self).wf(),
            final(self).in_flight() == old(self).in_flight().remove(packet_index),
            final(self).outgoing() == old(self).outgoing() + old(self).carried(packet_index),
            final(self).incoming() == old(self).incoming(),
    {
        match self.sent_events.remove(&packet_index) {
            Some(list) => {
                let mut i: usize = 0;
                while i < list.len()
                    invariant
                        i <= list@.len(),
                        events_view(list@) == old(self).carried(packet_index),
                        self.queued_incoming_events == old(self).queued_incoming_events,
                        self.sent_events@ == old(self).sent_events@.remove(packet_index),
                        events_view(self.queued_outgoing_events@) == old(self).outgoing()
                            + events_view(list@).subrange(0, i as int),
                    decreases list@.len() - i,
                {
                    let e = copy_event(&list[i]);
                    let ghost before = self.queued_outgoing_events@;
                    self.queued_outgoing_events.push(e);
                    assert(self.queued_outgoing_events@ == before.push(e));
                    assert(events_view(before.push(e)) =~= events_view(before).push(event_view(e)));
                    assert(events_view(list@)[i as int] == event_view(list@[i as int]));
                    assert(events_view(self.queued_outgoing_events@) =~= old(self).outgoing()
                        + events_view(list@).subrange(0, i + 1));
                    i = i + 1;
                }
                assert(events_view(list@).subrange(0, list@.len() as int) =~= events_view(list@));
            },
            None => {
                assert(old(self).carried(packet_index) =~= Seq::<(u16, Seq<u8>)>::empty());
                assert(old(self).outgoing() + old(self).carried(packet_index) =~= old(self).outgoing());
            },
        }
        assert(final(self).in_flight() =~= old(self).in_flight().remove(packet_index));
    }
}

} // verus!
