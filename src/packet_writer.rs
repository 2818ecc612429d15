//! Packs events and entity messages into the body of one datagram.

use crate::bytes::{append_bytes, be16, push_u16_be};
use crate::standard_header::HEADER_BYTES;
use vstd::prelude::*;

verus! {

/// Largest datagram that travels safely over IPv4 UDP.
pub const MTU_TOTAL: usize = 508;

/// What is left of a datagram for its body once the header is written.
pub const MTU_SIZE: usize = MTU_TOTAL - HEADER_BYTES;

/// Largest payload an event or entity item can carry.
pub const MAX_ITEM_PAYLOAD: usize = 255;

/// Largest number of items in one section.
pub const MAX_SECTION_ITEMS: u8 = 255;

/// The kind of a section inside a Data packet's body.
#[derive(Clone, Copy, Debug, PartialEq, Eq, Structural)]
pub enum ManagerType {
    Event,
    Entity,
    Unknown,
}

/// The wire byte of each section kind.
pub open spec fn manager_type_byte(t: ManagerType) -> u8 {
    match t {
        ManagerType::Event => 1,
        ManagerType::Entity => 2,
        ManagerType::Unknown => 255,
    }
}

/// The section kind a wire byte stands for.
pub open spec fn manager_type_of(b: u8) -> ManagerType {
    if b == 1 {
        ManagerType::Event
    } else if b == 2 {
        ManagerType::Entity
    } else {
        ManagerType::Unknown
    }
}

impl ManagerType {
    pub fn to_byte(&self) -> (r: u8)
        ensures
            r == manager_type_byte(*self),
    {
        match self {
            ManagerType::Event => 1,
            ManagerType::Entity => 2,
            ManagerType::Unknown => 255,
        }
    }

    pub fn from_byte(b: u8) -> (r: ManagerType)
        ensures
            r == manager_type_of(b),
    {
        if b == 1 {
            ManagerType::Event
        } else if b == 2 {
            ManagerType::Entity
        } else {
            ManagerType::Unknown
        }
    }
}

/// An event already encoded: its wire type id and its payload bytes.
#[derive(Clone, Debug, PartialEq, Eq)]
pub struct NetEvent {
    pub gaia_id: u16,
    pub payload: Vec<u8>,
}

/// An entity message already encoded: which entity it is about, and the
/// bytes that describe it.
#[derive(Clone, Debug, PartialEq, Eq)]
pub enum ServerEntityMessage {
    Create(u16, u16, Vec<u8>),
    Delete(u16),
    Update(u16, Vec<u8>, Vec<u8>),
}

/// Wire form of an event item: type id, payload length, payload.
pub open spec fn event_item(e: NetEvent) -> Seq<u8> {
    be16(e.gaia_id) + seq![e.payload@.len() as u8] + e.payload@
}

/// The message-type byte of an entity message.
pub open spec fn entity_message_type(m: ServerEntityMessage) -> u8 {
    match m {
        ServerEntityMessage::Create(..) => 0,
        ServerEntityMessage::Delete(..) => 1,
        ServerEntityMessage::Update(..) => 2,
    }
}

/// The payload an entity message carries, if any.
pub open spec fn entity_payload_len(m: ServerEntityMessage) -> nat {
    match m {
        ServerEntityMessage::Create(_, _, p) => p@.len(),
        ServerEntityMessage::Delete(_) => 0,
        ServerEntityMessage::Update(_, _, p) => p@.len(),
    }
}

/// Wire form of an entity item.
pub open spec fn entity_item(m: ServerEntityMessage) -> Seq<u8> {
    match m {
        ServerEntityMessage::Create(gaia_id, key, p) => seq![0u8] + be16(gaia_id) + be16(key) + seq![
            p@.len() as u8,
        ] + p@,
        ServerEntityMessage::Delete(key) => seq![1u8] + be16(key),
        ServerEntityMessage::Update(key, mask, p) => seq![2u8] + be16(key) + mask@ + seq![
            p@.len() as u8,
        ] + p@,
    }
}

/// A section of the body: kind byte, item count, items; nothing when empty.
pub open spec fn section(kind: u8, count: u8, items: Seq<u8>) -> Seq<u8> {
    if count == 0 {
        Seq::empty()
    } else {
        seq![kind, count] + items
    }
}

impl ServerEntityMessage {
    /// The message-type byte written ahead of the item.
    pub fn write_message_type(&self) -> (r: u8)
        ensures
            r == entity_message_type(*self),
    {
        match self {
            ServerEntityMessage::Create(..) => 0,
            ServerEntityMessage::Delete(..) => 1,
            ServerEntityMessage::Update(..) => 2,
        }
    }
}

/// Accumulates the event section and the entity section of one datagram.
pub struct PacketWriter {
    event_working_bytes: Vec<u8>,
    event_count: u8,
    entity_working_bytes: Vec<u8>,
    entity_message_count: u8,
}

impl PacketWriter {
    pub closed spec fn events(&self) -> Seq<u8> {
        self.event_working_bytes@
    }

    pub closed spec fn events_count(&self) -> u8 {
        self.event_count
    }

    pub closed spec fn entities(&self) -> Seq<u8> {
        self.entity_working_bytes@
    }

    pub closed spec fn entities_count(&self) -> u8 {
        self.entity_message_count
    }

    /// Item bytes accepted so far, section headers not counted.
    pub open spec fn working_len(&self) -> nat {
        self.events().len() + self.entities().len()
    }

    /// The body this writer would emit now.
    pub open spec fn body(&self) -> Seq<u8> {
        section(1, self.events_count(), self.events()) + section(
            2,
            self.entities_count(),
            self.entities(),
        )
    }

    /// Item bytes stay under the body budget, and an empty section holds
    /// no bytes.
    pub open spec fn wf(&self) -> bool {
        &&& self.working_len() < MTU_SIZE
        &&& self.events_count() == 0 ==> self.events().len() == 0
        &&& self.entities_count() == 0 ==> self.entities().len() == 0
    }

    /// An empty writer.
    pub fn new() -> (r: PacketWriter)
        ensures
            r.wf(),
            r.events_count() == 0,
            r.entities_count() == 0,
            r.events() == Seq::<u8>::empty(),
            r.entities() == Seq::<u8>::empty(),
    {
        PacketWriter {
            event_working_bytes: Vec::new(),
            event_count: 0,
            entity_working_bytes: Vec::new(),
            entity_message_count: 0,
        }
    }

    /// Whether any item has been accepted.
    pub fn has_bytes(&self) -> (r: bool)
        ensures
            r == (self.events_count() != 0 || self.entities_count() != 0),
    {
        self.event_count != 0 || self.entity_message_count != 0
    }

    /// Number of events accepted.
    pub fn event_count(&self) -> (r: u8)
        ensures
            r == self.events_count(),
    {
        self.event_count
    }

    /// Number of entity messages accepted.
    pub fn entity_message_count(&self) -> (r: u8)
        ensures
            r == self.entities_count(),
    {
        self.entity_message_count
    }

    /// Item bytes accepted so far, section headers not counted.
    pub fn bytes_number(&self) -> (r: usize)
        requires
            self.wf(),
        ensures
            r == self.working_len(),
    {
        self.event_working_bytes.len() + self.entity_working_bytes.len()
    }

    /// Whether an item of `item_len` bytes fits in a section of `count`
    /// items: the payload is at most 255 bytes, the section is not full,
    /// and the accepted item bytes, this item, and the section header if
    /// the section opens now stay under the body budget.
    pub open spec fn fits(&self, count: u8, payload_len: nat, item_len: nat) -> bool {
        &&& payload_len <= MAX_ITEM_PAYLOAD
        &&& count < MAX_SECTION_ITEMS
        &&& self.working_len() + item_len + (if count == 0 {
            2nat
        } else {
            0nat
        }) < MTU_SIZE
    }

    /// Adds an event to the event section if it fits; returns whether it
    /// did. A refused event leaves the writer as it was.
    pub fn write_event(&mut self, event: &NetEvent) -> (r: bool)
        requires
            old(self).wf(),
        ensures
            final(self).wf(),
            r == old(self).fits(old(self).events_count(), event.payload@.len(), event_item(*event).len()),
            r ==> final(self).events() == old(self).events() + event_item(*event)
                && final(self).events_count() == old(self).events_count() + 1,
            !r ==> final(self).events() == old(self).events() && final(self).events_count()
                == old(self).events_count(),
            final(self).entities() == old(self).entities(),
            final(self).entities_count() == old(self).entities_count(),
    {
        if event.payload.len() > MAX_ITEM_PAYLOAD || self.event_count >= MAX_SECTION_ITEMS {
            return false;
        }
        let mut event_total_bytes: Vec<u8> = Vec::new();
        push_u16_be(&mut event_total_bytes, event.gaia_id);
        event_total_bytes.push(event.payload.len() as u8);
        append_bytes(&mut event_total_bytes, event.payload.as_slice());
        assert(event_total_bytes@ =~= event_item(*event));

        let mut hypothetical_next_payload_size = self.bytes_number() + event_total_bytes.len();
        if self.event_count == 0 {
            hypothetical_next_payload_size = hypothetical_next_payload_size + 2;
        }
        if hypothetical_next_payload_size < MTU_SIZE {
            self.event_count = self.event_count + 1;
            append_bytes(&mut self.event_working_bytes, event_total_bytes.as_slice());
            true
        } else {
            false
        }
    }

    /// Adds an entity message to the entity section if it fits; returns
    /// whether it did. A refused message leaves the writer as it was.
    pub fn write_entity_message(&mut self, message: &ServerEntityMessage) -> (r: bool)
        requires
            old(self).wf(),
        ensures
            final(self).wf(),
            r == old(self).fits(
                old(self).entities_count(),
                entity_payload_len(*message),
                entity_item(*message).len(),
            ),
            r ==> final(self).entities() == old(self).entities() + entity_item(*message)
                && final(self).entities_count() == old(self).entities_count() + 1,
            !r ==> final(self).entities() == old(self).entities() && final(self).entities_count()
                == old(self).entities_count(),
            final(self).events() == old(self).events(),
            final(self).events_count() == old(self).events_count(),
    {
        if self.entity_message_count >= MAX_SECTION_ITEMS {
            return false;
        }
        let mut entity_total_bytes: Vec<u8> = Vec::new();
        match message {
            ServerEntityMessage::Create(gaia_id, local_key, payload) => {
                if payload.len() > MAX_ITEM_PAYLOAD {
                    return false;
                }
                entity_total_bytes.push(message.write_message_type());
                push_u16_be(&mut entity_total_bytes, *gaia_id);
                push_u16_be(&mut entity_total_bytes, *local_key);
                entity_total_bytes.push(payload.len() as u8);
                append_bytes(&mut entity_total_bytes, payload.as_slice());
            },
            ServerEntityMessage::Delete(local_key) => {
                entity_total_bytes.push(message.write_message_type());
                push_u16_be(&mut entity_total_bytes, *local_key);
            },
            ServerEntityMessage::Update(local_key, state_mask, payload) => {
                if payload.len() > MAX_ITEM_PAYLOAD || state_mask.len() > MTU_SIZE {
                    return false;
                }
                entity_total_bytes.push(message.write_message_type());
                push_u16_be(&mut entity_total_bytes, *local_key);
                append_bytes(&mut entity_total_bytes, state_mask.as_slice());
                entity_total_bytes.push(payload.len() as u8);
                append_bytes(&mut entity_total_bytes, payload.as_slice());
            },
        }
        assert(entity_total_bytes@ =~= entity_item(*message));

        let mut hypothetical_next_payload_size = self.bytes_number() + entity_total_bytes.len();
        if self.entity_message_count == 0 {
            hypothetical_next_payload_size = hypothetical_next_payload_size + 2;
        }
        if hypothetical_next_payload_size < MTU_SIZE {
            self.entity_message_count = self.entity_message_count + 1;
            append_bytes(&mut self.entity_working_bytes, entity_total_bytes.as_slice());
            true
        } else {
            false
        }
    }

    /// Emits the body — the event section, then the entity section, each
    /// only when it holds items — and empties the writer.
    pub fn get_bytes(&mut self) -> (r: Vec<u8>)
        requires
            old(self).wf(),
        ensures
            r@ == old(self).body(),
            final(self).wf(),
            final(self).events_count() == 0,
            final(self).entities_count() == 0,
            final(self).events() == Seq::<u8>::empty(),
            final(self).entities() == Seq::<u8>::empty(),
    {
        let mut out_bytes: Vec<u8> = Vec::new();
        if self.event_count != 0 {
            out_bytes.push(ManagerType::Event.to_byte());
            out_bytes.push(self.event_count);
            append_bytes(&mut out_bytes, self.event_working_bytes.as_slice());
            self.event_count = 0;
        }
        let ghost mid = out_bytes@;
        assert(mid == section(1, old(self).events_count(), old(self).events()));
        if self.entity_message_count != 0 {
            out_bytes.push(ManagerType::Entity.to_byte());
            out_bytes.push(self.entity_message_count);
            append_bytes(&mut out_bytes, self.entity_working_bytes.as_slice());
            self.entity_message_count = 0;
        }
        assert(out_bytes@ =~= old(self).body());
        self.event_working_bytes = Vec::new();
        self.entity_working_bytes = Vec::new();
        out_bytes
    }
}

/// The body a writer emits is its accepted item bytes plus two header
/// bytes per open section, and the item bytes always stay under the body
/// budget; a refused write changes nothing (see `write_event`).
pub proof fn lemma_body_budget(w: PacketWriter)
    requires
        w.wf(),
    ensures
        w.body().len() == w.working_len() + (if w.events_count() != 0 {
            2nat
        } else {
            0nat
        }) + (if w.entities_count() != 0 {
            2nat
        } else {
            0nat
        }),
        w.working_len() < MTU_SIZE,
        w.events_count() == 0 && w.entities_count() == 0 ==> w.body().len() == 0,
{
}

} // verus!
