//! Reliability and framing core of an unreliable-datagram networking layer:
//! wrap-around sequence numbers, acknowledgement tracking with a redundant
//! bitfield, packet framing and MTU-bounded payload packing, liveness timers
//! and the per-connection façade that ties them together.

pub mod sequence;
pub mod bytes;
pub mod standard_header;
pub mod sequence_buffer;
pub mod ack_manager;
pub mod packet_writer;
pub mod event_manager;
pub mod timer;
pub mod packet_reader;
pub mod connection;
pub mod server_connection;
