//! The transport layer's packets.
use vstd::prelude::*;

verus! {

/// A packet with a sequence number.
#[derive(Clone, Copy, Debug, PartialEq, Eq, Structural)]
pub struct SequencedPacket {
    pub mode: u8,
    pub packet_id: u32,
    pub acknowledged_packet_id: u32,
    pub packet_flags: u32,
    pub payload_bit_len: usize,
}

#[derive(Clone, Copy, Debug, PartialEq, Eq, Structural)]
pub enum TransportPacket {
    StatelessHandshake { handler_prefix: u32, payload_bit_len: usize },
    Sequenced(SequencedPacket),
}

/// The only bunch of a packet.
#[derive(Clone, Copy, Debug, PartialEq, Eq, Structural)]
pub struct SingleBunch {
    pub prefix: u32,
    pub sequence: u32,
    pub descriptor: u32,
    pub data_bit_len: usize,
}

} // verus!
