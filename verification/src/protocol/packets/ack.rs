//! The bare acknowledgement: the sender's own offset and the offset below
//! which it has received everything, as two little-endian 64-bit numbers.

use crate::endian::{le_bytes, le_value, lemma_le_value_of_bytes, read_u64, write_u64};
use vstd::prelude::*;

verus! {

/// Length of an acknowledgement on the wire.
pub const ACK_LEN: usize = 16;

/// An acknowledgement of every byte below `acked`.
#[derive(Debug, Clone, Copy, PartialEq, Eq, Structural)]
pub struct Ack {
    sequence: u64,
    acked: u64,
}

/// What an acknowledgement is, as a mathematical value.
pub ghost struct AckView {
    pub sequence: u64,
    pub acked: u64,
}

impl AckView {
    /// The bytes of this acknowledgement on the wire.
    pub open spec fn encode(self) -> Seq<u8> {
        le_bytes(self.sequence) + le_bytes(self.acked)
    }

    /// The acknowledgement that the first sixteen of `bytes` denote.
    pub open spec fn decode(bytes: Seq<u8>) -> AckView
        recommends
            bytes.len() >= ACK_LEN,
    {
        AckView {
            sequence: le_value(bytes.subrange(0, 8)) as u64,
            acked: le_value(bytes.subrange(8, 16)) as u64,
        }
    }
}

/// Decoding an encoded acknowledgement gives it back.
pub proof fn lemma_ack_decode_encode(a: AckView)
    ensures
        a.encode().len() == ACK_LEN,
        AckView::decode(a.encode()) == a,
{
    let bytes = a.encode();
    lemma_le_value_of_bytes(a.sequence);
    lemma_le_value_of_bytes(a.acked);
    assert(bytes.subrange(0, 8) =~= le_bytes(a.sequence));
    assert(bytes.subrange(8, 16) =~= le_bytes(a.acked));
}

impl View for Ack {
    type V = AckView;

    closed spec fn view(&self) -> AckView {
        AckView { sequence: self.sequence, acked: self.acked }
    }
}

impl Ack {
    /// The acknowledgement, sent at offset `sequence`, of every byte below
    /// `acked`.
    pub fn new(sequence: u64, acked: u64) -> (ack: Ack)
        ensures
            ack@ == (AckView { sequence, acked }),
    {
        Ack { sequence, acked }
    }

    /// The bytes of this acknowledgement on the wire.
    pub fn to_bytes(self) -> (bytes: Vec<u8>)
        ensures
            bytes@ == self@.encode(),
    {
        let mut vec: Vec<u8> = Vec::new();
        write_u64(&mut vec, self.sequence);
        write_u64(&mut vec, self.acked);
        vec
    }

    /// The sender's own offset.
    pub fn get_sequence(&self) -> (sequence: u64)
        ensures
            sequence == self@.sequence,
    {
        self.sequence
    }

    /// The offset below which the sender has received everything.
    pub fn get_acked(&self) -> (acked: u64)
        ensures
            acked == self@.acked,
    {
        self.acked
    }

    /// Reads an acknowledgement from bytes that hold at least sixteen.
    pub fn from_bytes(bytes: Vec<u8>) -> (ack: Ack)
        requires
            bytes.len() >= ACK_LEN,
        ensures
            ack@ == AckView::decode(bytes@),
    {
        let sequence = read_u64(&bytes, 0);
        let acked = read_u64(&bytes, 8);
        Ack { sequence, acked }
    }
}

} // verus!
