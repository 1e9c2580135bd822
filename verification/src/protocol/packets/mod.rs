//! The frame: the one message that travels between two endpoints.
//!
//! On the wire a frame is a 25-byte header followed by its payload:
//!
//! | offset | width | field                                          |
//! |--------|-------|------------------------------------------------|
//! | 0      | 1     | flags: bit 0 ACK, bit 1 SYN, bit 2 RST, bit 3 FIN |
//! | 1      | 8     | payload size                                   |
//! | 9      | 8     | sequence                                       |
//! | 17     | 8     | acknowledged offset                            |
//! | 25     | size  | payload                                        |
//!
//! The three numbers are little-endian. Sequence and acknowledged offset
//! count bytes of the stream, not frames.

pub mod ack;

use crate::endian::{
    le_bytes, le_value, lemma_le_bytes_of_value, lemma_le_value_bounds, lemma_le_value_of_bytes,
    read_u64, write_u64,
};
use crate::error::Error;
use vstd::prelude::*;

verus! {

/// Length of the fixed header of a frame.
pub const HEADER_LEN: usize = 25;

/// Flag bit of an acknowledgement.
pub const FLAG_ACK: u8 = 0x1;

/// Flag bit of a connection request.
pub const FLAG_SYN: u8 = 0x2;

/// Flag bit of an abrupt teardown.
pub const FLAG_RST: u8 = 0x4;

/// Flag bit of a graceful teardown.
pub const FLAG_FIN: u8 = 0x8;

/// A frame, immutable once built.
#[derive(Debug)]
pub struct Packet {
    size: u64,
    content: Vec<u8>,
    sequence: u64,
    acked: u64,
    syn: bool,
    ack: bool,
    reset: bool,
    fin: bool,
}

/// What a frame is, as a mathematical value.
pub ghost struct PacketView {
    pub size: u64,
    pub content: Seq<u8>,
    pub sequence: u64,
    pub acked: u64,
    pub syn: bool,
    pub ack: bool,
    pub reset: bool,
    pub fin: bool,
}

/// The flags byte with exactly the bits of the flags that are set.
pub open spec fn flag_bits(ack: bool, syn: bool, reset: bool, fin: bool) -> u8 {
    (if ack { FLAG_ACK } else { 0u8 }) | (if syn { FLAG_SYN } else { 0u8 }) | (if reset {
        FLAG_RST
    } else {
        0u8
    }) | (if fin { FLAG_FIN } else { 0u8 })
}

/// Whether bit `flag` is set in the flags byte `bits`.
pub open spec fn has_flag(bits: u8, flag: u8) -> bool {
    bits & flag != 0
}

impl PacketView {
    /// A frame that carries `content` at offset `sequence` and nothing else.
    pub open spec fn data(content: Seq<u8>, sequence: u64) -> PacketView {
        PacketView {
            size: content.len() as u64,
            content,
            sequence,
            acked: 0,
            syn: false,
            ack: false,
            reset: false,
            fin: false,
        }
    }

    /// A frame without payload.
    pub open spec fn control(
        sequence: u64,
        acked: u64,
        syn: bool,
        ack: bool,
        reset: bool,
        fin: bool,
    ) -> PacketView {
        PacketView { size: 0, content: Seq::empty(), sequence, acked, syn, ack, reset, fin }
    }

    /// An acknowledgement of every byte below `acked`.
    pub open spec fn ack(sequence: u64, acked: u64) -> PacketView {
        Self::control(sequence, acked, false, true, false, false)
    }

    /// The answer to a connection request.
    pub open spec fn synack(sequence: u64, acked: u64) -> PacketView {
        Self::control(sequence, acked, true, true, false, false)
    }

    /// A connection request.
    pub open spec fn syn(sequence: u64) -> PacketView {
        Self::control(sequence, 0, true, false, false, false)
    }

    /// An abrupt teardown.
    pub open spec fn reset(sequence: u64) -> PacketView {
        Self::control(sequence, 0, false, false, true, false)
    }

    /// A graceful teardown.
    pub open spec fn fin(sequence: u64) -> PacketView {
        Self::control(sequence, 0, false, false, false, true)
    }

    /// Whether the size field says how long the payload is.
    pub open spec fn consistent(self) -> bool {
        self.size == self.content.len()
    }

    /// The bytes of this frame on the wire.
    pub open spec fn encode(self) -> Seq<u8> {
        seq![flag_bits(self.ack, self.syn, self.reset, self.fin)] + le_bytes(self.size) + le_bytes(
            self.sequence,
        ) + le_bytes(self.acked) + self.content
    }

    /// Where the payload of the frame in `bytes` ends: after as many bytes
    /// as the size field says, or where the datagram ends, if it holds
    /// fewer.
    pub open spec fn payload_end(bytes: Seq<u8>) -> int {
        let size = le_value(bytes.subrange(1, 9));
        if HEADER_LEN + size <= bytes.len() {
            HEADER_LEN + size
        } else {
            bytes.len() as int
        }
    }

    /// The frame that `bytes` denote, if they hold a whole header. The four
    /// high bits of the flags byte are not looked at. The payload is the
    /// bytes that follow the header, as many as the size field says; what
    /// comes after them is not part of the frame. A datagram that holds
    /// fewer gives a frame whose payload is shorter than its size field
    /// says.
    pub open spec fn decode(bytes: Seq<u8>) -> Option<PacketView> {
        if bytes.len() < HEADER_LEN {
            None
        } else {
            Some(
                PacketView {
                    size: le_value(bytes.subrange(1, 9)) as u64,
                    content: bytes.subrange(HEADER_LEN as int, Self::payload_end(bytes)),
                    sequence: le_value(bytes.subrange(9, 17)) as u64,
                    acked: le_value(bytes.subrange(17, 25)) as u64,
                    syn: has_flag(bytes[0], FLAG_SYN),
                    ack: has_flag(bytes[0], FLAG_ACK),
                    reset: has_flag(bytes[0], FLAG_RST),
                    fin: has_flag(bytes[0], FLAG_FIN),
                },
            )
        }
    }
}

/// Each flag can be read back from the byte that `flag_bits` builds.
pub proof fn lemma_flag_bits(ack: bool, syn: bool, reset: bool, fin: bool)
    ensures
        has_flag(flag_bits(ack, syn, reset, fin), FLAG_ACK) == ack,
        has_flag(flag_bits(ack, syn, reset, fin), FLAG_SYN) == syn,
        has_flag(flag_bits(ack, syn, reset, fin), FLAG_RST) == reset,
        has_flag(flag_bits(ack, syn, reset, fin), FLAG_FIN) == fin,
        flag_bits(ack, syn, reset, fin) < 16,
{
    let a: u8 = if ack { 1 } else { 0 };
    let s: u8 = if syn { 2 } else { 0 };
    let r: u8 = if reset { 4 } else { 0 };
    let f: u8 = if fin { 8 } else { 0 };
    assert((a == 0 || a == 1) && (s == 0 || s == 2) && (r == 0 || r == 4) && (f == 0 || f == 8)
        ==> (((a | s | r | f) & 1 != 0) == (a == 1)) && (((a | s | r | f) & 2 != 0) == (s == 2))
        && (((a | s | r | f) & 4 != 0) == (r == 4)) && (((a | s | r | f) & 8 != 0) == (f == 8))
        && (a | s | r | f) < 16) by (bit_vector);
}

/// Decoding an encoded frame gives the frame back, whatever its flags,
/// numbers and payload are, as long as its size field says how long its
/// payload is.
pub proof fn lemma_decode_encode(p: PacketView)
    requires
        p.consistent(),
    ensures
        p.encode().len() == HEADER_LEN + p.content.len(),
        PacketView::decode(p.encode()) == Some(p),
{
    let bytes = p.encode();
    lemma_flag_bits(p.ack, p.syn, p.reset, p.fin);
    lemma_le_value_of_bytes(p.size);
    lemma_le_value_of_bytes(p.sequence);
    lemma_le_value_of_bytes(p.acked);
    assert(bytes.subrange(1, 9) =~= le_bytes(p.size));
    assert(bytes.subrange(9, 17) =~= le_bytes(p.sequence));
    assert(bytes.subrange(17, 25) =~= le_bytes(p.acked));
    assert(bytes.subrange(HEADER_LEN as int, bytes.len() as int) =~= p.content);
}

/// A datagram that holds as many payload bytes as its size field says, or
/// more, decodes to a frame whose payload is exactly that long: the bytes
/// from the end of the header on, and none of what follows them.
pub proof fn lemma_decode_consistent(bytes: Seq<u8>)
    requires
        bytes.len() >= HEADER_LEN + le_value(bytes.subrange(1, 9)),
    ensures
        PacketView::decode(bytes) matches Some(p) && p.consistent() && p.content
            == bytes.subrange(HEADER_LEN as int, HEADER_LEN + p.size),
{
    lemma_le_value_bounds(bytes.subrange(1, 9));
}

/// Encoding a decoded datagram gives the datagram back, provided that it
/// ends with its payload and that the four high bits of its flags byte are
/// clear: no two frames share their bytes.
pub proof fn lemma_encode_decode(bytes: Seq<u8>)
    requires
        bytes.len() == HEADER_LEN + le_value(bytes.subrange(1, 9)),
        bytes[0] < 16,
    ensures
        PacketView::decode(bytes) is Some,
        PacketView::decode(bytes)->Some_0.encode() == bytes,
{
    let p = PacketView::decode(bytes)->Some_0;
    let b = bytes[0];
    assert(b < 16 ==> (if b & 1 != 0 { 1u8 } else { 0u8 }) | (if b & 2 != 0 { 2u8 } else { 0u8 })
        | (if b & 4 != 0 { 4u8 } else { 0u8 }) | (if b & 8 != 0 { 8u8 } else { 0u8 }) == b)
        by (bit_vector);
    lemma_le_value_bounds(bytes.subrange(1, 9));
    lemma_le_bytes_of_value(bytes.subrange(1, 9));
    lemma_le_bytes_of_value(bytes.subrange(9, 17));
    lemma_le_bytes_of_value(bytes.subrange(17, 25));
    assert(p.encode() =~= bytes);
}

impl View for Packet {
    type V = PacketView;

    closed spec fn view(&self) -> PacketView {
        PacketView {
            size: self.size,
            content: self.content@,
            sequence: self.sequence,
            acked: self.acked,
            syn: self.syn,
            ack: self.ack,
            reset: self.reset,
            fin: self.fin,
        }
    }
}

impl Packet {
    /// A data frame: `content` at offset `sequence` of the stream.
    pub fn new_data(content: Vec<u8>, sequence: u64) -> (packet: Packet)
        ensures
            packet@ == PacketView::data(content@, sequence),
    {
        let size = content.len() as u64;
        Packet {
            size,
            content,
            sequence,
            acked: 0,
            syn: false,
            ack: false,
            reset: false,
            fin: false,
        }
    }

    /// An acknowledgement of every byte below `acked`.
    pub fn new_ack(sequence: u64, acked: u64) -> (packet: Packet)
        ensures
            packet@ == PacketView::ack(sequence, acked),
    {
        Packet {
            size: 0,
            content: Vec::new(),
            sequence,
            acked,
            syn: false,
            ack: true,
            reset: false,
            fin: false,
        }
    }

    /// The answer to a connection request.
    pub fn new_synack(sequence: u64, acked: u64) -> (packet: Packet)
        ensures
            packet@ == PacketView::synack(sequence, acked),
    {
        Packet {
            size: 0,
            content: Vec::new(),
            sequence,
            acked,
            syn: true,
            ack: true,
            reset: false,
            fin: false,
        }
    }

    /// A connection request.
    pub fn new_syn(sequence: u64) -> (packet: Packet)
        ensures
            packet@ == PacketView::syn(sequence),
    {
        Packet {
            size: 0,
            content: Vec::new(),
            sequence,
            acked: 0,
            syn: true,
            ack: false,
            reset: false,
            fin: false,
        }
    }

    /// An abrupt teardown.
    pub fn new_reset(sequence: u64) -> (packet: Packet)
        ensures
            packet@ == PacketView::reset(sequence),
    {
        Packet {
            size: 0,
            content: Vec::new(),
            sequence,
            acked: 0,
            syn: false,
            ack: false,
            reset: true,
            fin: false,
        }
    }

    /// A graceful teardown.
    pub fn new_fin(sequence: u64) -> (packet: Packet)
        ensures
            packet@ == PacketView::fin(sequence),
    {
        Packet {
            size: 0,
            content: Vec::new(),
            sequence,
            acked: 0,
            syn: false,
            ack: false,
            reset: false,
            fin: true,
        }
    }

    /// The payload.
    pub fn get_content(self) -> (content: Vec<u8>)
        ensures
            content@ == self@.content,
    {
        self.content
    }

    /// The offset of the first payload byte in the sender's stream.
    pub fn get_sequence(&self) -> (sequence: u64)
        ensures
            sequence == self@.sequence,
    {
        self.sequence
    }

    /// The offset below which the sender has received everything.
    pub fn get_acked(&self) -> (acked: u64)
        ensures
            acked == self@.acked,
    {
        self.acked
    }

    /// The payload size that the header announces.
    pub fn get_size(&self) -> (size: u64)
        ensures
            size == self@.size,
    {
        self.size
    }

    /// Whether the SYN flag is set.
    pub fn is_syn(&self) -> (syn: bool)
        ensures
            syn == self@.syn,
    {
        self.syn
    }

    /// Whether the ACK flag is set.
    pub fn is_ack(&self) -> (ack: bool)
        ensures
            ack == self@.ack,
    {
        self.ack
    }

    /// Whether the RST flag is set.
    pub fn is_reset(&self) -> (reset: bool)
        ensures
            reset == self@.reset,
    {
        self.reset
    }

    /// Whether the FIN flag is set.
    pub fn is_fin(&self) -> (fin: bool)
        ensures
            fin == self@.fin,
    {
        self.fin
    }

    /// The bytes of this frame on the wire.
    pub fn to_bytes(self) -> (bytes: Vec<u8>)
        ensures
            bytes@ == self@.encode(),
    {
        let mut vec: Vec<u8> = Vec::new();
        let mut flags: u8 = 0;
        if self.fin {
            flags = flags | FLAG_FIN;
        }
        if self.reset {
            flags = flags | FLAG_RST;
        }
        if self.syn {
            flags = flags | FLAG_SYN;
        }
        if self.ack {
            flags = flags | FLAG_ACK;
        }
        proof {
            let a: u8 = if self.ack { 1 } else { 0 };
            let s: u8 = if self.syn { 2 } else { 0 };
            let r: u8 = if self.reset { 4 } else { 0 };
            let f: u8 = if self.fin { 8 } else { 0 };
            assert((((0u8 | f) | r) | s) | a == a | s | r | f) by (bit_vector);
            assert(0u8 | 8u8 == 8u8 && forall|x: u8| #![auto] x | 0 == x && 0 | x == x)
                by (bit_vector);
        }
        vec.push(flags);
        write_u64(&mut vec, self.size);
        write_u64(&mut vec, self.sequence);
        write_u64(&mut vec, self.acked);
        let mut content = self.content;
        vec.append(&mut content);
        vec
    }

    /// Whether the size field says how long the payload is.
    pub fn is_consistent(&self) -> (consistent: bool)
        ensures
            consistent == self@.consistent(),
    {
        self.content.len() as u64 == self.size
    }

    /// Reads a frame from a datagram. A datagram that is too short for the
    /// header is no frame. The payload is as long as the size field says,
    /// wherever the datagram holds that many bytes behind the header; what
    /// follows them is left out.
    pub fn from_bytes(bytes: Vec<u8>) -> (result: Result<Packet, Error>)
        ensures
            result is Err <==> bytes.len() < HEADER_LEN,
            result matches Err(e) ==> e == Error::Format,
            match result {
                Ok(packet) => PacketView::decode(bytes@) == Some(packet@),
                Err(_) => PacketView::decode(bytes@) is None,
            },
            result matches Ok(packet) ==> (bytes.len() >= HEADER_LEN + packet@.size <==> packet@
                .consistent()),
            result matches Ok(packet) ==> bytes.len() >= HEADER_LEN + packet@.size
                ==> packet@.content == bytes@.subrange(
                HEADER_LEN as int,
                HEADER_LEN + packet@.size,
            ),
    {
        if bytes.len() < HEADER_LEN {
            return Err(Error::Format);
        }
        let flags = bytes[0];
        let fin = (flags & FLAG_FIN) != 0;
        let reset = (flags & FLAG_RST) != 0;
        let syn = (flags & FLAG_SYN) != 0;
        let ack = (flags & FLAG_ACK) != 0;
        let size = read_u64(&bytes, 1);
        let sequence = read_u64(&bytes, 9);
        let acked = read_u64(&bytes, 17);
        let ghost datagram = bytes@;
        let mut bytes = bytes;
        let mut content = bytes.split_off(HEADER_LEN);
        if size < content.len() as u64 {
            content.truncate(size as usize);
        }
        assert(content@ =~= datagram.subrange(
            HEADER_LEN as int,
            PacketView::payload_end(datagram),
        ));
        Ok(Packet { size, content, sequence, acked, syn, ack, reset, fin })
    }
}

} // verus!
