//! The plain data segment: a payload, its size and its offset in the stream.
//!
//! On the wire it is the size, then the sequence, both as little-endian
//! 64-bit numbers, then the payload.

use crate::endian::{le_bytes, le_value, lemma_le_value_of_bytes, read_u64, write_u64};
use vstd::prelude::*;

verus! {

/// Length of the fixed header of a data segment.
pub const SEGMENT_HEADER_LEN: usize = 16;

/// A payload with its size and its offset in the stream.
#[derive(Debug)]
pub struct Packet {
    size: u64,
    content: Vec<u8>,
    sequence: u64,
}

/// What a data segment is, as a mathematical value.
pub ghost struct SegmentView {
    pub size: u64,
    pub content: Seq<u8>,
    pub sequence: u64,
}

impl SegmentView {
    /// The bytes of this segment on the wire.
    pub open spec fn encode(self) -> Seq<u8> {
        le_bytes(self.size) + le_bytes(self.sequence) + self.content
    }

    /// The segment that `bytes` denote; the payload is whatever follows the
    /// header.
    pub open spec fn decode(bytes: Seq<u8>) -> SegmentView
        recommends
            bytes.len() >= SEGMENT_HEADER_LEN,
    {
        SegmentView {
            size: le_value(bytes.subrange(0, 8)) as u64,
            content: bytes.subrange(SEGMENT_HEADER_LEN as int, bytes.len() as int),
            sequence: le_value(bytes.subrange(8, 16)) as u64,
        }
    }
}

/// Decoding an encoded segment gives the segment back.
pub proof fn lemma_segment_decode_encode(p: SegmentView)
    ensures
        p.encode().len() == SEGMENT_HEADER_LEN + p.content.len(),
        SegmentView::decode(p.encode()) == p,
{
    let bytes = p.encode();
    lemma_le_value_of_bytes(p.size);
    lemma_le_value_of_bytes(p.sequence);
    assert(bytes.subrange(0, 8) =~= le_bytes(p.size));
    assert(bytes.subrange(8, 16) =~= le_bytes(p.sequence));
    assert(bytes.subrange(SEGMENT_HEADER_LEN as int, bytes.len() as int) =~= p.content);
}

impl View for Packet {
    type V = SegmentView;

    closed spec fn view(&self) -> SegmentView {
        SegmentView { size: self.size, content: self.content@, sequence: self.sequence }
    }
}

impl Packet {
    /// The segment that carries `content` at offset `sequence`.
    pub fn new(content: Vec<u8>, sequence: u64) -> (packet: Packet)
        ensures
            packet@ == (SegmentView { size: content.len() as u64, content: content@, sequence }),
    {
        let size = content.len() as u64;
        Packet { size, content, sequence }
    }

    /// The payload.
    pub fn get_content(self) -> (content: Vec<u8>)
        ensures
            content@ == self@.content,
    {
        self.content
    }

    /// The offset of the first payload byte in the stream.
    pub fn get_sequence(&self) -> (sequence: u64)
        ensures
            sequence == self@.sequence,
    {
        self.sequence
    }

    /// The payload size that the header announces.
    pub fn get_size(&self) -> (size: u64)
        ensures
            size == self@.size,
    {
        self.size
    }

    /// The bytes of this segment on the wire.
    pub fn to_bytes(self) -> (bytes: Vec<u8>)
        ensures
            bytes@ == self@.encode(),
    {
        let mut vec: Vec<u8> = Vec::new();
        write_u64(&mut vec, self.size);
        write_u64(&mut vec, self.sequence);
        let mut content = self.content;
        vec.append(&mut content);
        vec
    }

    /// Reads a segment from bytes that hold at least its header.
    pub fn from_bytes(bytes: Vec<u8>) -> (packet: Packet)
        requires
            bytes.len() >= SEGMENT_HEADER_LEN,
        ensures
            packet@ == SegmentView::decode(bytes@),
    {
        let size = read_u64(&bytes, 0);
        let sequence = read_u64(&bytes, 8);
        let mut bytes = bytes;
        let content = bytes.split_off(SEGMENT_HEADER_LEN);
        Packet { size, content, sequence }
    }
}

} // verus!
