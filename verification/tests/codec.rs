use reliable_udp::endian::{read_u64, write_u64};
use reliable_udp::error::Error;
use reliable_udp::packets::packet::Packet as Segment;
use reliable_udp::protocol::packets::ack::Ack;
use reliable_udp::protocol::packets::Packet;

fn with_flags(bits: u8, sequence: u64, acked: u64, payload: &[u8]) -> Vec<u8> {
    let mut bytes = vec![bits];
    bytes.extend_from_slice(&(payload.len() as u64).to_le_bytes());
    bytes.extend_from_slice(&sequence.to_le_bytes());
    bytes.extend_from_slice(&acked.to_le_bytes());
    bytes.extend_from_slice(payload);
    bytes
}

#[test]
fn u64_is_written_least_significant_byte_first() {
    let mut out = vec![0xaa];
    write_u64(&mut out, 0x0102_0304_0506_0708);
    assert_eq!(out, vec![0xaa, 8, 7, 6, 5, 4, 3, 2, 1]);
    assert_eq!(read_u64(&out, 1), 0x0102_0304_0506_0708);
}

#[test]
fn u64_round_trips_at_the_limits() {
    for x in [0u64, 1, 255, 256, 65535, 65536, u64::MAX - 1, u64::MAX] {
        let mut out = Vec::new();
        write_u64(&mut out, x);
        assert_eq!(out, x.to_le_bytes().to_vec());
        assert_eq!(read_u64(&out, 0), x);
    }
}

#[test]
fn ack_frame_round_trips() {
    let bytes = Packet::new_ack(7, 9).to_bytes();
    assert_eq!(bytes.len(), 25);
    assert_eq!(bytes[0], 0x1);
    assert_eq!(&bytes[1..9], &[0u8; 8]);
    assert_eq!(&bytes[9..17], &[7, 0, 0, 0, 0, 0, 0, 0]);
    assert_eq!(&bytes[17..25], &[9, 0, 0, 0, 0, 0, 0, 0]);
    let back = Packet::from_bytes(bytes).unwrap();
    assert!(back.is_ack());
    assert!(!back.is_syn());
    assert!(!back.is_reset());
    assert!(!back.is_fin());
    assert_eq!(back.get_sequence(), 7);
    assert_eq!(back.get_acked(), 9);
    assert_eq!(back.get_size(), 0);
    assert_eq!(back.get_content(), Vec::<u8>::new());
}

#[test]
fn each_constructor_sets_its_flags() {
    assert_eq!(Packet::new_data(vec![1, 2, 3], 5).to_bytes()[0], 0x0);
    assert_eq!(Packet::new_ack(1, 2).to_bytes()[0], 0x1);
    assert_eq!(Packet::new_syn(1).to_bytes()[0], 0x2);
    assert_eq!(Packet::new_synack(1, 2).to_bytes()[0], 0x3);
    assert_eq!(Packet::new_reset(1).to_bytes()[0], 0x4);
    assert_eq!(Packet::new_fin(1).to_bytes()[0], 0x8);
}

#[test]
fn data_frame_has_its_layout() {
    let bytes = Packet::new_data(vec![10, 20, 30], 0x0102).to_bytes();
    assert_eq!(bytes, with_flags(0, 0x0102, 0, &[10, 20, 30]));
    assert_eq!(bytes.len(), 28);
    assert_eq!(&bytes[1..9], &[3, 0, 0, 0, 0, 0, 0, 0]);
    assert_eq!(&bytes[9..17], &[2, 1, 0, 0, 0, 0, 0, 0]);
    assert_eq!(&bytes[25..], &[10, 20, 30]);
}

#[test]
fn data_frame_round_trips() {
    let payload: Vec<u8> = (0..=255u8).collect();
    let frame = Packet::new_data(payload.clone(), u64::MAX);
    assert_eq!(frame.get_size(), 256);
    let back = Packet::from_bytes(frame.to_bytes()).unwrap();
    assert_eq!(back.get_sequence(), u64::MAX);
    assert_eq!(back.get_acked(), 0);
    assert_eq!(back.get_size(), 256);
    assert!(!back.is_ack() && !back.is_syn() && !back.is_reset() && !back.is_fin());
    assert_eq!(back.get_content(), payload);
}

#[test]
fn every_flag_combination_round_trips() {
    for bits in 0u8..16 {
        let wire = with_flags(bits, 11, 22, &[9, 8]);
        let frame = Packet::from_bytes(wire.clone()).unwrap();
        assert_eq!(frame.is_ack(), bits & 1 != 0);
        assert_eq!(frame.is_syn(), bits & 2 != 0);
        assert_eq!(frame.is_reset(), bits & 4 != 0);
        assert_eq!(frame.is_fin(), bits & 8 != 0);
        assert_eq!(frame.get_sequence(), 11);
        assert_eq!(frame.get_acked(), 22);
        assert_eq!(frame.get_size(), 2);
        assert_eq!(frame.to_bytes(), wire);
    }
}

#[test]
fn high_flag_bits_are_not_looked_at() {
    let frame = Packet::from_bytes(with_flags(0xf2, 1, 2, &[])).unwrap();
    assert!(frame.is_syn());
    assert!(!frame.is_ack() && !frame.is_reset() && !frame.is_fin());
    assert_eq!(frame.to_bytes()[0], 0x2);
}

#[test]
fn short_datagram_is_a_format_error() {
    for len in 0..25usize {
        let result = Packet::from_bytes(vec![0u8; len]);
        assert!(matches!(result, Err(Error::Format)));
    }
    assert!(Packet::from_bytes(vec![0u8; 25]).is_ok());
}

#[test]
fn payload_ends_where_the_size_field_says() {
    let mut wire = with_flags(0, 3, 0, &[1, 2, 3]);
    wire.extend_from_slice(&[9, 9]);
    let frame = Packet::from_bytes(wire).unwrap();
    assert_eq!(frame.get_size(), 3);
    assert!(frame.is_consistent());
    assert_eq!(frame.get_content(), vec![1, 2, 3]);

    let mut wire = with_flags(1, 3, 4, &[]);
    wire.push(7);
    assert_eq!(wire.len(), 26);
    let frame = Packet::from_bytes(wire).unwrap();
    assert_eq!(frame.get_size(), 0);
    assert!(frame.is_consistent());
    assert_eq!(frame.get_content(), Vec::<u8>::new());
}

#[test]
fn datagram_with_exactly_its_payload_is_consistent() {
    let payload: Vec<u8> = (0..100u8).collect();
    let frame = Packet::from_bytes(with_flags(0, 3, 0, &payload)).unwrap();
    assert_eq!(frame.get_size(), 100);
    assert!(frame.is_consistent());
    assert_eq!(frame.get_content(), payload);
}

#[test]
fn datagram_cut_short_keeps_its_size_field_and_what_it_holds() {
    let mut wire = with_flags(0, 3, 0, &[1, 2, 3, 4]);
    wire[1] = 9;
    let frame = Packet::from_bytes(wire).unwrap();
    assert_eq!(frame.get_size(), 9);
    assert!(!frame.is_consistent());
    assert_eq!(frame.get_content(), vec![1, 2, 3, 4]);
}

#[test]
fn built_frames_are_consistent() {
    assert!(Packet::new_data(vec![1, 2, 3], 5).is_consistent());
    assert!(Packet::new_data(Vec::new(), 5).is_consistent());
    assert!(Packet::new_ack(1, 2).is_consistent());
    assert!(Packet::new_syn(1).is_consistent());
    assert!(Packet::new_synack(1, 2).is_consistent());
    assert!(Packet::new_reset(1).is_consistent());
    assert!(Packet::new_fin(1).is_consistent());
}

#[test]
fn plain_segment_round_trips() {
    let segment = Segment::new(vec![5, 6, 7], 0x0a0b);
    assert_eq!(segment.get_size(), 3);
    assert_eq!(segment.get_sequence(), 0x0a0b);
    let bytes = segment.to_bytes();
    assert_eq!(
        bytes,
        vec![3, 0, 0, 0, 0, 0, 0, 0, 0x0b, 0x0a, 0, 0, 0, 0, 0, 0, 5, 6, 7]
    );
    let back = Segment::from_bytes(bytes);
    assert_eq!(back.get_size(), 3);
    assert_eq!(back.get_sequence(), 0x0a0b);
    assert_eq!(back.get_content(), vec![5, 6, 7]);
}

#[test]
fn plain_segment_of_header_only_is_empty() {
    let back = Segment::from_bytes(vec![0u8; 16]);
    assert_eq!(back.get_size(), 0);
    assert_eq!(back.get_sequence(), 0);
    assert_eq!(back.get_content(), Vec::<u8>::new());
}

#[test]
fn bare_ack_round_trips() {
    let ack = Ack::new(0x0102, u64::MAX);
    assert_eq!(ack.get_sequence(), 0x0102);
    assert_eq!(ack.get_acked(), u64::MAX);
    let bytes = ack.to_bytes();
    assert_eq!(
        bytes,
        vec![2, 1, 0, 0, 0, 0, 0, 0, 255, 255, 255, 255, 255, 255, 255, 255]
    );
    let back = Ack::from_bytes(bytes);
    assert_eq!(back.get_sequence(), 0x0102);
    assert_eq!(back.get_acked(), u64::MAX);
}

#[test]
fn errors_describe_themselves() {
    assert_eq!(Error::Format.describe(), "frame shorter than its header");
    assert_eq!(Error::ConnectionAborted.describe(), "failed to connect");
    assert_eq!(Error::ConnectionReset.describe(), "connection reset by peer");
    assert_eq!(Error::EndOfStream.describe(), "end of stream");
    assert_eq!(Error::NotConnected.describe(), "endpoint stopped");
}
