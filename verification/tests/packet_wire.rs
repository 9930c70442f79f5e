use kbucket::id::{Id, ID_BYTES};
use kbucket::packet::{
    decode_ids, find_node_packet, ids_fit_payload, ping_packet, pong_packet, send_node_packet,
    Packet, DATA_SIZE, FINDNODE_HEADER, PING_HEADER, PONG_HEADER, SENDNODE_HEADER,
};

#[test]
fn id_bytes_are_big_endian() {
    let id = Id::new(0x01020304);
    assert_eq!(id.as_bytes(), vec![1, 2, 3, 4]);
    assert_eq!(Id::new(0).as_bytes(), vec![0, 0, 0, 0]);
    assert_eq!(Id::new(u32::MAX).as_bytes(), vec![0xff, 0xff, 0xff, 0xff]);
}

#[test]
fn id_from_bytes_reads_at_offset() {
    let buf = vec![0xde, 0xad, 0xbe, 0xef, 0x01, 0x02, 0x03, 0x04];
    assert_eq!(Id::from_bytes(&buf, 0), Id::new(0xdeadbeef));
    assert_eq!(Id::from_bytes(&buf, 4), Id::new(0x01020304));
}

#[test]
fn id_half_and_succ() {
    assert_eq!(Id::new(16).half(), Id::new(8));
    assert_eq!(Id::new(17).half(), Id::new(8));
    assert_eq!(Id::new(0).half(), Id::new(0));
    assert_eq!(Id::new(8).succ(), Id::new(9));
}

#[test]
fn ping_is_zero_filled() {
    let p = ping_packet();
    assert_eq!(p.header(), PING_HEADER);
    assert_eq!(p.payload(), &vec![0u8; DATA_SIZE]);
}

#[test]
fn pong_echoes_the_cookie() {
    let p = pong_packet(0xdeadbeef);
    assert_eq!(p.header(), PONG_HEADER);
    assert_eq!(p.cookie(), 0xdeadbeef);
    assert_eq!(p.payload(), &vec![0u8; DATA_SIZE]);
}

#[test]
fn packet_wire_layout() {
    let p = Packet::new(PONG_HEADER, 0x11223344, vec![9u8; DATA_SIZE]);
    let bytes = p.as_bytes();
    assert_eq!(bytes.len(), 1 + 4 + DATA_SIZE);
    assert_eq!(bytes[0], PONG_HEADER);
    assert_eq!(&bytes[1..5], &[0x11, 0x22, 0x33, 0x44]);
    assert_eq!(&bytes[5..], &[9u8; DATA_SIZE][..]);
}

#[test]
fn find_node_round_trip() {
    let x = Id::new(0xdeadbeef);
    let p = find_node_packet(&x);
    assert_eq!(p.header(), FINDNODE_HEADER);
    // the queried identifier sits left-aligned, the rest is zero
    let decoded = decode_ids(p.payload(), 1);
    assert_eq!(decoded, vec![x]);
    assert!(p.payload()[ID_BYTES..].iter().all(|b| *b == 0));
}

#[test]
fn send_node_round_trip_keeps_order() {
    let x1 = Id::new(0xcafe0001);
    let x2 = Id::new(0x00b0b002);
    let p = send_node_packet(7, &vec![x1, x2]);
    assert_eq!(p.header(), SENDNODE_HEADER);
    assert_eq!(p.cookie(), 7);
    let decoded = decode_ids(p.payload(), 2);
    assert_eq!(decoded, vec![x1, x2]);
    assert!(p.payload()[2 * ID_BYTES..].iter().all(|b| *b == 0));
}

#[test]
fn send_node_of_nothing_is_all_zero() {
    let p = send_node_packet(3, &vec![]);
    assert_eq!(p.payload(), &vec![0u8; DATA_SIZE]);
}

#[test]
fn payload_capacity_check() {
    // two 4-byte identifiers need at least 8 payload bytes
    assert!(ids_fit_payload(2, 4, 8));
    assert!(!ids_fit_payload(2, 4, 4));
    assert!(ids_fit_payload(0, 4, 0));
    // the product is judged mathematically, it does not wrap
    assert!(!ids_fit_payload(usize::MAX, usize::MAX, usize::MAX));
}

#[test]
fn client_configuration_bound() {
    // the largest identifier count a client may be configured with
    assert!(ids_fit_payload(DATA_SIZE / ID_BYTES, ID_BYTES, DATA_SIZE));
    assert!(!ids_fit_payload(DATA_SIZE / ID_BYTES + 1, ID_BYTES, DATA_SIZE));
}
