use rust_raknet::datatype::{Address, RaknetReader, RaknetWriter};
use rust_raknet::error::RaknetError;
use rust_raknet::packet::{
    read_packet_ack, read_packet_connected_ping, read_packet_connection_open_request_1,
    read_packet_connection_open_request_2, read_packet_connection_request,
    read_packet_connection_request_accepted, read_packet_incompatible_protocol_version,
    read_packet_nack, read_packet_new_incomming_connection, read_packet_ping, read_packet_pong,
    write_packet_ack, write_packet_connected_ping, write_packet_connected_pong,
    write_packet_connection_open_request_1, write_packet_connection_open_request_2,
    write_packet_connection_request, write_packet_connection_request_accepted,
    write_packet_incompatible_protocol_version, write_packet_nack,
    write_packet_new_incomming_connection, write_packet_ping, write_packet_pong, Ack,
    ConnectedPing, ConnectedPong, ConnectionRequest, ConnectionRequestAccepted,
    IncompatibleProtocolVersion, Nack, NewIncomingConnection, OpenConnectionRequest1,
    OpenConnectionRequest2, PacketID, PacketUnconnectedPing, PacketUnconnectedPong,
};
use rust_raknet::utils::Endian;

const MAGIC: [u8; 16] = [
    0x00, 0xff, 0xff, 0x00, 0xfe, 0xfe, 0xfe, 0xfe, 0xfd, 0xfd, 0xfd, 0xfd, 0x12, 0x34, 0x56, 0x78,
];

#[test]
fn packet_ids_round_trip() {
    for b in [0x00u8, 0x01, 0x02, 0x03, 0x05, 0x06, 0x07, 0x08, 0x09, 0x10, 0x12, 0x13, 0x15, 0x19, 0x1c, 0xa0, 0xc0, 0xfe] {
        assert_eq!(PacketID::from(b).unwrap().to_u8(), b);
    }
    assert_eq!(PacketID::from(0x85).unwrap(), PacketID::FrameSetPacketBegin);
    assert_eq!(PacketID::from(0x04).err(), Some(RaknetError::IncorrectPacketID));
}

#[test]
fn ping_round_trip() {
    let p = PacketUnconnectedPing { time: -5, magic: true, guid: 0x0102030405060708 };
    let b = write_packet_ping(&p).unwrap();
    assert_eq!(b.len(), 33);
    assert_eq!(b[0], 0x01);
    assert_eq!(&b[9..25], &MAGIC);
    let q = read_packet_ping(&b).unwrap();
    assert_eq!(q.time, -5);
    assert!(q.magic);
    assert_eq!(q.guid, 0x0102030405060708);
    assert_eq!(read_packet_ping(&b[..10]).err(), Some(RaknetError::ReadPacketBufferError));
}

#[test]
fn pong_round_trip() {
    let p = PacketUnconnectedPong { time: 42, guid: 7, magic: true, motd: "MCPE;héllo".to_string() };
    let b = write_packet_pong(&p).unwrap();
    assert_eq!(b[0], 0x1c);
    assert_eq!(&b[33..35], &[0, 11]);
    let q = read_packet_pong(&b).unwrap();
    assert_eq!(q.time, 42);
    assert_eq!(q.guid, 7);
    assert_eq!(q.motd, "MCPE;héllo");
}

#[test]
fn request_1_mtu_is_length_plus_udp_headers() {
    let p = OpenConnectionRequest1 { magic: true, protocol_version: 10, mtu_size: 1400 };
    let b = write_packet_connection_open_request_1(&p).unwrap();
    assert_eq!(b.len(), 1372);
    let q = read_packet_connection_open_request_1(&b).unwrap();
    assert_eq!(q.protocol_version, 10);
    assert_eq!(q.mtu_size, 1400);
    assert!(q.magic);
}

#[test]
fn request_2_round_trip_v4() {
    let p = OpenConnectionRequest2 {
        magic: true,
        address: Address::V4([127, 0, 0, 1], 19132),
        mtu: 1400,
        guid: 99,
    };
    let b = write_packet_connection_open_request_2(&p).unwrap();
    assert_eq!(&b[17..24], &[4, 128, 255, 255, 254, 0x4a, 0xbc]);
    let q = read_packet_connection_open_request_2(&b).unwrap();
    assert_eq!(q.address, Address::V4([127, 0, 0, 1], 19132));
    assert_eq!(q.mtu, 1400);
    assert_eq!(q.guid, 99);
}

#[test]
fn incompatible_round_trip() {
    let p = IncompatibleProtocolVersion { server_protocol: 10, magic: true, server_guid: 3 };
    let b = write_packet_incompatible_protocol_version(&p).unwrap();
    assert_eq!(&b[..2], &[0x19, 10]);
    let q = read_packet_incompatible_protocol_version(&b).unwrap();
    assert_eq!(q.server_protocol, 10);
    assert_eq!(q.server_guid, 3);
}

#[test]
fn connection_request_round_trip() {
    let p = ConnectionRequest { guid: 5, time: 6, use_encryption: 0 };
    let b = write_packet_connection_request(&p).unwrap();
    assert_eq!(b.len(), 18);
    let q = read_packet_connection_request(&b).unwrap();
    assert_eq!(q.guid, 5);
    assert_eq!(q.time, 6);
}

#[test]
fn accepted_reads_address_and_index_only() {
    let p = ConnectionRequestAccepted {
        client_address: Address::V4([10, 0, 0, 2], 5000),
        system_index: 3,
        request_timestamp: 11,
        accepted_timestamp: 12,
    };
    let b = write_packet_connection_request_accepted(&p).unwrap();
    assert_eq!(b.len(), 96);
    let q = read_packet_connection_request_accepted(&b).unwrap();
    assert_eq!(q.client_address, Address::V4([10, 0, 0, 2], 5000));
    assert_eq!(q.system_index, 3);
    assert_eq!(q.request_timestamp, 0);
    assert_eq!(q.accepted_timestamp, 0);
}

#[test]
fn incoming_round_trip() {
    let p = NewIncomingConnection {
        server_address: Address::V4([1, 2, 3, 4], 80),
        request_timestamp: 100,
        accepted_timestamp: 200,
    };
    let b = write_packet_new_incomming_connection(&p).unwrap();
    assert_eq!(b[0], 0x13);
    let q = read_packet_new_incomming_connection(&b).unwrap();
    assert_eq!(q.server_address, Address::V4([1, 2, 3, 4], 80));
    assert_eq!(q.request_timestamp, 100);
    assert_eq!(q.accepted_timestamp, 200);
}

#[test]
fn connected_ping_pong_bytes() {
    let b = write_packet_connected_ping(&ConnectedPing { client_timestamp: 1 }).unwrap();
    assert_eq!(b, vec![0, 0, 0, 0, 0, 0, 0, 0, 1]);
    assert_eq!(read_packet_connected_ping(&b).unwrap().client_timestamp, 1);
    let b = write_packet_connected_pong(&ConnectedPong { client_timestamp: 1, server_timestamp: 2 })
        .unwrap();
    assert_eq!(b.len(), 17);
    assert_eq!(b[0], 3);
    assert_eq!(b[16], 2);
}

#[test]
fn ack_records_round_trip() {
    let p = Ack { record_count: 2, sequences: vec![(1, 1), (3, 0x010203)] };
    let b = write_packet_ack(&p).unwrap();
    assert_eq!(b, vec![0xc0, 0, 2, 1, 1, 0, 0, 0, 3, 0, 0, 3, 2, 1]);
    let q = read_packet_ack(&b).unwrap();
    assert_eq!(q.record_count, 2);
    assert_eq!(q.sequences, vec![(1, 1), (3, 0x010203)]);
    let n = Nack { record_count: 1, sequences: vec![(9, 9)] };
    let b = write_packet_nack(&n).unwrap();
    assert_eq!(b, vec![0xa0, 0, 1, 1, 9, 0, 0]);
    assert_eq!(read_packet_nack(&b).unwrap().sequences, vec![(9, 9)]);
}

#[test]
fn writer_and_reader_agree() {
    let mut w = RaknetWriter::new();
    w.write_u16(0x0102, Endian::Big).unwrap();
    w.write_u16(0x0102, Endian::Little).unwrap();
    w.write_u32(0x01020304, Endian::Big).unwrap();
    w.write_i64(-2, Endian::Big).unwrap();
    w.write_u64(0x0102030405060708, Endian::Little).unwrap();
    w.write_string("ab").unwrap();
    assert_eq!(w._pos(), 28);
    let b = w.get_raw_payload();
    assert_eq!(&b[..8], &[1, 2, 2, 1, 1, 2, 3, 4]);
    let mut r = RaknetReader::new(b);
    assert_eq!(r.read_u16(Endian::Big).unwrap(), 0x0102);
    assert_eq!(r.read_u16(Endian::Little).unwrap(), 0x0102);
    assert_eq!(r.read_u32(Endian::Big).unwrap(), 0x01020304);
    assert_eq!(r.read_i64(Endian::Big).unwrap(), -2);
    assert_eq!(r.read_u64(Endian::Little).unwrap(), 0x0102030405060708);
    assert_eq!(r.read_string().unwrap(), "ab");
    assert_eq!(r.pos(), 28);
    assert_eq!(r.read_u16(Endian::Big).err(), Some(RaknetError::ReadPacketBufferError));
}

#[test]
fn magic_and_address_through_reader() {
    let mut w = RaknetWriter::new();
    w.write_magic().unwrap();
    w.write_address(Address::V4([192, 168, 0, 1], 19132)).unwrap();
    let mut r = RaknetReader::new(w.get_raw_payload());
    assert!(r.read_magic().unwrap());
    assert_eq!(r.read_address().unwrap(), Address::V4([192, 168, 0, 1], 19132));
    let mut bad = RaknetReader::new(vec![0u8; 16]);
    assert!(!bad.read_magic().unwrap());
}
