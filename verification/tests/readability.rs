use rust_raknet::arq::{frame_vec_is_readable, FrameSetPacket, FrameVec, Reliability};
use rust_raknet::conn::{frame_is_readable, listener_is_readable};
use rust_raknet::packet::{
    ack_is_readable, incoming_is_readable, pong_is_readable, reply_2_is_readable,
    write_packet_pong, PacketUnconnectedPong,
};

#[test]
fn ack_readability_follows_the_records() {
    assert!(!ack_is_readable(&[]));
    // Too short for a record count: reading fails gracefully.
    assert!(ack_is_readable(&[0xc0]));
    assert!(ack_is_readable(&[0xc0, 0x00]));
    // One record announced, none present: the reader would start on no byte.
    assert!(!ack_is_readable(&[0xc0, 0x00, 0x01]));
    // One single-number record.
    assert!(ack_is_readable(&[0xc0, 0x00, 0x01, 0x01, 0x05, 0x00, 0x00]));
    // Two announced, one present.
    assert!(!ack_is_readable(&[0xc0, 0x00, 0x02, 0x01, 0x05, 0x00, 0x00]));
    // A range record cut short fails gracefully.
    assert!(ack_is_readable(&[0xc0, 0x00, 0x01, 0x00, 0x01, 0x00, 0x00, 0x02]));
    // A range record in full.
    assert!(ack_is_readable(&[0xc0, 0x00, 0x01, 0x00, 0x01, 0x00, 0x00, 0x02, 0x00, 0x00]));
}

#[test]
fn frame_set_readability_follows_the_frames() {
    assert!(!frame_vec_is_readable(&[0x84, 0x00, 0x00]));
    assert!(frame_vec_is_readable(&[0x84, 0x00, 0x00, 0x00]));
    // A frame header cut before its length.
    assert!(!frame_vec_is_readable(&[0x84, 0x00, 0x00, 0x00, 0x00]));
    // Flags naming no reliability: reading stops with an error, not a panic.
    assert!(frame_vec_is_readable(&[0x84, 0x00, 0x00, 0x00, 0xe0, 0x00, 0x08]));
    // An unreliable frame announcing two bytes but carrying one.
    assert!(!frame_vec_is_readable(&[0x84, 0x00, 0x00, 0x00, 0x00, 0x00, 0x10, 0xaa]));
    assert!(frame_vec_is_readable(&[0x84, 0x00, 0x00, 0x00, 0x00, 0x00, 0x10, 0xaa, 0xbb]));

    let a = FrameSetPacket::new(Reliability::ReliableOrdered, vec![1, 2, 3]);
    let b = FrameSetPacket::new(Reliability::Unreliable, vec![4]);
    let v = FrameVec { id: 0x8c, sequence_number: 9, frames: vec![a, b] };
    let bytes = v._serialize().unwrap();
    assert!(frame_vec_is_readable(&bytes));
    assert!(!frame_vec_is_readable(&bytes[..bytes.len() - 1]));
}

#[test]
fn incoming_readability_follows_the_addresses() {
    assert!(!incoming_is_readable(&[0x13]));
    // An IPv4 address cut short: reading fails gracefully.
    assert!(incoming_is_readable(&[0x13, 4, 1, 2]));
    // A whole IPv4 address and then nothing where ten more addresses should start.
    assert!(!incoming_is_readable(&[0x13, 4, 1, 2, 3, 4, 0, 1]));
    let mut full = vec![0x13, 4, 1, 2, 3, 4, 0, 1];
    for _ in 0..10 {
        full.extend_from_slice(&[4, 1, 2, 3, 4, 0, 1]);
    }
    assert!(incoming_is_readable(&full));
    // Nine addresses, then one cut short: graceful.
    let cut = &full[..full.len() - 3];
    assert!(incoming_is_readable(cut));
    // Nine addresses and nothing more.
    let nine = &full[..full.len() - 7];
    assert!(!incoming_is_readable(nine));
}

#[test]
fn reply_2_readability() {
    assert!(!reply_2_is_readable(&[]));
    assert!(reply_2_is_readable(&[0x08; 10]));
    assert!(!reply_2_is_readable(&[0x08; 25]));
    let mut r = vec![0x08; 25];
    r.extend_from_slice(&[4, 1, 2, 3, 4, 0, 1]);
    r.extend_from_slice(&[0x05, 0x78]);
    // The MTU is present but the final flag is not.
    assert!(!reply_2_is_readable(&r));
    r.push(0);
    assert!(reply_2_is_readable(&r));
}

#[test]
fn pong_readability_checks_the_motd() {
    let p = PacketUnconnectedPong { time: 1, magic: true, guid: 2, motd: "MCPE;x;".to_string() };
    let bytes = write_packet_pong(&p).unwrap();
    assert!(pong_is_readable(&bytes));
    let mut bad = bytes.clone();
    let last = bad.len() - 1;
    bad[last] = 0xff;
    assert!(!pong_is_readable(&bad));
    // Too short to hold the motd at all.
    assert!(pong_is_readable(&bytes[..20]));
}

#[test]
fn message_readability() {
    assert!(!frame_is_readable(&[]));
    assert!(!frame_is_readable(&[0x09; 17]));
    assert!(frame_is_readable(&[0x09; 18]));
    assert!(!frame_is_readable(&[0x10]));
    assert!(frame_is_readable(&[0x10, 4]));
    assert!(!frame_is_readable(&[0x13, 4, 1, 2, 3, 4, 0, 1]));
    assert!(frame_is_readable(&[0xfe]));
}

#[test]
fn listener_readability() {
    assert!(!listener_is_readable(&[]));
    assert!(!listener_is_readable(&[0x05; 17]));
    assert!(listener_is_readable(&[0x05; 18]));
    assert!(listener_is_readable(&[0x05; 16]));
    assert!(!listener_is_readable(&vec![0x05; 65535 - 27]));
    assert!(listener_is_readable(&vec![0x05; 65535 - 28]));
    assert!(!listener_is_readable(&[0x07; 17]));
    assert!(listener_is_readable(&[0x01]));
}
