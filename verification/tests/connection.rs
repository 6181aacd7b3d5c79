use rust_raknet::utils::timestamp_from_millis;
use rust_raknet::arq::{FrameSetPacket, Reliability};
use rust_raknet::conn::{
    ack_datagram, apply_record, check_user_message, datagram_kind, handle_frame,
    heard_nothing_for_too_long, keeps_datagram, listener_action, loss_keeps, open_reply_1_step,
    open_reply_2_step, pong_latency, queue_close, queue_connection_request, DatagramKind,
    FrameAction, ListenerAction,
};
use rust_raknet::datatype::Address;
use rust_raknet::error::RaknetError;
use rust_raknet::packet::{
    read_packet_connection_request, read_packet_connection_request_accepted, write_packet_ack,
    write_packet_connected_ping, write_packet_connection_open_reply_1,
    write_packet_connection_open_reply_2, write_packet_connection_open_request_1,
    write_packet_connection_open_request_2, write_packet_connection_request,
    write_packet_connection_request_accepted, write_packet_ping, write_packet_pong, Ack,
    ConnectedPing, ConnectionRequest, ConnectionRequestAccepted, OpenConnectionReply1,
    OpenConnectionReply2, OpenConnectionRequest1, OpenConnectionRequest2, PacketUnconnectedPing,
    PacketUnconnectedPong,
};
use rust_raknet::send::SendQ;
use rust_raknet::utils::cur_timestamp_millis;

fn peer() -> Address {
    Address::V4([127, 0, 0, 1], 5000)
}

fn local() -> Address {
    Address::V4([127, 0, 0, 1], 19132)
}

#[test]
fn connection_request_is_accepted() {
    let mut q = SendQ::new(1400);
    let req = write_packet_connection_request(&ConnectionRequest { guid: 1, time: 55, use_encryption: 0 })
        .unwrap();
    assert_eq!(handle_frame(&req, peer(), local(), 99, &mut q), Ok(FrameAction::Handled));
    let out = q.flush(0);
    assert_eq!(out.len(), 1);
    assert_eq!(out[0].reliability(), Ok(Reliability::ReliableOrdered));
    let acc = read_packet_connection_request_accepted(&out[0].data).unwrap();
    assert_eq!(acc.client_address, peer());
    let expected = write_packet_connection_request_accepted(&ConnectionRequestAccepted {
        client_address: peer(),
        system_index: 0,
        request_timestamp: 55,
        accepted_timestamp: 99,
    })
    .unwrap();
    assert_eq!(out[0].data, expected);
}

#[test]
fn acceptance_completes_handshake() {
    let mut q = SendQ::new(1400);
    let acc = write_packet_connection_request_accepted(&ConnectionRequestAccepted {
        client_address: peer(),
        system_index: 0,
        request_timestamp: 1,
        accepted_timestamp: 2,
    })
    .unwrap();
    assert_eq!(handle_frame(&acc, peer(), local(), 7, &mut q), Ok(FrameAction::Connected));
    let out = q.flush(0);
    assert_eq!(out.len(), 2);
    assert_eq!(out[0].data[0], 0x13);
    assert_eq!(out[1].data, write_packet_connected_ping(&ConnectedPing { client_timestamp: 7 }).unwrap());
}

#[test]
fn connected_ping_is_answered() {
    let mut q = SendQ::new(1400);
    let ping = write_packet_connected_ping(&ConnectedPing { client_timestamp: 3 }).unwrap();
    assert_eq!(handle_frame(&ping, peer(), local(), 4, &mut q), Ok(FrameAction::Handled));
    let out = q.flush(0);
    assert_eq!(out.len(), 1);
    assert_eq!(out[0].data, vec![3, 0, 0, 0, 0, 0, 0, 0, 3, 0, 0, 0, 0, 0, 0, 0, 4]);
}

#[test]
fn other_messages_are_sorted_out() {
    let mut q = SendQ::new(1400);
    assert_eq!(handle_frame(&[0x15], peer(), local(), 0, &mut q), Ok(FrameAction::Disconnect));
    assert_eq!(handle_frame(&[0xfe, 1], peer(), local(), 0, &mut q), Ok(FrameAction::Deliver));
    assert_eq!(handle_frame(&[0x03], peer(), local(), 0, &mut q), Ok(FrameAction::Handled));
    assert_eq!(handle_frame(&[0x04], peer(), local(), 0, &mut q), Err(RaknetError::IncorrectPacketID));
    assert_eq!(handle_frame(&[0x00, 1], peer(), local(), 0, &mut q), Err(RaknetError::ReadPacketBufferError));
    assert!(q.is_empty());
}

#[test]
fn listener_answers_ping() {
    let ping = write_packet_ping(&PacketUnconnectedPing { time: 1, magic: true, guid: 2 }).unwrap();
    let motd = "MCPE;x".to_string();
    match listener_action(&ping, peer(), 9, motd.clone(), 123, false) {
        ListenerAction::Reply(b) => {
            let expected = write_packet_pong(&PacketUnconnectedPong { time: 123, guid: 9, magic: true, motd })
                .unwrap();
            assert_eq!(b, expected);
        },
        _ => panic!("ping not answered"),
    }
    assert!(matches!(listener_action(&ping[..5], peer(), 9, String::new(), 0, false), ListenerAction::Ignore));
}

#[test]
fn listener_checks_protocol_version() {
    let ok = write_packet_connection_open_request_1(&OpenConnectionRequest1 {
        magic: true,
        protocol_version: 10,
        mtu_size: 1400,
    })
    .unwrap();
    match listener_action(&ok, peer(), 9, String::new(), 0, false) {
        ListenerAction::Reply(b) => {
            let expected = write_packet_connection_open_reply_1(&OpenConnectionReply1 {
                magic: true,
                guid: 9,
                use_encryption: 0,
                mtu_size: 1400,
            })
            .unwrap();
            assert_eq!(b, expected);
        },
        _ => panic!("request 1 not answered"),
    }
    let old = write_packet_connection_open_request_1(&OpenConnectionRequest1 {
        magic: true,
        protocol_version: 9,
        mtu_size: 600,
    })
    .unwrap();
    match listener_action(&old, peer(), 9, String::new(), 0, false) {
        ListenerAction::Reply(b) => {
            assert_eq!(b[0], 0x19);
            assert_eq!(b[1], 10);
        },
        _ => panic!("old version not refused"),
    }
}

#[test]
fn listener_opens_sessions_once() {
    let req = write_packet_connection_open_request_2(&OpenConnectionRequest2 {
        magic: true,
        address: local(),
        mtu: 1200,
        guid: 4,
    })
    .unwrap();
    match listener_action(&req, peer(), 9, String::new(), 0, false) {
        ListenerAction::Accept(b, mtu) => {
            assert_eq!(mtu, 1200);
            let expected = write_packet_connection_open_reply_2(&OpenConnectionReply2 {
                magic: true,
                guid: 9,
                address: peer(),
                mtu: 1200,
                encryption_enabled: 0,
            })
            .unwrap();
            assert_eq!(b, expected);
        },
        _ => panic!("session not opened"),
    }
    match listener_action(&req, peer(), 9, String::new(), 0, true) {
        ListenerAction::Reply(b) => assert_eq!(b[0], 0x12),
        _ => panic!("second session not refused"),
    }
    assert!(matches!(listener_action(&[0x15], peer(), 9, String::new(), 0, true), ListenerAction::Close));
    assert!(matches!(listener_action(&[0x15], peer(), 9, String::new(), 0, false), ListenerAction::Ignore));
    assert!(matches!(listener_action(&[0x84, 0, 0, 0], peer(), 9, String::new(), 0, true), ListenerAction::Forward));
    assert!(matches!(listener_action(&[0x04], peer(), 9, String::new(), 0, true), ListenerAction::Ignore));
}

#[test]
fn client_handshake_steps() {
    let reply = write_packet_connection_open_reply_1(&OpenConnectionReply1 {
        magic: true,
        guid: 1,
        use_encryption: 0,
        mtu_size: 1300,
    })
    .unwrap();
    let request = vec![0u8; 1372];
    let got = open_reply_1_step(&reply, &request).unwrap().unwrap();
    assert_eq!(got.mtu_size, 1300);
    assert_eq!(open_reply_1_step(&[0x1c], &request).unwrap().is_none(), true);
    assert_eq!(open_reply_1_step(&[0x19, 10, 0], &request).err(), Some(RaknetError::NotSupportVersion));
    assert_eq!(open_reply_1_step(&reply[..10], &request).err(), Some(RaknetError::PacketParseError));

    let reply2 = write_packet_connection_open_reply_2(&OpenConnectionReply2 {
        magic: true,
        guid: 1,
        address: peer(),
        mtu: 1300,
        encryption_enabled: 0,
    })
    .unwrap();
    assert_eq!(open_reply_2_step(&reply2), Ok(true));
    assert_eq!(open_reply_2_step(&reply), Ok(false));
    assert_eq!(open_reply_2_step(&[0x1c]), Ok(false));
    assert_eq!(open_reply_2_step(&reply2[..20]), Err(RaknetError::PacketParseError));
}

#[test]
fn connection_request_is_queued() {
    let mut q = SendQ::new(1400);
    queue_connection_request(&mut q, 8, 77).unwrap();
    let out = q.flush(0);
    assert_eq!(out.len(), 1);
    let req = read_packet_connection_request(&out[0].data).unwrap();
    assert_eq!(req.guid, 8);
    assert_eq!(req.time, 77);
}

#[test]
fn user_messages_are_checked() {
    assert_eq!(check_user_message(&[], false), Err(RaknetError::PacketHeaderError));
    assert_eq!(check_user_message(&[1], false), Err(RaknetError::PacketHeaderError));
    assert_eq!(check_user_message(&[0xfe], true), Err(RaknetError::ConnectionClosed));
    assert_eq!(check_user_message(&[0xfe, 3], false), Ok(()));
}

#[test]
fn ack_datagrams() {
    assert_eq!(ack_datagram(vec![], false), None);
    let b = ack_datagram(vec![(0, 2)], false).unwrap();
    assert_eq!(b, write_packet_ack(&Ack { record_count: 1, sequences: vec![(0, 2)] }).unwrap());
    let n = ack_datagram(vec![(4, 4)], true).unwrap();
    assert_eq!(n, vec![0xa0, 0, 1, 1, 4, 0, 0]);
}

#[test]
fn datagram_kinds() {
    assert_eq!(datagram_kind(0x15), DatagramKind::Disconnect);
    assert_eq!(datagram_kind(0xc0), DatagramKind::Ack);
    assert_eq!(datagram_kind(0xa0), DatagramKind::Nack);
    assert_eq!(datagram_kind(0x80), DatagramKind::FrameSet);
    assert_eq!(datagram_kind(0x8d), DatagramKind::FrameSet);
    assert_eq!(datagram_kind(0x8e), DatagramKind::Other);
}

#[test]
fn heartbeat_timeout() {
    assert!(!heard_nothing_for_too_long(60000, 0));
    assert!(heard_nothing_for_too_long(60001, 0));
}

#[test]
fn simulated_loss() {
    assert!(loss_keeps(3, 3));
    assert!(!loss_keeps(4, 3));
    assert!(keeps_datagram(false, 0));
    for _ in 0..50 {
        assert!(keeps_datagram(true, 10));
    }
    let kept = (0..200).filter(|_| keeps_datagram(true, 0)).count();
    assert!(kept < 200);
}

#[test]
fn ack_record_acknowledges_range() {
    let mut q = SendQ::new(1400);
    for _ in 0..3 {
        q.insert(Reliability::Reliable, &[1]).unwrap();
    }
    q.flush(0);
    assert!(apply_record(&mut q, (0, 2), 5, false));
    assert_eq!(q.get_sent_queue_size(), 0);
    q.insert(Reliability::Reliable, &[1]).unwrap();
    q.flush(10);
    assert!(apply_record(&mut q, (3, 3), 20, true));
    assert_eq!(q.get_sent_queue_size(), 1);
}

#[test]
fn close_queues_disconnect_once() {
    let mut q = SendQ::new(1400);
    queue_close(&mut q, true).unwrap();
    assert!(q.is_empty());
    queue_close(&mut q, false).unwrap();
    let out = q.flush(0);
    assert_eq!(out.len(), 1);
    assert_eq!(out[0].data, vec![0x15]);
    assert_eq!(out[0].reliability(), Ok(Reliability::Reliable));
}

#[test]
fn pong_gives_latency_and_motd() {
    let pong = write_packet_pong(&PacketUnconnectedPong { time: 150, guid: 1, magic: true, motd: "m".to_string() })
        .unwrap();
    assert_eq!(pong_latency(&pong, 100), Some((50, "m".to_string())));
    assert_eq!(pong_latency(&pong[..20], 100), None);
}

#[test]
fn clock_reads_after_epoch() {
    assert!(cur_timestamp_millis() > 1_600_000_000_000);
    let _ = FrameSetPacket::new(Reliability::Unreliable, vec![]);
}

#[test]
fn timestamps_from_clock_readings() {
    assert_eq!(timestamp_from_millis(Some(1_650_000_000_000)), 1_650_000_000_000);
    assert_eq!(timestamp_from_millis(Some(i64::MAX as u128)), i64::MAX);
    assert_eq!(timestamp_from_millis(Some(i64::MAX as u128 + 1)), 0);
    assert_eq!(timestamp_from_millis(None), 0);
}

#[test]
fn deadlines_by_clock_reading() {
    assert!(rust_raknet::utils::deadline_passed(100, 40, 60));
    assert!(!rust_raknet::utils::deadline_passed(99, 40, 60));
    assert!(rust_raknet::utils::deadline_passed(0, -10, 5));
    assert!(rust_raknet::utils::_is_timeout(-100, 50));
    assert!(!rust_raknet::utils::_is_timeout(i64::MAX - 10, 5));
}
