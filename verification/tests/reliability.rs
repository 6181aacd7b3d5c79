use rust_raknet::arq::{FrameSetPacket, FrameVec, Reliability, ACKSet, RecvQ};
use rust_raknet::error::RaknetError;
use rust_raknet::fragment::{Fragment, FragmentQ};
use rust_raknet::send::SendQ;

fn ordered(data: Vec<u8>, seq: u32, index: u32) -> FrameSetPacket {
    let mut p = FrameSetPacket::new(Reliability::ReliableOrdered, data);
    p.sequence_number = seq;
    p.ordered_frame_index = index;
    p
}

#[test]
fn reliability_codes_round_trip() {
    for code in 0u8..5 {
        assert_eq!(Reliability::from(code).unwrap().to_u8(), code);
    }
    assert_eq!(Reliability::from(5).err(), Some(RaknetError::IncorrectReliability));
    assert_eq!(Reliability::from(255).err(), Some(RaknetError::IncorrectReliability));
}

#[test]
fn new_frame_carries_reliability_in_top_bits() {
    let f = FrameSetPacket::new(Reliability::ReliableSequenced, vec![1, 2, 3]);
    assert_eq!(f.flags, 0x80);
    assert_eq!(f.length_in_bytes, 3);
    assert!(!f.is_fragment());
    assert_eq!(f.is_reliable(), Ok(true));
    assert_eq!(f.is_ordered(), Ok(true));
    assert_eq!(f.is_sequenced(), Ok(true));
    assert_eq!(f.reliability(), Ok(Reliability::ReliableSequenced));
}

#[test]
fn frame_with_bad_reliability_is_refused() {
    let mut f = FrameSetPacket::new(Reliability::Unreliable, vec![]);
    f.flags = 0xa0;
    assert_eq!(f.is_reliable(), Err(RaknetError::IncorrectReliability));
    assert_eq!(f.serialize(), Err(RaknetError::IncorrectReliability));
    assert_eq!(f._size(), Err(RaknetError::IncorrectReliability));
}

#[test]
fn serialize_writes_exact_bytes() {
    let mut f = FrameSetPacket::new(Reliability::ReliableOrdered, vec![0xfe, 7]);
    f.sequence_number = 0x010203;
    f.reliable_frame_index = 5;
    f.ordered_frame_index = 9;
    f.order_channel = 1;
    let b = f.serialize().unwrap();
    assert_eq!(
        b,
        vec![0x84, 3, 2, 1, 0x60, 0, 16, 5, 0, 0, 9, 0, 0, 1, 0xfe, 7]
    );
    assert_eq!(f._size().unwrap(), b.len());
}

#[test]
fn later_fragment_gets_continuation_id() {
    let mut f = FrameSetPacket::new(Reliability::ReliableOrdered, vec![1]);
    f.flags |= 16;
    f.compound_size = 2;
    f.compound_id = 3;
    f.fragment_index = 1;
    let b = f.serialize().unwrap();
    assert_eq!(b[0], 0x8c);
    assert_eq!(&b[14..24], &[0, 0, 0, 2, 0, 3, 0, 0, 0, 1]);
    assert_eq!(f._size().unwrap(), b.len());
    let (back, _) = FrameSetPacket::_deserialize(b).unwrap();
    assert_eq!(back.compound_size, 2);
    assert_eq!(back.compound_id, 3);
    assert_eq!(back.fragment_index, 1);
    assert_eq!(back.data, vec![1]);
}

#[test]
fn deserialize_reads_fields_back() {
    let mut f = FrameSetPacket::new(Reliability::UnreliableSequenced, vec![9, 8, 7]);
    f.sequence_number = 77;
    f.sequenced_frame_index = 4;
    f.ordered_frame_index = 6;
    let bytes = f.serialize().unwrap();
    let (g, at_length) = FrameSetPacket::_deserialize(bytes.clone()).unwrap();
    assert_eq!(g.id, 0x84);
    assert_eq!(g.sequence_number, 77);
    assert_eq!(g.sequenced_frame_index, 4);
    assert_eq!(g.ordered_frame_index, 6);
    assert_eq!(g.reliable_frame_index, 0);
    assert_eq!(g.data, vec![9, 8, 7]);
    assert!(!at_length);
    assert_eq!(g.serialize().unwrap(), bytes);
}

#[test]
fn frame_vec_reads_every_frame() {
    let mut a = FrameSetPacket::new(Reliability::Reliable, vec![1, 2]);
    a.reliable_frame_index = 1;
    let b = FrameSetPacket::new(Reliability::Unreliable, vec![3]);
    let v = FrameVec { id: 0x84, sequence_number: 5, frames: vec![a, b] };
    let bytes = v._serialize().unwrap();
    assert_eq!(
        bytes,
        vec![0x8c, 5, 0, 0, 0x40, 0, 16, 1, 0, 0, 1, 2, 0x00, 0, 8, 3]
    );
    let back = FrameVec::new(bytes).unwrap();
    assert_eq!(back.id, 0x8c);
    assert_eq!(back.sequence_number, 5);
    assert_eq!(back.frames.len(), 2);
    assert_eq!(back.frames[0].data, vec![1, 2]);
    assert_eq!(back.frames[0].reliable_frame_index, 1);
    assert_eq!(back.frames[1].data, vec![3]);
    assert_eq!(back.frames[1].sequence_number, 5);
}

#[test]
fn frame_vec_refuses_bad_reliability() {
    let bytes = vec![0x84, 0, 0, 0, 0xe0, 0, 8, 1];
    assert_eq!(FrameVec::new(bytes).err(), Some(RaknetError::IncorrectReliability));
}

#[test]
fn ackset_reports_gaps() {
    let mut s = ACKSet::new();
    s.insert(1);
    s.insert(5);
    s.insert(6);
    assert_eq!(s.get_nack(), vec![(2, 4)]);
    assert_eq!(s.get_ack(), vec![(1, 1), (5, 6)]);
    assert_eq!(s.get_nack(), vec![]);
    s.insert(3);
    assert_eq!(s.get_ack(), vec![(3, 3)]);
    assert_eq!(s.get_nack(), vec![]);
}

#[test]
fn ackset_extends_ranges_downwards() {
    let mut s = ACKSet::new();
    s.insert(5);
    s.insert(4);
    s.insert(3);
    assert_eq!(s.get_ack(), vec![(3, 5)]);
}

#[test]
fn recvq_delivers_ordered_frames_in_order() {
    let mut r = RecvQ::new();
    r.insert(ordered(vec![2], 0, 2)).unwrap();
    r.insert(ordered(vec![0], 1, 0)).unwrap();
    assert_eq!(r.get_ordered_packet(), 2);
    let out = r.flush();
    assert_eq!(out.len(), 1);
    assert_eq!(out[0].data, vec![0]);
    r.insert(ordered(vec![1], 2, 1)).unwrap();
    let out = r.flush();
    assert_eq!(out.len(), 2);
    assert_eq!(out[0].data, vec![1]);
    assert_eq!(out[1].data, vec![2]);
    assert_eq!(r.get_ordered_packet(), 0);
    assert_eq!(r.get_ack(), vec![(0, 2)]);
}

#[test]
fn recvq_drops_stale_ordered_frames() {
    let mut r = RecvQ::new();
    r.insert(ordered(vec![0], 0, 0)).unwrap();
    assert_eq!(r.flush().len(), 1);
    r.insert(ordered(vec![0], 1, 0)).unwrap();
    assert_eq!(r.get_ordered_packet(), 0);
    assert!(r.flush().is_empty());
}

#[test]
fn recvq_ignores_repeated_sequence_number() {
    let mut r = RecvQ::new();
    let mut p = FrameSetPacket::new(Reliability::Reliable, vec![1]);
    p.sequence_number = 3;
    r.insert(p).unwrap();
    let mut q = FrameSetPacket::new(Reliability::Reliable, vec![2]);
    q.sequence_number = 3;
    r.insert(q).unwrap();
    assert_eq!(r.get_size(), 1);
    let out = r.flush();
    assert_eq!(out.len(), 1);
    assert_eq!(out[0].data, vec![1]);
    assert_eq!(r.get_size(), 0);
}

#[test]
fn recvq_sequenced_keeps_only_newer() {
    let mut r = RecvQ::new();
    let mut p = FrameSetPacket::new(Reliability::UnreliableSequenced, vec![1]);
    p.sequence_number = 0;
    p.sequenced_frame_index = 5;
    r.insert(p).unwrap();
    let mut q = FrameSetPacket::new(Reliability::UnreliableSequenced, vec![2]);
    q.sequence_number = 1;
    q.sequenced_frame_index = 3;
    r.insert(q).unwrap();
    let out = r.flush();
    assert_eq!(out.len(), 1);
    assert_eq!(out[0].data, vec![1]);
}

#[test]
fn recvq_unordered_come_out_by_sequence_number() {
    let mut r = RecvQ::new();
    for (seq, byte) in [(7u32, 7u8), (2, 2), (5, 5)] {
        let mut p = FrameSetPacket::new(Reliability::Unreliable, vec![byte]);
        p.sequence_number = seq;
        r.insert(p).unwrap();
    }
    let out: Vec<u8> = r.flush().iter().map(|f| f.data[0]).collect();
    assert_eq!(out, vec![2, 5, 7]);
    assert_eq!(r.get_nack(), vec![(1, 6)]);
}

#[test]
fn recvq_refuses_bad_reliability_after_acknowledging() {
    let mut r = RecvQ::new();
    let mut p = FrameSetPacket::new(Reliability::Unreliable, vec![1]);
    p.flags = 0xe0;
    p.sequence_number = 4;
    assert_eq!(r.insert(p), Err(RaknetError::IncorrectReliability));
    assert_eq!(r.get_ack(), vec![(4, 4)]);
}

#[test]
fn fragment_merges_in_index_order() {
    let mut f = Fragment::new(0x70, 3, 9);
    for (i, d) in [(2u32, 3u8), (0, 1), (1, 2)] {
        let mut p = FrameSetPacket::new(Reliability::ReliableOrdered, vec![d, d]);
        p.fragment_index = i;
        assert!(!f.full());
        f.insert(p);
    }
    assert!(f.full());
    let m = f.merge();
    assert_eq!(m.data, vec![1, 1, 2, 2, 3, 3]);
    assert_eq!(m.ordered_frame_index, 9);
    assert_eq!(m.flags, 0x60);
    assert_eq!(m.length_in_bytes, 6);
}

#[test]
fn fragment_queue_keeps_full_messages() {
    let mut q = FragmentQ::new();
    let mut p = FrameSetPacket::new(Reliability::ReliableOrdered, vec![4]);
    p.flags |= 16;
    p.compound_id = 2;
    p.compound_size = 1;
    q.insert(p);
    assert_eq!(q.size(), 1);
    assert_eq!(q.flush().len(), 1);
    assert_eq!(q.flush().len(), 1);
    assert_eq!(q.size(), 1);
}

#[test]
fn sendq_refuses_oversized_unordered_message() {
    let mut s = SendQ::new(100);
    assert_eq!(s.insert(Reliability::Reliable, &[0u8; 41]), Err(RaknetError::PacketSizeExceedMTU));
    assert_eq!(s.insert(Reliability::Reliable, &[0u8; 40]), Err(RaknetError::PacketSizeExceedMTU));
    assert_eq!(s.get_reliable_queue_size(), 0);
    assert_eq!(s.insert(Reliability::Reliable, &[0u8; 39]), Ok(()));
    assert_eq!(s.get_reliable_queue_size(), 1);
}

#[test]
fn sendq_splits_large_ordered_message() {
    let mut s = SendQ::new(100);
    let msg: Vec<u8> = (0..100u8).collect();
    s.insert(Reliability::ReliableOrdered, &msg).unwrap();
    assert_eq!(s.get_reliable_queue_size(), 3);
    let out = s.flush(0);
    assert_eq!(out.len(), 3);
    let sizes: Vec<usize> = out.iter().map(|f| f.data.len()).collect();
    assert_eq!(sizes, vec![40, 40, 20]);
    for (i, f) in out.iter().enumerate() {
        assert!(f.is_fragment());
        assert_eq!(f.fragment_index, i as u32);
        assert_eq!(f.compound_size, 3);
        assert_eq!(f.sequence_number, i as u32);
        assert_eq!(f.reliable_frame_index, i as u32);
        assert_eq!(f.ordered_frame_index, 0);
    }
    assert_eq!(s.get_sent_queue_size(), 3);

    let mut r = RecvQ::new();
    for f in out.into_iter().rev() {
        r.insert(f).unwrap();
    }
    let got = r.flush();
    assert_eq!(got.len(), 1);
    assert_eq!(got[0].data, msg);
}

#[test]
fn sendq_message_of_exactly_the_limit_is_one_fragment() {
    let mut s = SendQ::new(100);
    s.insert(Reliability::ReliableOrdered, &[5u8; 40]).unwrap();
    let out = s.flush(0);
    assert_eq!(out.len(), 1);
    assert!(out[0].is_fragment());
    assert_eq!(out[0].compound_size, 1);
}

#[test]
fn sendq_resends_after_timeout() {
    let mut s = SendQ::new(1500);
    s.insert(Reliability::Reliable, &[1]).unwrap();
    let first = s.flush(0);
    assert_eq!(first.len(), 1);
    assert_eq!(first[0].sequence_number, 0);
    assert!(s.flush(49).is_empty());
    let again = s.flush(50);
    assert_eq!(again.len(), 1);
    assert_eq!(again[0].sequence_number, 1);
    assert!(s.flush(51).is_empty());
    // the second wait is half as long again: 75 ms from the resend at 50
    assert!(s.flush(124).is_empty());
    assert_eq!(s.flush(125).len(), 1);
    s.ack(1, 130);
    assert_eq!(s.get_sent_queue_size(), 0);
    assert!(s.is_empty());
}

#[test]
fn sendq_nack_numbers_frame_anew() {
    let mut s = SendQ::new(1500);
    s.insert(Reliability::Reliable, &[1]).unwrap();
    s.flush(0);
    s.nack(0, 10);
    // renumbered and timed again from 10, one backoff step longer: 75 ms
    assert!(s.flush(84).is_empty());
    let out = s.flush(85);
    assert_eq!(out.len(), 1);
    assert_eq!(out[0].sequence_number, 2);
    s.nack(7, 90);
    assert!(s.flush(91).is_empty());
}

#[test]
fn sendq_updates_timeout_from_round_trip() {
    let mut s = SendQ::new(1500);
    assert_eq!(s.get_rto(), 50);
    s.insert(Reliability::Reliable, &[1]).unwrap();
    s.flush(0);
    s.ack(0, 100);
    // smoothed rtt (4 * 50 + 100) / 5 = 60, timeout 1.5 * 60 = 90
    assert_eq!(s.get_rto(), 90);
}

#[test]
fn sendq_ack_skipping_numbers_resends_them() {
    let mut s = SendQ::new(1500);
    for _ in 0..3 {
        s.insert(Reliability::Reliable, &[1]).unwrap();
    }
    assert_eq!(s.flush(0).len(), 3);
    s.ack(0, 1);
    s.ack(2, 1);
    assert_eq!(s.get_sent_queue_size(), 1);
    assert_eq!(s.get_rto(), 50);
    // frame 1 was reported missing at 1 and renumbered 3; it times out 75 ms later
    assert!(s.flush(75).is_empty());
    let out = s.flush(76);
    assert_eq!(out.len(), 1);
    assert_eq!(out[0].sequence_number, 4);
}

#[test]
fn sendq_unreliable_frames_are_not_remembered() {
    let mut s = SendQ::new(1500);
    s.insert(Reliability::Unreliable, &[1]).unwrap();
    s.insert(Reliability::UnreliableSequenced, &[2]).unwrap();
    let out = s.flush(0);
    assert_eq!(out.len(), 2);
    assert_eq!(out[1].sequenced_frame_index, 0);
    assert_eq!(s.get_sent_queue_size(), 0);
    assert!(s.is_empty());
}

#[test]
fn sendq_limits_report_counter_room() {
    let s = SendQ::new(1500);
    assert!(s.ack_within_limits(5, 0));
    assert!(s.nack_within_limits());
    assert!(s.flush_within_limits(0));
    assert!(s.insert_within_limits(Reliability::ReliableOrdered, 5000));
    let small = SendQ::new(59);
    assert!(!small.insert_within_limits(Reliability::Reliable, 1));
    let exact = SendQ::new(60);
    assert!(exact.insert_within_limits(Reliability::Unreliable, 0));
    assert!(!exact.insert_within_limits(Reliability::ReliableOrdered, 0));
}

#[test]
fn sendq_limits_report_clock_range() {
    let mut s = SendQ::new(1500);
    s.insert(Reliability::Reliable, &[1]).unwrap();
    s.flush(-5);
    // The frame went out at -5: measuring from i64::MAX would overflow.
    assert!(!s.flush_within_limits(i64::MAX));
    assert!(!s.ack_within_limits(0, i64::MAX));
    assert!(s.flush_within_limits(100));
    assert!(s.ack_within_limits(0, -10));
    // Ticks before the epoch are taken as they come.
    s.nack(0, -20);
    assert_eq!(s.get_sent_queue_size(), 1);
}

#[test]
fn recvq_limits_follow_what_the_frame_uses() {
    let mut r = RecvQ::new();
    // A reliable frame with the largest sequenced index: that index is never used.
    let mut p = FrameSetPacket::new(Reliability::Reliable, vec![1]);
    p.sequence_number = 0;
    p.sequenced_frame_index = u32::MAX;
    assert!(r.insert_within_limits(&p));
    r.insert(p).unwrap();
    // A sequenced frame with the largest index would step past it.
    let mut q = FrameSetPacket::new(Reliability::UnreliableSequenced, vec![2]);
    q.sequence_number = 1;
    q.sequenced_frame_index = u32::MAX;
    assert!(!r.insert_within_limits(&q));
    // The largest sequence number may arrive once; after it, a new number would
    // extend its range past the largest.
    let mut m = FrameSetPacket::new(Reliability::Reliable, vec![3]);
    m.sequence_number = u32::MAX;
    assert!(r.insert_within_limits(&m));
    r.insert(m).unwrap();
    let mut n = FrameSetPacket::new(Reliability::Reliable, vec![4]);
    n.sequence_number = 7;
    assert!(!r.insert_within_limits(&n));
    // A repeated sequence number is ignored, whatever the ranges hold.
    let mut d = FrameSetPacket::new(Reliability::Reliable, vec![5]);
    d.sequence_number = 0;
    assert!(r.insert_within_limits(&d));
    assert_eq!(r.insert(d), Ok(()));
    assert!(r.flush_within_limits());
}

#[test]
fn ackset_takes_the_largest_number() {
    let mut a = ACKSet::new();
    assert!(a.below_max());
    a.insert(u32::MAX);
    assert!(!a.below_max());
    assert_eq!(a.get_ack(), vec![(u32::MAX, u32::MAX)]);
    assert_eq!(a.get_nack(), vec![(1, u32::MAX - 1)]);
}
