//! The send queue: numbering outgoing frames, splitting large messages, and
//! resending what is not acknowledged in time.
use vstd::prelude::*;
use vstd::slice::{slice_subrange, slice_to_vec};
use crate::arq::{
    FrameSetPacket, FrameView, Reliability, new_frame, frame_views, flags_code, reliability_of,
    is_reliable_kind, is_sequenced_kind, is_ordered_kind, lemma_flags_for, flags_for,
    reliability_code,
};
use crate::error::RaknetError;
use crate::fragment::{
    FragmentView, insert_all, concat_payloads, fragment_for, fragment_full, merged, is_order,
    numbered_fragments, lemma_fragments_reassemble,
};

verus! {

/// A frame that was sent reliably, as the send queue remembers it.
pub struct SentView {
    pub frame: FrameView,
    /// Whether it is out on the wire (false: due for resending).
    pub sent: bool,
    /// When it was last sent.
    pub tick: i64,
    /// How many times it was resent.
    pub resends: u32,
    /// Every sequence number it has carried.
    pub seqs: Seq<u32>,
}

/// What a send queue holds.
pub struct SendView {
    pub mtu: u16,
    pub ack_sequence_number: u32,
    pub sequence_number: u32,
    pub reliable_frame_index: u32,
    pub sequenced_frame_index: u32,
    pub ordered_frame_index: u32,
    pub compound_id: u16,
    /// Frames queued and not yet sent.
    pub packets: Seq<FrameView>,
    pub rto: i64,
    pub srtt: i64,
    /// Reliable frames sent and not yet acknowledged.
    pub sent: Seq<SentView>,
}

/// Outgoing frames: numbered, split, sent and resent until acknowledged.
pub struct SendQ {
    mtu: u16,
    ack_sequence_number: u32,
    sequence_number: u32,
    reliable_frame_index: u32,
    sequenced_frame_index: u32,
    ordered_frame_index: u32,
    compound_id: u16,
    packets: Vec<FrameSetPacket>,
    rto: i64,
    srtt: i64,
    sent_packet: Vec<(FrameSetPacket, bool, i64, u32, Vec<u32>)>,
}

/// The view of a remembered sent frame.
pub open spec fn sent_view(p: (FrameSetPacket, bool, i64, u32, Vec<u32>)) -> SentView {
    SentView { frame: p.0@, sent: p.1, tick: p.2, resends: p.3, seqs: p.4@ }
}

impl View for SendQ {
    type V = SendView;

    closed spec fn view(&self) -> SendView {
        SendView {
            mtu: self.mtu,
            ack_sequence_number: self.ack_sequence_number,
            sequence_number: self.sequence_number,
            reliable_frame_index: self.reliable_frame_index,
            sequenced_frame_index: self.sequenced_frame_index,
            ordered_frame_index: self.ordered_frame_index,
            compound_id: self.compound_id,
            packets: frame_views(self.packets@),
            rto: self.rto,
            srtt: self.srtt,
            sent: self.sent_packet@.map_values(
                |p: (FrameSetPacket, bool, i64, u32, Vec<u32>)| sent_view(p),
            ),
        }
    }
}

/// The largest payload a frame may carry under `mtu`: room is kept for the frame
/// header (27 bytes), the UDP and IP headers (28) and 5 more.
pub open spec fn max_payload(mtu: u16) -> int {
    mtu - 60
}

/// How many pieces of at most `max` bytes a message of `len` bytes is cut into.
pub open spec fn piece_count(len: nat, max: nat) -> nat {
    if len % max == 0 {
        len / max
    } else {
        len / max + 1
    }
}

/// Piece `i` of `buf` cut into pieces of `max` bytes; the last takes the rest.
pub open spec fn piece(buf: Seq<u8>, max: nat, i: nat) -> Seq<u8> {
    let n = piece_count(buf.len(), max);
    buf.subrange(
        (i * max) as int,
        if i + 1 == n {
            buf.len() as int
        } else {
            ((i + 1) * max) as int
        },
    )
}

/// Frame `i` of a message `buf` split under the counters of `v`.
pub open spec fn fragment_frame(v: SendView, buf: Seq<u8>, max: nat, i: nat) -> FrameView {
    let f = new_frame(Reliability::ReliableOrdered, piece(buf, max, i));
    FrameView {
        id: f.id,
        sequence_number: f.sequence_number,
        flags: f.flags | 16,
        length_in_bytes: f.length_in_bytes,
        reliable_frame_index: (v.reliable_frame_index + i) as u32,
        sequenced_frame_index: f.sequenced_frame_index,
        ordered_frame_index: v.ordered_frame_index,
        order_channel: f.order_channel,
        compound_size: piece_count(buf.len(), max) as u32,
        compound_id: v.compound_id,
        fragment_index: i as u32,
        data: f.data,
    }
}

/// A message sent as one frame of reliability `r`, carrying the indices `r` calls for.
pub open spec fn single_frame(v: SendView, r: Reliability, buf: Seq<u8>) -> FrameView {
    let f = new_frame(r, buf);
    FrameView {
        id: f.id,
        sequence_number: f.sequence_number,
        flags: f.flags,
        length_in_bytes: f.length_in_bytes,
        reliable_frame_index: if is_reliable_kind(r) {
            v.reliable_frame_index
        } else {
            0
        },
        sequenced_frame_index: if is_sequenced_kind(r) {
            v.sequenced_frame_index
        } else {
            0
        },
        ordered_frame_index: if is_ordered_kind(r) {
            v.ordered_frame_index
        } else {
            0
        },
        order_channel: f.order_channel,
        compound_size: f.compound_size,
        compound_id: f.compound_id,
        fragment_index: f.fragment_index,
        data: f.data,
    }
}

/// Whether a message of reliability `r` and length `len` is split.
pub open spec fn splits(v: SendView, r: Reliability, len: nat) -> bool {
    r == Reliability::ReliableOrdered && len >= max_payload(v.mtu)
}

/// Whether a message of reliability `r` and length `len` is refused as too large:
/// a message of another reliability than reliable-ordered must be shorter than the
/// largest payload.
pub open spec fn too_large(v: SendView, r: Reliability, len: nat) -> bool {
    r != Reliability::ReliableOrdered && len >= max_payload(v.mtu)
}

/// The frames a message becomes.
pub open spec fn message_frames(v: SendView, r: Reliability, buf: Seq<u8>) -> Seq<FrameView> {
    if splits(v, r, buf.len()) {
        let max = max_payload(v.mtu) as nat;
        Seq::new(piece_count(buf.len(), max), |i: int| fragment_frame(v, buf, max, i as nat))
    } else {
        seq![single_frame(v, r, buf)]
    }
}

/// The send queue after a message of reliability `r` is queued.
pub open spec fn queued(v: SendView, r: Reliability, buf: Seq<u8>) -> SendView {
    let n = message_frames(v, r, buf).len();
    SendView {
        mtu: v.mtu,
        ack_sequence_number: v.ack_sequence_number,
        sequence_number: v.sequence_number,
        reliable_frame_index: if is_reliable_kind(r) {
            (v.reliable_frame_index + n) as u32
        } else {
            v.reliable_frame_index
        },
        sequenced_frame_index: if is_sequenced_kind(r) {
            (v.sequenced_frame_index + 1) as u32
        } else {
            v.sequenced_frame_index
        },
        ordered_frame_index: if r == Reliability::ReliableOrdered {
            (v.ordered_frame_index + 1) as u32
        } else {
            v.ordered_frame_index
        },
        compound_id: if splits(v, r, buf.len()) {
            (v.compound_id + 1) as u16
        } else {
            v.compound_id
        },
        packets: v.packets + message_frames(v, r, buf),
        rto: v.rto,
        srtt: v.srtt,
        sent: v.sent,
    }
}

/// Remembered frames name a reliability, each carries a number below `next` and
/// no two carry the same.
pub open spec fn sent_ok(sent: Seq<SentView>, next: u32) -> bool {
    &&& forall|i: int|
        0 <= i < sent.len() ==> {
            &&& #[trigger] sent[i].frame.sequence_number < next
            &&& reliability_of(flags_code(sent[i].frame.flags)) is Some
        }
    &&& forall|i: int, j: int|
        0 <= i < j < sent.len() ==> #[trigger] sent[i].frame.sequence_number
            != #[trigger] sent[j].frame.sequence_number
}

impl SendQ {
    pub const DEFAULT_TIMEOUT_MILLS: i64 = 50;

    const RTO_UBOUND: i64 = 12000;

    const RTO_LBOUND: i64 = 50;

    /// Queued frames name a reliability, no two remembered frames carry the same
    /// sequence number and each carries one below the next to hand out, and the
    /// timeout lies within its bounds.
    pub open spec fn wf(&self) -> bool {
        let v = self@;
        &&& forall|i: int|
            0 <= i < v.packets.len() ==> #[trigger] reliability_of(flags_code(v.packets[i].flags))
                is Some
        &&& sent_ok(v.sent, v.sequence_number)
        &&& 50 <= v.rto <= 12000
        &&& -i64::MAX <= v.srtt
    }

    pub fn new(mtu: u16) -> (r: Self)
        ensures
            r.wf(),
            r@ == (SendView {
                mtu,
                ack_sequence_number: 0,
                sequence_number: 0,
                reliable_frame_index: 0,
                sequenced_frame_index: 0,
                ordered_frame_index: 0,
                compound_id: 0,
                packets: Seq::empty(),
                rto: 50,
                srtt: 50,
                sent: Seq::empty(),
            }),
    {
        let r = Self {
            mtu,
            ack_sequence_number: 0,
            sequence_number: 0,
            packets: Vec::new(),
            sent_packet: Vec::new(),
            reliable_frame_index: 0,
            sequenced_frame_index: 0,
            ordered_frame_index: 0,
            compound_id: 0,
            rto: SendQ::DEFAULT_TIMEOUT_MILLS,
            srtt: SendQ::DEFAULT_TIMEOUT_MILLS,
        };
        assert(r@.packets =~= Seq::<FrameView>::empty());
        assert(r@.sent =~= Seq::<SentView>::empty());
        r
    }

    /// Queues a message. Reliable-ordered messages as large as the largest payload
    /// or larger are split into fragments; a message of another reliability must be
    /// shorter than the largest payload (MTU - 60 bytes), else it is refused.
    pub fn insert(&mut self, reliability: Reliability, buf: &[u8]) -> (r: Result<(), RaknetError>)
        requires
            old(self).wf(),
            old(self)@.mtu >= 60,
            splits(old(self)@, reliability, buf@.len()) ==> old(self)@.mtu > 60,
            is_reliable_kind(reliability) ==> old(self)@.reliable_frame_index + message_frames(
                old(self)@,
                reliability,
                buf@,
            ).len() <= u32::MAX,
            is_sequenced_kind(reliability) ==> old(self)@.sequenced_frame_index < u32::MAX,
            reliability == Reliability::ReliableOrdered ==> old(self)@.ordered_frame_index
                < u32::MAX,
            splits(old(self)@, reliability, buf@.len()) ==> old(self)@.compound_id < u16::MAX,
        ensures
            final(self).wf(),
            too_large(old(self)@, reliability, buf@.len()) ==> r == Err::<(), RaknetError>(
                RaknetError::PacketSizeExceedMTU,
            ) && final(self)@ == old(self)@,
            !too_large(old(self)@, reliability, buf@.len()) ==> r is Ok && final(self)@ == queued(
                old(self)@,
                reliability,
                buf@,
            ),
    {
        let max: usize = (self.mtu - 60) as usize;
        proof {
            lemma_flags_for(reliability);
        }
        if reliability != Reliability::ReliableOrdered && buf.len() >= max {
            return Err(RaknetError::PacketSizeExceedMTU);
        }
        let ghost v0 = self@;
        if reliability != Reliability::ReliableOrdered || buf.len() < max {
            let mut frame = FrameSetPacket::new(reliability, slice_to_vec(buf));
            match reliability {
                Reliability::Unreliable => {},
                Reliability::UnreliableSequenced => {
                    frame.ordered_frame_index = self.ordered_frame_index;
                    frame.sequenced_frame_index = self.sequenced_frame_index;
                    self.sequenced_frame_index = self.sequenced_frame_index + 1;
                },
                Reliability::Reliable => {
                    frame.reliable_frame_index = self.reliable_frame_index;
                    self.reliable_frame_index = self.reliable_frame_index + 1;
                },
                Reliability::ReliableOrdered => {
                    frame.reliable_frame_index = self.reliable_frame_index;
                    frame.ordered_frame_index = self.ordered_frame_index;
                    self.reliable_frame_index = self.reliable_frame_index + 1;
                    self.ordered_frame_index = self.ordered_frame_index + 1;
                },
                Reliability::ReliableSequenced => {
                    frame.reliable_frame_index = self.reliable_frame_index;
                    frame.sequenced_frame_index = self.sequenced_frame_index;
                    frame.ordered_frame_index = self.ordered_frame_index;
                    self.reliable_frame_index = self.reliable_frame_index + 1;
                    self.sequenced_frame_index = self.sequenced_frame_index + 1;
                },
            }
            let ghost before = self.packets@;
            self.packets.push(frame);
            proof {
                assert(frame@ == single_frame(v0, reliability, buf@));
                assert(frame_views(self.packets@) =~= v0.packets + seq![frame@]);
            }
        } else {
            let len = buf.len();
            let mut compound_size = len / max;
            if len % max != 0 {
                compound_size = compound_size + 1;
            }
            let ghost n = piece_count(len as nat, max as nat);
            let ghost frames = message_frames(v0, reliability, buf@);
            proof {
                assert(compound_size == n);
                lemma_piece_count(len as nat, max as nat);
            }
            let mut i: usize = 0;
            while i < compound_size
                invariant
                    0 < max,
                    max == max_payload(v0.mtu),
                    len == buf@.len(),
                    len >= max,
                    compound_size == n,
                    n == piece_count(len as nat, max as nat),
                    frames == message_frames(v0, reliability, buf@),
                    frames.len() == n,
                    reliability == Reliability::ReliableOrdered,
                    i <= n,
                    v0.reliable_frame_index + n <= u32::MAX,
                    self.reliable_frame_index == v0.reliable_frame_index + i,
                    self.ordered_frame_index == v0.ordered_frame_index,
                    self.compound_id == v0.compound_id,
                    self.sequenced_frame_index == v0.sequenced_frame_index,
                    self.sequence_number == v0.sequence_number,
                    self.ack_sequence_number == v0.ack_sequence_number,
                    self.mtu == v0.mtu,
                    self.rto == v0.rto,
                    self.srtt == v0.srtt,
                    self.sent_packet@.map_values(
                        |p: (FrameSetPacket, bool, i64, u32, Vec<u32>)| sent_view(p),
                    ) == v0.sent,
                    frame_views(self.packets@) == v0.packets + frames.take(i as int),
                decreases n - i,
            {
                proof {
                    lemma_piece_bounds(len as nat, max as nat, i as nat);
                }
                let begin = max * i;
                let end = if i == compound_size - 1 {
                    len
                } else {
                    max * (i + 1)
                };
                let mut frame = FrameSetPacket::new(
                    Reliability::ReliableOrdered,
                    slice_to_vec(slice_subrange(buf, begin, end)),
                );
                frame.flags = frame.flags | 16;
                frame.compound_size = compound_size as u32;
                frame.compound_id = self.compound_id;
                frame.fragment_index = i as u32;
                frame.reliable_frame_index = self.reliable_frame_index;
                frame.ordered_frame_index = self.ordered_frame_index;
                proof {
                    assert(frame@ == fragment_frame(v0, buf@, max as nat, i as nat));
                    assert(frames[i as int] == frame@);
                }
                let ghost before = self.packets@;
                self.packets.push(frame);
                self.reliable_frame_index = self.reliable_frame_index + 1;
                proof {
                    assert(frame_views(self.packets@) =~= frame_views(before).push(frame@));
                    assert(frames.take(i + 1) =~= frames.take(i as int).push(frames[i as int]));
                    assert(frame_views(self.packets@) =~= v0.packets + frames.take(i + 1));
                }
                i = i + 1;
            }
            self.compound_id = self.compound_id + 1;
            self.ordered_frame_index = self.ordered_frame_index + 1;
            proof {
                assert(frames.take(n as int) =~= frames);
            }
        }
        proof {
            assert(self@.packets == queued(v0, reliability, buf@).packets);
            assert(self@ == queued(v0, reliability, buf@));
        }
        Ok(())
    }
}


proof fn lemma_piece_count(len: nat, max: nat)
    requires
        0 < max <= len,
    ensures
        piece_count(len, max) >= 1,
        piece_count(len, max) <= len,
{
    assert(len / max >= 1) by (nonlinear_arith)
        requires
            0 < max <= len,
    ;
    assert(len / max <= len) by (nonlinear_arith)
        requires
            0 < max,
    ;
    if len % max != 0 {
        assert(len / max < len) by (nonlinear_arith)
            requires
                1 < max <= len,
        ;
    }
}

proof fn lemma_piece_bounds(len: nat, max: nat, i: nat)
    requires
        0 < max,
        i < piece_count(len, max),
    ensures
        i * max <= len,
        max * i == i * max,
        max * (i + 1) == (i + 1) * max,
        i * max <= (i + 1) * max,
        i + 1 < piece_count(len, max) ==> (i + 1) * max <= len,
{
    let q = len / max;
    let r = len % max;
    assert(len == q * max + r) by (nonlinear_arith)
        requires
            q == len / max,
            r == len % max,
            max > 0,
    ;
    assert(i <= q);
    assert(i * max <= q * max) by (nonlinear_arith)
        requires
            i <= q,
    ;
    assert(max * i == i * max) by (nonlinear_arith);
    assert(max * (i + 1) == (i + 1) * max) by (nonlinear_arith);
    assert(i * max <= (i + 1) * max) by (nonlinear_arith);
    if i + 1 < piece_count(len, max) {
        assert(i + 1 <= q);
        assert((i + 1) * max <= q * max) by (nonlinear_arith)
            requires
                i + 1 <= q,
        ;
    }
}


proof fn lemma_pieces_prefix(buf: Seq<u8>, max: nat, frames: Seq<FrameSetPacket>, k: nat)
    requires
        0 < max <= buf.len(),
        frames.len() == piece_count(buf.len(), max),
        forall|i: int| 0 <= i < frames.len() ==> #[trigger] frames[i].data@ == piece(buf, max, i as nat),
        k <= frames.len(),
    ensures
        concat_payloads(frames.take(k as int)) == if k == frames.len() {
            buf
        } else {
            buf.subrange(0, (k * max) as int)
        },
    decreases k,
{
    let n = frames.len();
    lemma_piece_count(buf.len(), max);
    if k == 0 {
        assert(k * max == 0) by (nonlinear_arith)
            requires
                k == 0,
        ;
        assert(frames.take(0) =~= Seq::<FrameSetPacket>::empty());
        assert(buf.subrange(0, 0) =~= Seq::<u8>::empty());
    } else {
        lemma_pieces_prefix(buf, max, frames, (k - 1) as nat);
        lemma_piece_bounds(buf.len(), max, (k - 1) as nat);
        let lo = ((k - 1) * max) as int;
        let hi = if k == n {
            buf.len() as int
        } else {
            (k * max) as int
        };
        let prev = concat_payloads(frames.take(k - 1));
        assert(prev == buf.subrange(0, lo));
        let p = piece(buf, max, (k - 1) as nat);
        assert(p == buf.subrange(lo, hi));
        assert(frames[k - 1].data@ == p);
        assert(frames.take(k as int).drop_last() =~= frames.take(k - 1));
        assert(frames.take(k as int).last() == frames[k - 1]);
        assert(concat_payloads(frames.take(k as int)) == prev + p);
        assert(buf.subrange(0, lo) + buf.subrange(lo, hi) =~= buf.subrange(0, hi));
        if k == n {
            assert(buf.subrange(0, hi) =~= buf);
        }
    }
}

/// Law: the frames a split message becomes are its fragments, numbered from 0,
/// and their payloads, one after another, are the message.
pub proof fn lemma_split_frames(v: SendView, buf: Seq<u8>, frames: Seq<FrameSetPacket>)
    requires
        splits(v, Reliability::ReliableOrdered, buf.len()),
        v.mtu > 60,
        buf.len() <= u32::MAX,
        frame_views(frames) == message_frames(v, Reliability::ReliableOrdered, buf),
    ensures
        numbered_fragments(frames),
        concat_payloads(frames) == buf,
        forall|i: int|
            0 <= i < frames.len() ==> #[trigger] frames[i].ordered_frame_index
                == v.ordered_frame_index && frames[i].flags & 224 == flags_for(
                Reliability::ReliableOrdered,
            ) && frames[i].compound_id == v.compound_id,
{
    let max = max_payload(v.mtu) as nat;
    let n = piece_count(buf.len(), max);
    lemma_piece_count(buf.len(), max);
    assert(frames.len() == n) by {
        assert(frame_views(frames).len() == frames.len());
    }
    assert forall|i: int| #![trigger frames[i]] 0 <= i < frames.len() implies frames[i].data@ == piece(
        buf,
        max,
        i as nat,
    ) && frames[i].fragment_index == i && frames[i].compound_size == frames.len()
        && frames[i].ordered_frame_index == v.ordered_frame_index && frames[i].flags & 224
        == flags_for(Reliability::ReliableOrdered) && frames[i].compound_id == v.compound_id by {
        assert(frame_views(frames)[i] == frames[i]@);
        assert(frames[i]@ == fragment_frame(v, buf, max, i as nat));
        assert(flags_for(Reliability::ReliableOrdered) == 96) by {
            assert(((3u8 << 5u8) as u8) == 96u8) by (bit_vector);
        }
        assert((96u8 | 16u8) & 224u8 == 96u8) by (bit_vector);
    }
    lemma_pieces_prefix(buf, max, frames, n);
    assert(frames.take(n as int) =~= frames);
}

/// Law: a message the send queue splits is rebuilt whole by a fragment on the
/// receiving side, whatever order its fragments arrive in.
pub proof fn lemma_split_message_reassembles(
    v: SendView,
    buf: Seq<u8>,
    frames: Seq<FrameSetPacket>,
    order: Seq<int>,
)
    requires
        splits(v, Reliability::ReliableOrdered, buf.len()),
        v.mtu > 60,
        buf.len() <= u32::MAX,
        frame_views(frames) == message_frames(v, Reliability::ReliableOrdered, buf),
        is_order(order, frames.len()),
    ensures
        ({
            let ins = order.map_values(|j: int| frames[j]);
            let f = insert_all(fragment_for(ins[0]), ins);
            &&& fragment_full(f)
            &&& merged(f).data == buf
            &&& merged(f).ordered_frame_index == v.ordered_frame_index
            &&& merged(f).flags == flags_for(Reliability::ReliableOrdered)
        }),
{
    lemma_split_frames(v, buf, frames);
    lemma_fragments_reassemble(frames, order);
    let ins = order.map_values(|j: int| frames[j]);
    assert(0 <= order[0] < frames.len());
    assert(ins[0] == frames[order[0]]);
    assert(frames[order[0]].ordered_frame_index == v.ordered_frame_index);
}


/// Integer division rounding toward zero, as Rust's `/` does.
pub open spec fn div_toward_zero(a: int, b: int) -> int {
    if a >= 0 {
        a / b
    } else {
        -((-a) / b)
    }
}

/// The smoothed round-trip time after a sample `rtt`: four fifths of the old
/// estimate and one fifth of the sample, rounded toward zero.
pub open spec fn smoothed_rtt(srtt: i64, rtt: i64) -> int {
    div_toward_zero(4 * srtt + rtt, 5)
}

/// The retransmission timeout for a smoothed round-trip time: one and a half times
/// it, rounded toward zero, kept between 50 and 12000 milliseconds.
pub open spec fn rto_for(srtt: int) -> int {
    let raw = div_toward_zero(3 * srtt, 2);
    let low = if raw > 50 {
        raw
    } else {
        50
    };
    if low < 12000 {
        low
    } else {
        12000
    }
}

/// One more backoff step for a resent frame: half as long again, capped at `i64::MAX`.
pub open spec fn backoff(x: i64) -> i64 {
    if x > i64::MAX - x / 2 {
        i64::MAX
    } else {
        (x + x / 2) as i64
    }
}

/// The timeout of a frame resent `n` times.
pub open spec fn backed_off(rto: i64, n: nat) -> i64
    decreases n,
{
    if n == 0 {
        rto
    } else {
        backoff(backed_off(rto, (n - 1) as nat))
    }
}

/// Law: a resent frame waits half as long again as before, never twice as long:
/// from a positive timeout, every backoff step stays positive and grows the
/// timeout by at most one half.
pub proof fn lemma_rto_not_doubled(rto: i64, n: nat)
    requires
        rto > 0,
    ensures
        backed_off(rto, n) > 0,
        backed_off(rto, n) <= backed_off(rto, n + 1),
        2 * backed_off(rto, n + 1) <= 3 * backed_off(rto, n),
        backed_off(rto, n + 1) < 2 * backed_off(rto, n),
    decreases n,
{
    if n > 0 {
        lemma_rto_not_doubled(rto, (n - 1) as nat);
    }
    let x = backed_off(rto, n);
    assert(backed_off(rto, n + 1) == backoff(x));
}

/// How many of the first `j` items satisfy `p`.
pub open spec fn count_before(items: Seq<SentView>, p: spec_fn(SentView) -> bool, j: nat) -> nat
    decreases j,
{
    if j == 0 {
        0
    } else {
        count_before(items, p, (j - 1) as nat) + if p(items[j - 1]) {
            1nat
        } else {
            0nat
        }
    }
}

/// A remembered frame on the wire under sequence number `s`.
pub open spec fn nack_hit(s: u32) -> spec_fn(SentView) -> bool {
    |p: SentView| p.sent && p.frame.sequence_number == s
}

/// `p` renumbered to `n`, with `n` added to the numbers it has carried.
pub open spec fn renumbered(p: SentView, n: u32) -> FrameView {
    FrameView {
        id: p.frame.id,
        sequence_number: n,
        flags: p.frame.flags,
        length_in_bytes: p.frame.length_in_bytes,
        reliable_frame_index: p.frame.reliable_frame_index,
        sequenced_frame_index: p.frame.sequenced_frame_index,
        ordered_frame_index: p.frame.ordered_frame_index,
        order_channel: p.frame.order_channel,
        compound_size: p.frame.compound_size,
        compound_id: p.frame.compound_id,
        fragment_index: p.frame.fragment_index,
        data: p.frame.data,
    }
}

/// The remembered frames after a report that sequence number `s` went missing at
/// `tick`: each frame on the wire under `s` takes the next free number, counting
/// from `next`, is timed from `tick` and counts one more resend.
pub open spec fn nacked(items: Seq<SentView>, s: u32, next: u32, tick: i64) -> Seq<SentView> {
    Seq::new(
        items.len(),
        |j: int|
            if nack_hit(s)(items[j]) {
                let n = (next + count_before(items, nack_hit(s), j as nat)) as u32;
                SentView {
                    frame: renumbered(items[j], n),
                    sent: items[j].sent,
                    tick,
                    resends: (items[j].resends + 1) as u32,
                    seqs: items[j].seqs.push(n),
                }
            } else {
                items[j]
            },
    )
}

/// The send queue after a report that sequence number `s` went missing at `tick`.
pub open spec fn after_nack(v: SendView, s: u32, tick: i64) -> SendView {
    SendView {
        sequence_number: (v.sequence_number + count_before(v.sent, nack_hit(s), v.sent.len())) as u32,
        sent: nacked(v.sent, s, v.sequence_number, tick),
        ..v
    }
}

proof fn lemma_count_before_bound(items: Seq<SentView>, p: spec_fn(SentView) -> bool, j: nat)
    requires
        j <= items.len(),
    ensures
        count_before(items, p, j) <= j,
        forall|k: nat| k <= j ==> #[trigger] count_before(items, p, k) <= count_before(items, p, j),
    decreases j,
{
    if j > 0 {
        lemma_count_before_bound(items, p, (j - 1) as nat);
    }
}

impl SendQ {
    /// The retransmission timeout now in force.
    pub fn get_rto(&self) -> (r: i64)
        ensures
            r == self@.rto,
    {
        self.rto
    }

    fn update_rto(&mut self, rtt: i64)
        requires
            old(self).wf(),
        ensures
            final(self).wf(),
            final(self)@ == (SendView {
                srtt: smoothed_rtt(old(self)@.srtt, rtt) as i64,
                rto: rto_for(smoothed_rtt(old(self)@.srtt, rtt)) as i64,
                ..old(self)@
            }),
    {
        let sum: i128 = 4 * (self.srtt as i128) + rtt as i128;
        let srtt: i128 = sum / 5;
        proof {
            assert(srtt == smoothed_rtt(self.srtt, rtt));
        }
        self.srtt = srtt as i64;
        let raw: i128 = 3 * (self.srtt as i128) / 2;
        let low: i128 = if raw > SendQ::RTO_LBOUND as i128 {
            raw
        } else {
            SendQ::RTO_LBOUND as i128
        };
        let rto: i128 = if low < SendQ::RTO_UBOUND as i128 {
            low
        } else {
            SendQ::RTO_UBOUND as i128
        };
        self.rto = rto as i64;
    }
}


impl SendQ {
    /// Handles a report that sequence number `sequence` went missing: every frame on
    /// the wire under it takes a new number, its timer restarts at `tick` and its
    /// resend count grows, so that its timeout is backed off once more.
    pub fn nack(&mut self, sequence: u32, tick: i64)
        requires
            old(self).wf(),
            old(self)@.sequence_number + old(self)@.sent.len() <= u32::MAX,
            forall|i: int|
                0 <= i < old(self)@.sent.len() ==> #[trigger] old(self)@.sent[i].resends
                    < u32::MAX,
        ensures
            final(self).wf(),
            final(self)@ == after_nack(old(self)@, sequence, tick),
    {
        let ghost v0 = self@;
        let ghost items = v0.sent;
        let ghost hit = nack_hit(sequence);
        let mut i: usize = 0;
        proof {
            lemma_count_before_bound(items, hit, items.len());
        }
        while i < self.sent_packet.len()
            invariant
                i <= items.len(),
                self.sent_packet@.len() == items.len(),
                v0 == old(self)@,
                items == v0.sent,
                hit == nack_hit(sequence),
                v0.sequence_number + items.len() <= u32::MAX,
                forall|k: int| 0 <= k < items.len() ==> #[trigger] items[k].resends < u32::MAX,
                forall|k: nat| k <= items.len() ==> #[trigger] count_before(items, hit, k) <= count_before(items, hit, items.len()),
                count_before(items, hit, items.len()) <= items.len(),
                self.sequence_number == v0.sequence_number + count_before(items, hit, i as nat),
                sent_ok(items, v0.sequence_number),
                forall|k: int|
                    0 <= k < i ==> #[trigger] sent_view(self.sent_packet@[k]) == nacked(
                        items,
                        sequence,
                        v0.sequence_number,
                        tick,
                    )[k],
                forall|k: int|
                    i <= k < items.len() ==> #[trigger] sent_view(self.sent_packet@[k])
                        == items[k],
                self.mtu == v0.mtu,
                self.ack_sequence_number == v0.ack_sequence_number,
                self.reliable_frame_index == v0.reliable_frame_index,
                self.sequenced_frame_index == v0.sequenced_frame_index,
                self.ordered_frame_index == v0.ordered_frame_index,
                self.compound_id == v0.compound_id,
                frame_views(self.packets@) == v0.packets,
                self.rto == v0.rto,
                self.srtt == v0.srtt,
            decreases items.len() - i,
        {
            if self.sent_packet[i].1 && self.sent_packet[i].0.sequence_number == sequence {
                let ghost before = self.sent_packet@;
                proof {
                    assert(sent_view(before[i as int]) == items[i as int]);
                    assert(hit(items[i as int]));
                    assert(count_before(items, hit, (i + 1) as nat) == count_before(items, hit, i as nat) + 1);
                    assert(count_before(items, hit, (i + 1) as nat) <= count_before(items, hit, items.len()));
                }
                let mut item = self.sent_packet.remove(i);
                proof {
                    assert(item == before[i as int]);
                    assert(item.3 == items[i as int].resends);
                }
                item.0.sequence_number = self.sequence_number;
                item.2 = tick;
                item.3 = item.3 + 1;
                item.4.push(self.sequence_number);
                self.sequence_number = self.sequence_number + 1;
                self.sent_packet.insert(i, item);
                proof {
                    assert(self.sent_packet@ =~= before.update(i as int, item));
                    assert(hit(items[i as int]));
                }
            } else {
                proof {
                    assert(sent_view(self.sent_packet@[i as int]) == items[i as int]);
                    assert(!hit(items[i as int]));
                    assert(count_before(items, hit, (i + 1) as nat) == count_before(
                        items,
                        hit,
                        i as nat,
                    ));
                }
            }
            i = i + 1;
        }
        proof {
            assert(self@.sent =~= nacked(items, sequence, v0.sequence_number, tick));
            assert(self@ == after_nack(v0, sequence, tick));
            lemma_nacked_ok(items, sequence, v0.sequence_number, tick);
        }
    }
}


proof fn lemma_count_step(items: Seq<SentView>, p: spec_fn(SentView) -> bool, a: nat, b: nat)
    requires
        a < b <= items.len(),
    ensures
        count_before(items, p, a) + (if p(items[a as int]) {
            1nat
        } else {
            0nat
        }) <= count_before(items, p, b),
    decreases b - a,
{
    if b > a + 1 {
        lemma_count_step(items, p, a, (b - 1) as nat);
    }
}

proof fn lemma_nacked_ok(items: Seq<SentView>, s: u32, next: u32, tick: i64)
    requires
        sent_ok(items, next),
        next + items.len() <= u32::MAX,
        forall|k: int| 0 <= k < items.len() ==> #[trigger] items[k].resends < u32::MAX,
    ensures
        sent_ok(
            nacked(items, s, next, tick),
            (next + count_before(items, nack_hit(s), items.len())) as u32,
        ),
{
    let hit = nack_hit(s);
    let r = nacked(items, s, next, tick);
    let total = count_before(items, hit, items.len());
    lemma_count_before_bound(items, hit, items.len());
    assert forall|i: int| 0 <= i < r.len() implies {
        &&& #[trigger] r[i].frame.sequence_number < next + total
        &&& reliability_of(flags_code(r[i].frame.flags)) is Some
    } by {
        assert(items[i].frame.sequence_number < next);
        if hit(items[i]) {
            lemma_count_step(items, hit, i as nat, items.len());
        }
    }
    assert forall|i: int, j: int|
        0 <= i < j < r.len() implies #[trigger] r[i].frame.sequence_number
            != #[trigger] r[j].frame.sequence_number by {
        if hit(items[i]) && hit(items[j]) {
            lemma_count_step(items, hit, i as nat, j as nat);
            lemma_count_step(items, hit, j as nat, items.len());
        } else if hit(items[i]) {
            lemma_count_step(items, hit, i as nat, items.len());
        } else if hit(items[j]) {
            lemma_count_step(items, hit, j as nat, items.len());
        }
    }
}


proof fn lemma_count_before_none(items: Seq<SentView>, p: spec_fn(SentView) -> bool, j: nat)
    requires
        j <= items.len(),
        forall|i: int| 0 <= i < items.len() ==> !p(#[trigger] items[i]),
    ensures
        count_before(items, p, j) == 0,
    decreases j,
{
    if j > 0 {
        lemma_count_before_none(items, p, (j - 1) as nat);
        assert(!p(items[j - 1]));
    }
}

/// Law: a missing report for a number that no frame on the wire carries leaves the
/// send queue as it was.
pub proof fn lemma_nack_no_hit(v: SendView, s: u32, tick: i64)
    requires
        forall|i: int| 0 <= i < v.sent.len() ==> !(#[trigger] v.sent[i].sent && v.sent[i].frame.sequence_number == s),
    ensures
        after_nack(v, s, tick) == v,
{
    let hit = nack_hit(s);
    assert forall|i: int| 0 <= i < v.sent.len() implies !hit(#[trigger] v.sent[i]) by {
        assert(!(v.sent[i].sent && v.sent[i].frame.sequence_number == s));
    }
    lemma_count_before_none(v.sent, hit, v.sent.len());
    assert(nacked(v.sent, s, v.sequence_number, tick) =~= v.sent);
}

/// The send queue after missing reports for every number from `lo` up to `hi`, in order.
pub open spec fn nack_range(v: SendView, lo: u32, hi: u32, tick: i64) -> SendView
    decreases hi - lo,
{
    if lo < hi {
        after_nack(nack_range(v, lo, (hi - 1) as u32, tick), (hi - 1) as u32, tick)
    } else {
        v
    }
}

/// A remembered frame that carries, or once carried, sequence number `s`.
pub open spec fn acked_by(s: u32) -> spec_fn(SentView) -> bool {
    |p: SentView| p.frame.sequence_number == s || p.seqs.contains(s)
}

/// The first position from `j` on of an item satisfying `p`; the length if none does.
pub open spec fn first_index(items: Seq<SentView>, p: spec_fn(SentView) -> bool, j: nat) -> nat
    decreases items.len() - j,
{
    if j >= items.len() {
        items.len()
    } else if p(items[j as int]) {
        j
    } else {
        first_index(items, p, j + 1)
    }
}

/// How many missing reports an acknowledgement of `s` implies: one for each number
/// skipped since the last acknowledged.
pub open spec fn skipped(v: SendView, s: u32) -> nat {
    if s != 0 && s > v.ack_sequence_number + 1 {
        (s - v.ack_sequence_number - 1) as nat
    } else {
        0
    }
}

/// The send queue once the numbers that an acknowledgement of `s` skips count as missing.
pub open spec fn nacks_before_ack(v: SendView, s: u32, tick: i64) -> SendView {
    if s != 0 && s != v.ack_sequence_number + 1 {
        nack_range(v, (v.ack_sequence_number + 1) as u32, s, tick)
    } else {
        v
    }
}

/// The send queue after the acknowledgement of sequence number `s` at `tick`: the
/// numbers skipped since the last acknowledgement count as missing, the first frame
/// that carries or carried `s` is forgotten, and its round trip updates the timeout.
pub open spec fn after_ack(v: SendView, s: u32, tick: i64) -> SendView {
    let v1 = nacks_before_ack(v, s, tick);
    let j = first_index(v1.sent, acked_by(s), 0);
    if j < v1.sent.len() {
        let rtt = (tick - v1.sent[j as int].tick) as i64;
        SendView {
            ack_sequence_number: s,
            sent: v1.sent.remove(j as int),
            srtt: smoothed_rtt(v1.srtt, rtt) as i64,
            rto: rto_for(smoothed_rtt(v1.srtt, rtt)) as i64,
            ..v1
        }
    } else {
        SendView { ack_sequence_number: s, ..v1 }
    }
}

fn seqs_contain(v: &Vec<u32>, x: u32) -> (r: bool)
    ensures
        r == v@.contains(x),
{
    let mut i: usize = 0;
    while i < v.len()
        invariant
            i <= v@.len(),
            forall|k: int| 0 <= k < i ==> v@[k] != x,
        decreases v@.len() - i,
    {
        if v[i] == x {
            return true;
        }
        i = i + 1;
    }
    false
}

impl SendQ {
    /// Handles the acknowledgement of sequence number `sequence` at `tick`.
    pub fn ack(&mut self, sequence: u32, tick: i64)
        requires
            old(self).wf(),
            rtt_fits(old(self)@, sequence, tick),
            sequence != 0 ==> old(self)@.ack_sequence_number < u32::MAX,
            old(self)@.sequence_number + skipped(old(self)@, sequence) * old(self)@.sent.len()
                <= u32::MAX,
            forall|i: int|
                0 <= i < old(self)@.sent.len() ==> #[trigger] old(self)@.sent[i].resends
                    + skipped(old(self)@, sequence) <= u32::MAX,
        ensures
            final(self).wf(),
            final(self)@ == after_ack(old(self)@, sequence, tick),
    {
        let ghost v0 = self@;
        if sequence != 0 && sequence != self.ack_sequence_number + 1 {
            let lo = self.ack_sequence_number + 1;
            let mut i = lo;
            let ghost len = v0.sent.len();
            while i < sequence
                invariant
                    lo <= i,
                    lo == v0.ack_sequence_number + 1,
                    i <= sequence || i == lo,
                    self.wf(),
                    self@ == nack_range(v0, lo, i, tick),
                    self@.sent.len() == len,
                    len == v0.sent.len(),
                    self@.sequence_number <= v0.sequence_number + (i - lo) * len,
                    v0.sequence_number + skipped(v0, sequence) * len <= u32::MAX,
                    skipped(v0, sequence) == if sequence > lo {
                        (sequence - lo) as nat
                    } else {
                        0nat
                    },
                    forall|k: int|
                        0 <= k < len ==> #[trigger] self@.sent[k].resends <= v0.sent[k].resends + (i
                            - lo),
                    forall|k: int|
                        0 <= k < len ==> #[trigger] v0.sent[k].resends + skipped(v0, sequence)
                            <= u32::MAX,
                decreases sequence - i,
            {
                proof {
                    assert((i - lo) * len + len == (i + 1 - lo) * len) by (nonlinear_arith);
                    assert((i + 1 - lo) * len <= skipped(v0, sequence) * len) by (nonlinear_arith)
                        requires
                            i + 1 - lo <= skipped(v0, sequence),
                    ;
                    assert forall|k: int| 0 <= k < self@.sent.len() implies #[trigger] self@.sent[k].resends < u32::MAX by {
                        assert(v0.sent[k].resends + skipped(v0, sequence) <= u32::MAX);
                    }
                }
                let ghost before = self@;
                self.nack(i, tick);
                proof {
                    lemma_count_before_bound(before.sent, nack_hit(i), before.sent.len());
                    assert(self@ == nack_range(v0, lo, (i + 1) as u32, tick));
                    assert forall|k: int| 0 <= k < len implies #[trigger] self@.sent[k].resends
                        <= v0.sent[k].resends + (i + 1 - lo) by {
                        assert(before.sent[k].resends <= v0.sent[k].resends + (i - lo));
                    }
                }
                i = i + 1;
            }
            proof {
                assert(self@ == nack_range(v0, lo, sequence, tick));
            }
        }
        self.ack_sequence_number = sequence;
        let ghost v1 = self@;
        let ghost acked = acked_by(sequence);
        let mut j: usize = 0;
        while j < self.sent_packet.len()
            invariant
                j <= v1.sent.len(),
                self@ == v1,
                v0 == old(self)@,
                v1 == (SendView {
                    ack_sequence_number: sequence,
                    ..nacks_before_ack(v0, sequence, tick)
                }),
                self.wf(),
                rtt_fits(v0, sequence, tick),
                acked == acked_by(sequence),
                first_index(v1.sent, acked, 0) == first_index(v1.sent, acked, j as nat),
            decreases v1.sent.len() - j,
        {
            let hit = self.sent_packet[j].0.sequence_number == sequence || seqs_contain(
                &self.sent_packet[j].4,
                sequence,
            );
            proof {
                assert(sent_view(self.sent_packet@[j as int]) == v1.sent[j as int]);
                assert(hit == acked(v1.sent[j as int]));
            }
            if hit {
                proof {
                    assert(first_index(v1.sent, acked, j as nat) == j);
                    if sequence != 0 && sequence != v0.ack_sequence_number + 1 {
                        lemma_nack_range_ticks(v0, (v0.ack_sequence_number + 1) as u32, sequence, tick);
                    }
                    assert(v1.sent[j as int] == v0.sent[j as int] || v1.sent[j as int].tick == tick);
                    if v1.sent[j as int] == v0.sent[j as int] {
                        assert(acked_by(sequence)(v0.sent[j as int]));
                    }
                }
                let rtt = tick - self.sent_packet[j].2;
                let ghost before = self.sent_packet@;
                self.sent_packet.remove(j);
                proof {
                    assert(self@.sent =~= v1.sent.remove(j as int));
                    assert(first_index(v1.sent, acked, j as nat) == j);
                }
                self.update_rto(rtt);
                return;
            }
            j = j + 1;
        }
    }
}


/// Whether the time since each frame on the wire was sent, measured at `tick`, fits
/// an `i64`.
pub open spec fn ticks_fit(sent: Seq<SentView>, tick: i64) -> bool {
    forall|i: int|
        0 <= i < sent.len() && #[trigger] sent[i].sent ==> i64::MIN <= tick - sent[i].tick
            <= i64::MAX
}

/// Whether the round trip, measured at `tick`, of each remembered frame that carries
/// or carried sequence number `s` fits an `i64`.
pub open spec fn rtt_fits(v: SendView, s: u32, tick: i64) -> bool {
    forall|i: int|
        0 <= i < v.sent.len() && #[trigger] acked_by(s)(v.sent[i]) ==> i64::MIN <= tick
            - v.sent[i].tick <= i64::MAX
}

/// Missing reports leave each remembered frame as it was or time it from `tick`.
proof fn lemma_nack_range_ticks(v: SendView, lo: u32, hi: u32, tick: i64)
    ensures
        nack_range(v, lo, hi, tick).sent.len() == v.sent.len(),
        forall|k: int|
            0 <= k < v.sent.len() ==> #[trigger] nack_range(v, lo, hi, tick).sent[k] == v.sent[k]
                || nack_range(v, lo, hi, tick).sent[k].tick == tick,
    decreases hi - lo,
{
    if lo < hi {
        lemma_nack_range_ticks(v, lo, (hi - 1) as u32, tick);
    }
}

/// A remembered frame on the wire for at least its timeout, backed off once for
/// each time it was resent, by `tick`.
pub open spec fn timed_out(rto: i64, tick: i64) -> spec_fn(SentView) -> bool {
    |p: SentView| p.sent && tick - p.tick >= backed_off(rto, p.resends as nat)
}

/// The remembered frames once those timed out at `tick` are marked due for
/// resending, each under the next free number counting from `next`.
pub open spec fn expired(items: Seq<SentView>, rto: i64, next: u32, tick: i64) -> Seq<SentView> {
    Seq::new(
        items.len(),
        |j: int|
            if timed_out(rto, tick)(items[j]) {
                let n = (next + count_before(items, timed_out(rto, tick), j as nat)) as u32;
                SentView {
                    frame: renumbered(items[j], n),
                    sent: false,
                    tick: items[j].tick,
                    resends: items[j].resends,
                    seqs: items[j].seqs.push(n),
                }
            } else {
                items[j]
            },
    )
}

/// The send queue after checking the timeouts at `tick`.
pub open spec fn after_tick(v: SendView, tick: i64) -> SendView {
    SendView {
        sequence_number: (v.sequence_number + count_before(
            v.sent,
            timed_out(v.rto, tick),
            v.sent.len(),
        )) as u32,
        sent: expired(v.sent, v.rto, v.sequence_number, tick),
        ..v
    }
}

proof fn lemma_expired_ok(items: Seq<SentView>, rto: i64, next: u32, tick: i64)
    requires
        sent_ok(items, next),
        next + items.len() <= u32::MAX,
    ensures
        sent_ok(
            expired(items, rto, next, tick),
            (next + count_before(items, timed_out(rto, tick), items.len())) as u32,
        ),
{
    let hit = timed_out(rto, tick);
    let r = expired(items, rto, next, tick);
    let total = count_before(items, hit, items.len());
    lemma_count_before_bound(items, hit, items.len());
    assert forall|i: int| 0 <= i < r.len() implies {
        &&& #[trigger] r[i].frame.sequence_number < next + total
        &&& reliability_of(flags_code(r[i].frame.flags)) is Some
    } by {
        assert(items[i].frame.sequence_number < next);
        if hit(items[i]) {
            lemma_count_step(items, hit, i as nat, items.len());
        }
    }
    assert forall|i: int, j: int|
        0 <= i < j < r.len() implies #[trigger] r[i].frame.sequence_number
            != #[trigger] r[j].frame.sequence_number by {
        if hit(items[i]) && hit(items[j]) {
            lemma_count_step(items, hit, i as nat, j as nat);
            lemma_count_step(items, hit, j as nat, items.len());
        } else if hit(items[i]) {
            lemma_count_step(items, hit, i as nat, items.len());
        } else if hit(items[j]) {
            lemma_count_step(items, hit, j as nat, items.len());
        }
    }
}

impl SendQ {
    /// Marks every frame that timed out by `tick` as due for resending, under a new
    /// sequence number.
    fn tick(&mut self, tick: i64)
        requires
            old(self).wf(),
            ticks_fit(old(self)@.sent, tick),
            old(self)@.sequence_number + old(self)@.sent.len() <= u32::MAX,
        ensures
            final(self).wf(),
            final(self)@ == after_tick(old(self)@, tick),
    {
        let ghost v0 = self@;
        let ghost items = v0.sent;
        let ghost hit = timed_out(v0.rto, tick);
        proof {
            lemma_count_before_bound(items, hit, items.len());
        }
        let mut i: usize = 0;
        while i < self.sent_packet.len()
            invariant
                i <= items.len(),
                self.sent_packet@.len() == items.len(),
                v0 == old(self)@,
                items == v0.sent,
                hit == timed_out(v0.rto, tick),
                ticks_fit(items, tick),
                v0.sequence_number + items.len() <= u32::MAX,
                forall|k: nat|
                    k <= items.len() ==> #[trigger] count_before(items, hit, k) <= count_before(
                        items,
                        hit,
                        items.len(),
                    ),
                count_before(items, hit, items.len()) <= items.len(),
                self.sequence_number == v0.sequence_number + count_before(items, hit, i as nat),
                sent_ok(items, v0.sequence_number),
                50 <= self.rto,
                forall|k: int|
                    0 <= k < i ==> #[trigger] sent_view(self.sent_packet@[k]) == expired(
                        items,
                        v0.rto,
                        v0.sequence_number,
                        tick,
                    )[k],
                forall|k: int|
                    i <= k < items.len() ==> #[trigger] sent_view(self.sent_packet@[k])
                        == items[k],
                self.mtu == v0.mtu,
                self.ack_sequence_number == v0.ack_sequence_number,
                self.reliable_frame_index == v0.reliable_frame_index,
                self.sequenced_frame_index == v0.sequenced_frame_index,
                self.ordered_frame_index == v0.ordered_frame_index,
                self.compound_id == v0.compound_id,
                frame_views(self.packets@) == v0.packets,
                self.rto == v0.rto,
                self.srtt == v0.srtt,
            decreases items.len() - i,
        {
            proof {
                assert(sent_view(self.sent_packet@[i as int]) == items[i as int]);
            }
            let mut cur_rto: i64 = self.rto;
            let resends = self.sent_packet[i].3;
            let mut k: u32 = 0;
            while k < resends
                invariant
                    k <= resends,
                    cur_rto >= 0,
                    cur_rto == backed_off(v0.rto, k as nat),
                decreases resends - k,
            {
                // Each resend waits half as long again as the one before.
                cur_rto = if cur_rto > i64::MAX - cur_rto / 2 {
                    i64::MAX
                } else {
                    cur_rto + cur_rto / 2
                };
                k = k + 1;
            }
            proof {
                assert(sent_view(self.sent_packet@[i as int]) == items[i as int]);
                assert(items[i as int].sent ==> i64::MIN <= tick - items[i as int].tick
                    <= i64::MAX);
            }
            if self.sent_packet[i].1 && tick - self.sent_packet[i].2 >= cur_rto {
                let ghost before = self.sent_packet@;
                proof {
                    assert(hit(items[i as int]));
                    assert(count_before(items, hit, (i + 1) as nat) == count_before(
                        items,
                        hit,
                        i as nat,
                    ) + 1);
                    assert(count_before(items, hit, (i + 1) as nat) <= count_before(
                        items,
                        hit,
                        items.len(),
                    ));
                }
                let mut item = self.sent_packet.remove(i);
                proof {
                    assert(item == before[i as int]);
                }
                item.0.sequence_number = self.sequence_number;
                item.1 = false;
                item.4.push(self.sequence_number);
                self.sequence_number = self.sequence_number + 1;
                self.sent_packet.insert(i, item);
                proof {
                    assert(self.sent_packet@ =~= before.update(i as int, item));
                }
            } else {
                proof {
                    assert(!hit(items[i as int]));
                    assert(count_before(items, hit, (i + 1) as nat) == count_before(
                        items,
                        hit,
                        i as nat,
                    ));
                }
            }
            i = i + 1;
        }
        proof {
            assert(self@.sent =~= expired(items, v0.rto, v0.sequence_number, tick));
            assert(self@ == after_tick(v0, tick));
            lemma_expired_ok(items, v0.rto, v0.sequence_number, tick);
        }
    }
}


/// Strictly increasing by sequence number.
pub open spec fn ascending_seq(s: Seq<SentView>) -> bool {
    forall|i: int, j: int|
        0 <= i < j < s.len() ==> s[i].frame.sequence_number < s[j].frame.sequence_number
}

/// The remembered frames by increasing sequence number.
pub open spec fn sorted_by_seq(items: Seq<SentView>) -> Seq<SentView> {
    choose|s: Seq<SentView>|
        ascending_seq(s) && forall|x: SentView| s.contains(x) <==> items.contains(x)
}

/// Two sequences increasing by sequence number with the same members are equal.
pub proof fn lemma_ascending_seq_unique(a: Seq<SentView>, b: Seq<SentView>)
    requires
        ascending_seq(a),
        ascending_seq(b),
        forall|x: SentView| a.contains(x) <==> b.contains(x),
    ensures
        a == b,
    decreases a.len(),
{
    if a.len() == 0 {
        if b.len() > 0 {
            assert(b.contains(b[0]));
        }
        assert(a =~= b);
    } else {
        assert(a.contains(a[0]));
        assert(b.contains(b[0]));
        let i = choose|i: int| 0 <= i < a.len() && a[i] == b[0];
        let j = choose|j: int| 0 <= j < b.len() && b[j] == a[0];
        assert(a[0] == b[0]) by {
            if i > 0 {
                assert(a[0].frame.sequence_number < a[i].frame.sequence_number);
                if j > 0 {
                    assert(b[0].frame.sequence_number < b[j].frame.sequence_number);
                }
            } 
        }
        let a1 = a.drop_first();
        let b1 = b.drop_first();
        assert forall|x: SentView| a1.contains(x) <==> b1.contains(x) by {
            if a1.contains(x) {
                let k = choose|k: int| 0 <= k < a1.len() && a1[k] == x;
                assert(a[k + 1] == x && a[0].frame.sequence_number < a[k + 1].frame.sequence_number);
                assert(b.contains(x));
                let m = choose|m: int| 0 <= m < b.len() && b[m] == x;
                assert(m != 0);
                assert(b1[m - 1] == x);
            }
            if b1.contains(x) {
                let k = choose|k: int| 0 <= k < b1.len() && b1[k] == x;
                assert(b[k + 1] == x && b[0].frame.sequence_number < b[k + 1].frame.sequence_number);
                assert(a.contains(x));
                let m = choose|m: int| 0 <= m < a.len() && a[m] == x;
                assert(m != 0);
                assert(a1[m - 1] == x);
            }
        }
        lemma_ascending_seq_unique(a1, b1);
        assert(a =~= seq![a[0]] + a1);
        assert(b =~= seq![b[0]] + b1);
    }
}

/// The views of remembered frames.
pub open spec fn sent_views(v: Seq<(FrameSetPacket, bool, i64, u32, Vec<u32>)>) -> Seq<SentView> {
    v.map_values(|p: (FrameSetPacket, bool, i64, u32, Vec<u32>)| sent_view(p))
}

impl SendQ {
    /// Orders the remembered frames by sequence number.
    fn sort_sent(&mut self)
        requires
            old(self).wf(),
        ensures
            final(self).wf(),
            final(self)@ == (SendView { sent: sorted_by_seq(old(self)@.sent), ..old(self)@ }),
            ascending_seq(final(self)@.sent),
            forall|x: SentView| final(self)@.sent.contains(x) <==> old(self)@.sent.contains(x),
    {
        let ghost v0 = self@;
        let ghost items = v0.sent;
        let mut rest: Vec<(FrameSetPacket, bool, i64, u32, Vec<u32>)> = Vec::new();
        std::mem::swap(&mut rest, &mut self.sent_packet);
        let mut out: Vec<(FrameSetPacket, bool, i64, u32, Vec<u32>)> = Vec::new();
        proof {
            assert(sent_views(rest@) =~= items.take(rest@.len() as int));
            assert forall|x: SentView| sent_views(out@).contains(x) <==> items.skip(
                rest@.len() as int,
            ).contains(x) by {
                assert(items.skip(rest@.len() as int) =~= Seq::<SentView>::empty());
            }
        }
        while rest.len() > 0
            invariant
                items == v0.sent,
                sent_ok(items, v0.sequence_number),
                rest@.len() <= items.len(),
                sent_views(rest@) == items.take(rest@.len() as int),
                ascending_seq(sent_views(out@)),
                forall|x: SentView|
                    sent_views(out@).contains(x) <==> items.skip(rest@.len() as int).contains(x),
            decreases rest@.len(),
        {
            let ghost k = rest@.len() - 1;
            let ghost r0 = rest@;
            let x = rest.pop().unwrap();
            proof {
                assert(sent_views(r0)[k] == sent_view(x));
                assert(sent_view(x) == items[k]);
                assert(sent_views(rest@) =~= items.take(k));
            }
            let key = x.0.sequence_number;
            let mut p: usize = 0;
            while p < out.len() && out[p].0.sequence_number < key
                invariant
                    p <= out@.len(),
                    forall|j: int| 0 <= j < p ==> sent_views(out@)[j].frame.sequence_number < key,
                decreases out@.len() - p,
            {
                proof {
                    assert(sent_views(out@)[p as int] == sent_view(out@[p as int]));
                }
                p = p + 1;
            }
            let ghost o0 = sent_views(out@);
            let ghost tail = items.skip(k + 1);
            let ghost from_k = items.skip(k);
            proof {
                assert forall|j: int| p <= j < o0.len() implies key < o0[j].frame.sequence_number by {
                    assert(o0[p as int] == sent_view(out@[p as int]));
                    assert(o0[p as int].frame.sequence_number >= key);
                    assert(o0.contains(o0[p as int]));
                    let m = choose|m: int| 0 <= m < tail.len() && tail[m] == o0[p as int];
                    assert(items[k + 1 + m] == o0[p as int]);
                    assert(items[k].frame.sequence_number != items[k + 1 + m].frame.sequence_number);
                    if j > p {
                        assert(o0[p as int].frame.sequence_number < o0[j].frame.sequence_number);
                    }
                }
            }
            out.insert(p, x);
            proof {
                let o1 = sent_views(out@);
                assert(o1 =~= o0.insert(p as int, sent_view(x)));
                assert(from_k =~= seq![items[k]] + tail);
                assert forall|y: SentView| o1.contains(y) <==> from_k.contains(y) by {
                    if o1.contains(y) {
                        let m = choose|m: int| 0 <= m < o1.len() && o1[m] == y;
                        if m < p {
                            assert(o0[m] == y);
                            assert(o0.contains(y));
                        } else if m > p {
                            assert(o0[m - 1] == y);
                            assert(o0.contains(y));
                        }
                        if y != items[k] {
                            assert(tail.contains(y));
                            let q = choose|q: int| 0 <= q < tail.len() && tail[q] == y;
                            assert(from_k[q + 1] == y);
                        } else {
                            assert(from_k[0] == y);
                        }
                    }
                    if from_k.contains(y) {
                        let q = choose|q: int| 0 <= q < from_k.len() && from_k[q] == y;
                        if q == 0 {
                            assert(o1[p as int] == y);
                        } else {
                            assert(tail[q - 1] == y);
                            assert(o0.contains(y));
                            let m = choose|m: int| 0 <= m < o0.len() && o0[m] == y;
                            if m < p {
                                assert(o1[m] == y);
                            } else {
                                assert(o1[m + 1] == y);
                            }
                        }
                    }
                }
            }
        }
        self.sent_packet = out;
        proof {
            assert(items.skip(0) =~= items);
            let sorted = sent_views(self.sent_packet@);
            assert(sorted_by_seq(items) == sorted) by {
                let c = sorted_by_seq(items);
                assert(ascending_seq(sorted) && forall|x: SentView| sorted.contains(x) <==> items.contains(x));
                lemma_ascending_seq_unique(c, sorted);
            }
            assert forall|i: int| 0 <= i < sorted.len() implies {
                &&& #[trigger] sorted[i].frame.sequence_number < v0.sequence_number
                &&& reliability_of(flags_code(sorted[i].frame.flags)) is Some
            } by {
                assert(sorted.contains(sorted[i]));
                let q = choose|q: int| 0 <= q < items.len() && items[q] == sorted[i];
            }
            assert(self@ == (SendView { sent: sorted_by_seq(items), ..v0 }));
        }
    }
}


/// The frames of `items` due for resending, in order.
pub open spec fn due_frames(items: Seq<SentView>) -> Seq<FrameView>
    decreases items.len(),
{
    if items.len() == 0 {
        Seq::empty()
    } else {
        let rest = due_frames(items.drop_last());
        if !items.last().sent {
            rest.push(items.last().frame)
        } else {
            rest
        }
    }
}

/// `items` once those due are sent again at `tick`.
pub open spec fn resent(items: Seq<SentView>, tick: i64) -> Seq<SentView> {
    Seq::new(
        items.len(),
        |j: int|
            if !items[j].sent {
                SentView {
                    frame: items[j].frame,
                    sent: true,
                    tick,
                    resends: (items[j].resends + 1) as u32,
                    seqs: items[j].seqs,
                }
            } else {
                items[j]
            },
    )
}

/// `frames` numbered one after another from `next`.
pub open spec fn numbered(frames: Seq<FrameView>, next: u32) -> Seq<FrameView> {
    Seq::new(
        frames.len(),
        |i: int| FrameView { sequence_number: (next + i) as u32, ..frames[i] },
    )
}

/// Whether frame `f` is of a reliable kind.
pub open spec fn reliable_frame(f: FrameView) -> bool {
    is_reliable_kind(reliability_of(flags_code(f.flags))->0)
}

/// The reliable frames among `frames`, remembered as sent at `tick`.
pub open spec fn remembered(frames: Seq<FrameView>, tick: i64) -> Seq<SentView>
    decreases frames.len(),
{
    if frames.len() == 0 {
        Seq::empty()
    } else {
        let rest = remembered(frames.drop_last(), tick);
        let f = frames.last();
        if reliable_frame(f) {
            rest.push(
                SentView { frame: f, sent: true, tick, resends: 0, seqs: seq![f.sequence_number] },
            )
        } else {
            rest
        }
    }
}

/// What a flush at `tick` hands out: once timeouts are checked, the frames due for
/// resending by increasing sequence number when any frame is still unacknowledged;
/// otherwise every queued frame, numbered.
pub open spec fn flush_out(v: SendView, tick: i64) -> Seq<FrameView> {
    let v1 = after_tick(v, tick);
    if v1.sent.len() > 0 {
        due_frames(sorted_by_seq(v1.sent))
    } else {
        numbered(v1.packets, v1.sequence_number)
    }
}

/// The send queue after a flush at `tick`.
pub open spec fn after_flush(v: SendView, tick: i64) -> SendView {
    let v1 = after_tick(v, tick);
    if v1.sent.len() > 0 {
        SendView { sent: resent(sorted_by_seq(v1.sent), tick), ..v1 }
    } else {
        SendView {
            sequence_number: (v1.sequence_number + v1.packets.len()) as u32,
            packets: Seq::empty(),
            sent: remembered(numbered(v1.packets, v1.sequence_number), tick),
            ..v1
        }
    }
}

proof fn lemma_remembered_ok(frames: Seq<FrameView>, next: u32, tick: i64, k: nat)
    requires
        next + frames.len() <= u32::MAX,
        k <= frames.len(),
        forall|i: int|
            0 <= i < frames.len() ==> #[trigger] reliability_of(flags_code(frames[i].flags)) is Some,
    ensures
        ({
            let r = remembered(numbered(frames, next).take(k as int), tick);
            &&& r.len() <= k
            &&& sent_ok(r, (next + k) as u32)
            &&& forall|i: int| 0 <= i < r.len() ==> #[trigger] r[i].frame.sequence_number >= next
        }),
    decreases k,
{
    let nf = numbered(frames, next);
    if k == 0 {
        assert(nf.take(0) =~= Seq::<FrameView>::empty());
    } else {
        lemma_remembered_ok(frames, next, tick, (k - 1) as nat);
        assert(nf.take(k as int).drop_last() =~= nf.take(k - 1));
        assert(nf.take(k as int).last() == nf[k - 1]);
        assert(reliability_of(flags_code(frames[k - 1].flags)) is Some);
        let prev = remembered(nf.take(k - 1), tick);
        let r = remembered(nf.take(k as int), tick);
        if reliable_frame(nf[k - 1]) {
            assert(r == prev.push(
                SentView {
                    frame: nf[k - 1],
                    sent: true,
                    tick,
                    resends: 0,
                    seqs: seq![nf[k - 1].sequence_number],
                },
            ));
            assert forall|i: int, j: int|
                0 <= i < j < r.len() implies #[trigger] r[i].frame.sequence_number
                    != #[trigger] r[j].frame.sequence_number by {
                if j < prev.len() {
                }
            }
            assert forall|i: int| 0 <= i < r.len() implies {
                &&& #[trigger] r[i].frame.sequence_number < next + k
                &&& reliability_of(flags_code(r[i].frame.flags)) is Some
            } by {
                if i < prev.len() {
                }
            }
        } else {
            assert(r == prev);
            assert forall|i: int| 0 <= i < r.len() implies {
                &&& #[trigger] r[i].frame.sequence_number < next + k
                &&& reliability_of(flags_code(r[i].frame.flags)) is Some
            } by {
            }
        }
    }
}

impl SendQ {
    /// Sends what is due at `tick`: frames whose timeout ran out are resent first,
    /// by increasing sequence number; only when nothing is left unacknowledged are
    /// the queued frames numbered and sent, and the reliable ones remembered.
    pub fn flush(&mut self, tick: i64) -> (r: Vec<FrameSetPacket>)
        requires
            old(self).wf(),
            ticks_fit(old(self)@.sent, tick),
            old(self)@.sequence_number + old(self)@.sent.len() + old(self)@.packets.len()
                <= u32::MAX,
            forall|i: int|
                0 <= i < old(self)@.sent.len() ==> #[trigger] old(self)@.sent[i].resends
                    < u32::MAX,
        ensures
            final(self).wf(),
            frame_views(r@) == flush_out(old(self)@, tick),
            final(self)@ == after_flush(old(self)@, tick),
    {
        let ghost v0 = self@;
        self.tick(tick);
        let ghost v1 = self@;
        let mut ret: Vec<FrameSetPacket> = Vec::new();
        if self.sent_packet.len() > 0 {
            self.sort_sent();
            let ghost sorted = self@.sent;
            proof {
                assert forall|j: int| 0 <= j < sorted.len() implies #[trigger] sorted[j].resends
                    < u32::MAX by {
                    assert(sorted.contains(sorted[j]));
                    let q = choose|q: int| 0 <= q < v1.sent.len() && v1.sent[q] == sorted[j];
                    assert(v1.sent[q] == expired(v0.sent, v0.rto, v0.sequence_number, tick)[q]);
                    assert(v1.sent[q].resends == v0.sent[q].resends);
                }
                assert(frame_views(ret@) =~= due_frames(sorted.take(0)));
            }
            let mut i: usize = 0;
            while i < self.sent_packet.len()
                invariant
                    i <= sorted.len(),
                    self.sent_packet@.len() == sorted.len(),
                    sorted == sorted_by_seq(v1.sent),
                    sent_ok(sorted, v1.sequence_number),
                    forall|j: int| 0 <= j < sorted.len() ==> #[trigger] sorted[j].resends < u32::MAX,
                    forall|j: int|
                        0 <= j < i ==> #[trigger] sent_view(self.sent_packet@[j]) == resent(
                            sorted,
                            tick,
                        )[j],
                    forall|j: int|
                        i <= j < sorted.len() ==> #[trigger] sent_view(self.sent_packet@[j])
                            == sorted[j],
                    frame_views(ret@) == due_frames(sorted.take(i as int)),
                    self.mtu == v1.mtu,
                    self.ack_sequence_number == v1.ack_sequence_number,
                    self.sequence_number == v1.sequence_number,
                    self.reliable_frame_index == v1.reliable_frame_index,
                    self.sequenced_frame_index == v1.sequenced_frame_index,
                    self.ordered_frame_index == v1.ordered_frame_index,
                    self.compound_id == v1.compound_id,
                    frame_views(self.packets@) == v1.packets,
                    self.rto == v1.rto,
                    self.srtt == v1.srtt,
                decreases sorted.len() - i,
            {
                proof {
                    assert(sent_view(self.sent_packet@[i as int]) == sorted[i as int]);
                    assert(sorted.take(i + 1).drop_last() =~= sorted.take(i as int));
                    assert(sorted.take(i + 1).last() == sorted[i as int]);
                }
                if !self.sent_packet[i].1 {
                    let ghost before = self.sent_packet@;
                    let mut item = self.sent_packet.remove(i);
                    proof {
                        assert(item == before[i as int]);
                        assert(sent_view(item) == sorted[i as int]);
                        assert(item.3 == sorted[i as int].resends);
                    }
                    let c = item.0.clone();
                    let ghost r0 = ret@;
                    ret.push(c);
                    item.1 = true;
                    item.2 = tick;
                    item.3 = item.3 + 1;
                    self.sent_packet.insert(i, item);
                    proof {
                        assert(self.sent_packet@ =~= before.update(i as int, item));
                        assert(frame_views(ret@) =~= frame_views(r0).push(c@));
                    }
                }
                i = i + 1;
            }
            proof {
                assert(sorted.take(i as int) =~= sorted);
                assert(self@.sent =~= resent(sorted, tick));
                let rs = resent(sorted, tick);
                assert forall|j: int| 0 <= j < rs.len() implies {
                    &&& #[trigger] rs[j].frame.sequence_number < v1.sequence_number
                    &&& reliability_of(flags_code(rs[j].frame.flags)) is Some
                } by {
                }
                assert forall|a: int, b: int|
                    0 <= a < b < rs.len() implies #[trigger] rs[a].frame.sequence_number
                        != #[trigger] rs[b].frame.sequence_number by {
                }
            }
            return ret;
        }
        let mut pk: Vec<FrameSetPacket> = Vec::new();
        std::mem::swap(&mut pk, &mut self.packets);
        let ghost frames = v1.packets;
        let ghost next = v1.sequence_number;
        proof {
            assert(frame_views(ret@) =~= numbered(frames, next).take(0));
            assert(sent_views(self.sent_packet@) =~= remembered(numbered(frames, next).take(0), tick));
            lemma_remembered_ok(frames, next, tick, 0);
        }
        let mut i: usize = 0;
        while i < pk.len()
            invariant
                i <= frames.len(),
                frame_views(pk@) == frames,
                frames == v1.packets,
                next == v1.sequence_number,
                next + frames.len() <= u32::MAX,
                forall|j: int|
                    0 <= j < frames.len() ==> #[trigger] reliability_of(flags_code(frames[j].flags))
                        is Some,
                self.sequence_number == next + i,
                frame_views(ret@) == numbered(frames, next).take(i as int),
                sent_views(self.sent_packet@) == remembered(numbered(frames, next).take(i as int), tick),
                frame_views(self.packets@) == Seq::<FrameView>::empty(),
                self.mtu == v1.mtu,
                self.ack_sequence_number == v1.ack_sequence_number,
                self.reliable_frame_index == v1.reliable_frame_index,
                self.sequenced_frame_index == v1.sequenced_frame_index,
                self.ordered_frame_index == v1.ordered_frame_index,
                self.compound_id == v1.compound_id,
                self.rto == v1.rto,
                self.srtt == v1.srtt,
                50 <= self.rto <= 12000,
                -i64::MAX <= self.srtt,
            decreases frames.len() - i,
        {
            let mut f = pk[i].clone();
            f.sequence_number = self.sequence_number;
            let seq = self.sequence_number;
            self.sequence_number = self.sequence_number + 1;
            let ghost nf = numbered(frames, next);
            proof {
                assert(frame_views(pk@)[i as int] == pk@[i as int]@);
                assert(f@ == nf[i as int]);
                assert(nf.take(i + 1).drop_last() =~= nf.take(i as int));
                assert(nf.take(i + 1).last() == nf[i as int]);
                assert(reliability_of(flags_code(frames[i as int].flags)) is Some);
            }
            match f.is_reliable() {
                Ok(true) => {
                    let mut seqs: Vec<u32> = Vec::new();
                    seqs.push(seq);
                    let c = f.clone();
                    let ghost s0 = self.sent_packet@;
                    self.sent_packet.push((c, true, tick, 0, seqs));
                    proof {
                        assert(sent_views(self.sent_packet@) =~= sent_views(s0).push(
                            SentView { frame: f@, sent: true, tick, resends: 0, seqs: seq![seq] },
                        ));
                    }
                },
                _ => {},
            }
            let ghost r0 = ret@;
            ret.push(f);
            proof {
                assert(frame_views(ret@) =~= frame_views(r0).push(nf[i as int]));
            }
            i = i + 1;
        }
        proof {
            assert(numbered(frames, next).take(i as int) =~= numbered(frames, next));
            lemma_remembered_ok(frames, next, tick, frames.len());
            assert(self@.sent == remembered(numbered(frames, next), tick));
        }
        ret
    }

    /// Whether nothing is queued and nothing waits for acknowledgement.
    pub fn is_empty(&self) -> (r: bool)
        ensures
            r == (self@.packets.len() == 0 && self@.sent.len() == 0),
    {
        self.packets.len() == 0 && self.sent_packet.len() == 0
    }

    /// How many frames are queued and not yet sent.
    pub fn get_reliable_queue_size(&self) -> (r: usize)
        ensures
            r == self@.packets.len(),
    {
        self.packets.len()
    }

    /// How many sent frames wait for acknowledgement.
    pub fn get_sent_queue_size(&self) -> (r: usize)
        ensures
            r == self@.sent.len(),
    {
        self.sent_packet.len()
    }
}


impl SendQ {
    /// Whether every remembered frame can be resent `extra` more times.
    fn resends_room(&self, extra: u64) -> (r: bool)
        ensures
            r == forall|i: int|
                0 <= i < self@.sent.len() ==> #[trigger] self@.sent[i].resends + extra <= u32::MAX,
    {
        let mut i: usize = 0;
        while i < self.sent_packet.len()
            invariant
                i <= self.sent_packet@.len(),
                forall|k: int| 0 <= k < i ==> #[trigger] self@.sent[k].resends + extra <= u32::MAX,
            decreases self.sent_packet@.len() - i,
        {
            proof {
                assert(self@.sent[i as int] == sent_view(self.sent_packet@[i as int]));
            }
            if self.sent_packet[i].3 as u128 + extra as u128 > u32::MAX as u128 {
                proof {
                    assert(!(self@.sent[i as int].resends + extra <= u32::MAX));
                }
                return false;
            }
            i = i + 1;
        }
        true
    }

    /// Whether the round trips that acknowledging `sequence` at `tick` may measure fit an `i64`.
    fn rtts_fit(&self, sequence: u32, tick: i64) -> (r: bool)
        ensures
            r == rtt_fits(self@, sequence, tick),
    {
        let mut i: usize = 0;
        while i < self.sent_packet.len()
            invariant
                i <= self.sent_packet@.len(),
                forall|k: int|
                    0 <= k < i && #[trigger] acked_by(sequence)(self@.sent[k]) ==> i64::MIN <= tick
                        - self@.sent[k].tick <= i64::MAX,
            decreases self.sent_packet@.len() - i,
        {
            proof {
                assert(self@.sent[i as int] == sent_view(self.sent_packet@[i as int]));
            }
            let hit = self.sent_packet[i].0.sequence_number == sequence || seqs_contain(
                &self.sent_packet[i].4,
                sequence,
            );
            if hit {
                let d = tick as i128 - self.sent_packet[i].2 as i128;
                if d < i64::MIN as i128 || d > i64::MAX as i128 {
                    proof {
                        assert(acked_by(sequence)(self@.sent[i as int]));
                    }
                    return false;
                }
            }
            i = i + 1;
        }
        true
    }

    /// Whether the time since each frame on the wire was sent, measured at `tick`,
    /// fits an `i64`.
    fn ticks_fit_at(&self, tick: i64) -> (r: bool)
        ensures
            r == ticks_fit(self@.sent, tick),
    {
        let mut i: usize = 0;
        while i < self.sent_packet.len()
            invariant
                i <= self.sent_packet@.len(),
                forall|k: int|
                    0 <= k < i && #[trigger] self@.sent[k].sent ==> i64::MIN <= tick
                        - self@.sent[k].tick <= i64::MAX,
            decreases self.sent_packet@.len() - i,
        {
            proof {
                assert(self@.sent[i as int] == sent_view(self.sent_packet@[i as int]));
            }
            if self.sent_packet[i].1 {
                let d = tick as i128 - self.sent_packet[i].2 as i128;
                if d < i64::MIN as i128 || d > i64::MAX as i128 {
                    proof {
                        assert(self@.sent[i as int].sent);
                    }
                    return false;
                }
            }
            i = i + 1;
        }
        true
    }

    /// Whether acknowledging `sequence` at `tick` keeps every counter within its range
    /// and the round trip it measures fits an `i64`.
    pub fn ack_within_limits(&self, sequence: u32, tick: i64) -> (r: bool)
        requires
            self.wf(),
        ensures
            r == (rtt_fits(self@, sequence, tick) && (sequence != 0 ==> self@.ack_sequence_number < u32::MAX)
                && self@.sequence_number + skipped(self@, sequence) * self@.sent.len() <= u32::MAX
                && forall|i: int|
                0 <= i < self@.sent.len() ==> #[trigger] self@.sent[i].resends + skipped(
                    self@,
                    sequence,
                ) <= u32::MAX),
    {
        if !self.rtts_fit(sequence, tick) {
            return false;
        }
        if sequence != 0 && self.ack_sequence_number == u32::MAX {
            return false;
        }
        let skipped: u64 = if sequence != 0 && sequence > self.ack_sequence_number + 1 {
            (sequence - self.ack_sequence_number - 1) as u64
        } else {
            0
        };
        let len = self.sent_packet.len() as u128;
        proof {
            assert(skipped * len <= 0x1_0000_0000 * 0x1_0000_0000_0000_0000) by (nonlinear_arith)
                requires
                    skipped <= 0x1_0000_0000,
                    len <= 0x1_0000_0000_0000_0000,
            ;
        }
        let total: u128 = self.sequence_number as u128 + skipped as u128 * len;
        proof {
            assert(len == self@.sent.len());
        }
        if total > u32::MAX as u128 {
            return false;
        }
        self.resends_room(skipped)
    }

    /// Whether a missing report keeps every counter within its range.
    pub fn nack_within_limits(&self) -> (r: bool)
        requires
            self.wf(),
        ensures
            r == (self@.sequence_number + self@.sent.len() <= u32::MAX && forall|i: int|
                0 <= i < self@.sent.len() ==> #[trigger] self@.sent[i].resends < u32::MAX),
    {
        if self.sent_packet.len() as u128 + self.sequence_number as u128 > u32::MAX as u128 {
            return false;
        }
        self.resends_room(1)
    }

    /// Whether a flush at `tick` keeps every counter within its range and the time
    /// since each frame on the wire was sent fits an `i64`.
    pub fn flush_within_limits(&self, tick: i64) -> (r: bool)
        requires
            self.wf(),
        ensures
            r == (ticks_fit(self@.sent, tick) && self@.sequence_number + self@.sent.len() + self@.packets.len() <= u32::MAX
                && forall|i: int|
                0 <= i < self@.sent.len() ==> #[trigger] self@.sent[i].resends < u32::MAX),
    {
        if !self.ticks_fit_at(tick) {
            return false;
        }
        if self.sent_packet.len() as u128 + self.packets.len() as u128
            + self.sequence_number as u128 > u32::MAX as u128 {
            return false;
        }
        self.resends_room(1)
    }

    /// Whether queueing a message of `len` bytes with reliability `r` keeps every
    /// counter within its range and the MTU leaves room for a payload.
    pub fn insert_within_limits(&self, r: Reliability, len: usize) -> (ok: bool)
        requires
            self.wf(),
        ensures
            ok == (self@.mtu >= 60 && (splits(self@, r, len as nat) ==> self@.mtu > 60) && (
            is_reliable_kind(r) ==> self@.reliable_frame_index + (if splits(self@, r, len as nat) {
                piece_count(len as nat, max_payload(self@.mtu) as nat)
            } else {
                1
            }) <= u32::MAX) && (is_sequenced_kind(r) ==> self@.sequenced_frame_index < u32::MAX)
                && (r == Reliability::ReliableOrdered ==> self@.ordered_frame_index < u32::MAX)
                && (splits(self@, r, len as nat) ==> self@.compound_id < u16::MAX)),
    {
        if self.mtu < 60 {
            return false;
        }
        let max = (self.mtu - 60) as usize;
        let split = r == Reliability::ReliableOrdered && len >= max;
        if split && max == 0 {
            return false;
        }
        let frames: u128 = if split {
            if len % max == 0 {
                (len / max) as u128
            } else {
                (len / max) as u128 + 1
            }
        } else {
            1
        };
        let reliable = match r {
            Reliability::Reliable | Reliability::ReliableOrdered | Reliability::ReliableSequenced => true,
            _ => false,
        };
        let sequenced = match r {
            Reliability::UnreliableSequenced | Reliability::ReliableSequenced => true,
            _ => false,
        };
        if reliable && self.reliable_frame_index as u128 + frames > u32::MAX as u128 {
            return false;
        }
        if sequenced && self.sequenced_frame_index == u32::MAX {
            return false;
        }
        if r == Reliability::ReliableOrdered && self.ordered_frame_index == u32::MAX {
            return false;
        }
        if split && self.compound_id == u16::MAX {
            return false;
        }
        true
    }
}

/// Law: the frames a message becomes are as many as `insert_within_limits` counts.
pub proof fn lemma_message_frames_len(v: SendView, r: Reliability, buf: Seq<u8>)
    requires
        v.mtu > 60 || !splits(v, r, buf.len()),
    ensures
        message_frames(v, r, buf).len() == if splits(v, r, buf.len()) {
            piece_count(buf.len(), max_payload(v.mtu) as nat)
        } else {
            1
        },
{
}


/// A message queued with reliability reliable-ordered becomes at least one frame.
proof fn lemma_ordered_message_nonempty(v: SendView, buf: Seq<u8>)
    requires
        v.mtu > 60,
    ensures
        message_frames(v, Reliability::ReliableOrdered, buf).len() >= 1,
{
    if splits(v, Reliability::ReliableOrdered, buf.len()) {
        lemma_piece_count(buf.len(), max_payload(v.mtu) as nat);
    }
}

/// Law: queueing a reliable-ordered message, split or not, advances the ordered
/// index by exactly one, and every frame of the message carries the index it had
/// before; so two reliable-ordered messages queued one after the other carry
/// consecutive ordered indices.
pub proof fn lemma_ordered_messages_consecutive(v: SendView, a: Seq<u8>, b: Seq<u8>)
    requires
        v.mtu > 60,
        v.ordered_frame_index + 1 < u32::MAX,
    ensures
        queued(v, Reliability::ReliableOrdered, a).ordered_frame_index == v.ordered_frame_index + 1,
        message_frames(v, Reliability::ReliableOrdered, a).len() >= 1,
        forall|i: int|
            0 <= i < message_frames(v, Reliability::ReliableOrdered, a).len() ==> (
            #[trigger] message_frames(v, Reliability::ReliableOrdered, a)[i]).ordered_frame_index
                == v.ordered_frame_index,
        message_frames(queued(v, Reliability::ReliableOrdered, a), Reliability::ReliableOrdered, b).len()
            >= 1,
        forall|i: int|
            0 <= i < message_frames(
                queued(v, Reliability::ReliableOrdered, a),
                Reliability::ReliableOrdered,
                b,
            ).len() ==> (#[trigger] message_frames(
                queued(v, Reliability::ReliableOrdered, a),
                Reliability::ReliableOrdered,
                b,
            )[i]).ordered_frame_index == v.ordered_frame_index + 1,
{
    lemma_ordered_message_nonempty(v, a);
    lemma_ordered_message_nonempty(queued(v, Reliability::ReliableOrdered, a), b);
}

/// Whether `f` names a reliability whose frames are acknowledged: reliable,
/// reliable-ordered or reliable-sequenced.
pub open spec fn acknowledged_kind(f: FrameView) -> bool {
    ||| reliability_of(flags_code(f.flags)) == Some(Reliability::Reliable)
    ||| reliability_of(flags_code(f.flags)) == Some(Reliability::ReliableOrdered)
    ||| reliability_of(flags_code(f.flags)) == Some(Reliability::ReliableSequenced)
}

proof fn lemma_remembered_has(frames: Seq<FrameView>, tick: i64, i: int)
    requires
        0 <= i < frames.len(),
        acknowledged_kind(frames[i]),
    ensures
        remembered(frames, tick).contains(
            SentView {
                frame: frames[i],
                sent: true,
                tick,
                resends: 0,
                seqs: seq![frames[i].sequence_number],
            },
        ),
    decreases frames.len(),
{
    let e = SentView {
        frame: frames[i],
        sent: true,
        tick,
        resends: 0,
        seqs: seq![frames[i].sequence_number],
    };
    let rest = remembered(frames.drop_last(), tick);
    if i == frames.len() - 1 {
        assert(remembered(frames, tick) == rest.push(e));
        assert(rest.push(e)[rest.len() as int] == e);
    } else {
        assert(frames.drop_last()[i] == frames[i]);
        lemma_remembered_has(frames.drop_last(), tick, i);
        let k = choose|k: int| 0 <= k < rest.len() && rest[k] == e;
        if reliable_frame(frames.last()) {
            let r = remembered(frames, tick);
            assert(r[k] == e);
        }
    }
}

/// Law: when nothing waits for acknowledgement, a flush sends the queued frames
/// and remembers, as sent at `tick` and not yet resent, every one of them that is
/// reliable, reliable-ordered or reliable-sequenced, so that it is resent until
/// acknowledged.
pub proof fn lemma_flush_remembers_reliable(v: SendView, tick: i64)
    requires
        v.sent.len() == 0,
    ensures
        forall|i: int|
            0 <= i < flush_out(v, tick).len() && acknowledged_kind(#[trigger] flush_out(v, tick)[i])
                ==> after_flush(v, tick).sent.contains(
                SentView {
                    frame: flush_out(v, tick)[i],
                    sent: true,
                    tick,
                    resends: 0,
                    seqs: seq![flush_out(v, tick)[i].sequence_number],
                },
            ),
{
    let v1 = after_tick(v, tick);
    assert(expired(v.sent, v.rto, v.sequence_number, tick) =~= Seq::<SentView>::empty());
    assert(v1.sent.len() == 0);
    assert forall|i: int|
        0 <= i < flush_out(v, tick).len() && acknowledged_kind(#[trigger] flush_out(v, tick)[i])
            implies after_flush(v, tick).sent.contains(
            SentView {
                frame: flush_out(v, tick)[i],
                sent: true,
                tick,
                resends: 0,
                seqs: seq![flush_out(v, tick)[i].sequence_number],
            },
        ) by {
        lemma_remembered_has(numbered(v1.packets, v1.sequence_number), tick, i);
    }
}

/// Whether acknowledging `s` at `tick` keeps every counter of `v` within its range
/// and the round trip it measures fits an `i64`.
pub open spec fn ack_ok(v: SendView, s: u32, tick: i64) -> bool {
    &&& rtt_fits(v, s, tick)
    &&& s != 0 ==> v.ack_sequence_number < u32::MAX
    &&& v.sequence_number + skipped(v, s) * v.sent.len() <= u32::MAX
    &&& forall|i: int| 0 <= i < v.sent.len() ==> #[trigger] v.sent[i].resends + skipped(v, s) <= u32::MAX
}

/// Whether a missing report keeps every counter of `v` within its range.
pub open spec fn nack_ok(v: SendView) -> bool {
    &&& v.sequence_number + v.sent.len() <= u32::MAX
    &&& forall|i: int| 0 <= i < v.sent.len() ==> #[trigger] v.sent[i].resends < u32::MAX
}


/// Whether the send queue can take the answers a connection gives to any message
/// without a counter running over.
pub open spec fn room_for_replies(q: SendView) -> bool {
    &&& q.mtu > 60
    &&& q.reliable_frame_index + 300 <= u32::MAX
    &&& q.ordered_frame_index + 2 <= u32::MAX
    &&& q.compound_id + 2 <= u16::MAX
}

impl SendQ {
    /// Whether the queue can take the answers a connection gives to any message.
    pub fn has_room_for_replies(&self) -> (r: bool)
        ensures
            r == room_for_replies(self@),
    {
        self.mtu > 60 && self.reliable_frame_index <= u32::MAX - 300 && self.ordered_frame_index
            <= u32::MAX - 2 && self.compound_id <= u16::MAX - 2
    }
}

} // verus!
