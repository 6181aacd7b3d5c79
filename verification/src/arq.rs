//! The reliability layer: frames, frame sets, acknowledgement sets and the send
//! and receive queues.
use vstd::prelude::*;
use vstd::slice::slice_to_vec;
use crate::codec::{
    be_bytes, be_value, le_bytes, le_value, pow256, lemma_pow256_values, lemma_roundtrip,
    lemma_le_value_of_bytes, lemma_be_value_of_bytes, lemma_be_value_two,
    lemma_be_value_bound, lemma_le_value_bound, lemma_be_bytes_of_value, lemma_le_bytes_of_value,
    group_encoding_len,
};
use crate::datatype::{RaknetReader, RaknetWriter};
use crate::error::RaknetError;
use crate::utils::Endian;
use crate::fragment::{
    FragmentQ, FragmentView, fragment_insert, fragment_for, full_merges, sorted_ids, sorted_keys,
    sorted_frame_keys, frame_keys,
};
use std::collections::HashMap;

verus! {

broadcast use group_encoding_len, vstd::std_specs::hash::group_hash_axioms;

/// How a frame is delivered.
#[derive(Clone, Copy, Debug, PartialEq, Eq, Structural)]
pub enum Reliability {
    /// Unreliable frames may arrive out of order, more than once or not at all.
    Unreliable,
    /// Like unreliable, but a frame older than one already delivered is dropped.
    UnreliableSequenced,
    /// Reliable frames are acknowledged and resent until they arrive, in any order.
    Reliable,
    /// Reliable frames delivered in the order they were sent.
    ReliableOrdered,
    /// Reliable frames where only the newest is delivered.
    ReliableSequenced,
}

/// The three-bit code of each reliability.
pub open spec fn reliability_code(r: Reliability) -> u8 {
    match r {
        Reliability::Unreliable => 0,
        Reliability::UnreliableSequenced => 1,
        Reliability::Reliable => 2,
        Reliability::ReliableOrdered => 3,
        Reliability::ReliableSequenced => 4,
    }
}

/// The reliability a code stands for; codes above 4 stand for none.
pub open spec fn reliability_of(b: u8) -> Option<Reliability> {
    if b == 0 {
        Some(Reliability::Unreliable)
    } else if b == 1 {
        Some(Reliability::UnreliableSequenced)
    } else if b == 2 {
        Some(Reliability::Reliable)
    } else if b == 3 {
        Some(Reliability::ReliableOrdered)
    } else if b == 4 {
        Some(Reliability::ReliableSequenced)
    } else {
        None
    }
}

/// Whether frames of reliability `r` carry a reliable frame index (and are acknowledged).
pub open spec fn is_reliable_kind(r: Reliability) -> bool {
    r == Reliability::Reliable || r == Reliability::ReliableOrdered || r
        == Reliability::ReliableSequenced
}

/// Whether frames of reliability `r` carry an ordered frame index and channel.
pub open spec fn is_ordered_kind(r: Reliability) -> bool {
    r == Reliability::UnreliableSequenced || r == Reliability::ReliableOrdered || r
        == Reliability::ReliableSequenced
}

/// Whether frames of reliability `r` carry a sequenced frame index.
pub open spec fn is_sequenced_kind(r: Reliability) -> bool {
    r == Reliability::UnreliableSequenced || r == Reliability::ReliableSequenced
}

impl Reliability {
    pub fn to_u8(&self) -> (r: u8)
        ensures
            r == reliability_code(*self),
    {
        match self {
            Reliability::Unreliable => 0x00,
            Reliability::UnreliableSequenced => 0x01,
            Reliability::Reliable => 0x02,
            Reliability::ReliableOrdered => 0x03,
            Reliability::ReliableSequenced => 0x04,
        }
    }

    pub fn from(flags: u8) -> (r: Result<Self, RaknetError>)
        ensures
            r == (match reliability_of(flags) {
                Some(x) => Ok::<Reliability, RaknetError>(x),
                None => Err(RaknetError::IncorrectReliability),
            }),
    {
        match flags {
            0x00 => Ok(Reliability::Unreliable),
            0x01 => Ok(Reliability::UnreliableSequenced),
            0x02 => Ok(Reliability::Reliable),
            0x03 => Ok(Reliability::ReliableOrdered),
            0x04 => Ok(Reliability::ReliableSequenced),
            _ => Err(RaknetError::IncorrectReliability),
        }
    }
}

/// Law: reliability codes and reliabilities correspond one to one.
pub proof fn lemma_reliability_code(r: Reliability, b: u8)
    ensures
        reliability_of(reliability_code(r)) == Some(r),
        reliability_of(b) matches Some(x) ==> reliability_code(x) == b,
        reliability_of(b) is Some <==> b <= 4,
{
}

/// The reliability code held in the top three bits of a frame's flags.
pub open spec fn flags_code(flags: u8) -> u8 {
    (flags & 224) >> 5
}

/// Whether a frame's flags mark it as one fragment of a larger message.
pub open spec fn flags_fragment(flags: u8) -> bool {
    flags & 16 != 0
}

/// The flags of a new frame of reliability `r`: its code in the top three bits.
pub open spec fn flags_for(r: Reliability) -> u8 {
    (reliability_code(r) << 5) as u8
}

pub proof fn lemma_flags_for(r: Reliability)
    ensures
        flags_code(flags_for(r)) == reliability_code(r),
        !flags_fragment(flags_for(r)),
        flags_code(flags_for(r) | 16) == reliability_code(r),
        flags_fragment(flags_for(r) | 16),
{
    let c = reliability_code(r);
    assert(c <= 4);
    assert(c <= 4 ==> ((((c << 5u8) as u8) & 224u8) >> 5u8) == c) by (bit_vector);
    assert(c <= 4 ==> (((c << 5u8) as u8) & 16u8) == 0) by (bit_vector);
    assert(c <= 4 ==> (((((c << 5u8) as u8) | 16u8) & 224u8) >> 5u8) == c) by (bit_vector);
    assert(c <= 4 ==> ((((c << 5u8) as u8) | 16u8) & 16u8) != 0) by (bit_vector);
}

/// The fields of a frame, with its payload as a sequence.
pub struct FrameView {
    pub id: u8,
    pub sequence_number: u32,
    pub flags: u8,
    pub length_in_bytes: u16,
    pub reliable_frame_index: u32,
    pub sequenced_frame_index: u32,
    pub ordered_frame_index: u32,
    pub order_channel: u8,
    pub compound_size: u32,
    pub compound_id: u16,
    pub fragment_index: u32,
    pub data: Seq<u8>,
}

/// One frame of a frame-set datagram.
pub struct FrameSetPacket {
    pub id: u8,
    pub sequence_number: u32,
    pub flags: u8,
    pub length_in_bytes: u16,
    pub reliable_frame_index: u32,
    pub sequenced_frame_index: u32,
    pub ordered_frame_index: u32,
    pub order_channel: u8,
    pub compound_size: u32,
    pub compound_id: u16,
    pub fragment_index: u32,
    pub data: Vec<u8>,
}

impl View for FrameSetPacket {
    type V = FrameView;

    open spec fn view(&self) -> FrameView {
        FrameView {
            id: self.id,
            sequence_number: self.sequence_number,
            flags: self.flags,
            length_in_bytes: self.length_in_bytes,
            reliable_frame_index: self.reliable_frame_index,
            sequenced_frame_index: self.sequenced_frame_index,
            ordered_frame_index: self.ordered_frame_index,
            order_channel: self.order_channel,
            compound_size: self.compound_size,
            compound_id: self.compound_id,
            fragment_index: self.fragment_index,
            data: self.data@,
        }
    }
}

impl Clone for FrameSetPacket {
    fn clone(&self) -> (r: Self)
        ensures
            r@ == self@,
    {
        FrameSetPacket {
            id: self.id,
            sequence_number: self.sequence_number,
            flags: self.flags,
            length_in_bytes: self.length_in_bytes,
            reliable_frame_index: self.reliable_frame_index,
            sequenced_frame_index: self.sequenced_frame_index,
            ordered_frame_index: self.ordered_frame_index,
            order_channel: self.order_channel,
            compound_size: self.compound_size,
            compound_id: self.compound_id,
            fragment_index: self.fragment_index,
            data: slice_to_vec(self.data.as_slice()),
        }
    }
}

/// A new frame of reliability `r` carrying `data`, with every index 0.
pub open spec fn new_frame(r: Reliability, data: Seq<u8>) -> FrameView {
    FrameView {
        id: 0,
        sequence_number: 0,
        flags: flags_for(r),
        length_in_bytes: (data.len() % 0x1_0000) as u16,
        reliable_frame_index: 0,
        sequenced_frame_index: 0,
        ordered_frame_index: 0,
        order_channel: 0,
        compound_size: 0,
        compound_id: 0,
        fragment_index: 0,
        data,
    }
}

/// The first byte of a serialized frame: 0x84, or 0x8c for a fragment after the first.
pub open spec fn frame_id_byte(f: FrameView) -> u8 {
    if flags_fragment(f.flags) && f.fragment_index != 0 {
        0x8c
    } else {
        0x84
    }
}

/// The bytes of a frame from its flags on, for reliability `r`: flags, length in
/// bits, the indices `r` calls for, the fragment header when flagged, the payload.
pub open spec fn frame_fields_bytes(f: FrameView, r: Reliability, fragment: bool) -> Seq<u8> {
    seq![f.flags] + be_bytes(f.length_in_bytes as nat * 8, 2) + (if is_reliable_kind(r) {
        le_bytes(f.reliable_frame_index as nat, 3)
    } else {
        Seq::empty()
    }) + (if is_sequenced_kind(r) {
        le_bytes(f.sequenced_frame_index as nat, 3)
    } else {
        Seq::empty()
    }) + (if is_ordered_kind(r) {
        le_bytes(f.ordered_frame_index as nat, 3) + seq![f.order_channel]
    } else {
        Seq::empty()
    }) + (if fragment {
        be_bytes(f.compound_size as nat, 4) + be_bytes(f.compound_id as nat, 2) + be_bytes(
            f.fragment_index as nat,
            4,
        )
    } else {
        Seq::empty()
    }) + f.data
}

/// A whole serialized frame: id byte, sequence number, fields.
pub open spec fn frame_bytes(f: FrameView, r: Reliability) -> Seq<u8> {
    seq![frame_id_byte(f)] + le_bytes(f.sequence_number as nat, 3) + frame_fields_bytes(
        f,
        r,
        flags_fragment(f.flags),
    )
}

/// Writes the fields of `frame` from its flags on, the fragment header when `fragment`.
fn write_frame_fields(
    writer: &mut RaknetWriter,
    frame: &FrameSetPacket,
    fragment: bool,
) -> (r: Result<(), RaknetError>)
    requires
        frame.length_in_bytes * 8 <= u16::MAX,
        old(writer)@.len() + frame.data@.len() + 30 <= isize::MAX,
    ensures
        reliability_of(flags_code(frame.flags)) is None ==> r == Err::<(), RaknetError>(
            RaknetError::IncorrectReliability,
        ),
        reliability_of(flags_code(frame.flags)) matches Some(rel) ==> r is Ok && final(writer)@
            == old(writer)@ + frame_fields_bytes(frame@, rel, fragment),
{
    writer.write_u8(frame.flags)?;
    writer.write_u16(frame.length_in_bytes * 8, Endian::Big)?;
    let ghost w1 = writer@;
    if frame.is_reliable()? {
        writer.write_u24(frame.reliable_frame_index, Endian::Little)?;
    }
    let ghost w2 = writer@;
    if frame.is_sequenced()? {
        writer.write_u24(frame.sequenced_frame_index, Endian::Little)?;
    }
    let ghost w3 = writer@;
    if frame.is_ordered()? {
        writer.write_u24(frame.ordered_frame_index, Endian::Little)?;
        writer.write_u8(frame.order_channel)?;
    }
    let ghost w4 = writer@;
    if fragment {
        writer.write_u32(frame.compound_size, Endian::Big)?;
        writer.write_u16(frame.compound_id, Endian::Big)?;
        writer.write_u32(frame.fragment_index, Endian::Big)?;
    }
    writer.write(frame.data.as_slice())?;
    let ghost rel = reliability_of(flags_code(frame.flags))->0;
    assert(writer@ =~= old(writer)@ + frame_fields_bytes(frame@, rel, fragment));
    Ok(())
}

impl FrameSetPacket {
    /// A frame of reliability `r` carrying `data`; its length is `data`'s modulo 2^16.
    pub fn new(r: Reliability, data: Vec<u8>) -> (f: FrameSetPacket)
        ensures
            f@ == new_frame(r, data@),
    {
        let flag = r.to_u8() << 5;
        proof {
            let c = reliability_code(r);
            assert(c <= 4);
            assert(c <= 4 ==> (c << 5u8) == ((c << 5u8) as u8)) by (bit_vector);
        }
        let length_in_bytes = (data.len() % 65536) as u16;
        FrameSetPacket {
            id: 0,
            sequence_number: 0,
            flags: flag,
            length_in_bytes,
            reliable_frame_index: 0,
            sequenced_frame_index: 0,
            ordered_frame_index: 0,
            order_channel: 0,
            compound_size: 0,
            compound_id: 0,
            fragment_index: 0,
            data,
        }
    }

    pub fn serialize(&self) -> (r: Result<Vec<u8>, RaknetError>)
        requires
            self.length_in_bytes * 8 <= u16::MAX,
            self.data@.len() + 40 <= isize::MAX,
        ensures
            reliability_of(flags_code(self.flags)) is None ==> r == Err::<Vec<u8>, RaknetError>(
                RaknetError::IncorrectReliability,
            ),
            reliability_of(flags_code(self.flags)) matches Some(rel) ==> (r matches Ok(v) && v@
                == frame_bytes(self@, rel)),
    {
        let mut writer = RaknetWriter::new();
        // 0x80 marks a frame set and 0x04 asks for an acknowledgement; 0x08 marks
        // the continuation of a fragmented message.
        let id: u8 = if (self.flags & 16) != 0 && self.fragment_index != 0 {
            0x8c
        } else {
            0x84
        };
        writer.write_u8(id)?;
        writer.write_u24(self.sequence_number, Endian::Little)?;
        write_frame_fields(&mut writer, self, (self.flags & 16) != 0)?;
        let ghost rel = reliability_of(flags_code(self.flags))->0;
        assert(writer@ =~= frame_bytes(self@, rel));
        Ok(writer.get_raw_payload())
    }

    pub fn is_fragment(&self) -> (r: bool)
        ensures
            r == flags_fragment(self.flags),
    {
        (self.flags & 16) != 0
    }

    pub fn is_reliable(&self) -> (r: Result<bool, RaknetError>)
        ensures
            r == (match reliability_of(flags_code(self.flags)) {
                Some(x) => Ok::<bool, RaknetError>(is_reliable_kind(x)),
                None => Err(RaknetError::IncorrectReliability),
            }),
    {
        let r = Reliability::from((self.flags & 224) >> 5)?;
        Ok(
            match r {
                Reliability::Reliable | Reliability::ReliableOrdered
                | Reliability::ReliableSequenced => true,
                _ => false,
            },
        )
    }

    pub fn is_ordered(&self) -> (r: Result<bool, RaknetError>)
        ensures
            r == (match reliability_of(flags_code(self.flags)) {
                Some(x) => Ok::<bool, RaknetError>(is_ordered_kind(x)),
                None => Err(RaknetError::IncorrectReliability),
            }),
    {
        let r = Reliability::from((self.flags & 224) >> 5)?;
        Ok(
            match r {
                Reliability::UnreliableSequenced | Reliability::ReliableOrdered
                | Reliability::ReliableSequenced => true,
                _ => false,
            },
        )
    }

    pub fn is_sequenced(&self) -> (r: Result<bool, RaknetError>)
        ensures
            r == (match reliability_of(flags_code(self.flags)) {
                Some(x) => Ok::<bool, RaknetError>(is_sequenced_kind(x)),
                None => Err(RaknetError::IncorrectReliability),
            }),
    {
        let r = Reliability::from((self.flags & 224) >> 5)?;
        Ok(
            match r {
                Reliability::UnreliableSequenced | Reliability::ReliableSequenced => true,
                _ => false,
            },
        )
    }

    pub fn reliability(&self) -> (r: Result<Reliability, RaknetError>)
        ensures
            r == (match reliability_of(flags_code(self.flags)) {
                Some(x) => Ok::<Reliability, RaknetError>(x),
                None => Err(RaknetError::IncorrectReliability),
            }),
    {
        Reliability::from((self.flags & 224) >> 5)
    }
}

impl FrameSetPacket {
    /// The length of the frame once serialized.
    pub fn _size(&self) -> (r: Result<usize, RaknetError>)
        requires
            self.data@.len() + 40 <= usize::MAX,
        ensures
            reliability_of(flags_code(self.flags)) is None ==> r == Err::<usize, RaknetError>(
                RaknetError::IncorrectReliability,
            ),
            reliability_of(flags_code(self.flags)) matches Some(rel) ==> r == Ok::<
                usize,
                RaknetError,
            >((4 + header_len(rel, flags_fragment(self.flags)) + self.data@.len()) as usize),
    {
        // id, sequence number, flags and length in bits
        let mut ret: usize = 7;
        if self.is_reliable()? {
            ret = ret + 3;
        }
        if self.is_sequenced()? {
            ret = ret + 3;
        }
        if self.is_ordered()? {
            // ordered frame index and order channel
            ret = ret + 4;
        }
        if (self.flags & 16) != 0 {
            // compound size, compound id and fragment index
            ret = ret + 10;
        }
        ret = ret + self.data.len();
        Ok(ret)
    }
}

/// Bytes taken, after flags and length, by the indices a frame of reliability `r` carries.
pub open spec fn index_fields_len(r: Reliability) -> int {
    (if is_reliable_kind(r) {
        3int
    } else {
        0int
    }) + (if is_sequenced_kind(r) {
        3int
    } else {
        0int
    }) + (if is_ordered_kind(r) {
        4int
    } else {
        0int
    })
}

/// Bytes of a frame header from its flags to its payload.
pub open spec fn header_len(r: Reliability, fragment: bool) -> int {
    3 + index_fields_len(r) + if fragment {
        10int
    } else {
        0int
    }
}

/// Reading one frame from the front of `r` (starting at its flags), for a datagram
/// with id `id` and sequence number `seq`: `None` where the reader runs out (it stops
/// there), `Some(None)` for flags naming no reliability, otherwise the frame and the
/// bytes it takes.
pub open spec fn frame_body_of(r: Seq<u8>, id: u8, seq: u32) -> Option<Option<(FrameView, nat)>> {
    if r.len() < 3 {
        None
    } else {
        let flags = r[0];
        match reliability_of(flags_code(flags)) {
            None => Some(None),
            Some(rel) => {
                let frag = flags_fragment(flags);
                let o2: int = 3 + if is_reliable_kind(rel) {
                    3int
                } else {
                    0int
                };
                let o3: int = o2 + if is_sequenced_kind(rel) {
                    3int
                } else {
                    0int
                };
                let o4: int = o3 + if is_ordered_kind(rel) {
                    4int
                } else {
                    0int
                };
                let o5: int = header_len(rel, frag);
                let len: int = be_value(r.subrange(1, 3)) as int / 8;
                if r.len() < o5 + len {
                    None
                } else {
                    Some(
                        Some(
                            (
                                FrameView {
                                    id,
                                    sequence_number: seq,
                                    flags,
                                    length_in_bytes: len as u16,
                                    reliable_frame_index: if is_reliable_kind(rel) {
                                        le_value(r.subrange(3, 6)) as u32
                                    } else {
                                        0
                                    },
                                    sequenced_frame_index: if is_sequenced_kind(rel) {
                                        le_value(r.subrange(o2, o2 + 3)) as u32
                                    } else {
                                        0
                                    },
                                    ordered_frame_index: if is_ordered_kind(rel) {
                                        le_value(r.subrange(o3, o3 + 3)) as u32
                                    } else {
                                        0
                                    },
                                    order_channel: if is_ordered_kind(rel) {
                                        r[o3 + 3]
                                    } else {
                                        0
                                    },
                                    compound_size: if frag {
                                        be_value(r.subrange(o4, o4 + 4)) as u32
                                    } else {
                                        0
                                    },
                                    compound_id: if frag {
                                        be_value(r.subrange(o4 + 4, o4 + 6)) as u16
                                    } else {
                                        0
                                    },
                                    fragment_index: if frag {
                                        be_value(r.subrange(o4 + 6, o4 + 10)) as u32
                                    } else {
                                        0
                                    },
                                    data: r.subrange(o5, o5 + len),
                                },
                                (o5 + len) as nat,
                            ),
                        ),
                    )
                }
            },
        }
    }
}

/// Reads one frame, from its flags on.
#[verifier::rlimit(80)]
fn read_frame_body(reader: &mut RaknetReader, id: u8, seq: u32) -> (r: Result<
    FrameSetPacket,
    RaknetError,
>)
    requires
        frame_body_of(old(reader).rest(), id, seq) is Some,
    ensures
        frame_body_of(old(reader).rest(), id, seq) matches Some(o) && match o {
            None => r == Err::<FrameSetPacket, RaknetError>(RaknetError::IncorrectReliability),
            Some((f, n)) => r matches Ok(p) && p@ == f && final(reader).moved(old(reader), n),
        },
{
    let ghost r0 = reader.rest();
    let mut frame = FrameSetPacket {
        id,
        sequence_number: seq,
        flags: 0,
        length_in_bytes: 0,
        reliable_frame_index: 0,
        sequenced_frame_index: 0,
        ordered_frame_index: 0,
        order_channel: 0,
        compound_size: 0,
        compound_id: 0,
        fragment_index: 0,
        data: Vec::new(),
    };
    proof {
        lemma_pow256_values();
    }
    frame.flags = reader.read_u8().unwrap();
    assert(reader.rest() =~= r0.skip(1));
    let bits = reader.read_u16(Endian::Big).unwrap();
    assert(r0.skip(1).take(2) =~= r0.subrange(1, 3));
    frame.length_in_bytes = bits / 8;
    let rel = frame.reliability()?;
    let ghost mut off: int = 3;
    assert(reader.rest() =~= r0.skip(3));
    if frame.is_reliable()? {
        frame.reliable_frame_index = reader.read_u24(Endian::Little).unwrap();
        proof {
            assert(r0.skip(off).take(3) =~= r0.subrange(off, off + 3));
            lemma_le_value_bound(r0.subrange(off, off + 3));
            off = off + 3;
        }
        assert(reader.rest() =~= r0.skip(off));
    }
    if frame.is_sequenced()? {
        frame.sequenced_frame_index = reader.read_u24(Endian::Little).unwrap();
        proof {
            assert(r0.skip(off).take(3) =~= r0.subrange(off, off + 3));
            lemma_le_value_bound(r0.subrange(off, off + 3));
            off = off + 3;
        }
        assert(reader.rest() =~= r0.skip(off));
    }
    if frame.is_ordered()? {
        frame.ordered_frame_index = reader.read_u24(Endian::Little).unwrap();
        proof {
            assert(r0.skip(off).take(3) =~= r0.subrange(off, off + 3));
            lemma_le_value_bound(r0.subrange(off, off + 3));
            off = off + 3;
        }
        assert(reader.rest() =~= r0.skip(off));
        frame.order_channel = reader.read_u8().unwrap();
        proof {
            off = off + 1;
        }
        assert(reader.rest() =~= r0.skip(off));
    }
    if (frame.flags & 16) != 0 {
        frame.compound_size = reader.read_u32(Endian::Big).unwrap();
        proof {
            assert(r0.skip(off).take(4) =~= r0.subrange(off, off + 4));
            lemma_be_value_bound(r0.subrange(off, off + 4));
            off = off + 4;
        }
        assert(reader.rest() =~= r0.skip(off));
        frame.compound_id = reader.read_u16(Endian::Big).unwrap();
        proof {
            assert(r0.skip(off).take(2) =~= r0.subrange(off, off + 2));
            lemma_be_value_bound(r0.subrange(off, off + 2));
            off = off + 2;
        }
        assert(reader.rest() =~= r0.skip(off));
        frame.fragment_index = reader.read_u32(Endian::Big).unwrap();
        proof {
            assert(r0.skip(off).take(4) =~= r0.subrange(off, off + 4));
            lemma_be_value_bound(r0.subrange(off, off + 4));
            off = off + 4;
        }
        assert(reader.rest() =~= r0.skip(off));
    }
    let mut buf: Vec<u8> = Vec::new();
    let mut i: u16 = 0;
    while i < frame.length_in_bytes
        invariant
            i <= frame.length_in_bytes,
            buf@ =~= Seq::new(i as nat, |j: int| 0u8),
        decreases frame.length_in_bytes - i,
    {
        buf.push(0);
        i = i + 1;
    }
    reader.read(buf.as_mut_slice()).unwrap();
    frame.data = buf;
    proof {
        assert(frame.data@ =~= r0.subrange(off, off + frame.length_in_bytes as int));
    }
    Ok(frame)
}

impl FrameSetPacket {
    /// Parses a datagram holding one frame. Returns the frame, and whether the
    /// cursor ended at the position equal to the payload length (a comparison of
    /// the position with the length field, not a check that the input is used up).
    pub fn _deserialize(buf: Vec<u8>) -> (r: Result<(Self, bool), RaknetError>)
        requires
            buf@.len() >= 4,
            frame_body_of(buf@.skip(4), buf@[0], le_value(buf@.subrange(1, 4)) as u32) is Some,
        ensures
            frame_body_of(buf@.skip(4), buf@[0], le_value(buf@.subrange(1, 4)) as u32) matches Some(
                o,
            ) && match o {
                None => r == Err::<(Self, bool), RaknetError>(RaknetError::IncorrectReliability),
                Some((f, n)) => r matches Ok((p, b)) && p@ == f && b == (4 + n
                    == f.length_in_bytes),
            },
    {
        let ghost b0 = buf@;
        let mut reader = RaknetReader::new(buf);
        let id = reader.read_u8().unwrap();
        assert(reader.rest() =~= b0.skip(1));
        let sequence_number = reader.read_u24(Endian::Little).unwrap();
        assert(reader.rest() =~= b0.skip(4));
        assert(b0.skip(1).take(3) =~= b0.subrange(1, 4));
        proof {
            lemma_pow256_values();
            lemma_le_value_bound(b0.subrange(1, 4));
        }
        let ret = read_frame_body(&mut reader, id, sequence_number)?;
        let at_length = reader.pos() == ret.length_in_bytes as u64;
        Ok((ret, at_length))
    }
}

pub proof fn lemma_frame_body_len(r: Seq<u8>, id: u8, seq: u32)
    ensures
        frame_body_of(r, id, seq) matches Some(Some((f, n))) ==> 3 <= n <= r.len(),
{
}

/// Reading frames until the input ends: `None` where the reader runs out, `Some(None)`
/// when a frame's flags name no reliability, otherwise the frames in order.
pub open spec fn frames_of(r: Seq<u8>, id: u8, seq: u32) -> Option<Option<Seq<FrameView>>>
    decreases r.len(),
{
    if r.len() == 0 {
        Some(Some(Seq::empty()))
    } else {
        match frame_body_of(r, id, seq) {
            None => None,
            Some(None) => Some(None),
            Some(Some((f, n))) => {
                if 0 < n <= r.len() {
                    match frames_of(r.skip(n as int), id, seq) {
                        Some(Some(fs)) => Some(Some(seq![f] + fs)),
                        o => o,
                    }
                } else {
                    None
                }
            },
        }
    }
}

pub open spec fn after_frames(acc: Seq<FrameView>, o: Option<Option<Seq<FrameView>>>) -> Option<
    Option<Seq<FrameView>>,
> {
    match o {
        Some(Some(fs)) => Some(Some(acc + fs)),
        _ => o,
    }
}

/// A frame-set datagram: its id, its sequence number and its frames.
pub struct FrameVec {
    pub id: u8,
    pub sequence_number: u32,
    pub frames: Vec<FrameSetPacket>,
}

/// The views of a sequence of frames.
pub open spec fn frame_views(fs: Seq<FrameSetPacket>) -> Seq<FrameView> {
    fs.map_values(|f: FrameSetPacket| f@)
}

/// Whether reading a frame-set datagram from `b` never runs out mid-frame.
pub open spec fn frame_vec_readable(b: Seq<u8>) -> bool {
    b.len() >= 4 && frames_of(b.skip(4), b[0], le_value(b.subrange(1, 4)) as u32) is Some
}

/// Whether `frame_vec_readable` holds of `buf`: walks the frame headers without
/// reading the frames.
pub fn frame_vec_is_readable(buf: &[u8]) -> (r: bool)
    ensures
        r == frame_vec_readable(buf@),
{
    let len = buf.len();
    if len < 4 {
        return false;
    }
    let ghost id = buf@[0];
    let ghost seq = le_value(buf@.subrange(1, 4)) as u32;
    let ghost whole = frames_of(buf@.skip(4), id, seq) is Some;
    let mut pos: usize = 4;
    while pos < len
        invariant
            4 <= pos <= len,
            len == buf@.len(),
            whole == (frames_of(buf@.skip(pos as int), id, seq) is Some),
            whole == (frames_of(buf@.skip(4), buf@[0], le_value(buf@.subrange(1, 4)) as u32) is Some),
        decreases len - pos,
    {
        let ghost r = buf@.skip(pos as int);
        if len - pos < 3 {
            assert(frame_body_of(r, id, seq) is None);
            return false;
        }
        let flags = buf[pos];
        assert(r[0] == flags);
        let rel = match Reliability::from((flags & 224) >> 5) {
            Ok(x) => x,
            Err(_) => {
                assert(frame_body_of(r, id, seq) == Some(None::<(FrameView, nat)>));
                return true;
            },
        };
        let index_len: usize = match rel {
            Reliability::Unreliable => 0,
            Reliability::UnreliableSequenced => 7,
            Reliability::Reliable => 3,
            Reliability::ReliableOrdered => 7,
            Reliability::ReliableSequenced => 10,
        };
        let header: usize = 3 + index_len + if flags & 16 != 0 {
            10
        } else {
            0
        };
        let bits: usize = buf[pos + 1] as usize * 256 + buf[pos + 2] as usize;
        proof {
            assert(r.subrange(1, 3) =~= buf@.subrange(pos + 1, pos + 3));
            lemma_be_value_two(buf@.subrange(pos + 1, pos + 3));
            assert(header == header_len(rel, flags_fragment(flags)));
        }
        let n = header + bits / 8;
        if len - pos < n {
            assert(frame_body_of(r, id, seq) is None);
            return false;
        }
        proof {
            lemma_frame_body_len(r, id, seq);
            assert(frame_body_of(r, id, seq) matches Some(Some((f, m))) && m == n);
            assert(r.skip(n as int) =~= buf@.skip(pos + n));
        }
        pos = pos + n;
    }
    proof {
        assert(buf@.skip(pos as int) =~= Seq::<u8>::empty());
    }
    true
}

/// The bytes of a frame-set datagram's frames; `None` when some frame's flags name
/// no reliability. The fragment header follows bit 3 of the flags.
pub open spec fn frames_bytes(fs: Seq<FrameView>) -> Option<Seq<u8>>
    decreases fs.len(),
{
    if fs.len() == 0 {
        Some(Seq::empty())
    } else {
        match reliability_of(flags_code(fs[0].flags)) {
            None => None,
            Some(rel) => match frames_bytes(fs.drop_first()) {
                Some(rest) => Some(frame_fields_bytes(fs[0], rel, fs[0].flags & 8 != 0) + rest),
                None => None,
            },
        }
    }
}

/// The total payload of a sequence of frames.
pub open spec fn frames_payload_len(fs: Seq<FrameView>) -> nat
    decreases fs.len(),
{
    if fs.len() == 0 {
        0
    } else {
        fs[0].data.len() + frames_payload_len(fs.drop_first())
    }
}

impl FrameVec {
    /// Parses a frame-set datagram: id, sequence number, then frames to the end.
    pub fn new(buf: Vec<u8>) -> (r: Result<Self, RaknetError>)
        requires
            frame_vec_readable(buf@),
        ensures
            frames_of(buf@.skip(4), buf@[0], le_value(buf@.subrange(1, 4)) as u32) matches Some(o)
                && match o {
                None => r == Err::<Self, RaknetError>(RaknetError::IncorrectReliability),
                Some(fs) => r matches Ok(v) && v.id == buf@[0] && v.sequence_number
                    == le_value(buf@.subrange(1, 4)) && frame_views(v.frames@) == fs,
            },
    {
        let ghost b0 = buf@;
        let size = buf.len();
        let mut reader = RaknetReader::new(buf);
        let id = reader.read_u8().unwrap();
        assert(reader.rest() =~= b0.skip(1));
        let sequence_number = reader.read_u24(Endian::Little).unwrap();
        assert(reader.rest() =~= b0.skip(4));
        assert(b0.skip(1).take(3) =~= b0.subrange(1, 4));
        proof {
            lemma_pow256_values();
            lemma_le_value_bound(b0.subrange(1, 4));
        }
        let ghost whole = frames_of(b0.skip(4), id, sequence_number);
        let mut frames: Vec<FrameSetPacket> = Vec::new();
        assert(frame_views(frames@) + Seq::<FrameView>::empty() =~= frame_views(frames@));
        proof {
            match whole {
                Some(Some(fs)) => {
                    assert(frame_views(frames@) + fs =~= fs);
                },
                _ => {},
            }
        }
        while reader.pos() < size as u64
            invariant
                reader.content() == b0,
                size == b0.len(),
                reader.offset() <= size,
                whole is Some,
                b0 == buf@,
                whole == frames_of(b0.skip(4), b0[0], le_value(b0.subrange(1, 4)) as u32),
                whole == after_frames(
                    frame_views(frames@),
                    frames_of(reader.rest(), id, sequence_number),
                ),
            decreases size - reader.offset(),
        {
            let ghost ri = reader.rest();
            let ghost done = frame_views(frames@);
            proof {
                lemma_frame_body_len(ri, id, sequence_number);
            }
            match read_frame_body(&mut reader, id, sequence_number) {
                Err(e) => {
                    proof {
                        assert(ri.len() > 0);
                        assert(frames_of(ri, id, sequence_number) == Some(
                            None::<Seq<FrameView>>,
                        ));
                        assert(whole == Some(None::<Seq<FrameView>>));
                    }
                    return Err(e);
                },
                Ok(frame) => {
                    proof {
                        if let Some(Some((f, n))) = frame_body_of(ri, id, sequence_number) {
                            assert(reader.rest() =~= ri.skip(n as int));
                            assert(frame_views(frames@.push(frame)) =~= done.push(frame@));
                            if let Some(Some(fs)) = frames_of(reader.rest(), id, sequence_number) {
                                assert(done + (seq![frame@] + fs) =~= done.push(frame@) + fs);
                            }
                        }
                    }
                    frames.push(frame);
                },
            }
        }
        proof {
            assert(reader.rest() =~= Seq::<u8>::empty());
            assert(frame_views(frames@) + Seq::<FrameView>::empty() =~= frame_views(frames@));
        }
        Ok(FrameVec { id, sequence_number, frames })
    }

    /// Serializes the datagram with id 0x8c; the fragment header of each frame is
    /// written when bit 3 of its flags is set.
    pub fn _serialize(&self) -> (r: Result<Vec<u8>, RaknetError>)
        requires
            forall|i: int| 0 <= i < self.frames@.len() ==> #[trigger] self.frames@[i].length_in_bytes
                * 8 <= u16::MAX,
            frames_payload_len(frame_views(self.frames@)) + 40 * self.frames@.len() + 8
                <= isize::MAX,
        ensures
            frames_bytes(frame_views(self.frames@)) is None ==> r == Err::<Vec<u8>, RaknetError>(
                RaknetError::IncorrectReliability,
            ),
            frames_bytes(frame_views(self.frames@)) matches Some(b) ==> (r matches Ok(v) && v@
                == seq![0x8cu8] + le_bytes(self.sequence_number as nat, 3) + b),
    {
        let mut writer = RaknetWriter::new();
        // A frame set that asks for acknowledgement, marked as a continuation.
        writer.write_u8(0x8c)?;
        writer.write_u24(self.sequence_number, Endian::Little)?;
        let ghost all = frame_views(self.frames@);
        proof {
            assert(all.skip(0) =~= all);
            assert(writer@.skip(4) =~= Seq::<u8>::empty());
            if let Some(b) = frames_bytes(all) {
                assert(Seq::<u8>::empty() + b =~= b);
            }
            assert(all.take(0) =~= Seq::<FrameView>::empty());
            assert(writer@.take(4) =~= writer@);
        }
        let mut i: usize = 0;
        while i < self.frames.len()
            invariant
                0 <= i <= self.frames@.len(),
                all == frame_views(self.frames@),
                forall|k: int| 0 <= k < self.frames@.len() ==> #[trigger] self.frames@[k].length_in_bytes
                    * 8 <= u16::MAX,
                frames_payload_len(all) + 40 * self.frames@.len() + 8 <= isize::MAX,
                writer@.len() <= 4 + 30 * i + frames_payload_len(all.take(i as int)),
                frames_bytes(all) == (match frames_bytes(all.skip(i as int)) {
                    Some(rest) => Some(writer@.skip(4) + rest),
                    None => None,
                }),
                writer@.len() >= 4,
                writer@.take(4) == seq![0x8cu8] + le_bytes(self.sequence_number as nat, 3),
            decreases self.frames@.len() - i,
        {
            let frame = &self.frames[i];
            proof {
                lemma_payload_split(all, i as int);
            }
            let ghost before = writer@;
            proof {
                assert(all.skip(i as int)[0] == frame@);
                assert(all.skip(i as int).drop_first() =~= all.skip(i + 1));
            }
            match write_frame_fields(&mut writer, frame, (frame.flags & 0x08) != 0) {
                Err(e) => {
                    return Err(e);
                },
                Ok(()) => {},
            }
            proof {
                let rel = reliability_of(flags_code(frame.flags))->0;
                let fb = frame_fields_bytes(frame@, rel, frame.flags & 8 != 0);
                assert(writer@ == before + fb);
                lemma_payload_split(all, i + 1);
                if let Some(rest) = frames_bytes(all.skip(i + 1)) {
                    assert(writer@.skip(4) + rest =~= before.skip(4) + (fb + rest));
                }
                assert(writer@.take(4) =~= before.take(4));
            }
            i = i + 1;
        }
        proof {
            assert(all.skip(i as int) =~= Seq::<FrameView>::empty());
            assert(writer@ =~= writer@.take(4) + writer@.skip(4));
            assert(writer@.skip(4) + Seq::<u8>::empty() =~= writer@.skip(4));
        }
        Ok(writer.get_raw_payload())
    }
}

proof fn lemma_payload_split(fs: Seq<FrameView>, i: int)
    requires
        0 <= i <= fs.len(),
    ensures
        frames_payload_len(fs) == frames_payload_len(fs.take(i)) + frames_payload_len(fs.skip(i)),
        i < fs.len() ==> frames_payload_len(fs.take(i + 1)) == frames_payload_len(fs.take(i))
            + fs[i].data.len(),
    decreases fs.len(),
{
    if fs.len() > 0 && i > 0 {
        lemma_payload_split(fs.drop_first(), i - 1);
        assert(fs.take(i).drop_first() =~= fs.drop_first().take(i - 1));
        assert(fs.skip(i) =~= fs.drop_first().skip(i - 1));
        if i < fs.len() {
            assert(fs.take(i + 1).drop_first() =~= fs.drop_first().take(i));
        }
    } else if i == 0 {
        assert(fs.skip(0) =~= fs);
        assert(fs.take(0) =~= Seq::<FrameView>::empty());
        if fs.len() > 0 {
            assert(fs.take(1).drop_first() =~= Seq::<FrameView>::empty());
        }
    }
}



/// A frame as it reads back after serialization: the id byte the writer chose, the
/// three-byte fields cut to 24 bits, and the fields its reliability and fragment
/// flag do not carry zeroed.
pub open spec fn wire_frame(f: FrameView) -> FrameView {
    let rel = reliability_of(flags_code(f.flags))->0;
    let frag = flags_fragment(f.flags);
    FrameView {
        id: frame_id_byte(f),
        sequence_number: (f.sequence_number % 0x100_0000) as u32,
        flags: f.flags,
        length_in_bytes: f.length_in_bytes,
        reliable_frame_index: if is_reliable_kind(rel) {
            (f.reliable_frame_index % 0x100_0000) as u32
        } else {
            0
        },
        sequenced_frame_index: if is_sequenced_kind(rel) {
            (f.sequenced_frame_index % 0x100_0000) as u32
        } else {
            0
        },
        ordered_frame_index: if is_ordered_kind(rel) {
            (f.ordered_frame_index % 0x100_0000) as u32
        } else {
            0
        },
        order_channel: if is_ordered_kind(rel) {
            f.order_channel
        } else {
            0
        },
        compound_size: if frag {
            f.compound_size
        } else {
            0
        },
        compound_id: if frag {
            f.compound_id
        } else {
            0
        },
        fragment_index: if frag {
            f.fragment_index
        } else {
            0
        },
        data: f.data,
    }
}

/// Law: a serialized frame is as long as `_size` says.
pub proof fn lemma_frame_bytes_len(f: FrameView, rel: Reliability)
    ensures
        frame_bytes(f, rel).len() == 4 + header_len(rel, flags_fragment(f.flags)) + f.data.len(),
{
}

/// Law: a frame whose length field matches its payload reads back, after
/// serialization, as `wire_frame` of itself, taking all the bytes.
pub proof fn lemma_frame_roundtrip(f: FrameView)
    requires
        reliability_of(flags_code(f.flags)) is Some,
        f.length_in_bytes == f.data.len(),
        f.length_in_bytes * 8 <= u16::MAX,
    ensures
        ({
            let rel = reliability_of(flags_code(f.flags))->0;
            let b = frame_bytes(f, rel);
            &&& b.len() >= 4
            &&& b[0] == frame_id_byte(f)
            &&& le_value(b.subrange(1, 4)) == f.sequence_number % 0x100_0000
            &&& frame_body_of(b.skip(4), b[0], le_value(b.subrange(1, 4)) as u32) == Some(
                Some((wire_frame(f), (b.len() - 4) as nat)),
            )
        }),
{
    let rel = reliability_of(flags_code(f.flags))->0;
    let frag = flags_fragment(f.flags);
    let b = frame_bytes(f, rel);
    lemma_pow256_values();
    let s3 = le_bytes(f.sequence_number as nat, 3);
    assert(b.subrange(1, 4) =~= s3);
    lemma_le_value_of_bytes(f.sequence_number as nat, 3);
    let r = frame_fields_bytes(f, rel, frag);
    assert(b.skip(4) =~= r);
    let p_len = be_bytes(f.length_in_bytes as nat * 8, 2);
    let p_rel = if is_reliable_kind(rel) {
        le_bytes(f.reliable_frame_index as nat, 3)
    } else {
        Seq::<u8>::empty()
    };
    let p_sqd = if is_sequenced_kind(rel) {
        le_bytes(f.sequenced_frame_index as nat, 3)
    } else {
        Seq::<u8>::empty()
    };
    let p_ord = if is_ordered_kind(rel) {
        le_bytes(f.ordered_frame_index as nat, 3) + seq![f.order_channel]
    } else {
        Seq::<u8>::empty()
    };
    let p_cs = be_bytes(f.compound_size as nat, 4);
    let p_ci = be_bytes(f.compound_id as nat, 2);
    let p_fi = be_bytes(f.fragment_index as nat, 4);
    let p_frag = if frag {
        p_cs + p_ci + p_fi
    } else {
        Seq::<u8>::empty()
    };
    assert(r == seq![f.flags] + p_len + p_rel + p_sqd + p_ord + p_frag + f.data);
    let o2: int = 3 + p_rel.len() as int;
    let o3: int = o2 + p_sqd.len() as int;
    let o4: int = o3 + p_ord.len() as int;
    let o5: int = o4 + p_frag.len() as int;
    assert(o5 == header_len(rel, frag));
    assert(r.len() == o5 + f.data.len());
    assert(r.subrange(1, 3) =~= p_len);
    lemma_roundtrip(f.length_in_bytes as nat * 8, 2);
    assert(r.subrange(o5, o5 + f.data.len()) =~= f.data);
    if is_reliable_kind(rel) {
        assert(r.subrange(3, 6) =~= p_rel);
        lemma_le_value_of_bytes(f.reliable_frame_index as nat, 3);
    }
    if is_sequenced_kind(rel) {
        assert(r.subrange(o2, o2 + 3) =~= p_sqd);
        lemma_le_value_of_bytes(f.sequenced_frame_index as nat, 3);
    }
    if is_ordered_kind(rel) {
        assert(r.subrange(o3, o3 + 3) =~= le_bytes(f.ordered_frame_index as nat, 3));
        assert(r[o3 + 3] == f.order_channel);
        lemma_le_value_of_bytes(f.ordered_frame_index as nat, 3);
    }
    if frag {
        assert(r.subrange(o4, o4 + 4) =~= p_cs);
        assert(r.subrange(o4 + 4, o4 + 6) =~= p_ci);
        assert(r.subrange(o4 + 6, o4 + 10) =~= p_fi);
        lemma_roundtrip(f.compound_size as nat, 4);
        lemma_roundtrip(f.compound_id as nat, 2);
        lemma_roundtrip(f.fragment_index as nat, 4);
    }
    assert(r[0] == f.flags);
}

/// Law: a datagram holding exactly one frame, whose length field counts whole bytes
/// and whose id byte is the one the writer would choose, serializes back to itself
/// once parsed.
pub proof fn lemma_frame_reserialize(b: Seq<u8>)
    requires
        b.len() >= 7,
        be_value(b.subrange(5, 7)) % 8 == 0,
        frame_body_of(b.skip(4), b[0], le_value(b.subrange(1, 4)) as u32) matches Some(Some((f, n)))
            && n == b.len() - 4 && b[0] == frame_id_byte(f),
    ensures
        frame_body_of(b.skip(4), b[0], le_value(b.subrange(1, 4)) as u32) matches Some(Some((f, n)))
            && frame_bytes(f, reliability_of(flags_code(f.flags))->0) == b,
{
    let r = b.skip(4);
    let (f, n) = frame_body_of(r, b[0], le_value(b.subrange(1, 4)) as u32)->0->0;
    let rel = reliability_of(flags_code(f.flags))->0;
    let frag = flags_fragment(f.flags);
    lemma_pow256_values();
    lemma_le_value_bound(b.subrange(1, 4));
    lemma_le_bytes_of_value(b.subrange(1, 4));
    assert(r.subrange(1, 3) =~= b.subrange(5, 7));
    lemma_be_value_bound(r.subrange(1, 3));
    lemma_be_bytes_of_value(r.subrange(1, 3));
    let o2: int = 3 + if is_reliable_kind(rel) {
        3int
    } else {
        0int
    };
    let o3: int = o2 + if is_sequenced_kind(rel) {
        3int
    } else {
        0int
    };
    let o4: int = o3 + if is_ordered_kind(rel) {
        4int
    } else {
        0int
    };
    let o5: int = header_len(rel, frag);
    let p_rel = if is_reliable_kind(rel) {
        le_bytes(f.reliable_frame_index as nat, 3)
    } else {
        Seq::<u8>::empty()
    };
    let p_sqd = if is_sequenced_kind(rel) {
        le_bytes(f.sequenced_frame_index as nat, 3)
    } else {
        Seq::<u8>::empty()
    };
    let p_ord = if is_ordered_kind(rel) {
        le_bytes(f.ordered_frame_index as nat, 3) + seq![f.order_channel]
    } else {
        Seq::<u8>::empty()
    };
    let p_frag = if frag {
        be_bytes(f.compound_size as nat, 4) + be_bytes(f.compound_id as nat, 2) + be_bytes(
            f.fragment_index as nat,
            4,
        )
    } else {
        Seq::<u8>::empty()
    };
    if is_reliable_kind(rel) {
        lemma_le_value_bound(r.subrange(3, 6));
        lemma_le_bytes_of_value(r.subrange(3, 6));
        assert(p_rel =~= r.subrange(3, o2));
    } else {
        assert(p_rel =~= r.subrange(3, o2));
    }
    if is_sequenced_kind(rel) {
        lemma_le_value_bound(r.subrange(o2, o2 + 3));
        lemma_le_bytes_of_value(r.subrange(o2, o2 + 3));
        assert(p_sqd =~= r.subrange(o2, o3));
    } else {
        assert(p_sqd =~= r.subrange(o2, o3));
    }
    if is_ordered_kind(rel) {
        lemma_le_value_bound(r.subrange(o3, o3 + 3));
        lemma_le_bytes_of_value(r.subrange(o3, o3 + 3));
        assert(p_ord =~= r.subrange(o3, o4));
    } else {
        assert(p_ord =~= r.subrange(o3, o4));
    }
    if frag {
        lemma_be_value_bound(r.subrange(o4, o4 + 4));
        lemma_be_bytes_of_value(r.subrange(o4, o4 + 4));
        lemma_be_value_bound(r.subrange(o4 + 4, o4 + 6));
        lemma_be_bytes_of_value(r.subrange(o4 + 4, o4 + 6));
        lemma_be_value_bound(r.subrange(o4 + 6, o4 + 10));
        lemma_be_bytes_of_value(r.subrange(o4 + 6, o4 + 10));
        assert(p_frag =~= r.subrange(o4, o5));
    } else {
        assert(p_frag =~= r.subrange(o4, o5));
    }
    assert(f.length_in_bytes as nat * 8 == be_value(r.subrange(1, 3)));
    assert(frame_fields_bytes(f, rel, frag) =~= seq![r[0]] + r.subrange(1, 3) + r.subrange(3, o2)
        + r.subrange(o2, o3) + r.subrange(o3, o4) + r.subrange(o4, o5) + r.subrange(o5, r.len() as int));
    assert(frame_fields_bytes(f, rel, frag) =~= r);
    assert(frame_bytes(f, rel) =~= b);
}

/// A frame that `FrameVec::_serialize` writes so that it reads back: its flags name a
/// reliability, its length field counts its payload, the length in bits fits 16 bits,
/// and the bit that the writer takes for the fragment header (bit 3) agrees with
/// the one the reader takes (bit 4).
pub open spec fn frame_writable(f: FrameView) -> bool {
    &&& reliability_of(flags_code(f.flags)) is Some
    &&& f.length_in_bytes == f.data.len()
    &&& f.length_in_bytes * 8 <= u16::MAX
    &&& (f.flags & 8 != 0) == flags_fragment(f.flags)
}

/// What reading gives back of the frame `f`, inside a datagram with id `id` and
/// sequence number `seq`.
pub open spec fn frame_read_back(f: FrameView, id: u8, seq: u32) -> FrameView {
    let w = wire_frame(f);
    FrameView {
        id,
        sequence_number: seq,
        flags: w.flags,
        length_in_bytes: w.length_in_bytes,
        reliable_frame_index: w.reliable_frame_index,
        sequenced_frame_index: w.sequenced_frame_index,
        ordered_frame_index: w.ordered_frame_index,
        order_channel: w.order_channel,
        compound_size: w.compound_size,
        compound_id: w.compound_id,
        fragment_index: w.fragment_index,
        data: w.data,
    }
}

/// Reading a frame with another datagram id and sequence number changes only those fields.
proof fn lemma_frame_body_ids(r: Seq<u8>, id: u8, seq: u32, id2: u8, seq2: u32)
    ensures
        frame_body_of(r, id, seq) matches Some(Some((f, n))) ==> frame_body_of(r, id2, seq2)
            == Some(
            Some(
                (
                    FrameView {
                        id: id2,
                        sequence_number: seq2,
                        flags: f.flags,
                        length_in_bytes: f.length_in_bytes,
                        reliable_frame_index: f.reliable_frame_index,
                        sequenced_frame_index: f.sequenced_frame_index,
                        ordered_frame_index: f.ordered_frame_index,
                        order_channel: f.order_channel,
                        compound_size: f.compound_size,
                        compound_id: f.compound_id,
                        fragment_index: f.fragment_index,
                        data: f.data,
                    },
                    n,
                ),
            ),
        ),
{
}

/// Reading a frame looks only at the bytes it takes: what follows does not change it.
proof fn lemma_frame_body_prefix(r: Seq<u8>, rest: Seq<u8>, id: u8, seq: u32)
    requires
        frame_body_of(r, id, seq) is Some,
        frame_body_of(r, id, seq)->0 is Some,
    ensures
        frame_body_of(r + rest, id, seq) == frame_body_of(r, id, seq),
{
    let s = r + rest;
    assert forall|i: int, j: int| 0 <= i <= j <= r.len() implies #[trigger] s.subrange(i, j)
        == r.subrange(i, j) by {
        assert(s.subrange(i, j) =~= r.subrange(i, j));
    }
    assert(s[0] == r[0]);
}

/// One writable frame's fields, followed by anything, read back as `frame_read_back`.
proof fn lemma_frame_fields_read(f: FrameView, rest: Seq<u8>, id: u8, seq: u32)
    requires
        frame_writable(f),
    ensures
        ({
            let fb = frame_fields_bytes(f, reliability_of(flags_code(f.flags))->0, f.flags & 8 != 0);
            &&& fb.len() >= 3
            &&& frame_body_of(fb + rest, id, seq) == Some(
                Some((frame_read_back(f, id, seq), fb.len())),
            )
        }),
{
    let rel = reliability_of(flags_code(f.flags))->0;
    let b = frame_bytes(f, rel);
    let fb = frame_fields_bytes(f, rel, f.flags & 8 != 0);
    lemma_frame_roundtrip(f);
    assert(b.skip(4) =~= fb);
    lemma_frame_body_ids(fb, b[0], le_value(b.subrange(1, 4)) as u32, id, seq);
    lemma_frame_body_prefix(fb, rest, id, seq);
}

/// The frames of a datagram written by `_serialize` read back one by one.
proof fn lemma_frames_read(fs: Seq<FrameView>, id: u8, seq: u32)
    requires
        forall|i: int| 0 <= i < fs.len() ==> frame_writable(#[trigger] fs[i]),
    ensures
        frames_bytes(fs) matches Some(b) && frames_of(b, id, seq) == Some(
            Some(fs.map_values(|f: FrameView| frame_read_back(f, id, seq))),
        ),
    decreases fs.len(),
{
    if fs.len() == 0 {
        assert(fs.map_values(|f: FrameView| frame_read_back(f, id, seq)) =~= Seq::<
            FrameView,
        >::empty());
    } else {
        let f = fs[0];
        let tail = fs.drop_first();
        assert(frame_writable(f));
        assert forall|i: int| 0 <= i < tail.len() implies frame_writable(#[trigger] tail[i]) by {
            assert(tail[i] == fs[i + 1]);
        }
        lemma_frames_read(tail, id, seq);
        let rest = frames_bytes(tail)->0;
        let rel = reliability_of(flags_code(f.flags))->0;
        let fb = frame_fields_bytes(f, rel, f.flags & 8 != 0);
        lemma_frame_fields_read(f, rest, id, seq);
        let b = fb + rest;
        assert(frames_bytes(fs) == Some(b));
        assert(b.len() > 0);
        assert(b.skip(fb.len() as int) =~= rest);
        assert(fs.map_values(|f: FrameView| frame_read_back(f, id, seq)) =~= seq![
            frame_read_back(f, id, seq),
        ] + tail.map_values(|f: FrameView| frame_read_back(f, id, seq)));
    }
}

/// Law: a frame-set datagram that `FrameVec::_serialize` writes (id 0x8c, the
/// sequence number, then the frames) is readable by `FrameVec::new`, which gives back
/// each frame as `frame_read_back`: the datagram's id and sequence number, the
/// fields its reliability and fragment flag carry, and its payload.
pub proof fn lemma_frame_vec_roundtrip(fs: Seq<FrameView>, seq: u32)
    requires
        forall|i: int| 0 <= i < fs.len() ==> frame_writable(#[trigger] fs[i]),
    ensures
        frames_bytes(fs) matches Some(b) && ({
            let v = seq![0x8cu8] + le_bytes(seq as nat, 3) + b;
            let s = (seq % 0x100_0000) as u32;
            &&& frame_vec_readable(v)
            &&& v[0] == 0x8c
            &&& le_value(v.subrange(1, 4)) == s
            &&& frames_of(v.skip(4), v[0], le_value(v.subrange(1, 4)) as u32) == Some(
                Some(fs.map_values(|f: FrameView| frame_read_back(f, 0x8c, s))),
            )
        }),
{
    let s = (seq % 0x100_0000) as u32;
    lemma_frames_read(fs, 0x8c, s);
    let b = frames_bytes(fs)->0;
    let v = seq![0x8cu8] + le_bytes(seq as nat, 3) + b;
    lemma_pow256_values();
    assert(v.subrange(1, 4) =~= le_bytes(seq as nat, 3));
    lemma_le_value_of_bytes(seq as nat, 3);
    assert(v.skip(4) =~= b);
}

/// What an acknowledgement set holds: ranges of received sequence numbers waiting to
/// be acknowledged, ranges of missed ones waiting to be reported, and the highest
/// sequence number seen.
pub struct AckView {
    pub acks: Seq<(u32, u32)>,
    pub nacks: Seq<(u32, u32)>,
    pub last_max: u32,
}

/// Received sequence numbers gathered into ranges, and the gaps seen among them.
pub struct ACKSet {
    ack: Vec<(u32, u32)>,
    nack: Vec<(u32, u32)>,
    last_max: u32,
}

impl View for ACKSet {
    type V = AckView;

    closed spec fn view(&self) -> AckView {
        AckView { acks: self.ack@, nacks: self.nack@, last_max: self.last_max }
    }
}

/// Every range runs upwards.
pub open spec fn ranges_ok(rs: Seq<(u32, u32)>) -> bool {
    forall|i: int| 0 <= i < rs.len() ==> #[trigger] rs[i].0 <= rs[i].1
}

/// The numbers the ranges `rs` cover.
pub open spec fn covered(rs: Seq<(u32, u32)>) -> Set<u32> {
    Set::new(|x: u32| exists|i: int| 0 <= i < rs.len() && #[trigger] rs[i].0 <= x && x <= rs[i].1)
}

/// The acknowledgement ranges after `s` arrives, looking from range `i` on: the
/// first range that `s` extends downwards or upwards takes it, otherwise `s` opens
/// a range of its own at the end.
pub open spec fn ack_scan(acks: Seq<(u32, u32)>, s: u32, i: nat) -> Seq<(u32, u32)>
    decreases acks.len() - i,
{
    if i >= acks.len() {
        acks.push((s, s))
    } else if acks[i as int].0 != 0 && s + 1 == acks[i as int].0 {
        acks.update(i as int, (s, acks[i as int].1))
    } else if s == acks[i as int].1 + 1 {
        acks.update(i as int, (acks[i as int].0, s))
    } else {
        ack_scan(acks, s, i + 1)
    }
}

/// Whether no acknowledged range of `a` ends at `u32::MAX`.
pub open spec fn acks_below_max(a: AckView) -> bool {
    forall|i: int| 0 <= i < a.acks.len() ==> #[trigger] a.acks[i].1 < u32::MAX
}

/// The missed-number ranges after `s` arrives: a number more than one above the
/// highest seen reports the numbers skipped in between.
pub open spec fn nack_insert(v: AckView, s: u32) -> Seq<(u32, u32)> {
    if s > v.last_max + 1 {
        v.nacks.push(((v.last_max + 1) as u32, (s - 1) as u32))
    } else {
        v.nacks
    }
}

impl ACKSet {
    /// The ranges run upwards.
    pub open spec fn wf(&self) -> bool {
        &&& ranges_ok(self@.acks)
        &&& ranges_ok(self@.nacks)
    }

    /// Whether no acknowledged range ends at `u32::MAX`, so that every range can be
    /// extended upwards.
    pub fn below_max(&self) -> (r: bool)
        ensures
            r == acks_below_max(self@),
    {
        let mut i: usize = 0;
        while i < self.ack.len()
            invariant
                i <= self.ack@.len(),
                forall|j: int| 0 <= j < i ==> #[trigger] self.ack@[j].1 < u32::MAX,
            decreases self.ack@.len() - i,
        {
            if self.ack[i].1 == u32::MAX {
                proof {
                    assert(self@.acks[i as int].1 == u32::MAX);
                }
                return false;
            }
            i = i + 1;
        }
        true
    }

    pub fn new() -> (r: Self)
        ensures
            r.wf(),
            r@.acks == Seq::<(u32, u32)>::empty(),
            r@.nacks == Seq::<(u32, u32)>::empty(),
            r@.last_max == 0,
    {
        ACKSet { ack: Vec::new(), nack: Vec::new(), last_max: 0 }
    }

    /// Records the arrival of sequence number `s`.
    pub fn insert(&mut self, s: u32)
        requires
            old(self).wf(),
            acks_below_max(old(self)@),
        ensures
            final(self).wf(),
            final(self)@.acks == ack_scan(old(self)@.acks, s, 0),
            final(self)@.nacks == nack_insert(old(self)@, s),
            final(self)@.last_max == if s > old(self)@.last_max {
                s
            } else {
                old(self)@.last_max
            },
    {
        if s != 0 {
            if s > self.last_max && s != self.last_max + 1 {
                self.nack.push((self.last_max + 1, s - 1));
            }
            if s > self.last_max {
                self.last_max = s;
            }
        }
        let ghost a0 = self.ack@;
        proof {
            lemma_ack_scan_wf(a0, s, 0);
        }
        let mut i: usize = 0;
        while i < self.ack.len()
            invariant
                0 <= i <= a0.len(),
                self.ack@ == a0,
                a0 == old(self)@.acks,
                self.nack@ == nack_insert(old(self)@, s),
                self.last_max == if s > old(self)@.last_max {
                    s
                } else {
                    old(self)@.last_max
                },
                ranges_ok(self.nack@),
                forall|j: int| 0 <= j < a0.len() ==> #[trigger] a0[j].1 < u32::MAX,
                ranges_ok(ack_scan(a0, s, 0)),
                ack_scan(a0, s, 0) == ack_scan(a0, s, i as nat),
            decreases a0.len() - i,
        {
            let a = self.ack[i];
            if a.0 != 0 && s == a.0 - 1 {
                self.ack.set(i, (s, a.1));
                return;
            }
            if s == a.1 + 1 {
                self.ack.set(i, (a.0, s));
                return;
            }
            i = i + 1;
        }
        self.ack.push((s, s));
    }

    /// Hands out the acknowledgement ranges and forgets them.
    pub fn get_ack(&mut self) -> (r: Vec<(u32, u32)>)
        requires
            old(self).wf(),
        ensures
            final(self).wf(),
            r@ == old(self)@.acks,
            final(self)@.acks == Seq::<(u32, u32)>::empty(),
            final(self)@.nacks == old(self)@.nacks,
            final(self)@.last_max == old(self)@.last_max,
    {
        let mut ret: Vec<(u32, u32)> = Vec::new();
        std::mem::swap(&mut ret, &mut self.ack);
        ret
    }

    /// Hands out the missed-number ranges and forgets them.
    pub fn get_nack(&mut self) -> (r: Vec<(u32, u32)>)
        requires
            old(self).wf(),
        ensures
            final(self).wf(),
            r@ == old(self)@.nacks,
            final(self)@.nacks == Seq::<(u32, u32)>::empty(),
            final(self)@.acks == old(self)@.acks,
            final(self)@.last_max == old(self)@.last_max,
    {
        let mut ret: Vec<(u32, u32)> = Vec::new();
        std::mem::swap(&mut ret, &mut self.nack);
        ret
    }
}

proof fn lemma_ack_scan_wf(acks: Seq<(u32, u32)>, s: u32, i: nat)
    requires
        ranges_ok(acks),
    ensures
        ranges_ok(ack_scan(acks, s, i)),
    decreases acks.len() - i,
{
    if i < acks.len() {
        if !(acks[i as int].0 != 0 && s + 1 == acks[i as int].0) && !(s == acks[i as int].1 + 1) {
            lemma_ack_scan_wf(acks, s, i + 1);
        }
    }
}

/// Law: recording `s` adds exactly `s` to the acknowledged numbers, and the ranges
/// still run upwards.
pub proof fn lemma_ack_insert_covers(acks: Seq<(u32, u32)>, s: u32)
    requires
        ranges_ok(acks),
    ensures
        ranges_ok(ack_scan(acks, s, 0)),
        covered(ack_scan(acks, s, 0)) == covered(acks).insert(s),
{
    lemma_ack_scan_covers(acks, s, 0);
}

proof fn lemma_ack_scan_covers(acks: Seq<(u32, u32)>, s: u32, i: nat)
    requires
        ranges_ok(acks),
    ensures
        ranges_ok(ack_scan(acks, s, i)),
        covered(ack_scan(acks, s, i)) == covered(acks).insert(s),
    decreases acks.len() - i,
{
    let r = ack_scan(acks, s, i);
    if i >= acks.len() {
        assert forall|x: u32| covered(r).contains(x) <==> covered(acks).insert(s).contains(x) by {
            if covered(r).contains(x) {
                let j = choose|j: int| 0 <= j < r.len() && #[trigger] r[j].0 <= x && x <= r[j].1;
                if j < acks.len() {
                    assert(acks[j].0 <= x && x <= acks[j].1);
                }
            }
            if covered(acks).contains(x) {
                let j = choose|j: int|
                    0 <= j < acks.len() && #[trigger] acks[j].0 <= x && x <= acks[j].1;
                assert(r[j].0 <= x && x <= r[j].1);
            }
            if x == s {
                assert(r[acks.len() as int].0 <= x && x <= r[acks.len() as int].1);
            }
        }
        assert(covered(r) =~= covered(acks).insert(s));
    } else if (acks[i as int].0 != 0 && s + 1 == acks[i as int].0) || s == acks[i as int].1 + 1 {
        let k = i as int;
        assert forall|x: u32| covered(r).contains(x) <==> covered(acks).insert(s).contains(x) by {
            if covered(r).contains(x) {
                let j = choose|j: int| 0 <= j < r.len() && #[trigger] r[j].0 <= x && x <= r[j].1;
                if j != k {
                    assert(acks[j].0 <= x && x <= acks[j].1);
                } else if x != s {
                    assert(acks[k].0 <= x && x <= acks[k].1);
                }
            }
            if covered(acks).contains(x) {
                let j = choose|j: int|
                    0 <= j < acks.len() && #[trigger] acks[j].0 <= x && x <= acks[j].1;
                assert(r[j].0 <= x && x <= r[j].1);
            }
            if x == s {
                assert(r[k].0 <= x && x <= r[k].1);
            }
        }
        assert(covered(r) =~= covered(acks).insert(s));
    } else {
        lemma_ack_scan_covers(acks, s, i + 1);
    }
}


/// The views of a map of frames.
pub open spec fn frame_map_views(m: Map<u32, FrameSetPacket>) -> Map<u32, FrameView> {
    m.map_values(|f: FrameSetPacket| f@)
}

/// `ms` filed one by one under their ordered index, each only where that index is free.
pub open spec fn or_insert_all(ordered: Map<u32, FrameView>, ms: Seq<FrameView>) -> Map<u32, FrameView>
    decreases ms.len(),
{
    if ms.len() == 0 {
        ordered
    } else {
        let prev = or_insert_all(ordered, ms.drop_last());
        if prev.contains_key(ms.last().ordered_frame_index) {
            prev
        } else {
            prev.insert(ms.last().ordered_frame_index, ms.last())
        }
    }
}

/// The frames of `m` at `from`, `from + 1`, ... up to the first missing index.
pub open spec fn ordered_run(m: Map<u32, FrameView>, from: u32) -> Seq<FrameView>
    decreases u32::MAX - from,
{
    if m.contains_key(from) && from < u32::MAX {
        seq![m[from]] + ordered_run(m, (from + 1) as u32)
    } else {
        Seq::empty()
    }
}

/// The frames of `m` by increasing key.
pub open spec fn values_by_key(m: Map<u32, FrameView>) -> Seq<FrameView> {
    sorted_keys(m.dom()).map_values(|k: u32| m[k])
}

/// What a receive queue holds.
pub struct RecvView {
    /// The lowest sequenced index still accepted.
    pub sequenced_frame_index: u32,
    /// The ordered index due next.
    pub last_ordered_index: u32,
    pub ackset: AckView,
    /// Frames to deliver as they are, by sequence number.
    pub packets: Map<u32, FrameView>,
    /// Ordered frames waiting for their turn, by ordered index.
    pub ordered: Map<u32, FrameView>,
    /// Messages being reassembled, by compound id.
    pub fragments: Map<u16, FragmentView>,
}

/// The acknowledgement state after sequence number `s` arrives.
pub open spec fn ack_after(a: AckView, s: u32) -> AckView {
    AckView {
        acks: ack_scan(a.acks, s, 0),
        nacks: nack_insert(a, s),
        last_max: if s > a.last_max {
            s
        } else {
            a.last_max
        },
    }
}

/// A receive queue with other ack state, packets, sequenced index, ordered frames and fragments.
pub open spec fn recv_with(
    v: RecvView,
    ackset: AckView,
    sequenced_frame_index: u32,
    packets: Map<u32, FrameView>,
    ordered: Map<u32, FrameView>,
    fragments: Map<u16, FragmentView>,
) -> RecvView {
    RecvView {
        sequenced_frame_index,
        last_ordered_index: v.last_ordered_index,
        ackset,
        packets,
        ordered,
        fragments,
    }
}

/// The receive queue after `frame` arrives. A sequence number already waiting is
/// ignored; any other is acknowledged, then the frame is filed by its reliability:
/// unreliable and reliable frames wait by sequence number, sequenced ones only when
/// not older than the last accepted, ordered ones (once reassembled, for fragments)
/// by ordered index unless already delivered past.
pub open spec fn recv_insert(v: RecvView, frame: FrameSetPacket) -> RecvView {
    let f = frame@;
    let s = f.sequence_number;
    if v.packets.contains_key(s) {
        v
    } else {
        let a = ack_after(v.ackset, s);
        match reliability_of(flags_code(f.flags)) {
            None => recv_with(v, a, v.sequenced_frame_index, v.packets, v.ordered, v.fragments),
            Some(Reliability::Unreliable) | Some(Reliability::Reliable) => recv_with(
                v,
                a,
                v.sequenced_frame_index,
                v.packets.insert(s, f),
                v.ordered,
                v.fragments,
            ),
            Some(Reliability::UnreliableSequenced) | Some(Reliability::ReliableSequenced) => {
                if f.sequenced_frame_index >= v.sequenced_frame_index {
                    recv_with(
                        v,
                        a,
                        (f.sequenced_frame_index + 1) as u32,
                        v.packets.insert(s, f),
                        v.ordered,
                        v.fragments,
                    )
                } else {
                    recv_with(v, a, v.sequenced_frame_index, v.packets, v.ordered, v.fragments)
                }
            },
            Some(Reliability::ReliableOrdered) => {
                if f.ordered_frame_index < v.last_ordered_index {
                    recv_with(v, a, v.sequenced_frame_index, v.packets, v.ordered, v.fragments)
                } else if flags_fragment(f.flags) {
                    let fq = v.fragments.insert(
                        frame.compound_id,
                        fragment_insert(
                            if v.fragments.contains_key(frame.compound_id) {
                                v.fragments[frame.compound_id]
                            } else {
                                fragment_for(frame)
                            },
                            frame,
                        ),
                    );
                    recv_with(
                        v,
                        a,
                        v.sequenced_frame_index,
                        v.packets,
                        or_insert_all(v.ordered, full_merges(fq, sorted_ids(fq.dom()))),
                        fq,
                    )
                } else {
                    recv_with(
                        v,
                        a,
                        v.sequenced_frame_index,
                        v.packets,
                        if v.ordered.contains_key(f.ordered_frame_index) {
                            v.ordered
                        } else {
                            v.ordered.insert(f.ordered_frame_index, f)
                        },
                        v.fragments,
                    )
                }
            },
        }
    }
}

/// Whether taking in `frame` keeps the counters of `v` within their ranges: a new
/// sequence number needs every acknowledged range to be extendable upwards, and a
/// sequenced frame that is accepted needs room for the index after its own.
pub open spec fn recv_insert_ok(v: RecvView, frame: FrameSetPacket) -> bool {
    let sequenced = match reliability_of(flags_code(frame.flags)) {
        Some(r) => is_sequenced_kind(r),
        None => false,
    };
    let accepted = sequenced && frame.sequenced_frame_index >= v.sequenced_frame_index;
    !v.packets.contains_key(frame.sequence_number) ==> acks_below_max(v.ackset) && (accepted
        ==> frame.sequenced_frame_index < u32::MAX)
}

/// Whether every ordered index from `from` on waits in `m`: delivering that run would
/// step past the largest index.
pub open spec fn run_to_max(m: Map<u32, FrameView>, from: u32) -> bool {
    forall|k: u32| from <= k ==> #[trigger] m.contains_key(k)
}

/// Incoming frames sorted for delivery.
pub struct RecvQ {
    sequenced_frame_index: u32,
    last_ordered_index: u32,
    sequence_number_ackset: ACKSet,
    packets: HashMap<u32, FrameSetPacket>,
    ordered_packets: HashMap<u32, FrameSetPacket>,
    fragment_queue: FragmentQ,
}

impl View for RecvQ {
    type V = RecvView;

    closed spec fn view(&self) -> RecvView {
        RecvView {
            sequenced_frame_index: self.sequenced_frame_index,
            last_ordered_index: self.last_ordered_index,
            ackset: self.sequence_number_ackset@,
            packets: frame_map_views(self.packets@),
            ordered: frame_map_views(self.ordered_packets@),
            fragments: self.fragment_queue@,
        }
    }
}

impl RecvQ {
    pub closed spec fn wf(&self) -> bool {
        self.sequence_number_ackset.wf()
    }

    pub fn new() -> (r: Self)
        ensures
            r.wf(),
            r@.sequenced_frame_index == 0,
            r@.last_ordered_index == 0,
            r@.ackset == (AckView { acks: Seq::empty(), nacks: Seq::empty(), last_max: 0 }),
            r@.packets == Map::<u32, FrameView>::empty(),
            r@.ordered == Map::<u32, FrameView>::empty(),
            r@.fragments == Map::<u16, FragmentView>::empty(),
    {
        let r = Self {
            sequence_number_ackset: ACKSet::new(),
            packets: HashMap::new(),
            fragment_queue: FragmentQ::new(),
            ordered_packets: HashMap::new(),
            sequenced_frame_index: 0,
            last_ordered_index: 0,
        };
        assert(r@.packets =~= Map::<u32, FrameView>::empty());
        assert(r@.ordered =~= Map::<u32, FrameView>::empty());
        r
    }

    /// Takes in one received frame; fails, after acknowledging it, when its flags
    /// name no reliability.
    pub fn insert(&mut self, frame: FrameSetPacket) -> (r: Result<(), RaknetError>)
        requires
            old(self).wf(),
            recv_insert_ok(old(self)@, frame),
        ensures
            final(self).wf(),
            final(self)@ == recv_insert(old(self)@, frame),
            r is Err <==> (!old(self)@.packets.contains_key(frame.sequence_number) && reliability_of(
                flags_code(frame.flags),
            ) is None),
            r is Err ==> r == Err::<(), RaknetError>(RaknetError::IncorrectReliability),
    {
        let ghost v0 = self@;
        let ghost fr = frame;
        if self.packets.contains_key(&frame.sequence_number) {
            return Ok(());
        }
        self.sequence_number_ackset.insert(frame.sequence_number);
        let s = frame.sequence_number;
        let rel = match frame.reliability() {
            Ok(x) => x,
            Err(e) => {
                return Err(e);
            },
        };
        match rel {
            Reliability::Unreliable | Reliability::Reliable => {
                self.packets.insert(s, frame);
                proof {
                    assert(frame_map_views(self.packets@) =~= v0.packets.insert(s, fr@));
                }
            },
            Reliability::UnreliableSequenced | Reliability::ReliableSequenced => {
                let sequenced_frame_index = frame.sequenced_frame_index;
                if sequenced_frame_index >= self.sequenced_frame_index {
                    self.packets.insert(s, frame);
                    self.sequenced_frame_index = sequenced_frame_index + 1;
                    proof {
                        assert(frame_map_views(self.packets@) =~= v0.packets.insert(s, fr@));
                    }
                }
            },
            Reliability::ReliableOrdered => {
                // A message already delivered past is not kept again.
                if frame.ordered_frame_index < self.last_ordered_index {
                    return Ok(());
                }
                if frame.is_fragment() {
                    self.fragment_queue.insert(frame);
                    let merged = self.fragment_queue.flush();
                    let ghost fq = self.fragment_queue@;
                    let ghost o0 = v0.ordered;
                    let mut i: usize = 0;
                    while i < merged.len()
                        invariant
                            i <= merged@.len(),
                            self.sequence_number_ackset.wf(),
                            self.sequence_number_ackset@ == ack_after(v0.ackset, s),
                            frame_map_views(self.packets@) == v0.packets,
                            self.sequenced_frame_index == v0.sequenced_frame_index,
                            self.last_ordered_index == v0.last_ordered_index,
                            self.fragment_queue@ == fq,
                            frame_views(merged@) == full_merges(fq, sorted_ids(fq.dom())),
                            frame_map_views(self.ordered_packets@) == or_insert_all(
                                o0,
                                frame_views(merged@).take(i as int),
                            ),
                        decreases merged@.len() - i,
                    {
                        let m = &merged[i];
                        let k = m.ordered_frame_index;
                        proof {
                            let ms = frame_views(merged@).take(i + 1);
                            assert(ms.drop_last() =~= frame_views(merged@).take(i as int));
                            assert(ms.last() == m@);
                        }
                        if !self.ordered_packets.contains_key(&k) {
                            let c = m.clone();
                            self.ordered_packets.insert(k, c);
                            proof {
                                assert(frame_map_views(self.ordered_packets@) =~= or_insert_all(
                                    o0,
                                    frame_views(merged@).take(i as int),
                                ).insert(k, m@));
                            }
                        }
                        i = i + 1;
                    }
                    proof {
                        assert(frame_views(merged@).take(i as int) =~= frame_views(merged@));
                    }
                } else {
                    let k = frame.ordered_frame_index;
                    if !self.ordered_packets.contains_key(&k) {
                        self.ordered_packets.insert(k, frame);
                        proof {
                            assert(frame_map_views(self.ordered_packets@) =~= v0.ordered.insert(
                                k,
                                fr@,
                            ));
                        }
                    }
                }
            },
        }
        Ok(())
    }

    /// Whether taking in `frame` keeps the counters within their ranges.
    pub fn insert_within_limits(&self, frame: &FrameSetPacket) -> (r: bool)
        ensures
            r == recv_insert_ok(self@, *frame),
    {
        proof {
            assert(self@.packets.dom() =~= self.packets@.dom());
        }
        if self.packets.contains_key(&frame.sequence_number) {
            return true;
        }
        if !self.sequence_number_ackset.below_max() {
            return false;
        }
        let sequenced = match frame.reliability() {
            Ok(Reliability::UnreliableSequenced) | Ok(Reliability::ReliableSequenced) => true,
            _ => false,
        };
        !(sequenced && frame.sequenced_frame_index >= self.sequenced_frame_index
            && frame.sequenced_frame_index == u32::MAX)
    }

    /// Whether the run of ordered frames due for delivery stops before `u32::MAX`.
    pub fn flush_within_limits(&self) -> (r: bool)
        ensures
            r == !run_to_max(self@.ordered, self@.last_ordered_index),
    {
        let ghost m0 = self@.ordered;
        let last = self.last_ordered_index;
        let keys = sorted_frame_keys(&self.ordered_packets);
        proof {
            assert(m0.dom() =~= self.ordered_packets@.dom());
        }
        let mut cur = last;
        let mut i: usize = 0;
        while i < keys.len()
            invariant
                i <= keys@.len(),
                crate::fragment::ascending(keys@),
                forall|y: u32| #[trigger] keys@.contains(y) <==> m0.contains_key(y),
                m0 == self@.ordered,
                last == self@.last_ordered_index,
                last <= cur,
                forall|x: u32| last <= x < cur ==> #[trigger] m0.contains_key(x),
                (forall|j: int| 0 <= j < i ==> keys@[j] < cur) || !m0.contains_key(cur),
            decreases keys@.len() - i,
        {
            let k = keys[i];
            if k == cur {
                proof {
                    assert(keys@.contains(k));
                }
                if cur == u32::MAX {
                    proof {
                        assert forall|x: u32| last <= x implies #[trigger] m0.contains_key(x) by {
                            if x < cur {
                            } else {
                                assert(x == cur);
                            }
                        }
                    }
                    return false;
                }
                cur = cur + 1;
                proof {
                    assert forall|j: int| 0 <= j < i + 1 implies keys@[j] < cur by {
                        if j < i {
                            assert(keys@[j] < keys@[i as int]);
                        }
                    }
                }
            } else {
                proof {
                    if (forall|j: int| 0 <= j < i ==> keys@[j] < cur) && m0.contains_key(cur) {
                        assert(keys@.contains(cur));
                        let j = choose|j: int| 0 <= j < keys@.len() && keys@[j] == cur;
                        if j > i {
                            assert(keys@[i as int] < keys@[j]);
                        }
                        assert(k < cur);
                    }
                }
            }
            i = i + 1;
        }
        proof {
            if m0.contains_key(cur) {
                assert(keys@.contains(cur));
                let j = choose|j: int| 0 <= j < keys@.len() && keys@[j] == cur;
                assert(keys@[j] < cur);
            }
            assert(!m0.contains_key(cur));
        }
        true
    }

    pub fn get_ack(&mut self) -> (r: Vec<(u32, u32)>)
        requires
            old(self).wf(),
        ensures
            final(self).wf(),
            r@ == old(self)@.ackset.acks,
            final(self)@.ackset == (AckView {
                acks: Seq::empty(),
                nacks: old(self)@.ackset.nacks,
                last_max: old(self)@.ackset.last_max,
            }),
            final(self)@.packets == old(self)@.packets,
            final(self)@.ordered == old(self)@.ordered,
            final(self)@.fragments == old(self)@.fragments,
            final(self)@.sequenced_frame_index == old(self)@.sequenced_frame_index,
            final(self)@.last_ordered_index == old(self)@.last_ordered_index,
    {
        self.sequence_number_ackset.get_ack()
    }

    pub fn get_nack(&mut self) -> (r: Vec<(u32, u32)>)
        requires
            old(self).wf(),
        ensures
            final(self).wf(),
            r@ == old(self)@.ackset.nacks,
            final(self)@.ackset == (AckView {
                acks: old(self)@.ackset.acks,
                nacks: Seq::empty(),
                last_max: old(self)@.ackset.last_max,
            }),
            final(self)@.packets == old(self)@.packets,
            final(self)@.ordered == old(self)@.ordered,
            final(self)@.fragments == old(self)@.fragments,
            final(self)@.sequenced_frame_index == old(self)@.sequenced_frame_index,
            final(self)@.last_ordered_index == old(self)@.last_ordered_index,
    {
        self.sequence_number_ackset.get_nack()
    }

    /// Hands out what is due: the ordered frames from the index due next on, as long
    /// as they run without a gap, then every frame waiting by sequence number, by
    /// increasing sequence number. Those are forgotten; ordered frames below the
    /// index due stay.
    pub fn flush(&mut self) -> (r: Vec<FrameSetPacket>)
        requires
            old(self).wf(),
            !run_to_max(old(self)@.ordered, old(self)@.last_ordered_index),
        ensures
            final(self).wf(),
            frame_views(r@) == ordered_run(old(self)@.ordered, old(self)@.last_ordered_index)
                + values_by_key(old(self)@.packets),
            final(self)@.last_ordered_index == old(self)@.last_ordered_index + ordered_run(
                old(self)@.ordered,
                old(self)@.last_ordered_index,
            ).len(),
            final(self)@.ordered == old(self)@.ordered.remove_keys(
                Set::new(
                    |k: u32|
                        old(self)@.last_ordered_index <= k < final(self)@.last_ordered_index,
                ),
            ),
            final(self)@.packets == Map::<u32, FrameView>::empty(),
            final(self)@.ackset == old(self)@.ackset,
            final(self)@.fragments == old(self)@.fragments,
            final(self)@.sequenced_frame_index == old(self)@.sequenced_frame_index,
    {
        let ghost v0 = self@;
        let ghost m0 = self@.ordered;
        let ghost l0 = self.last_ordered_index;
        let mut ret: Vec<FrameSetPacket> = Vec::new();
        let keys = sorted_frame_keys(&self.ordered_packets);
        proof {
            assert(m0.dom() =~= self.ordered_packets@.dom());
            assert(frame_map_views(self.ordered_packets@) =~= m0.remove_keys(
                Set::new(|k: u32| l0 <= k < l0),
            ));
            assert(frame_views(ret@) + ordered_run(m0, l0) =~= ordered_run(m0, l0));
        }
        let mut i: usize = 0;
        while i < keys.len()
            invariant
                i <= keys@.len(),
                crate::fragment::ascending(keys@),
                forall|y: u32| #[trigger] keys@.contains(y) <==> m0.contains_key(y),
                !run_to_max(m0, l0),
                forall|x: u32| l0 <= x < self.last_ordered_index ==> #[trigger] m0.contains_key(x),
                l0 <= self.last_ordered_index,
                ret@.len() == self.last_ordered_index - l0,
                frame_views(ret@) + ordered_run(m0, self.last_ordered_index) == ordered_run(m0, l0),
                frame_map_views(self.ordered_packets@) == m0.remove_keys(
                    Set::new(|k: u32| l0 <= k < self.last_ordered_index),
                ),
                (forall|j: int| 0 <= j < i ==> keys@[j] < self.last_ordered_index)
                    || !m0.contains_key(self.last_ordered_index),
                self.sequence_number_ackset.wf(),
                self.sequence_number_ackset@ == v0.ackset,
                frame_map_views(self.packets@) == v0.packets,
                self.fragment_queue@ == v0.fragments,
                self.sequenced_frame_index == v0.sequenced_frame_index,
            decreases keys@.len() - i,
        {
            let k = keys[i];
            let ghost last = self.last_ordered_index;
            if k == self.last_ordered_index {
                proof {
                    assert(keys@.contains(k));
                    if k == u32::MAX {
                        assert forall|x: u32| l0 <= x implies #[trigger] m0.contains_key(x) by {
                            if x >= k {
                                assert(x == k);
                            }
                        }
                    }
                    assert(ordered_run(m0, k) == seq![m0[k]] + ordered_run(m0, (k + 1) as u32));
                }
                let ghost cur = self.ordered_packets@;
                proof {
                    assert(frame_map_views(cur).contains_key(k));
                    assert(frame_map_views(cur)[k] == m0[k]);
                    assert(cur.contains_key(k) && cur[k]@ == m0[k]);
                }
                match self.ordered_packets.remove(&k) {
                    Some(f) => {
                        let ghost before = ret@;
                        ret.push(f);
                        proof {
                            assert(frame_views(ret@) =~= frame_views(before).push(m0[k]));
                            assert(frame_views(ret@) + ordered_run(m0, (k + 1) as u32)
                                =~= frame_views(before) + ordered_run(m0, k));
                        }
                    },
                    None => {},
                }
                self.last_ordered_index = k + 1;
                proof {
                    assert(self.ordered_packets@ == cur.remove(k));
                    assert(frame_map_views(cur) == m0.remove_keys(
                        Set::new(|x: u32| l0 <= x < last),
                    ));
                    assert(frame_map_views(self.ordered_packets@) =~= frame_map_views(cur).remove(
                        k,
                    ));
                    assert(frame_map_views(self.ordered_packets@) =~= m0.remove_keys(
                        Set::new(|x: u32| l0 <= x < self.last_ordered_index),
                    ));
                    assert forall|j: int| 0 <= j < i + 1 implies keys@[j]
                        < self.last_ordered_index by {
                        if j < i {
                            assert(keys@[j] < keys@[i as int]);
                        }
                    }
                }
            } else {
                proof {
                    if (forall|j: int| 0 <= j < i ==> keys@[j] < last) && m0.contains_key(last) {
                        assert(keys@.contains(last));
                        let j = choose|j: int| 0 <= j < keys@.len() && keys@[j] == last;
                        if j > i {
                            assert(keys@[i as int] < keys@[j]);
                        }
                        assert(k < last);
                    }
                }
            }
            i = i + 1;
        }
        proof {
            if m0.contains_key(self.last_ordered_index) {
                assert(keys@.contains(self.last_ordered_index));
            }
            assert(ordered_run(m0, self.last_ordered_index) =~= Seq::<FrameView>::empty());
            assert(frame_views(ret@) =~= ordered_run(m0, l0));
        }
        let ghost run = frame_views(ret@);
        let ghost p0 = v0.packets;
        let pk = sorted_frame_keys(&self.packets);
        proof {
            assert(p0.dom() =~= self.packets@.dom());
        }
        let mut j: usize = 0;
        while j < pk.len()
            invariant
                j <= pk@.len(),
                pk@ == sorted_keys(p0.dom()),
                forall|y: u32| #[trigger] pk@.contains(y) <==> p0.contains_key(y),
                frame_map_views(self.packets@) == p0,
                frame_views(ret@) == run + pk@.take(j as int).map_values(|k: u32| p0[k]),
            decreases pk@.len() - j,
        {
            let k = pk[j];
            proof {
                assert(pk@.contains(k));
            }
            match self.packets.get(&k) {
                Some(f) => {
                    let c = f.clone();
                    let ghost before = ret@;
                    ret.push(c);
                    proof {
                        assert(frame_views(ret@) =~= frame_views(before).push(p0[k]));
                        assert(pk@.take(j + 1).map_values(|x: u32| p0[x]) =~= pk@.take(
                            j as int,
                        ).map_values(|x: u32| p0[x]).push(p0[k]));
                    }
                },
                None => {},
            }
            j = j + 1;
        }
        proof {
            assert(pk@.take(j as int) =~= pk@);
        }
        self.packets.clear();
        proof {
            assert(frame_map_views(self.packets@) =~= Map::<u32, FrameView>::empty());
        }
        ret
    }

    /// How many ordered frames wait for their turn.
    pub fn get_ordered_packet(&self) -> (r: usize)
        ensures
            r == self@.ordered.len(),
    {
        proof {
            assert(self@.ordered.dom() =~= self.ordered_packets@.dom());
        }
        self.ordered_packets.len()
    }

    /// How many messages are being reassembled.
    pub fn get_fragment_queue_size(&self) -> (r: usize)
        ensures
            r == self@.fragments.len(),
    {
        self.fragment_queue.size()
    }

    /// The ordered indices waiting, each once, in no particular order.
    pub fn get_ordered_keys(&self) -> (r: Vec<u32>)
        ensures
            r@.no_duplicates(),
            forall|k: u32| #[trigger] r@.contains(k) <==> self@.ordered.contains_key(k),
    {
        frame_keys(&self.ordered_packets)
    }

    /// How many frames wait for delivery by sequence number.
    pub fn get_size(&self) -> (r: usize)
        ensures
            r == self@.packets.len(),
    {
        proof {
            assert(self@.packets.dom() =~= self.packets@.dom());
        }
        self.packets.len()
    }
}


/// Law: the ordered frames a flush delivers carry the indices due, one after
/// another from `from`, and stop at the first index missing.
pub proof fn lemma_ordered_run_in_order(m: Map<u32, FrameView>, from: u32)
    ensures
        ({
            let run = ordered_run(m, from);
            &&& from + run.len() <= u32::MAX
            &&& forall|i: int|
                0 <= i < run.len() ==> m.get((from + i) as u32) == Some(#[trigger] run[i])
            &&& !(m.contains_key((from + run.len()) as u32) && from + run.len() < u32::MAX)
        }),
    decreases u32::MAX - from,
{
    let run = ordered_run(m, from);
    if m.contains_key(from) && from < u32::MAX {
        let next = (from + 1) as u32;
        lemma_ordered_run_in_order(m, next);
        let rest = ordered_run(m, next);
        assert(run == seq![m[from]] + rest);
        assert forall|i: int|
            0 <= i < run.len() implies m.get((from + i) as u32) == Some(#[trigger] run[i]) by {
            if i > 0 {
                assert(run[i] == rest[i - 1]);
                assert((next + (i - 1)) as u32 == (from + i) as u32);
            } else {
                assert((from + i) as u32 == from);
            }
        }
    }
}

/// Law: a frame whose sequence number is already waiting changes nothing.
pub proof fn lemma_duplicate_ignored(v: RecvView, frame: FrameSetPacket)
    requires
        v.packets.contains_key(frame.sequence_number),
    ensures
        recv_insert(v, frame) == v,
{
}

/// Law: a new sequenced frame (unreliable-sequenced or reliable-sequenced) whose
/// sequenced index is at least the one the queue expects is kept for delivery under
/// its sequence number, and the queue then expects the index after its own; one
/// with a lower index is dropped. So a fresh queue keeps a sequenced frame of index
/// 0, and frames with indices 0, 1, 2, ... arriving in order are all kept.
pub proof fn lemma_newer_sequenced_kept(v: RecvView, frame: FrameSetPacket)
    requires
        !v.packets.contains_key(frame.sequence_number),
        reliability_of(flags_code(frame.flags)) == Some(Reliability::UnreliableSequenced)
            || reliability_of(flags_code(frame.flags)) == Some(Reliability::ReliableSequenced),
        frame.sequenced_frame_index < u32::MAX,
    ensures
        frame.sequenced_frame_index >= v.sequenced_frame_index ==> {
            &&& recv_insert(v, frame).packets.contains_key(frame.sequence_number)
            &&& recv_insert(v, frame).packets[frame.sequence_number] == frame@
            &&& recv_insert(v, frame).packets.remove(frame.sequence_number) == v.packets
            &&& recv_insert(v, frame).sequenced_frame_index == frame.sequenced_frame_index + 1
        },
        frame.sequenced_frame_index < v.sequenced_frame_index ==> {
            &&& recv_insert(v, frame).packets == v.packets
            &&& recv_insert(v, frame).sequenced_frame_index == v.sequenced_frame_index
        },
{
    if frame.sequenced_frame_index >= v.sequenced_frame_index {
        assert(v.packets.insert(frame.sequence_number, frame@).remove(frame.sequence_number)
            =~= v.packets);
    }
}

/// Law: a new reliable-ordered frame whose ordered index was already delivered past
/// is only acknowledged: nothing else in the receive queue changes, so it is never
/// delivered again.
pub proof fn lemma_stale_ordered_ignored(v: RecvView, frame: FrameSetPacket)
    requires
        !v.packets.contains_key(frame.sequence_number),
        reliability_of(flags_code(frame.flags)) == Some(Reliability::ReliableOrdered),
        frame.ordered_frame_index < v.last_ordered_index,
    ensures
        recv_insert(v, frame) == (RecvView {
            ackset: ack_after(v.ackset, frame.sequence_number),
            ..v
        }),
{
}

/// The acknowledgement state after the sequence numbers `xs` arrive, in order.
pub open spec fn ack_history(a: AckView, xs: Seq<u32>) -> AckView
    decreases xs.len(),
{
    if xs.len() == 0 {
        a
    } else {
        ack_after(ack_history(a, xs.drop_last()), xs.last())
    }
}

/// The largest of 0 and the numbers `xs`.
pub open spec fn max_of(xs: Seq<u32>) -> u32
    decreases xs.len(),
{
    if xs.len() == 0 {
        0
    } else {
        let m = max_of(xs.drop_last());
        if xs.last() > m {
            xs.last()
        } else {
            m
        }
    }
}

/// Law: after the numbers `xs` have arrived at a fresh acknowledgement set, the next
/// number `s` reports as missing exactly the gap between the largest number seen so
/// far, `m`, and `s`: the range `(m + 1, s - 1)` when `s` lies more than one above
/// `m`, and nothing otherwise.
pub proof fn lemma_ack_reports_gap(xs: Seq<u32>, s: u32)
    ensures
        ack_history(AckView { acks: Seq::empty(), nacks: Seq::empty(), last_max: 0 }, xs).last_max
            == max_of(xs),
        ({
            let a = ack_history(
                AckView { acks: Seq::empty(), nacks: Seq::empty(), last_max: 0 },
                xs,
            );
            let m = max_of(xs);
            &&& s != 0 && s > m + 1 ==> ack_after(a, s).nacks == a.nacks.push(
                ((m + 1) as u32, (s - 1) as u32),
            )
            &&& !(s != 0 && s > m + 1) ==> ack_after(a, s).nacks == a.nacks
        }),
    decreases xs.len(),
{
    if xs.len() > 0 {
        lemma_ack_reports_gap(xs.drop_last(), xs.last());
    }
}

/// Law: a reliable-ordered frame that is whole, new and not yet delivered past
/// waits under its ordered index until its turn.
pub proof fn lemma_ordered_frame_waits(v: RecvView, frame: FrameSetPacket)
    requires
        !v.packets.contains_key(frame.sequence_number),
        reliability_of(flags_code(frame.flags)) == Some(Reliability::ReliableOrdered),
        !flags_fragment(frame.flags),
        frame.ordered_frame_index >= v.last_ordered_index,
        !v.ordered.contains_key(frame.ordered_frame_index),
    ensures
        recv_insert(v, frame).ordered == v.ordered.insert(frame.ordered_frame_index, frame@),
        recv_insert(v, frame).packets == v.packets,
{
}

} // verus!
