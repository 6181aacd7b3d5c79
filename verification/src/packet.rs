//! RakNet messages: their identifiers and their byte layouts.
use vstd::prelude::*;
use vstd::string::StringSliceAdditionalSpecFns;
use vstd::slice::{slice_subrange, slice_to_vec};
use vstd::utf8::{valid_utf8, decode_utf8, encode_utf8};
use crate::codec::{
    be_bytes, be_value, le_bytes, le_value, to_signed, to_unsigned, pow256, lemma_pow256_values, lemma_roundtrip,
    lemma_signed_roundtrip, lemma_be_value_two, group_encoding_len,
};
use crate::datatype::{
    Address, RaknetReader, RaknetWriter, magic_bytes, address_bytes, address_readable,
    address_read_len, address_read_value, string_payload, string_from_utf8,
};
use crate::error::RaknetError;
use crate::utils::Endian;

verus! {

broadcast use group_encoding_len;

/// The first byte of every RakNet datagram names its kind.
#[derive(Clone, Copy, Debug, PartialEq, Eq, Structural)]
pub enum PacketID {
    ConnectedPing,
    UnconnectedPing1,
    UnconnectedPing2,
    ConnectedPong,
    UnconnectedPong,
    OpenConnectionRequest1,
    OpenConnectionReply1,
    OpenConnectionRequest2,
    OpenConnectionReply2,
    ConnectionRequest,
    ConnectionRequestAccepted,
    AlreadyConnected,
    NewIncomingConnection,
    Disconnect,
    IncompatibleProtocolVersion,
    FrameSetPacketBegin,
    FrameSetPacketEnd,
    Nack,
    Ack,
    Game,
}

/// The byte that stands for each message kind.
pub open spec fn packet_id_byte(p: PacketID) -> u8 {
    match p {
        PacketID::ConnectedPing => 0x00,
        PacketID::UnconnectedPing1 => 0x01,
        PacketID::UnconnectedPing2 => 0x02,
        PacketID::ConnectedPong => 0x03,
        PacketID::UnconnectedPong => 0x1c,
        PacketID::OpenConnectionRequest1 => 0x05,
        PacketID::OpenConnectionReply1 => 0x06,
        PacketID::OpenConnectionRequest2 => 0x07,
        PacketID::OpenConnectionReply2 => 0x08,
        PacketID::ConnectionRequest => 0x09,
        PacketID::ConnectionRequestAccepted => 0x10,
        PacketID::AlreadyConnected => 0x12,
        PacketID::NewIncomingConnection => 0x13,
        PacketID::Disconnect => 0x15,
        PacketID::IncompatibleProtocolVersion => 0x19,
        PacketID::FrameSetPacketBegin => 0x80,
        PacketID::FrameSetPacketEnd => 0x8d,
        PacketID::Nack => 0xa0,
        PacketID::Ack => 0xc0,
        PacketID::Game => 0xfe,
    }
}

/// The message kind a leading byte announces; every byte from 0x80 to 0x8d starts a frame set.
pub open spec fn packet_id_of(b: u8) -> Option<PacketID> {
    if 0x80 <= b <= 0x8d {
        Some(PacketID::FrameSetPacketBegin)
    } else if b == 0x00 {
        Some(PacketID::ConnectedPing)
    } else if b == 0x01 {
        Some(PacketID::UnconnectedPing1)
    } else if b == 0x02 {
        Some(PacketID::UnconnectedPing2)
    } else if b == 0x03 {
        Some(PacketID::ConnectedPong)
    } else if b == 0x1c {
        Some(PacketID::UnconnectedPong)
    } else if b == 0x05 {
        Some(PacketID::OpenConnectionRequest1)
    } else if b == 0x06 {
        Some(PacketID::OpenConnectionReply1)
    } else if b == 0x07 {
        Some(PacketID::OpenConnectionRequest2)
    } else if b == 0x08 {
        Some(PacketID::OpenConnectionReply2)
    } else if b == 0x09 {
        Some(PacketID::ConnectionRequest)
    } else if b == 0x10 {
        Some(PacketID::ConnectionRequestAccepted)
    } else if b == 0x12 {
        Some(PacketID::AlreadyConnected)
    } else if b == 0x13 {
        Some(PacketID::NewIncomingConnection)
    } else if b == 0x15 {
        Some(PacketID::Disconnect)
    } else if b == 0x19 {
        Some(PacketID::IncompatibleProtocolVersion)
    } else if b == 0xa0 {
        Some(PacketID::Nack)
    } else if b == 0xc0 {
        Some(PacketID::Ack)
    } else if b == 0xfe {
        Some(PacketID::Game)
    } else {
        None
    }
}

impl PacketID {
    pub fn to_u8(self) -> (r: u8)
        ensures
            r == packet_id_byte(self),
    {
        match self {
            PacketID::ConnectedPing => 0x00,
            PacketID::UnconnectedPing1 => 0x01,
            PacketID::UnconnectedPing2 => 0x02,
            PacketID::ConnectedPong => 0x03,
            PacketID::UnconnectedPong => 0x1c,
            PacketID::OpenConnectionRequest1 => 0x05,
            PacketID::OpenConnectionReply1 => 0x06,
            PacketID::OpenConnectionRequest2 => 0x07,
            PacketID::OpenConnectionReply2 => 0x08,
            PacketID::ConnectionRequest => 0x09,
            PacketID::ConnectionRequestAccepted => 0x10,
            PacketID::AlreadyConnected => 0x12,
            PacketID::NewIncomingConnection => 0x13,
            PacketID::Disconnect => 0x15,
            PacketID::IncompatibleProtocolVersion => 0x19,
            PacketID::FrameSetPacketBegin => 0x80,
            PacketID::FrameSetPacketEnd => 0x8d,
            PacketID::Nack => 0xa0,
            PacketID::Ack => 0xc0,
            PacketID::Game => 0xfe,
        }
    }

    pub fn from(id: u8) -> (r: Result<Self, RaknetError>)
        ensures
            r == (match packet_id_of(id) {
                Some(p) => Ok::<PacketID, RaknetError>(p),
                None => Err(RaknetError::IncorrectPacketID),
            }),
    {
        if 0x80 <= id && id <= 0x8d {
            return Ok(PacketID::FrameSetPacketBegin);
        }
        match id {
            0x00 => Ok(PacketID::ConnectedPing),
            0x01 => Ok(PacketID::UnconnectedPing1),
            0x02 => Ok(PacketID::UnconnectedPing2),
            0x03 => Ok(PacketID::ConnectedPong),
            0x1c => Ok(PacketID::UnconnectedPong),
            0x05 => Ok(PacketID::OpenConnectionRequest1),
            0x06 => Ok(PacketID::OpenConnectionReply1),
            0x07 => Ok(PacketID::OpenConnectionRequest2),
            0x08 => Ok(PacketID::OpenConnectionReply2),
            0x09 => Ok(PacketID::ConnectionRequest),
            0x10 => Ok(PacketID::ConnectionRequestAccepted),
            0x12 => Ok(PacketID::AlreadyConnected),
            0x13 => Ok(PacketID::NewIncomingConnection),
            0x15 => Ok(PacketID::Disconnect),
            0x19 => Ok(PacketID::IncompatibleProtocolVersion),
            0xa0 => Ok(PacketID::Nack),
            0xc0 => Ok(PacketID::Ack),
            0xfe => Ok(PacketID::Game),
            _ => Err(RaknetError::IncorrectPacketID),
        }
    }
}

/// Law: the identifier byte of every message kind reads back as that kind, except
/// `FrameSetPacketEnd`, whose byte lies in the frame-set range and reads back as
/// `FrameSetPacketBegin`.
pub proof fn lemma_packet_id_roundtrip(p: PacketID)
    ensures
        p != PacketID::FrameSetPacketEnd ==> packet_id_of(packet_id_byte(p)) == Some(p),
        p == PacketID::FrameSetPacketEnd ==> packet_id_of(packet_id_byte(p)) == Some(
            PacketID::FrameSetPacketBegin,
        ),
{
}

/// Law: every byte that names a message kind is that kind's identifier byte,
/// or lies in the frame-set range 0x80..=0x8d.
pub proof fn lemma_packet_id_byte(b: u8)
    ensures
        packet_id_of(b) matches Some(p) ==> (packet_id_byte(p) == b || (0x80 <= b <= 0x8d)),
{
}

/// The big-endian number in `b[off..off + n]`.
pub open spec fn be_at(b: Seq<u8>, off: int, n: int) -> nat {
    be_value(b.subrange(off, off + n))
}

/// The big-endian two's complement `i64` in `b[off..off + 8]`.
pub open spec fn i64_at(b: Seq<u8>, off: int) -> int {
    to_signed(be_at(b, off, 8), 8)
}

/// Whether `b[off..off + 16]` is the offline-message marker.
pub open spec fn magic_at(b: Seq<u8>, off: int) -> bool {
    b.subrange(off, off + 16) == magic_bytes()
}

/// The eight big-endian bytes of an `i64`.
pub open spec fn i64_bytes(v: i64) -> Seq<u8> {
    be_bytes(to_unsigned(v as int, 8), 8)
}

#[derive(Clone)]
pub struct ConnectedPing {
    pub client_timestamp: i64,
}

#[derive(Clone)]
pub struct PacketUnconnectedPing {
    pub time: i64,
    pub magic: bool,
    pub guid: u64,
}

#[derive(Clone)]
pub struct PacketUnconnectedPong {
    pub time: i64,
    pub guid: u64,
    pub magic: bool,
    pub motd: String,
}

#[derive(Clone)]
pub struct ConnectedPong {
    pub client_timestamp: i64,
    pub server_timestamp: i64,
}

#[derive(Clone)]
pub struct OpenConnectionRequest1 {
    pub magic: bool,
    pub protocol_version: u8,
    pub mtu_size: u16,
}

#[derive(Clone)]
pub struct OpenConnectionRequest2 {
    pub magic: bool,
    pub address: Address,
    pub mtu: u16,
    pub guid: u64,
}

#[derive(Clone)]
pub struct OpenConnectionReply1 {
    pub magic: bool,
    pub guid: u64,
    pub use_encryption: u8,
    pub mtu_size: u16,
}

#[derive(Clone)]
pub struct OpenConnectionReply2 {
    pub magic: bool,
    pub guid: u64,
    pub address: Address,
    pub mtu: u16,
    pub encryption_enabled: u8,
}

#[derive(Clone)]
pub struct ConnectionRequest {
    pub guid: u64,
    pub time: i64,
    pub use_encryption: u8,
}

#[derive(Clone)]
pub struct ConnectionRequestAccepted {
    pub client_address: Address,
    pub system_index: u16,
    pub request_timestamp: i64,
    pub accepted_timestamp: i64,
}

#[derive(Clone)]
pub struct NewIncomingConnection {
    pub server_address: Address,
    pub request_timestamp: i64,
    pub accepted_timestamp: i64,
}

#[derive(Clone)]
pub struct IncompatibleProtocolVersion {
    pub server_protocol: u8,
    pub magic: bool,
    pub server_guid: u64,
}

#[derive(Clone)]
pub struct AlreadyConnected {
    pub magic: bool,
    pub guid: u64,
}

#[derive(Clone)]
pub struct Nack {
    pub record_count: u16,
    pub sequences: Vec<(u32, u32)>,
}

#[derive(Clone)]
pub struct Ack {
    pub record_count: u16,
    pub sequences: Vec<(u32, u32)>,
}

/// The error every short read reports.
pub open spec fn short<T>() -> Result<T, RaknetError> {
    Err(RaknetError::ReadPacketBufferError)
}

// ---------------------------------------------------------------- unconnected ping

/// An unconnected ping: id, time, marker, client GUID.
pub open spec fn ping_bytes(p: PacketUnconnectedPing) -> Seq<u8> {
    seq![0x01u8] + i64_bytes(p.time) + magic_bytes() + be_bytes(p.guid as nat, 8)
}

/// What reading an unconnected ping from `b` yields, when `b` is long enough.
pub open spec fn ping_of(b: Seq<u8>) -> Option<PacketUnconnectedPing> {
    if b.len() < 33 {
        None
    } else {
        Some(
            PacketUnconnectedPing {
                time: i64_at(b, 1) as i64,
                magic: magic_at(b, 9),
                guid: be_at(b, 25, 8) as u64,
            },
        )
    }
}

pub fn read_packet_ping(buf: &[u8]) -> (r: Result<PacketUnconnectedPing, RaknetError>)
    requires
        buf@.len() >= 1,
    ensures
        r == (match ping_of(buf@) {
            Some(p) => Ok(p),
            None => short(),
        }),
{
    let mut cursor = RaknetReader::new(slice_to_vec(buf));
    cursor.read_u8()?;
    assert(cursor.rest() =~= buf@.skip(1));
    let time = cursor.read_i64(Endian::Big)?;
    assert(cursor.rest() =~= buf@.skip(9));
    let magic = cursor.read_magic()?;
    assert(cursor.rest() =~= buf@.skip(25));
    let guid = cursor.read_u64(Endian::Big)?;
    proof {
        lemma_pow256_values();
        crate::codec::lemma_be_value_bound(buf@.subrange(25, 33));
        assert(buf@.skip(1).take(8) =~= buf@.subrange(1, 9));
        assert(buf@.skip(9).take(16) =~= buf@.subrange(9, 25));
        assert(buf@.skip(25).take(8) =~= buf@.subrange(25, 33));
    }
    Ok(PacketUnconnectedPing { time, magic, guid })
}

pub fn write_packet_ping(packet: &PacketUnconnectedPing) -> (r: Result<Vec<u8>, RaknetError>)
    ensures
        r matches Ok(v) && v@ == ping_bytes(*packet),
{
    let mut cursor = RaknetWriter::new();
    cursor.write_u8(PacketID::UnconnectedPing1.to_u8())?;
    cursor.write_i64(packet.time, Endian::Big)?;
    cursor.write_magic()?;
    cursor.write_u64(packet.guid, Endian::Big)?;
    assert(cursor@ =~= ping_bytes(*packet));
    Ok(cursor.get_raw_payload())
}

/// Law: an unconnected ping that carries the marker reads back as written.
pub proof fn lemma_ping_roundtrip(p: PacketUnconnectedPing)
    requires
        p.magic,
    ensures
        ping_of(ping_bytes(p)) == Some(p),
{
    let b = ping_bytes(p);
    lemma_pow256_values();
    lemma_signed_roundtrip(p.time as int, 8);
    lemma_roundtrip(to_unsigned(p.time as int, 8), 8);
    lemma_roundtrip(p.guid as nat, 8);
    assert(b.subrange(1, 9) =~= i64_bytes(p.time));
    assert(b.subrange(9, 25) =~= magic_bytes());
    assert(b.subrange(25, 33) =~= be_bytes(p.guid as nat, 8));
}


// ---------------------------------------------------------------- unconnected pong

/// An unconnected pong: id, time, server GUID, marker, length-prefixed motd.
pub open spec fn pong_bytes(time: i64, guid: u64, motd: Seq<u8>) -> Seq<u8> {
    seq![0x1cu8] + i64_bytes(time) + be_bytes(guid as nat, 8) + magic_bytes() + be_bytes(
        motd.len() % 0x1_0000,
        2,
    ) + motd
}

/// Reading a pong from `b` does not stop on a motd that is not UTF-8.
pub open spec fn pong_readable(b: Seq<u8>) -> bool {
    b.len() >= 33 ==> (string_payload(b.skip(33)) matches Some(m) ==> valid_utf8(m))
}

/// Whether `pong_readable` holds of `buf`: a motd that is present is valid UTF-8.
pub fn pong_is_readable(buf: &[u8]) -> (r: bool)
    ensures
        r == pong_readable(buf@),
{
    let len = buf.len();
    if len < 35 {
        return true;
    }
    let n: usize = buf[33] as usize * 256 + buf[34] as usize;
    let ghost t = buf@.skip(33);
    proof {
        assert(t.take(2) =~= buf@.subrange(33, 35));
        lemma_be_value_two(buf@.subrange(33, 35));
    }
    if len - 35 < n {
        return true;
    }
    let motd = slice_to_vec(slice_subrange(buf, 35, 35 + n));
    assert(motd@ =~= t.subrange(2, 2 + n as int));
    string_from_utf8(motd).is_some()
}

/// What reading an unconnected pong from `b` yields: time, GUID, marker flag and motd.
pub open spec fn pong_of(b: Seq<u8>) -> Option<(i64, u64, bool, Seq<char>)> {
    if b.len() < 33 {
        None
    } else {
        match string_payload(b.skip(33)) {
            Some(m) => Some((i64_at(b, 1) as i64, be_at(b, 9, 8) as u64, magic_at(b, 17), decode_utf8(m))),
            None => None,
        }
    }
}

pub fn read_packet_pong(buf: &[u8]) -> (r: Result<PacketUnconnectedPong, RaknetError>)
    requires
        buf@.len() >= 1,
        pong_readable(buf@),
    ensures
        pong_of(buf@) is None ==> r == short::<PacketUnconnectedPong>(),
        pong_of(buf@) matches Some(f) ==> (r matches Ok(p) && p.time == f.0 && p.guid == f.1
            && p.magic == f.2 && p.motd@ == f.3),
{
    let mut cursor = RaknetReader::new(slice_to_vec(buf));
    cursor.read_u8()?;
    assert(cursor.rest() =~= buf@.skip(1));
    let time = cursor.read_i64(Endian::Big)?;
    assert(cursor.rest() =~= buf@.skip(9));
    let guid = cursor.read_u64(Endian::Big)?;
    assert(cursor.rest() =~= buf@.skip(17));
    let magic = cursor.read_magic()?;
    assert(cursor.rest() =~= buf@.skip(33));
    let motd = cursor.read_string()?;
    proof {
        lemma_pow256_values();
        crate::codec::lemma_be_value_bound(buf@.subrange(9, 17));
        assert(buf@.skip(1).take(8) =~= buf@.subrange(1, 9));
        assert(buf@.skip(9).take(8) =~= buf@.subrange(9, 17));
        assert(buf@.skip(17).take(16) =~= buf@.subrange(17, 33));
    }
    Ok(PacketUnconnectedPong { time, guid, magic, motd })
}

pub fn write_packet_pong(packet: &PacketUnconnectedPong) -> (r: Result<Vec<u8>, RaknetError>)
    requires
        encode_utf8(packet.motd@).len() + 64 <= isize::MAX,
    ensures
        r matches Ok(v) && v@ == pong_bytes(packet.time, packet.guid, encode_utf8(packet.motd@)),
{
    let mut cursor = RaknetWriter::new();
    cursor.write_u8(PacketID::UnconnectedPong.to_u8())?;
    cursor.write_i64(packet.time, Endian::Big)?;
    cursor.write_u64(packet.guid, Endian::Big)?;
    cursor.write_magic()?;
    cursor.write_string(packet.motd.as_str())?;
    assert(cursor@ =~= pong_bytes(packet.time, packet.guid, encode_utf8(packet.motd@)));
    Ok(cursor.get_raw_payload())
}


/// Law: an unconnected pong whose motd is shorter than 2^16 UTF-8 bytes reads back
/// as written, with the marker set.
pub proof fn lemma_pong_roundtrip(time: i64, guid: u64, motd: Seq<char>)
    requires
        encode_utf8(motd).len() < 0x1_0000,
    ensures
        pong_readable(pong_bytes(time, guid, encode_utf8(motd))),
        pong_of(pong_bytes(time, guid, encode_utf8(motd))) == Some((time, guid, true, motd)),
{
    let m = encode_utf8(motd);
    let b = pong_bytes(time, guid, m);
    lemma_pow256_values();
    lemma_signed_roundtrip(time as int, 8);
    lemma_roundtrip(to_unsigned(time as int, 8), 8);
    lemma_roundtrip(guid as nat, 8);
    lemma_roundtrip(m.len(), 2);
    vstd::utf8::encode_utf8_decode_utf8(motd);
    vstd::utf8::encode_utf8_valid_utf8(motd);
    assert(b.subrange(1, 9) =~= i64_bytes(time));
    assert(b.subrange(9, 17) =~= be_bytes(guid as nat, 8));
    assert(b.subrange(17, 33) =~= magic_bytes());
    assert(b.skip(33).take(2) =~= be_bytes(m.len(), 2));
    assert(b.skip(33).subrange(2, 2 + m.len() as int) =~= m);
}

// ---------------------------------------------------------------- open connection request 1

/// Open connection request 1: id, marker, protocol version, and zero padding that
/// brings the UDP payload to `mtu_size - 28` bytes.
pub open spec fn request_1_bytes(p: OpenConnectionRequest1) -> Seq<u8> {
    seq![0x05u8] + magic_bytes() + seq![p.protocol_version] + Seq::new(
        (p.mtu_size - 46) as nat,
        |i: int| 0u8,
    )
}

/// Reading request 1 from `b` neither runs out at the version byte nor computes an
/// MTU above `u16::MAX`.
pub open spec fn request_1_readable(b: Seq<u8>) -> bool {
    &&& b.len() >= 1
    &&& b.len() != 17
    &&& b.len() >= 18 ==> b.len() + 28 <= u16::MAX
}

pub open spec fn request_1_of(b: Seq<u8>) -> Option<OpenConnectionRequest1> {
    if b.len() < 17 {
        None
    } else {
        Some(
            OpenConnectionRequest1 {
                magic: magic_at(b, 1),
                protocol_version: b[17],
                mtu_size: (b.len() + 28) as u16,
            },
        )
    }
}

pub fn read_packet_connection_open_request_1(buf: &[u8]) -> (r: Result<
    OpenConnectionRequest1,
    RaknetError,
>)
    requires
        request_1_readable(buf@),
    ensures
        r == (match request_1_of(buf@) {
            Some(p) => Ok(p),
            None => short(),
        }),
{
    let mut cursor = RaknetReader::new(slice_to_vec(buf));
    cursor.read_u8()?;
    assert(cursor.rest() =~= buf@.skip(1));
    let magic = cursor.read_magic()?;
    assert(cursor.rest() =~= buf@.skip(17));
    let protocol_version = cursor.read_u8()?;
    assert(buf@.skip(1).take(16) =~= buf@.subrange(1, 17));
    let mtu_size = (buf.len() + 28) as u16;
    Ok(OpenConnectionRequest1 { magic, protocol_version, mtu_size })
}

pub fn write_packet_connection_open_request_1(packet: &OpenConnectionRequest1) -> (r: Result<
    Vec<u8>,
    RaknetError,
>)
    requires
        packet.mtu_size >= 46,
    ensures
        r matches Ok(v) && v@ == request_1_bytes(*packet),
{
    let mut cursor = RaknetWriter::new();
    cursor.write_u8(PacketID::OpenConnectionRequest1.to_u8())?;
    cursor.write_magic()?;
    cursor.write_u8(packet.protocol_version)?;
    let n = (packet.mtu_size as usize) - 46;
    let mut padding: Vec<u8> = Vec::new();
    let mut i: usize = 0;
    while i < n
        invariant
            i <= n,
            n == packet.mtu_size - 46,
            padding@ =~= Seq::new(i as nat, |j: int| 0u8),
        decreases n - i,
    {
        padding.push(0);
        i = i + 1;
    }
    cursor.write(padding.as_slice())?;
    assert(cursor@ =~= request_1_bytes(*packet));
    Ok(cursor.get_raw_payload())
}

/// Law: a request 1 that carries the marker reads back as written: the MTU is
/// recovered from the length of the padded payload.
pub proof fn lemma_request_1_roundtrip(p: OpenConnectionRequest1)
    requires
        p.magic,
        p.mtu_size >= 46,
    ensures
        request_1_readable(request_1_bytes(p)),
        request_1_of(request_1_bytes(p)) == Some(p),
{
    let b = request_1_bytes(p);
    assert(b.subrange(1, 17) =~= magic_bytes());
    assert(b.len() + 28 == p.mtu_size);
}

// ---------------------------------------------------------------- open connection request 2

/// Open connection request 2: id, marker, server address, MTU, client GUID.
pub open spec fn request_2_bytes(p: OpenConnectionRequest2) -> Seq<u8> {
    seq![0x07u8] + magic_bytes() + address_bytes(p.address) + be_bytes(p.mtu as nat, 2) + be_bytes(
        p.guid as nat,
        8,
    )
}

/// Reading request 2 from `b` does not run out at the address tag.
pub open spec fn request_2_readable(b: Seq<u8>) -> bool {
    b.len() >= 1 && b.len() != 17
}

/// Whether reading request 2 from `b` succeeds.
pub open spec fn request_2_ok(b: Seq<u8>) -> bool {
    &&& b.len() > 17
    &&& address_readable(b.skip(17))
    &&& b.len() >= 17 + address_read_len(b.skip(17)) + 10
}

/// Whether `p` is what reading request 2 from `b` yields.
pub open spec fn request_2_is(b: Seq<u8>, p: OpenConnectionRequest2) -> bool {
    let k: int = 17 + address_read_len(b.skip(17)) as int;
    &&& p.magic == magic_at(b, 1)
    &&& address_read_value(b.skip(17), p.address)
    &&& p.mtu as nat == be_at(b, k, 2)
    &&& p.guid as nat == be_at(b, k + 2, 8)
}

pub fn read_packet_connection_open_request_2(buf: &[u8]) -> (r: Result<
    OpenConnectionRequest2,
    RaknetError,
>)
    requires
        request_2_readable(buf@),
    ensures
        !request_2_ok(buf@) ==> r == short::<OpenConnectionRequest2>(),
        request_2_ok(buf@) ==> (r matches Ok(p) && request_2_is(buf@, p)),
{
    let mut cursor = RaknetReader::new(slice_to_vec(buf));
    cursor.read_u8()?;
    assert(cursor.rest() =~= buf@.skip(1));
    let magic = cursor.read_magic()?;
    assert(cursor.rest() =~= buf@.skip(17));
    let address = cursor.read_address()?;
    let ghost k: int = 17 + address_read_len(buf@.skip(17)) as int;
    assert(cursor.rest() =~= buf@.skip(k));
    let mtu = cursor.read_u16(Endian::Big)?;
    assert(cursor.rest() =~= buf@.skip(k + 2));
    let guid = cursor.read_u64(Endian::Big)?;
    proof {
        lemma_pow256_values();
        crate::codec::lemma_be_value_bound(buf@.subrange(k + 2, k + 10));
        assert(buf@.skip(1).take(16) =~= buf@.subrange(1, 17));
        assert(buf@.skip(k).take(2) =~= buf@.subrange(k, k + 2));
        assert(buf@.skip(k + 2).take(8) =~= buf@.subrange(k + 2, k + 10));
    }
    Ok(OpenConnectionRequest2 { magic, address, mtu, guid })
}

pub fn write_packet_connection_open_request_2(packet: &OpenConnectionRequest2) -> (r: Result<
    Vec<u8>,
    RaknetError,
>)
    ensures
        r matches Ok(v) && v@ == request_2_bytes(*packet),
{
    let mut cursor = RaknetWriter::new();
    cursor.write_u8(PacketID::OpenConnectionRequest2.to_u8())?;
    cursor.write_magic()?;
    cursor.write_address(packet.address)?;
    cursor.write_u16(packet.mtu, Endian::Big)?;
    cursor.write_u64(packet.guid, Endian::Big)?;
    assert(cursor@ =~= request_2_bytes(*packet));
    Ok(cursor.get_raw_payload())
}


/// The bytes an address occupies inside `b` at `off`, and what follows.
proof fn lemma_address_in(b: Seq<u8>, off: int, a: Address, rest: Seq<u8>)
    requires
        a is V4,
        0 <= off <= b.len(),
        b.skip(off) == address_bytes(a) + rest,
    ensures
        address_readable(b.skip(off)),
        address_read_len(b.skip(off)) == 7,
        address_read_value(b.skip(off), a),
        forall|x: Address| address_read_value(b.skip(off), x) ==> x == a,
{
    if let Address::V4(o, p) = a {
        crate::datatype::lemma_address_v4_roundtrip(o, p, rest);
        assert forall|x: Address| address_read_value(b.skip(off), x) implies x == a by {
            if let Address::V4(o2, p2) = x {
                assert(o2@ =~= o@);
                assert(o2 == o);
                assert(p2 == p);
            }
        }
    }
}

/// Law: a request 2 that carries the marker and an IPv4 address reads back as written.
/// (With an IPv6 address the read stops short: the reader wants 44 bytes after the
/// address tag, and the message holds only 37.)
pub proof fn lemma_request_2_roundtrip(p: OpenConnectionRequest2)
    requires
        p.magic,
        p.address is V4,
    ensures
        request_2_readable(request_2_bytes(p)),
        request_2_ok(request_2_bytes(p)),
        forall|q: OpenConnectionRequest2| request_2_is(request_2_bytes(p), q) ==> q == p,
{
    let b = request_2_bytes(p);
    let tail = be_bytes(p.mtu as nat, 2) + be_bytes(p.guid as nat, 8);
    lemma_pow256_values();
    lemma_roundtrip(p.mtu as nat, 2);
    lemma_roundtrip(p.guid as nat, 8);
    assert(b.skip(17) =~= address_bytes(p.address) + tail);
    lemma_address_in(b, 17, p.address, tail);
    assert(b.subrange(1, 17) =~= magic_bytes());
    assert(b.subrange(24, 26) =~= be_bytes(p.mtu as nat, 2));
    assert(b.subrange(26, 34) =~= be_bytes(p.guid as nat, 8));
}

// ---------------------------------------------------------------- open connection reply 1

/// Open connection reply 1: id, marker, server GUID, encryption flag, MTU.
pub open spec fn reply_1_bytes(p: OpenConnectionReply1) -> Seq<u8> {
    seq![0x06u8] + magic_bytes() + be_bytes(p.guid as nat, 8) + seq![p.use_encryption]
        + be_bytes(p.mtu_size as nat, 2)
}

pub open spec fn reply_1_of(b: Seq<u8>) -> Option<OpenConnectionReply1> {
    if b.len() < 28 {
        None
    } else {
        Some(
            OpenConnectionReply1 {
                magic: magic_at(b, 1),
                guid: be_at(b, 17, 8) as u64,
                use_encryption: b[25],
                mtu_size: be_at(b, 26, 2) as u16,
            },
        )
    }
}

pub fn read_packet_connection_open_reply_1(buf: &[u8]) -> (r: Result<
    OpenConnectionReply1,
    RaknetError,
>)
    requires
        buf@.len() >= 1,
        buf@.len() != 25,
    ensures
        r == (match reply_1_of(buf@) {
            Some(p) => Ok(p),
            None => short(),
        }),
{
    let mut cursor = RaknetReader::new(slice_to_vec(buf));
    cursor.read_u8()?;
    assert(cursor.rest() =~= buf@.skip(1));
    let magic = cursor.read_magic()?;
    assert(cursor.rest() =~= buf@.skip(17));
    let guid = cursor.read_u64(Endian::Big)?;
    assert(cursor.rest() =~= buf@.skip(25));
    let use_encryption = cursor.read_u8()?;
    assert(cursor.rest() =~= buf@.skip(26));
    let mtu_size = cursor.read_u16(Endian::Big)?;
    proof {
        lemma_pow256_values();
        crate::codec::lemma_be_value_bound(buf@.subrange(17, 25));
        crate::codec::lemma_be_value_bound(buf@.subrange(26, 28));
        assert(buf@.skip(1).take(16) =~= buf@.subrange(1, 17));
        assert(buf@.skip(17).take(8) =~= buf@.subrange(17, 25));
        assert(buf@.skip(26).take(2) =~= buf@.subrange(26, 28));
    }
    Ok(OpenConnectionReply1 { magic, guid, use_encryption, mtu_size })
}

pub fn write_packet_connection_open_reply_1(packet: &OpenConnectionReply1) -> (r: Result<
    Vec<u8>,
    RaknetError,
>)
    ensures
        r matches Ok(v) && v@ == reply_1_bytes(*packet),
{
    let mut cursor = RaknetWriter::new();
    cursor.write_u8(PacketID::OpenConnectionReply1.to_u8())?;
    cursor.write_magic()?;
    cursor.write_u64(packet.guid, Endian::Big)?;
    cursor.write_u8(packet.use_encryption)?;
    cursor.write_u16(packet.mtu_size, Endian::Big)?;
    assert(cursor@ =~= reply_1_bytes(*packet));
    Ok(cursor.get_raw_payload())
}

/// Law: a reply 1 that carries the marker reads back as written.
pub proof fn lemma_reply_1_roundtrip(p: OpenConnectionReply1)
    requires
        p.magic,
    ensures
        reply_1_of(reply_1_bytes(p)) == Some(p),
{
    let b = reply_1_bytes(p);
    lemma_pow256_values();
    lemma_roundtrip(p.guid as nat, 8);
    lemma_roundtrip(p.mtu_size as nat, 2);
    assert(b.subrange(1, 17) =~= magic_bytes());
    assert(b.subrange(17, 25) =~= be_bytes(p.guid as nat, 8));
    assert(b.subrange(26, 28) =~= be_bytes(p.mtu_size as nat, 2));
}

// ---------------------------------------------------------------- open connection reply 2

/// Open connection reply 2: id, marker, server GUID, client address, MTU, encryption flag.
pub open spec fn reply_2_bytes(p: OpenConnectionReply2) -> Seq<u8> {
    seq![0x08u8] + magic_bytes() + be_bytes(p.guid as nat, 8) + address_bytes(p.address)
        + be_bytes(p.mtu as nat, 2) + seq![p.encryption_enabled]
}

/// Reading reply 2 from `b` runs out neither at the address tag nor at the final flag.
pub open spec fn reply_2_readable(b: Seq<u8>) -> bool {
    &&& b.len() >= 1
    &&& b.len() != 25
    &&& (b.len() > 25 && address_readable(b.skip(25)) && b.len() >= 27 + address_read_len(
        b.skip(25),
    )) ==> b.len() >= 28 + address_read_len(b.skip(25))
}

/// Whether `reply_2_readable` holds of `buf`.
pub fn reply_2_is_readable(buf: &[u8]) -> (r: bool)
    ensures
        r == reply_2_readable(buf@),
{
    let len = buf.len();
    if len < 1 || len == 25 {
        return false;
    }
    if len < 26 {
        return true;
    }
    let ghost t = buf@.skip(25);
    assert(t[0] == buf@[25]);
    let (fits, alen): (bool, usize) = if buf[25] == 4 {
        (len - 25 >= 7, 7)
    } else {
        (len - 25 >= 45, 29)
    };
    !(fits && len == 27 + alen)
}

pub open spec fn reply_2_ok(b: Seq<u8>) -> bool {
    &&& b.len() > 25
    &&& address_readable(b.skip(25))
    &&& b.len() >= 28 + address_read_len(b.skip(25))
}

pub open spec fn reply_2_is(b: Seq<u8>, p: OpenConnectionReply2) -> bool {
    let k: int = 25 + address_read_len(b.skip(25)) as int;
    &&& p.magic == magic_at(b, 1)
    &&& p.guid as nat == be_at(b, 17, 8)
    &&& address_read_value(b.skip(25), p.address)
    &&& p.mtu as nat == be_at(b, k, 2)
    &&& p.encryption_enabled == b[k + 2]
}

pub fn read_packet_connection_open_reply_2(buf: &[u8]) -> (r: Result<
    OpenConnectionReply2,
    RaknetError,
>)
    requires
        reply_2_readable(buf@),
    ensures
        !reply_2_ok(buf@) ==> r == short::<OpenConnectionReply2>(),
        reply_2_ok(buf@) ==> (r matches Ok(p) && reply_2_is(buf@, p)),
{
    let mut cursor = RaknetReader::new(slice_to_vec(buf));
    cursor.read_u8()?;
    assert(cursor.rest() =~= buf@.skip(1));
    let magic = cursor.read_magic()?;
    assert(cursor.rest() =~= buf@.skip(17));
    let guid = cursor.read_u64(Endian::Big)?;
    assert(cursor.rest() =~= buf@.skip(25));
    let address = cursor.read_address()?;
    let ghost k: int = 25 + address_read_len(buf@.skip(25)) as int;
    assert(cursor.rest() =~= buf@.skip(k));
    let mtu = cursor.read_u16(Endian::Big)?;
    assert(cursor.rest() =~= buf@.skip(k + 2));
    let encryption_enabled = cursor.read_u8()?;
    proof {
        lemma_pow256_values();
        crate::codec::lemma_be_value_bound(buf@.subrange(17, 25));
        assert(buf@.skip(1).take(16) =~= buf@.subrange(1, 17));
        assert(buf@.skip(17).take(8) =~= buf@.subrange(17, 25));
        assert(buf@.skip(k).take(2) =~= buf@.subrange(k, k + 2));
    }
    Ok(OpenConnectionReply2 { magic, guid, address, mtu, encryption_enabled })
}

pub fn write_packet_connection_open_reply_2(packet: &OpenConnectionReply2) -> (r: Result<
    Vec<u8>,
    RaknetError,
>)
    ensures
        r matches Ok(v) && v@ == reply_2_bytes(*packet),
{
    let mut cursor = RaknetWriter::new();
    cursor.write_u8(PacketID::OpenConnectionReply2.to_u8())?;
    cursor.write_magic()?;
    cursor.write_u64(packet.guid, Endian::Big)?;
    cursor.write_address(packet.address)?;
    cursor.write_u16(packet.mtu, Endian::Big)?;
    cursor.write_u8(packet.encryption_enabled)?;
    assert(cursor@ =~= reply_2_bytes(*packet));
    Ok(cursor.get_raw_payload())
}

/// Law: a reply 2 that carries the marker and an IPv4 address reads back as written.
/// (With an IPv6 address the read stops short, as for request 2.)
pub proof fn lemma_reply_2_roundtrip(p: OpenConnectionReply2)
    requires
        p.magic,
        p.address is V4,
    ensures
        reply_2_readable(reply_2_bytes(p)),
        reply_2_ok(reply_2_bytes(p)),
        forall|q: OpenConnectionReply2| reply_2_is(reply_2_bytes(p), q) ==> q == p,
{
    let b = reply_2_bytes(p);
    let tail = be_bytes(p.mtu as nat, 2) + seq![p.encryption_enabled];
    lemma_pow256_values();
    lemma_roundtrip(p.mtu as nat, 2);
    lemma_roundtrip(p.guid as nat, 8);
    assert(b.skip(25) =~= address_bytes(p.address) + tail);
    lemma_address_in(b, 25, p.address, tail);
    assert(b.subrange(1, 17) =~= magic_bytes());
    assert(b.subrange(17, 25) =~= be_bytes(p.guid as nat, 8));
    assert(b.subrange(32, 34) =~= be_bytes(p.mtu as nat, 2));
}

// ---------------------------------------------------------------- already connected

/// Already connected: id, marker, GUID.
pub open spec fn already_connected_bytes(p: AlreadyConnected) -> Seq<u8> {
    seq![0x12u8] + magic_bytes() + be_bytes(p.guid as nat, 8)
}

pub open spec fn already_connected_of(b: Seq<u8>) -> Option<AlreadyConnected> {
    if b.len() < 25 {
        None
    } else {
        Some(AlreadyConnected { magic: magic_at(b, 1), guid: be_at(b, 17, 8) as u64 })
    }
}

pub fn _read_packet_already_connected(buf: &[u8]) -> (r: Result<AlreadyConnected, RaknetError>)
    requires
        buf@.len() >= 1,
    ensures
        r == (match already_connected_of(buf@) {
            Some(p) => Ok(p),
            None => short(),
        }),
{
    let mut cursor = RaknetReader::new(slice_to_vec(buf));
    cursor.read_u8()?;
    assert(cursor.rest() =~= buf@.skip(1));
    let magic = cursor.read_magic()?;
    assert(cursor.rest() =~= buf@.skip(17));
    let guid = cursor.read_u64(Endian::Big)?;
    proof {
        lemma_pow256_values();
        crate::codec::lemma_be_value_bound(buf@.subrange(17, 25));
        assert(buf@.skip(1).take(16) =~= buf@.subrange(1, 17));
        assert(buf@.skip(17).take(8) =~= buf@.subrange(17, 25));
    }
    Ok(AlreadyConnected { magic, guid })
}

pub fn write_packet_already_connected(packet: &AlreadyConnected) -> (r: Result<
    Vec<u8>,
    RaknetError,
>)
    ensures
        r matches Ok(v) && v@ == already_connected_bytes(*packet),
{
    let mut cursor = RaknetWriter::new();
    cursor.write_u8(PacketID::AlreadyConnected.to_u8())?;
    cursor.write_magic()?;
    cursor.write_u64(packet.guid, Endian::Big)?;
    assert(cursor@ =~= already_connected_bytes(*packet));
    Ok(cursor.get_raw_payload())
}

/// Law: an already-connected message that carries the marker reads back as written.
pub proof fn lemma_already_connected_roundtrip(p: AlreadyConnected)
    requires
        p.magic,
    ensures
        already_connected_of(already_connected_bytes(p)) == Some(p),
{
    let b = already_connected_bytes(p);
    lemma_pow256_values();
    lemma_roundtrip(p.guid as nat, 8);
    assert(b.subrange(1, 17) =~= magic_bytes());
    assert(b.subrange(17, 25) =~= be_bytes(p.guid as nat, 8));
}

// ---------------------------------------------------------------- incompatible protocol version

/// Incompatible protocol version: id, server protocol, marker, server GUID.
pub open spec fn incompatible_bytes(p: IncompatibleProtocolVersion) -> Seq<u8> {
    seq![0x19u8, p.server_protocol] + magic_bytes() + be_bytes(p.server_guid as nat, 8)
}

pub open spec fn incompatible_of(b: Seq<u8>) -> Option<IncompatibleProtocolVersion> {
    if b.len() < 26 {
        None
    } else {
        Some(
            IncompatibleProtocolVersion {
                server_protocol: b[1],
                magic: magic_at(b, 2),
                server_guid: be_at(b, 18, 8) as u64,
            },
        )
    }
}

pub fn read_packet_incompatible_protocol_version(buf: &[u8]) -> (r: Result<
    IncompatibleProtocolVersion,
    RaknetError,
>)
    requires
        buf@.len() >= 2,
    ensures
        r == (match incompatible_of(buf@) {
            Some(p) => Ok(p),
            None => short(),
        }),
{
    let mut cursor = RaknetReader::new(slice_to_vec(buf));
    cursor.read_u8()?;
    assert(cursor.rest() =~= buf@.skip(1));
    let server_protocol = cursor.read_u8()?;
    assert(cursor.rest() =~= buf@.skip(2));
    let magic = cursor.read_magic()?;
    assert(cursor.rest() =~= buf@.skip(18));
    let server_guid = cursor.read_u64(Endian::Big)?;
    proof {
        lemma_pow256_values();
        crate::codec::lemma_be_value_bound(buf@.subrange(18, 26));
        assert(buf@.skip(2).take(16) =~= buf@.subrange(2, 18));
        assert(buf@.skip(18).take(8) =~= buf@.subrange(18, 26));
    }
    Ok(IncompatibleProtocolVersion { server_protocol, magic, server_guid })
}

pub fn write_packet_incompatible_protocol_version(packet: &IncompatibleProtocolVersion) -> (r:
    Result<Vec<u8>, RaknetError>)
    ensures
        r matches Ok(v) && v@ == incompatible_bytes(*packet),
{
    let mut cursor = RaknetWriter::new();
    cursor.write_u8(PacketID::IncompatibleProtocolVersion.to_u8())?;
    cursor.write_u8(packet.server_protocol)?;
    cursor.write_magic()?;
    cursor.write_u64(packet.server_guid, Endian::Big)?;
    assert(cursor@ =~= incompatible_bytes(*packet));
    Ok(cursor.get_raw_payload())
}

/// Law: an incompatible-protocol message that carries the marker reads back as written.
pub proof fn lemma_incompatible_roundtrip(p: IncompatibleProtocolVersion)
    requires
        p.magic,
    ensures
        incompatible_of(incompatible_bytes(p)) == Some(p),
{
    let b = incompatible_bytes(p);
    lemma_pow256_values();
    lemma_roundtrip(p.server_guid as nat, 8);
    assert(b.subrange(2, 18) =~= magic_bytes());
    assert(b.subrange(18, 26) =~= be_bytes(p.server_guid as nat, 8));
}

// ---------------------------------------------------------------- connection request

/// Connection request: id, client GUID, time, encryption flag.
pub open spec fn connection_request_bytes(p: ConnectionRequest) -> Seq<u8> {
    seq![0x09u8] + be_bytes(p.guid as nat, 8) + i64_bytes(p.time) + seq![p.use_encryption]
}

pub open spec fn connection_request_of(b: Seq<u8>) -> Option<ConnectionRequest> {
    if b.len() < 18 {
        None
    } else {
        Some(
            ConnectionRequest {
                guid: be_at(b, 1, 8) as u64,
                time: i64_at(b, 9) as i64,
                use_encryption: b[17],
            },
        )
    }
}

pub fn read_packet_connection_request(buf: &[u8]) -> (r: Result<ConnectionRequest, RaknetError>)
    requires
        buf@.len() >= 1,
        buf@.len() != 17,
    ensures
        r == (match connection_request_of(buf@) {
            Some(p) => Ok(p),
            None => short(),
        }),
{
    let mut cursor = RaknetReader::new(slice_to_vec(buf));
    cursor.read_u8()?;
    assert(cursor.rest() =~= buf@.skip(1));
    let guid = cursor.read_u64(Endian::Big)?;
    assert(cursor.rest() =~= buf@.skip(9));
    let time = cursor.read_i64(Endian::Big)?;
    assert(cursor.rest() =~= buf@.skip(17));
    let use_encryption = cursor.read_u8()?;
    proof {
        lemma_pow256_values();
        crate::codec::lemma_be_value_bound(buf@.subrange(1, 9));
        assert(buf@.skip(1).take(8) =~= buf@.subrange(1, 9));
        assert(buf@.skip(9).take(8) =~= buf@.subrange(9, 17));
    }
    Ok(ConnectionRequest { guid, time, use_encryption })
}

pub fn write_packet_connection_request(packet: &ConnectionRequest) -> (r: Result<
    Vec<u8>,
    RaknetError,
>)
    ensures
        r matches Ok(v) && v@ == connection_request_bytes(*packet),
{
    let mut cursor = RaknetWriter::new();
    cursor.write_u8(PacketID::ConnectionRequest.to_u8())?;
    cursor.write_u64(packet.guid, Endian::Big)?;
    cursor.write_i64(packet.time, Endian::Big)?;
    cursor.write_u8(packet.use_encryption)?;
    assert(cursor@ =~= connection_request_bytes(*packet));
    Ok(cursor.get_raw_payload())
}

/// Law: a connection request reads back as written.
pub proof fn lemma_connection_request_roundtrip(p: ConnectionRequest)
    ensures
        connection_request_of(connection_request_bytes(p)) == Some(p),
{
    let b = connection_request_bytes(p);
    lemma_pow256_values();
    lemma_roundtrip(p.guid as nat, 8);
    lemma_signed_roundtrip(p.time as int, 8);
    lemma_roundtrip(to_unsigned(p.time as int, 8), 8);
    assert(b.subrange(1, 9) =~= be_bytes(p.guid as nat, 8));
    assert(b.subrange(9, 17) =~= i64_bytes(p.time));
}

// ---------------------------------------------------------------- connected ping / pong

/// Connected ping: id, client time.
pub open spec fn connected_ping_bytes(p: ConnectedPing) -> Seq<u8> {
    seq![0x00u8] + i64_bytes(p.client_timestamp)
}

pub open spec fn connected_ping_of(b: Seq<u8>) -> Option<ConnectedPing> {
    if b.len() < 9 {
        None
    } else {
        Some(ConnectedPing { client_timestamp: i64_at(b, 1) as i64 })
    }
}

pub fn read_packet_connected_ping(buf: &[u8]) -> (r: Result<ConnectedPing, RaknetError>)
    requires
        buf@.len() >= 1,
    ensures
        r == (match connected_ping_of(buf@) {
            Some(p) => Ok(p),
            None => short(),
        }),
{
    let mut cursor = RaknetReader::new(slice_to_vec(buf));
    cursor.read_u8()?;
    assert(cursor.rest() =~= buf@.skip(1));
    let client_timestamp = cursor.read_i64(Endian::Big)?;
    assert(buf@.skip(1).take(8) =~= buf@.subrange(1, 9));
    Ok(ConnectedPing { client_timestamp })
}

pub fn write_packet_connected_ping(packet: &ConnectedPing) -> (r: Result<Vec<u8>, RaknetError>)
    ensures
        r matches Ok(v) && v@ == connected_ping_bytes(*packet),
{
    let mut cursor = RaknetWriter::new();
    cursor.write_u8(PacketID::ConnectedPing.to_u8())?;
    cursor.write_i64(packet.client_timestamp, Endian::Big)?;
    assert(cursor@ =~= connected_ping_bytes(*packet));
    Ok(cursor.get_raw_payload())
}

/// Law: a connected ping reads back as written.
pub proof fn lemma_connected_ping_roundtrip(p: ConnectedPing)
    ensures
        connected_ping_of(connected_ping_bytes(p)) == Some(p),
{
    let b = connected_ping_bytes(p);
    lemma_pow256_values();
    lemma_signed_roundtrip(p.client_timestamp as int, 8);
    lemma_roundtrip(to_unsigned(p.client_timestamp as int, 8), 8);
    assert(b.subrange(1, 9) =~= i64_bytes(p.client_timestamp));
}

/// Connected pong: id, client time, server time.
pub open spec fn connected_pong_bytes(p: ConnectedPong) -> Seq<u8> {
    seq![0x03u8] + i64_bytes(p.client_timestamp) + i64_bytes(p.server_timestamp)
}

pub open spec fn connected_pong_of(b: Seq<u8>) -> Option<ConnectedPong> {
    if b.len() < 17 {
        None
    } else {
        Some(
            ConnectedPong {
                client_timestamp: i64_at(b, 1) as i64,
                server_timestamp: i64_at(b, 9) as i64,
            },
        )
    }
}

pub fn _read_packet_connected_pong(buf: &[u8]) -> (r: Result<ConnectedPong, RaknetError>)
    requires
        buf@.len() >= 1,
    ensures
        r == (match connected_pong_of(buf@) {
            Some(p) => Ok(p),
            None => short(),
        }),
{
    let mut cursor = RaknetReader::new(slice_to_vec(buf));
    cursor.read_u8()?;
    assert(cursor.rest() =~= buf@.skip(1));
    let client_timestamp = cursor.read_i64(Endian::Big)?;
    assert(cursor.rest() =~= buf@.skip(9));
    let server_timestamp = cursor.read_i64(Endian::Big)?;
    assert(buf@.skip(1).take(8) =~= buf@.subrange(1, 9));
    assert(buf@.skip(9).take(8) =~= buf@.subrange(9, 17));
    Ok(ConnectedPong { client_timestamp, server_timestamp })
}

pub fn write_packet_connected_pong(packet: &ConnectedPong) -> (r: Result<Vec<u8>, RaknetError>)
    ensures
        r matches Ok(v) && v@ == connected_pong_bytes(*packet),
{
    let mut cursor = RaknetWriter::new();
    cursor.write_u8(PacketID::ConnectedPong.to_u8())?;
    cursor.write_i64(packet.client_timestamp, Endian::Big)?;
    cursor.write_i64(packet.server_timestamp, Endian::Big)?;
    assert(cursor@ =~= connected_pong_bytes(*packet));
    Ok(cursor.get_raw_payload())
}

/// Law: a connected pong reads back as written.
pub proof fn lemma_connected_pong_roundtrip(p: ConnectedPong)
    ensures
        connected_pong_of(connected_pong_bytes(p)) == Some(p),
{
    let b = connected_pong_bytes(p);
    lemma_pow256_values();
    lemma_signed_roundtrip(p.client_timestamp as int, 8);
    lemma_roundtrip(to_unsigned(p.client_timestamp as int, 8), 8);
    lemma_signed_roundtrip(p.server_timestamp as int, 8);
    lemma_roundtrip(to_unsigned(p.server_timestamp as int, 8), 8);
    assert(b.subrange(1, 9) =~= i64_bytes(p.client_timestamp));
    assert(b.subrange(9, 17) =~= i64_bytes(p.server_timestamp));
}


// ---------------------------------------------------------------- ACK / NACK

/// One acknowledgement record: flag 1 and one little-endian `u24` for a single
/// sequence number, flag 0 and two for a range.
pub open spec fn record_bytes(r: (u32, u32)) -> Seq<u8> {
    if r.0 == r.1 {
        seq![1u8] + le_bytes(r.0 as nat, 3)
    } else {
        seq![0u8] + le_bytes(r.0 as nat, 3) + le_bytes(r.1 as nat, 3)
    }
}

/// The records of `s`, in order.
pub open spec fn records_bytes(s: Seq<(u32, u32)>) -> Seq<u8>
    decreases s.len(),
{
    if s.len() == 0 {
        Seq::empty()
    } else {
        record_bytes(s[0]) + records_bytes(s.drop_first())
    }
}

/// An ACK or NACK message: id, record count, and the first `count` records of `s`.
pub open spec fn ack_bytes(id: u8, count: u16, s: Seq<(u32, u32)>) -> Seq<u8> {
    seq![id] + be_bytes(count as nat, 2) + records_bytes(s.take(count as int))
}

/// Reading `k` records from the front of `r`: `None` when a record starts where no
/// byte is left (the reader stops there), `Some(None)` when a record is cut short,
/// otherwise the records and the number of bytes they take.
pub open spec fn records_of(r: Seq<u8>, k: nat) -> Option<Option<(Seq<(u32, u32)>, nat)>>
    decreases k,
{
    if k == 0 {
        Some(Some((Seq::empty(), 0)))
    } else if r.len() == 0 {
        None
    } else if r.len() < 4 {
        Some(None)
    } else if r[0] == 1 {
        let v = le_value(r.subrange(1, 4)) as u32;
        prepend_record((v, v), 4, records_of(r.skip(4), (k - 1) as nat))
    } else if r.len() < 7 {
        Some(None)
    } else {
        let a = le_value(r.subrange(1, 4)) as u32;
        let b = le_value(r.subrange(4, 7)) as u32;
        prepend_record((a, b), 7, records_of(r.skip(7), (k - 1) as nat))
    }
}

pub open spec fn prepend_record(
    x: (u32, u32),
    w: nat,
    o: Option<Option<(Seq<(u32, u32)>, nat)>>,
) -> Option<Option<(Seq<(u32, u32)>, nat)>> {
    match o {
        Some(Some((l, n))) => Some(Some((seq![x] + l, n + w))),
        _ => o,
    }
}

pub open spec fn after_records(
    acc: Seq<(u32, u32)>,
    used: nat,
    o: Option<Option<(Seq<(u32, u32)>, nat)>>,
) -> Option<Option<(Seq<(u32, u32)>, nat)>> {
    match o {
        Some(Some((l, n))) => Some(Some((acc + l, used + n))),
        _ => o,
    }
}

/// Reading an ACK or NACK from `b` never starts a record with no byte left.
pub open spec fn ack_readable(b: Seq<u8>) -> bool {
    b.len() >= 1 && (b.len() >= 3 ==> records_of(b.skip(3), be_at(b, 1, 2)) is Some)
}

/// Whether `ack_readable` holds of `buf`: walks the records without keeping them.
pub fn ack_is_readable(buf: &[u8]) -> (r: bool)
    ensures
        r == ack_readable(buf@),
{
    let len = buf.len();
    if len < 1 {
        return false;
    }
    if len < 3 {
        return true;
    }
    let count: u16 = buf[1] as u16 * 256 + buf[2] as u16;
    proof {
        lemma_be_value_two(buf@.subrange(1, 3));
    }
    let ghost whole = records_of(buf@.skip(3), count as nat) is Some;
    let mut pos: usize = 3;
    let mut i: u16 = 0;
    while i < count
        invariant
            3 <= pos <= len,
            len == buf@.len(),
            i <= count,
            whole == (records_of(buf@.skip(pos as int), (count - i) as nat) is Some),
            whole == (records_of(buf@.skip(3), be_at(buf@, 1, 2)) is Some),
        decreases count - i,
    {
        let ghost r = buf@.skip(pos as int);
        let ghost k = (count - i) as nat;
        assert(k > 0);
        let rest = len - pos;
        if rest == 0 {
            assert(records_of(r, k) is None);
            return false;
        }
        if rest < 4 {
            assert(records_of(r, k) == Some(None::<(Seq<(u32, u32)>, nat)>));
            return true;
        }
        if buf[pos] == 1 {
            assert(r.skip(4) =~= buf@.skip(pos + 4));
            pos = pos + 4;
        } else {
            if rest < 7 {
                assert(records_of(r, k) == Some(None::<(Seq<(u32, u32)>, nat)>));
                return true;
            }
            assert(r.skip(7) =~= buf@.skip(pos + 7));
            pos = pos + 7;
        }
        assert((count - (i + 1)) as nat == (k - 1) as nat);
        i = i + 1;
    }
    true
}

proof fn lemma_after_records_step(
    acc: Seq<(u32, u32)>,
    used: nat,
    x: (u32, u32),
    w: nat,
    o: Option<Option<(Seq<(u32, u32)>, nat)>>,
)
    ensures
        after_records(acc, used, prepend_record(x, w, o)) == after_records(acc.push(x), used + w, o),
{
    match o {
        Some(Some((l, n))) => {
            assert(acc + (seq![x] + l) =~= acc.push(x) + l);
        },
        _ => {},
    }
}

fn read_records(cursor: &mut RaknetReader, count: u16) -> (r: Result<Vec<(u32, u32)>, RaknetError>)
    requires
        records_of(old(cursor).rest(), count as nat) is Some,
    ensures
        records_of(old(cursor).rest(), count as nat) matches Some(o) && match o {
            None => r == Err::<Vec<(u32, u32)>, RaknetError>(RaknetError::ReadPacketBufferError),
            Some((l, n)) => r matches Ok(v) && v@ == l,
        },
{
    let ghost r0 = cursor.rest();
    let ghost c0 = cursor.offset();
    let mut s: Vec<(u32, u32)> = Vec::new();
    let mut i: u16 = 0;
    proof {
        assert(s@ + Seq::<(u32, u32)>::empty() =~= s@);
        let o = records_of(r0, count as nat);
        match o {
            Some(Some((l, n))) => {
                assert(s@ + l =~= l);
            },
            _ => {},
        }
    }
    while i < count
        invariant
            i <= count,
            cursor.offset() >= c0,
            records_of(r0, count as nat) is Some,
            r0 == old(cursor).rest(),
            records_of(r0, count as nat) == after_records(
                s@,
                (cursor.offset() - c0) as nat,
                records_of(cursor.rest(), (count - i) as nat),
            ),
        decreases count - i,
    {
        let ghost ri = cursor.rest();
        let ghost used = (cursor.offset() - c0) as nat;
        let flag = cursor.read_u8()?;
        assert(cursor.rest() =~= ri.skip(1));
        proof {
            if ri.len() < 4 {
                assert(records_of(ri, (count - i) as nat) == Some(
                    None::<(Seq<(u32, u32)>, nat)>,
                ));
            }
        }
        let sequence = cursor.read_u24(Endian::Little)?;
        assert(ri.skip(1).take(3) =~= ri.subrange(1, 4));
        if flag == 0x01 {
            assert(cursor.rest() =~= ri.skip(4));
            proof {
                crate::codec::lemma_le_value_bound(ri.subrange(1, 4));
                lemma_pow256_values();
                lemma_after_records_step(
                    s@,
                    used,
                    (sequence, sequence),
                    4,
                    records_of(ri.skip(4), (count - i - 1) as nat),
                );
            }
            s.push((sequence, sequence));
        } else {
            assert(cursor.rest() =~= ri.skip(4));
            proof {
                if ri.len() < 7 {
                    assert(records_of(ri, (count - i) as nat) == Some(
                        None::<(Seq<(u32, u32)>, nat)>,
                    ));
                }
            }
            let sequence_max = cursor.read_u24(Endian::Little)?;
            assert(cursor.rest() =~= ri.skip(7));
            assert(ri.skip(4).take(3) =~= ri.subrange(4, 7));
            proof {
                crate::codec::lemma_le_value_bound(ri.subrange(1, 4));
                crate::codec::lemma_le_value_bound(ri.subrange(4, 7));
                lemma_pow256_values();
                lemma_after_records_step(
                    s@,
                    used,
                    (sequence, sequence_max),
                    7,
                    records_of(ri.skip(7), (count - i - 1) as nat),
                );
            }
            s.push((sequence, sequence_max));
        }
        i = i + 1;
    }
    proof {
        let o = records_of(r0, count as nat);
        match o {
            Some(Some((l, n))) => {
                assert(s@ + Seq::<(u32, u32)>::empty() =~= s@);
            },
            _ => {},
        }
    }
    Ok(s)
}

proof fn lemma_records_bytes_push(s: Seq<(u32, u32)>, x: (u32, u32))
    ensures
        records_bytes(s.push(x)) == records_bytes(s) + record_bytes(x),
    decreases s.len(),
{
    if s.len() == 0 {
        assert(s.push(x).drop_first() =~= Seq::<(u32, u32)>::empty());
        assert(records_bytes(Seq::<(u32, u32)>::empty()) =~= Seq::<u8>::empty());
        assert(records_bytes(s) =~= Seq::<u8>::empty());
        assert(records_bytes(s.push(x)) =~= record_bytes(x));
    } else {
        lemma_records_bytes_push(s.drop_first(), x);
        assert(s.push(x).drop_first() =~= s.drop_first().push(x));
        assert(records_bytes(s.push(x)) =~= records_bytes(s) + record_bytes(x));
    }
}

fn write_records(cursor: &mut RaknetWriter, record_count: u16, sequences: &Vec<(u32, u32)>) -> (r:
    Result<(), RaknetError>)
    requires
        sequences@.len() >= record_count,
        old(cursor)@.len() <= 3,
    ensures
        r is Ok,
        final(cursor)@ == old(cursor)@ + records_bytes(sequences@.take(record_count as int)),
{
    let mut i: u16 = 0;
    assert(sequences@.take(0) =~= Seq::<(u32, u32)>::empty());
    assert(old(cursor)@ + records_bytes(Seq::<(u32, u32)>::empty()) =~= old(cursor)@);
    while i < record_count
        invariant
            i <= record_count,
            sequences@.len() >= record_count,
            old(cursor)@.len() <= 3,
            cursor@ == old(cursor)@ + records_bytes(sequences@.take(i as int)),
            cursor@.len() <= 3 + 7 * i,
        decreases record_count - i,
    {
        let (lo, hi) = sequences[i as usize];
        let single_sequence_number: u8 = if lo == hi {
            1
        } else {
            0
        };
        cursor.write_u8(single_sequence_number)?;
        cursor.write_u24(lo, Endian::Little)?;
        if single_sequence_number == 0x00 {
            cursor.write_u24(hi, Endian::Little)?;
        }
        proof {
            lemma_records_bytes_push(sequences@.take(i as int), (lo, hi));
            assert(sequences@.take(i + 1) =~= sequences@.take(i as int).push((lo, hi)));
        }
        assert(cursor@ =~= old(cursor)@ + records_bytes(sequences@.take(i + 1)));
        i = i + 1;
    }
    Ok(())
}

pub fn read_packet_nack(buf: &[u8]) -> (r: Result<Nack, RaknetError>)
    requires
        ack_readable(buf@),
    ensures
        buf@.len() < 3 ==> r == short::<Nack>(),
        buf@.len() >= 3 ==> (records_of(buf@.skip(3), be_at(buf@, 1, 2)) matches Some(o) && match o {
            None => r == short::<Nack>(),
            Some((l, n)) => r matches Ok(p) && p.record_count as nat == be_at(buf@, 1, 2)
                && p.sequences@ == l,
        }),
{
    let mut cursor = RaknetReader::new(slice_to_vec(buf));
    cursor.read_u8()?;
    assert(cursor.rest() =~= buf@.skip(1));
    let record_count = cursor.read_u16(Endian::Big)?;
    assert(cursor.rest() =~= buf@.skip(3));
    assert(buf@.skip(1).take(2) =~= buf@.subrange(1, 3));
    let sequences = read_records(&mut cursor, record_count)?;
    Ok(Nack { record_count, sequences })
}

pub fn write_packet_nack(packet: &Nack) -> (r: Result<Vec<u8>, RaknetError>)
    requires
        packet.sequences@.len() >= packet.record_count,
    ensures
        r matches Ok(v) && v@ == ack_bytes(0xa0, packet.record_count, packet.sequences@),
{
    let mut cursor = RaknetWriter::new();
    cursor.write_u8(PacketID::Nack.to_u8())?;
    cursor.write_u16(packet.record_count, Endian::Big)?;
    write_records(&mut cursor, packet.record_count, &packet.sequences)?;
    assert(cursor@ =~= ack_bytes(0xa0, packet.record_count, packet.sequences@));
    Ok(cursor.get_raw_payload())
}

pub fn read_packet_ack(buf: &[u8]) -> (r: Result<Ack, RaknetError>)
    requires
        ack_readable(buf@),
    ensures
        buf@.len() < 3 ==> r == short::<Ack>(),
        buf@.len() >= 3 ==> (records_of(buf@.skip(3), be_at(buf@, 1, 2)) matches Some(o) && match o {
            None => r == short::<Ack>(),
            Some((l, n)) => r matches Ok(p) && p.record_count as nat == be_at(buf@, 1, 2)
                && p.sequences@ == l,
        }),
{
    let mut cursor = RaknetReader::new(slice_to_vec(buf));
    cursor.read_u8()?;
    assert(cursor.rest() =~= buf@.skip(1));
    let record_count = cursor.read_u16(Endian::Big)?;
    assert(cursor.rest() =~= buf@.skip(3));
    assert(buf@.skip(1).take(2) =~= buf@.subrange(1, 3));
    let sequences = read_records(&mut cursor, record_count)?;
    Ok(Ack { record_count, sequences })
}

pub fn write_packet_ack(packet: &Ack) -> (r: Result<Vec<u8>, RaknetError>)
    requires
        packet.sequences@.len() >= packet.record_count,
    ensures
        r matches Ok(v) && v@ == ack_bytes(0xc0, packet.record_count, packet.sequences@),
{
    let mut cursor = RaknetWriter::new();
    cursor.write_u8(PacketID::Ack.to_u8())?;
    cursor.write_u16(packet.record_count, Endian::Big)?;
    write_records(&mut cursor, packet.record_count, &packet.sequences)?;
    assert(cursor@ =~= ack_bytes(0xc0, packet.record_count, packet.sequences@));
    Ok(cursor.get_raw_payload())
}

/// Every sequence number of the records fits the 24 bits the wire gives it.
pub open spec fn records_fit(s: Seq<(u32, u32)>) -> bool {
    forall|i: int| 0 <= i < s.len() ==> s[i].0 < 0x100_0000 && s[i].1 < 0x100_0000
}

proof fn lemma_records_roundtrip(t: Seq<(u32, u32)>, tail: Seq<u8>)
    requires
        records_fit(t),
    ensures
        records_of(records_bytes(t) + tail, t.len()) == Some(Some((t, records_bytes(t).len()))),
    decreases t.len(),
{
    let b = records_bytes(t) + tail;
    if t.len() == 0 {
        assert(t =~= Seq::<(u32, u32)>::empty());
    } else {
        let x = t[0];
        let t2 = t.drop_first();
        lemma_records_roundtrip(t2, tail);
        lemma_pow256_values();
        lemma_roundtrip(x.0 as nat, 3);
        lemma_roundtrip(x.1 as nat, 3);
        assert(b =~= record_bytes(x) + (records_bytes(t2) + tail));
        if x.0 == x.1 {
            assert(b.subrange(1, 4) =~= le_bytes(x.0 as nat, 3));
            assert(b.skip(4) =~= records_bytes(t2) + tail);
        } else {
            assert(b.subrange(1, 4) =~= le_bytes(x.0 as nat, 3));
            assert(b.subrange(4, 7) =~= le_bytes(x.1 as nat, 3));
            assert(b.skip(7) =~= records_bytes(t2) + tail);
        }
        assert(seq![x] + t2 =~= t);
    }
}

/// Law: an ACK or NACK whose first `count` records fit 24 bits reads back as those
/// records (a record whose bounds are equal is written, and read, as one number).
pub proof fn lemma_ack_roundtrip(id: u8, count: u16, s: Seq<(u32, u32)>)
    requires
        s.len() >= count,
        records_fit(s.take(count as int)),
    ensures
        ({
            let b = ack_bytes(id, count, s);
            &&& ack_readable(b)
            &&& b.len() >= 3
            &&& be_at(b, 1, 2) == count
            &&& records_of(b.skip(3), count as nat) matches Some(Some((l, n)))
            &&& l == s.take(count as int)
        }),
{
    let b = ack_bytes(id, count, s);
    let t = s.take(count as int);
    lemma_pow256_values();
    lemma_roundtrip(count as nat, 2);
    assert(b.subrange(1, 3) =~= be_bytes(count as nat, 2));
    assert(b.skip(3) =~= records_bytes(t) + Seq::<u8>::empty());
    lemma_records_roundtrip(t, Seq::<u8>::empty());
}


// ---------------------------------------------------------------- connection request accepted

/// `k` copies of `x`, one after the other.
pub open spec fn repeat_bytes(x: Seq<u8>, k: nat) -> Seq<u8>
    decreases k,
{
    if k == 0 {
        Seq::empty()
    } else {
        x + repeat_bytes(x, (k - 1) as nat)
    }
}

proof fn lemma_repeat_push(x: Seq<u8>, k: nat)
    ensures
        repeat_bytes(x, k + 1) == repeat_bytes(x, k) + x,
    decreases k,
{
    if k == 0 {
        assert(repeat_bytes(x, 0) =~= Seq::<u8>::empty());
        assert(repeat_bytes(x, 1) =~= x);
    } else {
        lemma_repeat_push(x, (k - 1) as nat);
        assert(repeat_bytes(x, k + 1) =~= repeat_bytes(x, k) + x);
    }
}

pub(crate) proof fn lemma_repeat_len(x: Seq<u8>, k: nat)
    ensures
        repeat_bytes(x, k).len() == x.len() * k,
    decreases k,
{
    if k > 0 {
        lemma_repeat_len(x, (k - 1) as nat);
        assert(x.len() * k == x.len() + x.len() * (k - 1)) by (nonlinear_arith)
            requires
                k > 0,
        ;
        assert(repeat_bytes(x, k).len() == x.len() + repeat_bytes(x, (k - 1) as nat).len());
    } else {
        assert(x.len() * k == 0) by (nonlinear_arith)
            requires
                k == 0,
        ;
    }
}

/// Writes `k` copies of the address `a`.
fn write_addresses(cursor: &mut RaknetWriter, a: Address, k: u8) -> (r: Result<(), RaknetError>)
    requires
        old(cursor)@.len() <= 64,
        k <= 10,
    ensures
        r is Ok,
        final(cursor)@ == old(cursor)@ + repeat_bytes(address_bytes(a), k as nat),
{
    let mut i: u8 = 0;
    assert(old(cursor)@ + repeat_bytes(address_bytes(a), 0) =~= old(cursor)@);
    while i < k
        invariant
            i <= k,
            k <= 10,
            old(cursor)@.len() <= 64,
            cursor@ == old(cursor)@ + repeat_bytes(address_bytes(a), i as nat),
            cursor@.len() <= 64 + 28 * i,
        decreases k - i,
    {
        cursor.write_address(a)?;
        proof {
            lemma_repeat_push(address_bytes(a), i as nat);
        }
        assert(cursor@ =~= old(cursor)@ + repeat_bytes(address_bytes(a), (i + 1) as nat));
        i = i + 1;
    }
    Ok(())
}

/// The placeholder each of the ten system addresses of an acceptance carries.
pub open spec fn accepted_filler() -> Address {
    Address::V4([255u8, 255, 255, 255], 19132)
}

/// Connection request accepted: id, client address, system index, ten placeholder
/// addresses, request time, acceptance time.
pub open spec fn accepted_bytes(p: ConnectionRequestAccepted) -> Seq<u8> {
    seq![0x10u8] + address_bytes(p.client_address) + be_bytes(p.system_index as nat, 2)
        + repeat_bytes(address_bytes(accepted_filler()), 10) + i64_bytes(p.request_timestamp)
        + i64_bytes(p.accepted_timestamp)
}

pub open spec fn accepted_ok(b: Seq<u8>) -> bool {
    &&& b.len() >= 2
    &&& address_readable(b.skip(1))
    &&& b.len() >= 3 + address_read_len(b.skip(1))
}

/// Whether `p` is what reading an acceptance from `b` yields: only the client address
/// and the system index are read; both times come back as 0.
pub open spec fn accepted_is(b: Seq<u8>, p: ConnectionRequestAccepted) -> bool {
    let k: int = 1 + address_read_len(b.skip(1)) as int;
    &&& address_read_value(b.skip(1), p.client_address)
    &&& p.system_index as nat == be_at(b, k, 2)
    &&& p.request_timestamp == 0
    &&& p.accepted_timestamp == 0
}

pub fn read_packet_connection_request_accepted(buf: &[u8]) -> (r: Result<
    ConnectionRequestAccepted,
    RaknetError,
>)
    requires
        buf@.len() >= 2,
    ensures
        !accepted_ok(buf@) ==> r == short::<ConnectionRequestAccepted>(),
        accepted_ok(buf@) ==> (r matches Ok(p) && accepted_is(buf@, p)),
{
    let mut cursor = RaknetReader::new(slice_to_vec(buf));
    cursor.read_u8()?;
    assert(cursor.rest() =~= buf@.skip(1));
    let client_address = cursor.read_address()?;
    let ghost k: int = 1 + address_read_len(buf@.skip(1)) as int;
    assert(cursor.rest() =~= buf@.skip(k));
    let system_index = cursor.read_u16(Endian::Big)?;
    assert(buf@.skip(k).take(2) =~= buf@.subrange(k, k + 2));
    Ok(
        ConnectionRequestAccepted {
            client_address,
            system_index,
            request_timestamp: 0,
            accepted_timestamp: 0,
        },
    )
}

pub fn write_packet_connection_request_accepted(packet: &ConnectionRequestAccepted) -> (r: Result<
    Vec<u8>,
    RaknetError,
>)
    ensures
        r matches Ok(v) && v@ == accepted_bytes(*packet),
{
    let mut cursor = RaknetWriter::new();
    cursor.write_u8(PacketID::ConnectionRequestAccepted.to_u8())?;
    cursor.write_address(packet.client_address)?;
    cursor.write_u16(packet.system_index, Endian::Big)?;
    let tmp_address = Address::V4([255, 255, 255, 255], 19132);
    assert(tmp_address == accepted_filler());
    write_addresses(&mut cursor, tmp_address, 10)?;
    proof {
        lemma_repeat_len(address_bytes(accepted_filler()), 10);
    }
    cursor.write_i64(packet.request_timestamp, Endian::Big)?;
    cursor.write_i64(packet.accepted_timestamp, Endian::Big)?;
    assert(cursor@ =~= accepted_bytes(*packet));
    Ok(cursor.get_raw_payload())
}

/// Law: an acceptance with an IPv4 client address reads back its client address and
/// system index; the times are not read and come back as 0.
pub proof fn lemma_accepted_roundtrip(p: ConnectionRequestAccepted)
    requires
        p.client_address is V4,
    ensures
        accepted_ok(accepted_bytes(p)),
        forall|q: ConnectionRequestAccepted| accepted_is(accepted_bytes(p), q) ==> q == (
        ConnectionRequestAccepted {
            client_address: p.client_address,
            system_index: p.system_index,
            request_timestamp: 0,
            accepted_timestamp: 0,
        }),
{
    let b = accepted_bytes(p);
    let tail = be_bytes(p.system_index as nat, 2) + repeat_bytes(
        address_bytes(accepted_filler()),
        10,
    ) + i64_bytes(p.request_timestamp) + i64_bytes(p.accepted_timestamp);
    lemma_pow256_values();
    lemma_roundtrip(p.system_index as nat, 2);
    assert(b.skip(1) =~= address_bytes(p.client_address) + tail);
    lemma_address_in(b, 1, p.client_address, tail);
    assert(b.subrange(8, 10) =~= be_bytes(p.system_index as nat, 2));
}

// ---------------------------------------------------------------- new incoming connection

/// Skipping `k` addresses at the front of `r`: `None` when one would start where no
/// byte is left (the reader stops there), `Some(None)` when one is cut short,
/// otherwise the number of bytes they take.
pub open spec fn skip_addresses(r: Seq<u8>, k: nat) -> Option<Option<nat>>
    decreases k,
{
    if k == 0 {
        Some(Some(0))
    } else if r.len() == 0 {
        None
    } else if !address_readable(r) {
        Some(None)
    } else {
        let n = address_read_len(r);
        match skip_addresses(r.skip(n as int), (k - 1) as nat) {
            Some(Some(m)) => Some(Some(n + m)),
            o => o,
        }
    }
}

pub open spec fn add_used(u: nat, o: Option<Option<nat>>) -> Option<Option<nat>> {
    match o {
        Some(Some(m)) => Some(Some(u + m)),
        _ => o,
    }
}

/// The placeholder each of the ten internal addresses of a new incoming connection carries.
pub open spec fn incoming_filler() -> Address {
    Address::V4([0u8, 0, 0, 0], 0)
}

/// New incoming connection: id, server address, ten placeholder addresses, request
/// time, acceptance time.
pub open spec fn incoming_bytes(p: NewIncomingConnection) -> Seq<u8> {
    seq![0x13u8] + address_bytes(p.server_address) + repeat_bytes(
        address_bytes(incoming_filler()),
        10,
    ) + i64_bytes(p.request_timestamp) + i64_bytes(p.accepted_timestamp)
}

/// Reading a new incoming connection from `b` never starts an address with no byte left.
pub open spec fn incoming_readable(b: Seq<u8>) -> bool {
    &&& b.len() >= 2
    &&& address_readable(b.skip(1)) ==> skip_addresses(
        b.skip(1 + address_read_len(b.skip(1)) as int),
        10,
    ) is Some
}

/// Whether `incoming_readable` holds of `buf`: walks the address list without
/// reading it.
pub fn incoming_is_readable(buf: &[u8]) -> (r: bool)
    ensures
        r == incoming_readable(buf@),
{
    let len = buf.len();
    if len < 2 {
        return false;
    }
    let ghost t = buf@.skip(1);
    assert(t[0] == buf@[1]);
    let first: usize = if buf[1] == 4 {
        if len - 1 < 7 {
            return true;
        }
        7
    } else {
        if len - 1 < 45 {
            return true;
        }
        29
    };
    let ghost whole = skip_addresses(buf@.skip(1 + first), 10) is Some;
    let mut pos: usize = 1 + first;
    let mut i: u8 = 0;
    while i < 10
        invariant
            1 + first <= pos <= len,
            len == buf@.len(),
            i <= 10,
            whole == (skip_addresses(buf@.skip(pos as int), (10 - i) as nat) is Some),
            whole == (skip_addresses(buf@.skip(1 + first), 10) is Some),
            address_readable(buf@.skip(1)),
            first == address_read_len(buf@.skip(1)),
        decreases 10 - i,
    {
        let ghost r = buf@.skip(pos as int);
        let ghost k = (10 - i) as nat;
        assert(k > 0);
        if pos == len {
            assert(skip_addresses(r, k) is None);
            return false;
        }
        assert(r[0] == buf@[pos as int]);
        if buf[pos] == 4 {
            if len - pos < 7 {
                assert(skip_addresses(r, k) == Some(None::<nat>));
                return true;
            }
            assert(r.skip(7) =~= buf@.skip(pos + 7));
            pos = pos + 7;
        } else {
            if len - pos < 45 {
                assert(skip_addresses(r, k) == Some(None::<nat>));
                return true;
            }
            assert(r.skip(29) =~= buf@.skip(pos + 29));
            pos = pos + 29;
        }
        assert((10 - (i + 1)) as nat == (k - 1) as nat);
        i = i + 1;
    }
    true
}

pub open spec fn incoming_ok(b: Seq<u8>) -> bool {
    let k: int = 1 + address_read_len(b.skip(1)) as int;
    &&& b.len() >= 2
    &&& address_readable(b.skip(1))
    &&& skip_addresses(b.skip(k), 10) matches Some(Some(m)) && b.len() >= k + m + 16
}

pub open spec fn incoming_is(b: Seq<u8>, p: NewIncomingConnection) -> bool {
    let k: int = 1 + address_read_len(b.skip(1)) as int;
    &&& skip_addresses(b.skip(k), 10) matches Some(Some(m))
    &&& address_read_value(b.skip(1), p.server_address)
    &&& p.request_timestamp == i64_at(b, k + m)
    &&& p.accepted_timestamp == i64_at(b, k + m + 8)
}

proof fn lemma_skip_addresses_len(r: Seq<u8>, k: nat)
    ensures
        skip_addresses(r, k) matches Some(Some(m)) ==> m <= r.len(),
    decreases k,
{
    if k > 0 && r.len() > 0 && address_readable(r) {
        lemma_skip_addresses_len(r.skip(address_read_len(r) as int), (k - 1) as nat);
    }
}

fn skip_address_list(cursor: &mut RaknetReader, k: u8) -> (r: Result<(), RaknetError>)
    requires
        skip_addresses(old(cursor).rest(), k as nat) is Some,
    ensures
        skip_addresses(old(cursor).rest(), k as nat) matches Some(o) && match o {
            None => r == Err::<(), RaknetError>(RaknetError::ReadPacketBufferError),
            Some(m) => r is Ok && final(cursor).moved(old(cursor), m),
        },
{
    let ghost r0 = cursor.rest();
    let ghost c0 = cursor.offset();
    let mut i: u8 = 0;
    while i < k
        invariant
            i <= k,
            cursor.offset() >= c0,
            cursor.content() == old(cursor).content(),
            c0 == old(cursor).offset(),
            r0 == old(cursor).rest(),
            skip_addresses(r0, k as nat) is Some,
            skip_addresses(r0, k as nat) == add_used(
                (cursor.offset() - c0) as nat,
                skip_addresses(cursor.rest(), (k - i) as nat),
            ),
        decreases k - i,
    {
        let ghost ri = cursor.rest();
        let _ = cursor.read_address()?;
        assert(cursor.rest() =~= ri.skip(address_read_len(ri) as int));
        i = i + 1;
    }
    Ok(())
}

pub fn read_packet_new_incomming_connection(buf: &[u8]) -> (r: Result<
    NewIncomingConnection,
    RaknetError,
>)
    requires
        incoming_readable(buf@),
    ensures
        !incoming_ok(buf@) ==> r == short::<NewIncomingConnection>(),
        incoming_ok(buf@) ==> (r matches Ok(p) && incoming_is(buf@, p)),
{
    let mut cursor = RaknetReader::new(slice_to_vec(buf));
    cursor.read_u8()?;
    assert(cursor.rest() =~= buf@.skip(1));
    let server_address = cursor.read_address()?;
    let ghost k: int = 1 + address_read_len(buf@.skip(1)) as int;
    assert(cursor.rest() =~= buf@.skip(k));
    skip_address_list(&mut cursor, 10)?;
    let ghost m: int = skip_addresses(buf@.skip(k), 10)->0->0 as int;
    proof {
        lemma_skip_addresses_len(buf@.skip(k), 10);
    }
    assert(cursor.rest() =~= buf@.skip(k + m));
    let request_timestamp = cursor.read_i64(Endian::Big)?;
    assert(cursor.rest() =~= buf@.skip(k + m + 8));
    let accepted_timestamp = cursor.read_i64(Endian::Big)?;
    assert(buf@.skip(k + m).take(8) =~= buf@.subrange(k + m, k + m + 8));
    assert(buf@.skip(k + m + 8).take(8) =~= buf@.subrange(k + m + 8, k + m + 16));
    Ok(NewIncomingConnection { server_address, request_timestamp, accepted_timestamp })
}

pub fn write_packet_new_incomming_connection(packet: &NewIncomingConnection) -> (r: Result<
    Vec<u8>,
    RaknetError,
>)
    ensures
        r matches Ok(v) && v@ == incoming_bytes(*packet),
{
    let mut cursor = RaknetWriter::new();
    cursor.write_u8(PacketID::NewIncomingConnection.to_u8())?;
    cursor.write_address(packet.server_address)?;
    let tmp_address = Address::V4([0, 0, 0, 0], 0);
    assert(tmp_address == incoming_filler());
    write_addresses(&mut cursor, tmp_address, 10)?;
    proof {
        lemma_repeat_len(address_bytes(incoming_filler()), 10);
    }
    cursor.write_i64(packet.request_timestamp, Endian::Big)?;
    cursor.write_i64(packet.accepted_timestamp, Endian::Big)?;
    assert(cursor@ =~= incoming_bytes(*packet));
    Ok(cursor.get_raw_payload())
}

proof fn lemma_skip_filler(k: nat, tail: Seq<u8>)
    ensures
        skip_addresses(repeat_bytes(address_bytes(incoming_filler()), k) + tail, k) == Some(
            Some(7 * k),
        ),
    decreases k,
{
    if k > 0 {
        let x = address_bytes(incoming_filler());
        let rest = repeat_bytes(x, (k - 1) as nat) + tail;
        lemma_skip_filler((k - 1) as nat, tail);
        let b = repeat_bytes(x, k) + tail;
        assert(b =~= x + rest);
        crate::datatype::lemma_address_v4_roundtrip([0u8, 0, 0, 0], 0, rest);
        assert(b.skip(7) =~= rest);
    }
}

/// Law: a new incoming connection with an IPv4 server address reads back as written.
pub proof fn lemma_incoming_roundtrip(p: NewIncomingConnection)
    requires
        p.server_address is V4,
    ensures
        incoming_readable(incoming_bytes(p)),
        incoming_ok(incoming_bytes(p)),
        forall|q: NewIncomingConnection| incoming_is(incoming_bytes(p), q) ==> q == p,
{
    let b = incoming_bytes(p);
    let times = i64_bytes(p.request_timestamp) + i64_bytes(p.accepted_timestamp);
    let fill = repeat_bytes(address_bytes(incoming_filler()), 10);
    let tail = fill + times;
    lemma_pow256_values();
    lemma_signed_roundtrip(p.request_timestamp as int, 8);
    lemma_roundtrip(to_unsigned(p.request_timestamp as int, 8), 8);
    lemma_signed_roundtrip(p.accepted_timestamp as int, 8);
    lemma_roundtrip(to_unsigned(p.accepted_timestamp as int, 8), 8);
    assert(b.skip(1) =~= address_bytes(p.server_address) + tail);
    lemma_address_in(b, 1, p.server_address, tail);
    assert(b.skip(8) =~= fill + times);
    lemma_skip_filler(10, times);
    lemma_repeat_len(address_bytes(incoming_filler()), 10);
    assert(b.subrange(78, 86) =~= i64_bytes(p.request_timestamp));
    assert(b.subrange(86, 94) =~= i64_bytes(p.accepted_timestamp));
}

} // verus!
