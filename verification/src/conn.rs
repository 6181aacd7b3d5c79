//! What a connection does with each message it receives once the reliability
//! layer has put it in order.
use vstd::prelude::*;
use crate::arq::{Reliability, reliability_of, flags_code, lemma_flags_for};
use crate::datatype::{Address, address_bytes};
use crate::error::RaknetError;
use crate::packet::{
    PacketID, packet_id_of, ConnectionRequestAccepted, NewIncomingConnection, ConnectedPing,
    ConnectedPong, connection_request_of, accepted_ok, accepted_bytes, incoming_bytes,
    incoming_ok, incoming_readable, connected_ping_of, connected_ping_bytes,
    connected_pong_bytes, read_packet_connection_request, read_packet_connection_request_accepted,
    read_packet_new_incomming_connection, read_packet_connected_ping,
    write_packet_connection_request_accepted, write_packet_new_incomming_connection,
    write_packet_connected_ping, write_packet_connected_pong, short, repeat_bytes,
    accepted_filler, incoming_filler, lemma_repeat_len, incoming_is_readable,
};
use crate::send::{SendQ, SendView, queued, too_large, message_frames, splits, max_payload, room_for_replies};
use crate::packet::{
    PacketUnconnectedPong, OpenConnectionReply1, OpenConnectionReply2, AlreadyConnected,
    IncompatibleProtocolVersion, ConnectionRequest, Ack, Nack, ping_of, pong_bytes, request_1_of,
    request_1_readable, request_2_ok, request_2_readable, reply_1_bytes, reply_1_of, reply_2_ok,
    reply_2_readable, reply_2_bytes, already_connected_bytes, incompatible_bytes,
    connection_request_bytes, ack_bytes, be_at, read_packet_ping,
    read_packet_connection_open_request_1, read_packet_connection_open_request_2,
    read_packet_connection_open_reply_1, read_packet_connection_open_reply_2,
    read_packet_incompatible_protocol_version, write_packet_pong,
    write_packet_connection_open_reply_1, write_packet_connection_open_reply_2,
    write_packet_already_connected, write_packet_incompatible_protocol_version,
    write_packet_connection_request, write_packet_ack, write_packet_nack,
};
use crate::datatype::address_read_len;
use crate::utils::{RAKNET_PROTOCOL_VERSION, RAKNET_CLIENT_MTU, RECEIVE_TIMEOUT};
use vstd::utf8::encode_utf8;
use crate::send::{after_ack, after_nack, ack_ok, nack_ok};
use crate::packet::{PacketUnconnectedPong as Pong, read_packet_pong, pong_of, pong_readable};
use rand::Rng;
use rand::rngs::ThreadRng;

verus! {

broadcast use crate::codec::group_encoding_len;

/// What becomes of a message once the connection has handled it.
#[derive(Debug, Clone, Copy, PartialEq, Eq, Structural)]
pub enum FrameAction {
    /// The protocol answered it, or needed no answer.
    Handled,
    /// The server accepted the connection: the handshake is over.
    Connected,
    /// User data: its payload goes to the user.
    Deliver,
    /// The peer closed the connection.
    Disconnect,
}

/// The send queue after a message is queued with reliability `r`, and the answer
/// of the queue: a message of another reliability than reliable-ordered that does
/// not fit is refused and leaves the queue as it was.
pub open spec fn queue_reply(q: SendView, r: Reliability, b: Seq<u8>) -> (Result<(), RaknetError>, SendView) {
    if too_large(q, r, b.len()) {
        (Err(RaknetError::PacketSizeExceedMTU), q)
    } else {
        (Ok(()), queued(q, r, b))
    }
}

/// The acceptance a server sends for a connection request made at `request_time`.
pub open spec fn acceptance(peer: Address, request_time: i64, now: i64) -> Seq<u8> {
    accepted_bytes(
        ConnectionRequestAccepted {
            client_address: peer,
            system_index: 0,
            request_timestamp: request_time,
            accepted_timestamp: now,
        },
    )
}

/// The message a client sends once its connection is accepted.
pub open spec fn incoming(local: Address, now: i64) -> Seq<u8> {
    incoming_bytes(
        NewIncomingConnection { server_address: local, request_timestamp: 0, accepted_timestamp: now },
    )
}

/// What handling the message `data` at `now` answers, and the send queue after it:
/// a connection request is answered by an acceptance, an acceptance by a new
/// incoming connection and a ping, a ping by a pong; a disconnect closes; any other
/// known message is user data.
pub open spec fn frame_outcome(data: Seq<u8>, peer: Address, local: Address, now: i64, q: SendView) -> (
    Result<FrameAction, RaknetError>,
    SendView,
) {
    match packet_id_of(data[0]) {
        None => (Err(RaknetError::IncorrectPacketID), q),
        Some(PacketID::ConnectionRequest) => match connection_request_of(data) {
            None => (short(), q),
            Some(p) => (
                Ok(FrameAction::Handled),
                queued(q, Reliability::ReliableOrdered, acceptance(peer, p.time, now)),
            ),
        },
        Some(PacketID::ConnectionRequestAccepted) => {
            if !accepted_ok(data) {
                (short(), q)
            } else {
                let q1 = queued(q, Reliability::ReliableOrdered, incoming(local, now));
                let (r, q2) = queue_reply(
                    q1,
                    Reliability::Unreliable,
                    connected_ping_bytes(ConnectedPing { client_timestamp: now }),
                );
                match r {
                    Ok(_) => (Ok(FrameAction::Connected), q2),
                    Err(e) => (Err(e), q2),
                }
            }
        },
        Some(PacketID::NewIncomingConnection) => {
            if incoming_ok(data) {
                (Ok(FrameAction::Handled), q)
            } else {
                (short(), q)
            }
        },
        Some(PacketID::ConnectedPing) => match connected_ping_of(data) {
            None => (short(), q),
            Some(p) => {
                let (r, q1) = queue_reply(
                    q,
                    Reliability::Unreliable,
                    connected_pong_bytes(
                        ConnectedPong { client_timestamp: p.client_timestamp, server_timestamp: now },
                    ),
                );
                match r {
                    Ok(_) => (Ok(FrameAction::Handled), q1),
                    Err(e) => (Err(e), q1),
                }
            },
        },
        Some(PacketID::ConnectedPong) => (Ok(FrameAction::Handled), q),
        Some(PacketID::Disconnect) => (Ok(FrameAction::Disconnect), q),
        Some(_) => (Ok(FrameAction::Deliver), q),
    }
}

/// Whether handling `data` reads it without running out of bytes mid-field.
pub open spec fn frame_readable(data: Seq<u8>) -> bool {
    &&& data.len() >= 1
    &&& packet_id_of(data[0]) == Some(PacketID::ConnectionRequest) ==> data.len() != 17
    &&& packet_id_of(data[0]) == Some(PacketID::ConnectionRequestAccepted) ==> data.len() >= 2
    &&& packet_id_of(data[0]) == Some(PacketID::NewIncomingConnection) ==> incoming_readable(data)
}

/// Law: a client handling the server's acceptance queues its new incoming
/// connection as a reliable-ordered message, so it is resent until acknowledged:
/// the first frame the handling adds to the send queue is reliable-ordered and
/// carries the ordered index due, and the ordered index advances by one.
pub proof fn lemma_acceptance_answered_reliably(
    data: Seq<u8>,
    peer: Address,
    local: Address,
    now: i64,
    q: SendView,
)
    requires
        data.len() >= 1,
        data[0] == 0x10,
        accepted_ok(data),
        q.mtu > 60,
        q.ordered_frame_index < u32::MAX,
    ensures
        ({
            let q2 = frame_outcome(data, peer, local, now, q).1;
            &&& q2.packets.len() > q.packets.len()
            &&& q2.packets.subrange(0, q.packets.len() as int) == q.packets
            &&& reliability_of(flags_code(q2.packets[q.packets.len() as int].flags)) == Some(
                Reliability::ReliableOrdered,
            )
            &&& q2.packets[q.packets.len() as int].ordered_frame_index == q.ordered_frame_index
            &&& q2.ordered_frame_index == q.ordered_frame_index + 1
        }),
{
    let inc = incoming(local, now);
    let q1 = queued(q, Reliability::ReliableOrdered, inc);
    let mf = message_frames(q, Reliability::ReliableOrdered, inc);
    lemma_flags_for(Reliability::ReliableOrdered);
    if splits(q, Reliability::ReliableOrdered, inc.len()) {
        let max = max_payload(q.mtu) as nat;
        assert(inc.len() / max >= 1) by (nonlinear_arith)
            requires
                0 < max <= inc.len(),
        ;
        assert(mf.len() >= 1);
    }
    assert(mf.len() >= 1);
    assert(q1.packets[q.packets.len() as int] == mf[0]);
    assert(q1.packets.subrange(0, q.packets.len() as int) =~= q.packets);
    let (r, q2) = queue_reply(
        q1,
        Reliability::Unreliable,
        connected_ping_bytes(ConnectedPing { client_timestamp: now }),
    );
    if r is Ok {
        let pf = message_frames(q1, Reliability::Unreliable, connected_ping_bytes(ConnectedPing { client_timestamp: now }));
        assert(q2.packets == q1.packets + pf);
        assert(q2.packets[q.packets.len() as int] == q1.packets[q.packets.len() as int]);
        assert(q2.packets.subrange(0, q.packets.len() as int) =~= q.packets);
    }
}

/// Whether `frame_readable` holds of `data`.
pub fn frame_is_readable(data: &[u8]) -> (r: bool)
    ensures
        r == frame_readable(data@),
{
    if data.len() < 1 {
        return false;
    }
    match PacketID::from(data[0]) {
        Ok(PacketID::ConnectionRequest) => data.len() != 17,
        Ok(PacketID::ConnectionRequestAccepted) => data.len() >= 2,
        Ok(PacketID::NewIncomingConnection) => incoming_is_readable(data),
        _ => true,
    }
}

proof fn lemma_address_len(a: Address)
    ensures
        address_bytes(a).len() <= 28,
{
}

proof fn lemma_reply_lens(peer: Address, local: Address, t: i64, now: i64)
    ensures
        acceptance(peer, t, now).len() <= 256,
        incoming(local, now).len() <= 256,
{
    lemma_address_len(peer);
    lemma_address_len(local);
    lemma_repeat_len(address_bytes(accepted_filler()), 10);
    lemma_repeat_len(address_bytes(incoming_filler()), 10);
}

proof fn lemma_frames_len(q: SendView, r: Reliability, b: Seq<u8>)
    requires
        q.mtu > 60,
    ensures
        message_frames(q, r, b).len() <= b.len() + 1,
{
    if splits(q, r, b.len()) {
        let max = max_payload(q.mtu) as nat;
        assert(b.len() / max <= b.len()) by (nonlinear_arith)
            requires
                max > 0,
        ;
    }
}

/// Handles one message delivered in order: answers what the protocol answers, by
/// queueing on `sendq`, and says what else becomes of it.
pub fn handle_frame(
    data: &[u8],
    peer: Address,
    local: Address,
    now: i64,
    sendq: &mut SendQ,
) -> (r: Result<FrameAction, RaknetError>)
    requires
        frame_readable(data@),
        old(sendq).wf(),
        room_for_replies(old(sendq)@),
    ensures
        final(sendq).wf(),
        (r, final(sendq)@) == frame_outcome(data@, peer, local, now, old(sendq)@),
{
    let id = PacketID::from(data[0])?;
    match id {
        PacketID::ConnectionRequest => {
            let packet = read_packet_connection_request(data)?;
            let reply = ConnectionRequestAccepted {
                client_address: peer,
                system_index: 0,
                request_timestamp: packet.time,
                accepted_timestamp: now,
            };
            let buf = write_packet_connection_request_accepted(&reply)?;
            proof {
                lemma_reply_lens(peer, local, packet.time, now);
                lemma_frames_len(sendq@, Reliability::ReliableOrdered, buf@);
            }
            sendq.insert(Reliability::ReliableOrdered, buf.as_slice())?;
            Ok(FrameAction::Handled)
        },
        PacketID::ConnectionRequestAccepted => {
            let packet = read_packet_connection_request_accepted(data)?;
            let reply = NewIncomingConnection {
                server_address: local,
                request_timestamp: packet.request_timestamp,
                accepted_timestamp: now,
            };
            let buf = write_packet_new_incomming_connection(&reply)?;
            proof {
                assert(packet.request_timestamp == 0);
                assert(buf@ == incoming(local, now));
                lemma_reply_lens(peer, local, 0, now);
                lemma_frames_len(sendq@, Reliability::ReliableOrdered, buf@);
            }
            sendq.insert(Reliability::ReliableOrdered, buf.as_slice())?;
            // A connected ping always follows the new incoming connection.
            let ping = ConnectedPing { client_timestamp: now };
            let buf = write_packet_connected_ping(&ping)?;
            sendq.insert(Reliability::Unreliable, buf.as_slice())?;
            Ok(FrameAction::Connected)
        },
        PacketID::NewIncomingConnection => {
            let _packet = read_packet_new_incomming_connection(data)?;
            Ok(FrameAction::Handled)
        },
        PacketID::ConnectedPing => {
            let packet = read_packet_connected_ping(data)?;
            let reply = ConnectedPong {
                client_timestamp: packet.client_timestamp,
                server_timestamp: now,
            };
            let buf = write_packet_connected_pong(&reply)?;
            sendq.insert(Reliability::Unreliable, buf.as_slice())?;
            Ok(FrameAction::Handled)
        },
        PacketID::ConnectedPong => Ok(FrameAction::Handled),
        PacketID::Disconnect => Ok(FrameAction::Disconnect),
        _ => Ok(FrameAction::Deliver),
    }
}


/// What a listening server does with one datagram from `addr`.
pub enum ListenerAction {
    /// Nothing.
    Ignore,
    /// Send these bytes back to the sender.
    Reply(Vec<u8>),
    /// Send these bytes back and open a session of this MTU for the sender.
    Accept(Vec<u8>, u16),
    /// Pass the datagram to the sender's session.
    Forward,
    /// Pass the datagram to the sender's session and end the session.
    Close,
}

/// A listener's action, with the bytes as sequences.
pub enum ListenerDecision {
    Ignore,
    Reply(Seq<u8>),
    Accept(Seq<u8>, u16),
    Forward,
    Close,
}

impl View for ListenerAction {
    type V = ListenerDecision;

    open spec fn view(&self) -> ListenerDecision {
        match self {
            ListenerAction::Ignore => ListenerDecision::Ignore,
            ListenerAction::Reply(b) => ListenerDecision::Reply(b@),
            ListenerAction::Accept(b, m) => ListenerDecision::Accept(b@, *m),
            ListenerAction::Forward => ListenerDecision::Forward,
            ListenerAction::Close => ListenerDecision::Close,
        }
    }
}

/// Where the MTU sits in an open connection request 2.
pub open spec fn request_2_mtu(b: Seq<u8>) -> u16 {
    be_at(b, 17 + address_read_len(b.skip(17)) as int, 2) as u16
}

/// What a listening server with GUID `guid` and motd `motd` does at `now` with the
/// datagram `b` from `addr`: pings are answered with a pong, a first open request
/// with the server's MTU or, for another protocol version, a refusal, a second
/// open request with a session (or the news that one exists); a disconnect ends the
/// sender's session; anything else goes to it. Datagrams that do not parse are dropped.
pub open spec fn listener_decision(
    b: Seq<u8>,
    addr: Address,
    guid: u64,
    motd: Seq<char>,
    now: i64,
    has_session: bool,
) -> ListenerDecision {
    match packet_id_of(b[0]) {
        None => ListenerDecision::Ignore,
        Some(PacketID::UnconnectedPing1) | Some(PacketID::UnconnectedPing2) => {
            if ping_of(b) is Some {
                ListenerDecision::Reply(pong_bytes(now, guid, encode_utf8(motd)))
            } else {
                ListenerDecision::Ignore
            }
        },
        Some(PacketID::OpenConnectionRequest1) => match request_1_of(b) {
            None => ListenerDecision::Ignore,
            Some(req) => if req.protocol_version != RAKNET_PROTOCOL_VERSION {
                ListenerDecision::Reply(
                    incompatible_bytes(
                        IncompatibleProtocolVersion {
                            server_protocol: RAKNET_PROTOCOL_VERSION,
                            magic: true,
                            server_guid: guid,
                        },
                    ),
                )
            } else {
                ListenerDecision::Reply(
                    reply_1_bytes(
                        OpenConnectionReply1 {
                            magic: true,
                            guid,
                            use_encryption: 0,
                            mtu_size: RAKNET_CLIENT_MTU,
                        },
                    ),
                )
            },
        },
        Some(PacketID::OpenConnectionRequest2) => {
            if !request_2_ok(b) {
                ListenerDecision::Ignore
            } else if has_session {
                ListenerDecision::Reply(already_connected_bytes(AlreadyConnected { magic: true, guid }))
            } else {
                ListenerDecision::Accept(
                    reply_2_bytes(
                        OpenConnectionReply2 {
                            magic: true,
                            guid,
                            address: addr,
                            mtu: request_2_mtu(b),
                            encryption_enabled: 0,
                        },
                    ),
                    request_2_mtu(b),
                )
            }
        },
        Some(PacketID::Disconnect) => if has_session {
            ListenerDecision::Close
        } else {
            ListenerDecision::Ignore
        },
        Some(_) => if has_session {
            ListenerDecision::Forward
        } else {
            ListenerDecision::Ignore
        },
    }
}

/// Law: an unconnected ping, whether its id byte is 0x01 or 0x02, that is long
/// enough to read is answered with a pong carrying the server's time `now`, its
/// GUID and its motd, whatever the session state.
pub proof fn lemma_pings_answered(
    b: Seq<u8>,
    addr: Address,
    guid: u64,
    motd: Seq<char>,
    now: i64,
    has_session: bool,
)
    requires
        b.len() >= 33,
        b[0] == 0x01 || b[0] == 0x02,
    ensures
        listener_decision(b, addr, guid, motd, now, has_session) == ListenerDecision::Reply(
            pong_bytes(now, guid, encode_utf8(motd)),
        ),
{
}

/// Whether a listener reads datagram `b` without running out of bytes mid-field.
pub open spec fn listener_readable(b: Seq<u8>) -> bool {
    &&& b.len() >= 1
    &&& packet_id_of(b[0]) == Some(PacketID::OpenConnectionRequest1) ==> request_1_readable(b)
    &&& packet_id_of(b[0]) == Some(PacketID::OpenConnectionRequest2) ==> request_2_readable(b)
}

/// Whether `listener_readable` holds of `buf`.
pub fn listener_is_readable(buf: &[u8]) -> (r: bool)
    ensures
        r == listener_readable(buf@),
{
    let len = buf.len();
    if len < 1 {
        return false;
    }
    match PacketID::from(buf[0]) {
        Ok(PacketID::OpenConnectionRequest1) => len != 17 && (len < 18 || len <= 65535 - 28),
        Ok(PacketID::OpenConnectionRequest2) => len != 17,
        _ => true,
    }
}

/// Decides what a listening server does with the datagram `buf` from `addr`;
/// `has_session` tells whether `addr` already has a session.
pub fn listener_action(
    buf: &[u8],
    addr: Address,
    guid: u64,
    motd: String,
    now: i64,
    has_session: bool,
) -> (r: ListenerAction)
    requires
        listener_readable(buf@),
        encode_utf8(motd@).len() + 64 <= isize::MAX,
    ensures
        r@ == listener_decision(buf@, addr, guid, motd@, now, has_session),
{
    let id = match PacketID::from(buf[0]) {
        Ok(p) => p,
        Err(_) => {
            return ListenerAction::Ignore;
        },
    };
    match id {
        PacketID::UnconnectedPing1 | PacketID::UnconnectedPing2 => {
            if read_packet_ping(buf).is_err() {
                return ListenerAction::Ignore;
            }
            let packet = PacketUnconnectedPong { time: now, guid, magic: true, motd };
            match write_packet_pong(&packet) {
                Ok(pong) => ListenerAction::Reply(pong),
                Err(_) => ListenerAction::Ignore,
            }
        },
        PacketID::OpenConnectionRequest1 => {
            let req = match read_packet_connection_open_request_1(buf) {
                Ok(p) => p,
                Err(_) => {
                    return ListenerAction::Ignore;
                },
            };
            if req.protocol_version != RAKNET_PROTOCOL_VERSION {
                let packet = IncompatibleProtocolVersion {
                    server_protocol: RAKNET_PROTOCOL_VERSION,
                    magic: true,
                    server_guid: guid,
                };
                return match write_packet_incompatible_protocol_version(&packet) {
                    Ok(b) => ListenerAction::Reply(b),
                    Err(_) => ListenerAction::Ignore,
                };
            }
            let packet = OpenConnectionReply1 {
                magic: true,
                guid,
                // No encryption: the login sequence goes on only without it.
                use_encryption: 0x00,
                mtu_size: RAKNET_CLIENT_MTU,
            };
            match write_packet_connection_open_reply_1(&packet) {
                Ok(b) => ListenerAction::Reply(b),
                Err(_) => ListenerAction::Ignore,
            }
        },
        PacketID::OpenConnectionRequest2 => {
            let req = match read_packet_connection_open_request_2(buf) {
                Ok(p) => p,
                Err(_) => {
                    return ListenerAction::Ignore;
                },
            };
            let packet = OpenConnectionReply2 {
                magic: true,
                guid,
                address: addr,
                mtu: req.mtu,
                encryption_enabled: 0x00,
            };
            let reply = match write_packet_connection_open_reply_2(&packet) {
                Ok(p) => p,
                Err(_) => {
                    return ListenerAction::Ignore;
                },
            };
            if has_session {
                return match write_packet_already_connected(&AlreadyConnected { magic: true, guid }) {
                    Ok(b) => ListenerAction::Reply(b),
                    Err(_) => ListenerAction::Ignore,
                };
            }
            ListenerAction::Accept(reply, req.mtu)
        },
        PacketID::Disconnect => {
            if has_session {
                ListenerAction::Close
            } else {
                ListenerAction::Ignore
            }
        },
        _ => {
            if has_session {
                ListenerAction::Forward
            } else {
                ListenerAction::Ignore
            }
        },
    }
}

/// What a client makes of the answer `reply` to its first open request: the
/// server's reply to go on with, `None` to ask again, or the reason to give up.
pub open spec fn reply_1_outcome(reply: Seq<u8>) -> Result<Option<OpenConnectionReply1>, RaknetError> {
    if reply[0] != 0x06 {
        if reply[0] == 0x19 {
            Err(RaknetError::NotSupportVersion)
        } else {
            Ok(None)
        }
    } else {
        match reply_1_of(reply) {
            Some(p) => Ok(Some(p)),
            None => Err(RaknetError::PacketParseError),
        }
    }
}

/// Judges the answer to a client's first open request. A refusal of the protocol
/// version is read from the first `reply.len()` bytes of the request itself, and
/// whatever that gives, the client gives up.
pub fn open_reply_1_step(reply: &[u8], request: &[u8]) -> (r: Result<
    Option<OpenConnectionReply1>,
    RaknetError,
>)
    requires
        reply@.len() >= 1,
        reply@[0] == 0x06 ==> reply@.len() != 25,
        reply@[0] == 0x19 ==> 2 <= reply@.len() <= request@.len(),
    ensures
        r == reply_1_outcome(reply@),
{
    if reply[0] != 0x06 {
        if reply[0] == 0x19 {
            let _packet = match read_packet_incompatible_protocol_version(
                vstd::slice::slice_subrange(request, 0, reply.len()),
            ) {
                Ok(p) => p,
                Err(_) => {
                    return Err(RaknetError::NotSupportVersion);
                },
            };
            return Err(RaknetError::NotSupportVersion);
        }
        return Ok(None);
    }
    match read_packet_connection_open_reply_1(reply) {
        Ok(p) => Ok(Some(p)),
        Err(_) => Err(RaknetError::PacketParseError),
    }
}

/// What a client makes of the answer to its second open request: `true` to go on,
/// `false` to ask again, or the reason to give up.
pub open spec fn reply_2_outcome(reply: Seq<u8>) -> Result<bool, RaknetError> {
    if reply[0] != 0x08 {
        Ok(false)
    } else if reply_2_ok(reply) {
        Ok(true)
    } else {
        Err(RaknetError::PacketParseError)
    }
}

/// Judges the answer to a client's second open request; a repeated first reply is
/// waited past.
pub fn open_reply_2_step(reply: &[u8]) -> (r: Result<bool, RaknetError>)
    requires
        reply@.len() >= 1,
        reply@[0] == 0x08 ==> reply_2_readable(reply@),
    ensures
        r == reply_2_outcome(reply@),
{
    if reply[0] == 0x06 {
        return Ok(false);
    }
    if reply[0] != 0x08 {
        return Ok(false);
    }
    match read_packet_connection_open_reply_2(reply) {
        Ok(_) => Ok(true),
        Err(_) => Err(RaknetError::PacketParseError),
    }
}

/// Queues the connection request a client sends once the open requests are
/// answered, made at `now` by the client `guid`.
pub fn queue_connection_request(sendq: &mut SendQ, guid: u64, now: i64) -> (r: Result<(), RaknetError>)
    requires
        old(sendq).wf(),
        room_for_replies(old(sendq)@),
    ensures
        final(sendq).wf(),
        r is Ok,
        final(sendq)@ == queued(
            old(sendq)@,
            Reliability::ReliableOrdered,
            connection_request_bytes(ConnectionRequest { guid, time: now, use_encryption: 0 }),
        ),
{
    let packet = ConnectionRequest { guid, time: now, use_encryption: 0x00 };
    let buf = write_packet_connection_request(&packet)?;
    proof {
        lemma_frames_len(sendq@, Reliability::ReliableOrdered, buf@);
    }
    sendq.insert(Reliability::ReliableOrdered, buf.as_slice())
}

/// Checks a message the user wants to send: it must begin with the game byte 0xfe,
/// and the connection must still be open.
pub fn check_user_message(buf: &[u8], closed: bool) -> (r: Result<(), RaknetError>)
    ensures
        r == (if buf@.len() == 0 || buf@[0] != 0xfe {
            Err::<(), RaknetError>(RaknetError::PacketHeaderError)
        } else if closed {
            Err(RaknetError::ConnectionClosed)
        } else {
            Ok(())
        }),
{
    if buf.len() == 0 {
        return Err(RaknetError::PacketHeaderError);
    }
    if buf[0] != 0xfe {
        return Err(RaknetError::PacketHeaderError);
    }
    if closed {
        return Err(RaknetError::ConnectionClosed);
    }
    Ok(())
}

/// The acknowledgement (or, with `missing`, the negative acknowledgement) to send
/// for `records`; none when there are no records. The record count is taken modulo 2^16.
pub fn ack_datagram(records: Vec<(u32, u32)>, missing: bool) -> (r: Option<Vec<u8>>)
    ensures
        records@.len() == 0 ==> r is None,
        records@.len() > 0 ==> (r matches Some(v) && v@ == ack_bytes(
            if missing {
                0xa0u8
            } else {
                0xc0u8
            },
            (records@.len() % 0x1_0000) as u16,
            records@,
        )),
{
    if records.len() == 0 {
        return None;
    }
    let record_count = (records.len() % 65536) as u16;
    if missing {
        let packet = Nack { record_count, sequences: records };
        match write_packet_nack(&packet) {
            Ok(b) => Some(b),
            Err(_) => None,
        }
    } else {
        let packet = Ack { record_count, sequences: records };
        match write_packet_ack(&packet) {
            Ok(b) => Some(b),
            Err(_) => None,
        }
    }
}

/// What a connection does with a datagram, by its first byte.
#[derive(Debug, Clone, Copy, PartialEq, Eq, Structural)]
pub enum DatagramKind {
    Disconnect,
    Ack,
    Nack,
    FrameSet,
    Other,
}

/// Sorts a datagram of a connection by its first byte `b`.
pub fn datagram_kind(b: u8) -> (r: DatagramKind)
    ensures
        r == (if b == 0x15 {
            DatagramKind::Disconnect
        } else if b == 0xc0 {
            DatagramKind::Ack
        } else if b == 0xa0 {
            DatagramKind::Nack
        } else if 0x80 <= b <= 0x8d {
            DatagramKind::FrameSet
        } else {
            DatagramKind::Other
        }),
{
    if b == PacketID::Disconnect.to_u8() {
        DatagramKind::Disconnect
    } else if b == PacketID::Ack.to_u8() {
        DatagramKind::Ack
    } else if b == PacketID::Nack.to_u8() {
        DatagramKind::Nack
    } else if b >= PacketID::FrameSetPacketBegin.to_u8() && b <= PacketID::FrameSetPacketEnd.to_u8() {
        DatagramKind::FrameSet
    } else {
        DatagramKind::Other
    }
}

/// Whether a connection that last heard from its peer at `last` has heard nothing
/// for longer than the receive timeout at `now`.
pub fn heard_nothing_for_too_long(now: i64, last: i64) -> (r: bool)
    requires
        i64::MIN <= now - last <= i64::MAX,
    ensures
        r == (now - last > RECEIVE_TIMEOUT),
{
    now - last > RECEIVE_TIMEOUT
}


/// The send queue after acknowledging (or, with `missing`, reporting missing) the
/// sequence numbers from `lo` up to, not including, `hi`, in order.
pub open spec fn record_range(v: SendView, lo: u32, hi: int, now: i64, missing: bool) -> SendView
    decreases hi - lo,
{
    if lo < hi {
        let prev = record_range(v, lo, hi - 1, now, missing);
        if missing {
            after_nack(prev, (hi - 1) as u32, now)
        } else {
            after_ack(prev, (hi - 1) as u32, now)
        }
    } else {
        v
    }
}

/// Whether every step of `record_range` keeps the counters within their ranges.
pub open spec fn record_range_fits(v: SendView, lo: u32, hi: int, now: i64, missing: bool) -> bool
    decreases hi - lo,
{
    if lo < hi {
        let prev = record_range(v, lo, hi - 1, now, missing);
        record_range_fits(v, lo, hi - 1, now, missing) && if missing {
            nack_ok(prev)
        } else {
            ack_ok(prev, (hi - 1) as u32, now)
        }
    } else {
        true
    }
}

/// Applies one acknowledgement record (`missing`: one negative acknowledgement
/// record) at `now`: every sequence number from its first to its last, in order.
/// Stops and answers `false` as soon as a step would run a counter over.
pub fn apply_record(sendq: &mut SendQ, record: (u32, u32), now: i64, missing: bool) -> (ok: bool)
    requires
        old(sendq).wf(),
        record.1 < u32::MAX,
    ensures
        final(sendq).wf(),
        ok == record_range_fits(old(sendq)@, record.0, record.1 + 1, now, missing),
        ok ==> final(sendq)@ == record_range(old(sendq)@, record.0, record.1 + 1, now, missing),
{
    let lo = record.0;
    let hi = record.1 + 1;
    let ghost v0 = sendq@;
    if lo >= hi {
        return true;
    }
    let mut i: u32 = lo;
    while i < hi
        invariant
            lo <= i <= hi,
            v0 == old(sendq)@,
            lo == record.0,
            hi == record.1 + 1,
            sendq.wf(),
            sendq@ == record_range(v0, lo, i as int, now, missing),
            record_range_fits(v0, lo, i as int, now, missing),
        decreases hi - i,
    {
        if missing {
            if !sendq.nack_within_limits() {
                proof {
                    assert(!nack_ok(sendq@));
                    assert(!record_range_fits(v0, lo, i + 1, now, missing));
                    lemma_record_range_stops(v0, lo, i as int, hi as int, now, missing);
                }
                return false;
            }
            sendq.nack(i, now);
        } else {
            if !sendq.ack_within_limits(i, now) {
                proof {
                    assert(!ack_ok(sendq@, i, now));
                    assert(!record_range_fits(v0, lo, i + 1, now, missing));
                    lemma_record_range_stops(v0, lo, i as int, hi as int, now, missing);
                }
                return false;
            }
            sendq.ack(i, now);
        }
        i = i + 1;
    }
    true
}

proof fn lemma_record_range_stops(v: SendView, lo: u32, i: int, hi: int, now: i64, missing: bool)
    requires
        lo <= i < hi,
        !record_range_fits(v, lo, i + 1, now, missing),
    ensures
        !record_range_fits(v, lo, hi, now, missing),
    decreases hi - i,
{
    if hi > i + 1 {
        lemma_record_range_stops(v, lo, i, hi - 1, now, missing);
    }
}

/// The round trip of an unconnected ping sent at `sent_time`, and the server's motd,
/// from its answer `buf`; `None` when the answer does not read as a pong.
pub fn pong_latency(buf: &[u8], sent_time: i64) -> (r: Option<(i64, String)>)
    requires
        buf@.len() >= 1,
        pong_readable(buf@),
        pong_of(buf@) matches Some(f) ==> i64::MIN <= f.0 - sent_time <= i64::MAX,
    ensures
        pong_of(buf@) is None ==> r is None,
        pong_of(buf@) matches Some(f) ==> (r matches Some((t, m)) && t == f.0 - sent_time && m@
            == f.3),
{
    match read_packet_pong(buf) {
        Ok(p) => Some((p.time - sent_time, p.motd)),
        Err(_) => None,
    }
}

/// Queues the disconnect a socket sends when it is closed, unless it was closed before.
pub fn queue_close(sendq: &mut SendQ, closed: bool) -> (r: Result<(), RaknetError>)
    requires
        old(sendq).wf(),
        old(sendq)@.mtu >= 60,
        old(sendq)@.reliable_frame_index < u32::MAX,
    ensures
        final(sendq).wf(),
        closed ==> r is Ok && final(sendq)@ == old(sendq)@,
        !closed ==> (r, final(sendq)@) == queue_reply(old(sendq)@, Reliability::Reliable, seq![0x15u8]),
{
    if !closed {
        let buf: [u8; 1] = [PacketID::Disconnect.to_u8()];
        proof {
            assert(buf@ =~= seq![0x15u8]);
        }
        sendq.insert(Reliability::Reliable, &buf)?;
    }
    Ok(())
}

/// The thread-local random number generator of `rand`.
#[verifier::external_type_specification]
#[verifier::external_body]
pub struct ExThreadRng(rand::rngs::ThreadRng);

/// `rand::thread_rng`: the thread's random number generator. Nothing is stated of it.
#[verifier::external_body]
fn thread_rng() -> ThreadRng {
    rand::thread_rng()
}

/// `Rng::gen_range(0..high)`: a number below `high`, left to chance; the range must
/// not be empty.
#[verifier::external_body]
fn gen_below(rng: &mut ThreadRng, high: u8) -> (r: u8)
    requires
        high > 0,
    ensures
        r < high,
{
    rng.gen_range(0..high)
}

/// Whether a datagram survives the simulated loss of stage `loss_rate` for the draw
/// `draw`: when the draw is not above the stage.
pub open spec fn survives(draw: u8, loss_rate: u8) -> bool {
    draw <= loss_rate
}

/// The number of values a loss draw takes: 0 to 10.
pub const LOSS_DRAWS: u8 = 11;

/// Whether a datagram survives the simulated loss of stage `loss_rate`, for a draw
/// `draw` out of 0 to 10: it survives when the draw is not above the stage.
pub fn loss_keeps(draw: u8, loss_rate: u8) -> (r: bool)
    ensures
        r == survives(draw, loss_rate),
{
    draw <= loss_rate
}

/// Whether a datagram goes out: always without simulated loss; with it, when a
/// random draw from 0 to 10 is not above `loss_rate`. Stage 10 or more keeps all.
pub fn keeps_datagram(enable_loss: bool, loss_rate: u8) -> (r: bool)
    ensures
        !enable_loss ==> r,
        enable_loss ==> exists|d: u8| d < LOSS_DRAWS && r == #[trigger] survives(d, loss_rate),
        loss_rate >= 10 ==> r,
{
    if enable_loss {
        let mut rng = thread_rng();
        let draw = gen_below(&mut rng, LOSS_DRAWS);
        let r = loss_keeps(draw, loss_rate);
        assert(draw < LOSS_DRAWS && r == survives(draw, loss_rate));
        r
    } else {
        true
    }
}

} // verus!
