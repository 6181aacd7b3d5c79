//! Byte-level writer and reader for RakNet messages.
use vstd::prelude::*;
use vstd::string::StringSliceAdditionalSpecFns;
use vstd::slice::{slice_subrange, slice_to_vec};
use vstd::utf8::{valid_utf8, decode_utf8};
use crate::codec::{be_value, le_value};
use vstd::arithmetic::div_mod::lemma_div_denominator;
use crate::codec::{
    be_bytes, le_bytes, encode_uint, decode_uint, to_unsigned, to_signed, pow256,
    lemma_pow256_values, group_encoding_len,
};
use crate::error::RaknetError;
use crate::utils::Endian;
use crate::wire;

verus! {

broadcast use group_encoding_len;

/// The 16-byte "offline message" marker that unconnected RakNet messages carry.
pub open spec fn magic_bytes() -> Seq<u8> {
    seq![0x00u8, 0xff, 0xff, 0x00, 0xfe, 0xfe, 0xfe, 0xfe, 0xfd, 0xfd, 0xfd, 0xfd, 0x12, 0x34, 0x56, 0x78]
}

fn offline_magic() -> (r: [u8; 16])
    ensures
        r@ == magic_bytes(),
{
    let m: [u8; 16] = [
        0x00, 0xff, 0xff, 0x00, 0xfe, 0xfe, 0xfe, 0xfe, 0xfd, 0xfd, 0xfd, 0xfd, 0x12, 0x34, 0x56,
        0x78,
    ];
    assert(m@ =~= magic_bytes());
    m
}

/// A peer's network address as RakNet carries it: an IPv4 or IPv6 address and a port.
#[derive(Clone, Copy, Debug, PartialEq, Eq)]
pub enum Address {
    /// The four octets and the port.
    V4([u8; 4], u16),
    /// The sixteen octets and the port.
    V6([u8; 16], u16),
}

/// The bytes that encode `a`: IPv4 as version 4, the complemented octets and the port;
/// IPv6 as family 23, port, flow info 0, the sixteen octets and scope 0.
pub open spec fn address_bytes(a: Address) -> Seq<u8> {
    match a {
        Address::V4(octets, port) => seq![
            4u8,
            (0xff - octets[0]) as u8,
            (0xff - octets[1]) as u8,
            (0xff - octets[2]) as u8,
            (0xff - octets[3]) as u8,
        ] + be_bytes(port as nat, 2),
        Address::V6(octets, port) => le_bytes(23, 2) + be_bytes(port as nat, 2) + be_bytes(0, 4)
            + octets@ + be_bytes(0, 4),
    }
}

/// Accumulates the bytes of an outgoing message.
#[derive(Clone)]
pub struct RaknetWriter {
    buf: Vec<u8>,
}

impl View for RaknetWriter {
    type V = Seq<u8>;

    closed spec fn view(&self) -> Seq<u8> {
        self.buf@
    }
}

impl RaknetWriter {
    /// Whether `k` more bytes still fit the buffer.
    pub open spec fn room(&self, k: int) -> bool {
        self@.len() + k <= isize::MAX
    }

    pub fn new() -> (w: Self)
        ensures
            w@ == Seq::<u8>::empty(),
    {
        RaknetWriter { buf: Vec::new() }
    }

    pub fn write(&mut self, v: &[u8]) -> (r: Result<(), RaknetError>)
        requires
            old(self).room(v@.len() as int),
        ensures
            r is Ok,
            final(self)@ == old(self)@ + v@,
    {
        wire::put_slice(&mut self.buf, v);
        Ok(())
    }

    pub fn write_u8(&mut self, v: u8) -> (r: Result<(), RaknetError>)
        requires
            old(self).room(1),
        ensures
            r is Ok,
            final(self)@ == old(self)@.push(v),
    {
        wire::put_u8(&mut self.buf, v);
        Ok(())
    }

    pub fn write_i16(&mut self, v: i16, n: Endian) -> (r: Result<(), RaknetError>)
        requires
            old(self).room(2),
        ensures
            r is Ok,
            final(self)@ == old(self)@ + encode_uint(to_unsigned(v as int, 2), 2, n),
    {
        match n {
            Endian::Big => wire::put_i16(&mut self.buf, v),
            Endian::Little => wire::put_i16_le(&mut self.buf, v),
        }
        Ok(())
    }

    pub fn write_u16(&mut self, v: u16, n: Endian) -> (r: Result<(), RaknetError>)
        requires
            old(self).room(2),
        ensures
            r is Ok,
            final(self)@ == old(self)@ + encode_uint(v as nat, 2, n),
    {
        match n {
            Endian::Big => wire::put_u16(&mut self.buf, v),
            Endian::Little => wire::put_u16_le(&mut self.buf, v),
        }
        Ok(())
    }

    /// Writes the three low-order bytes of `v`.
    pub fn write_u24(&mut self, v: u32, n: Endian) -> (r: Result<(), RaknetError>)
        requires
            old(self).room(3),
        ensures
            r is Ok,
            final(self)@ == old(self)@ + encode_uint(v as nat, 3, n),
    {
        let b0 = (v % 256) as u8;
        let b1 = ((v / 256) % 256) as u8;
        let b2 = ((v / 65536) % 256) as u8;
        proof {
            lemma_div_denominator(v as int, 256, 256);
            reveal_with_fuel(be_bytes, 4);
            reveal_with_fuel(le_bytes, 4);
            assert(be_bytes(v as nat, 3) =~= seq![b2, b1, b0]);
            assert(le_bytes(v as nat, 3) =~= seq![b0, b1, b2]);
        }
        match n {
            Endian::Big => {
                wire::put_u8(&mut self.buf, b2);
                wire::put_u8(&mut self.buf, b1);
                wire::put_u8(&mut self.buf, b0);
            },
            Endian::Little => {
                wire::put_u8(&mut self.buf, b0);
                wire::put_u8(&mut self.buf, b1);
                wire::put_u8(&mut self.buf, b2);
            },
        }
        assert(self.buf@ =~= old(self)@ + encode_uint(v as nat, 3, n));
        Ok(())
    }

    pub fn write_u32(&mut self, v: u32, n: Endian) -> (r: Result<(), RaknetError>)
        requires
            old(self).room(4),
        ensures
            r is Ok,
            final(self)@ == old(self)@ + encode_uint(v as nat, 4, n),
    {
        match n {
            Endian::Big => wire::put_u32(&mut self.buf, v),
            Endian::Little => wire::put_u32_le(&mut self.buf, v),
        }
        Ok(())
    }

    pub fn write_i32(&mut self, v: i32, n: Endian) -> (r: Result<(), RaknetError>)
        requires
            old(self).room(4),
        ensures
            r is Ok,
            final(self)@ == old(self)@ + encode_uint(to_unsigned(v as int, 4), 4, n),
    {
        match n {
            Endian::Big => wire::put_i32(&mut self.buf, v),
            Endian::Little => wire::put_i32_le(&mut self.buf, v),
        }
        Ok(())
    }

    pub fn write_i64(&mut self, v: i64, n: Endian) -> (r: Result<(), RaknetError>)
        requires
            old(self).room(8),
        ensures
            r is Ok,
            final(self)@ == old(self)@ + encode_uint(to_unsigned(v as int, 8), 8, n),
    {
        match n {
            Endian::Big => wire::put_i64(&mut self.buf, v),
            Endian::Little => wire::put_i64_le(&mut self.buf, v),
        }
        Ok(())
    }

    /// Writes the offline-message marker and returns its length.
    pub fn write_magic(&mut self) -> (r: Result<usize, RaknetError>)
        requires
            old(self).room(16),
        ensures
            r == Ok::<usize, RaknetError>(16),
            final(self)@ == old(self)@ + magic_bytes(),
    {
        let magic = offline_magic();
        wire::put_slice(&mut self.buf, magic.as_slice());
        Ok(16)
    }

    pub fn write_u64(&mut self, v: u64, n: Endian) -> (r: Result<(), RaknetError>)
        requires
            old(self).room(8),
        ensures
            r is Ok,
            final(self)@ == old(self)@ + encode_uint(v as nat, 8, n),
    {
        match n {
            Endian::Big => wire::put_u64(&mut self.buf, v),
            Endian::Little => wire::put_u64_le(&mut self.buf, v),
        }
        Ok(())
    }

    /// Writes the UTF-8 length of `body` (modulo 2^16) as a big-endian `u16`, then its UTF-8 bytes.
    pub fn write_string(&mut self, body: &str) -> (r: Result<(), RaknetError>)
        requires
            old(self).room(2 + body.spec_bytes().len() as int),
        ensures
            r is Ok,
            final(self)@ == old(self)@ + be_bytes(body.spec_bytes().len() % 0x1_0000, 2)
                + body.spec_bytes(),
    {
        let raw = body.as_bytes();
        let len = (raw.len() % 65536) as u16;
        wire::put_u16(&mut self.buf, len);
        wire::put_slice(&mut self.buf, raw);
        assert(self.buf@ =~= old(self)@ + be_bytes(body.spec_bytes().len() % 0x1_0000, 2)
            + body.spec_bytes());
        Ok(())
    }

    pub fn write_address(&mut self, address: Address) -> (r: Result<(), RaknetError>)
        requires
            old(self).room(28),
        ensures
            r is Ok,
            final(self)@ == old(self)@ + address_bytes(address),
    {
        match address {
            Address::V4(octets, port) => {
                self.write_u8(0x4)?;
                self.write_u8(0xff - octets[0])?;
                self.write_u8(0xff - octets[1])?;
                self.write_u8(0xff - octets[2])?;
                self.write_u8(0xff - octets[3])?;
                self.write_u16(port, Endian::Big)?;
            },
            Address::V6(octets, port) => {
                self.write_i16(23, Endian::Little)?;
                self.write_u16(port, Endian::Big)?;
                self.write_i32(0, Endian::Big)?;
                self.write(octets.as_slice())?;
                self.write_i32(0, Endian::Big)?;
            },
        }
        assert(self.buf@ =~= old(self)@ + address_bytes(address));
        Ok(())
    }

    pub fn get_raw_payload(self) -> (r: Vec<u8>)
        ensures
            r@ == self@,
    {
        self.buf
    }

    pub fn _pos(&self) -> (r: u64)
        ensures
            r == self@.len(),
    {
        self.buf.len() as u64
    }
}

/// `String::from_utf8`: the string whose UTF-8 encoding is `v`, or `None` when `v`
/// is not valid UTF-8 (the standard library's documented behaviour).
#[verifier::external_body]
pub(crate) fn string_from_utf8(v: Vec<u8>) -> (r: Option<String>)
    ensures
        r is Some <==> valid_utf8(v@),
        r matches Some(s) ==> s@ == decode_utf8(v@),
{
    String::from_utf8(v).ok()
}

/// The bytes of a length-prefixed string at the front of `r`: a big-endian `u16`
/// length followed by that many bytes; `None` when `r` is too short for either.
pub open spec fn string_payload(r: Seq<u8>) -> Option<Seq<u8>> {
    if r.len() < 2 {
        None
    } else {
        let n = be_value(r.take(2));
        if r.len() - 2 < n {
            None
        } else {
            Some(r.subrange(2, 2 + n as int))
        }
    }
}

/// Whether an address can be read from the front of `r` (which holds at least its tag byte).
pub open spec fn address_readable(r: Seq<u8>) -> bool {
    if r[0] == 4 {
        r.len() >= 7
    } else {
        r.len() >= 45
    }
}

/// How many bytes reading an address from the front of `r` consumes.
pub open spec fn address_read_len(r: Seq<u8>) -> nat {
    if r[0] == 4 {
        7
    } else {
        29
    }
}

/// Whether `a` is the address read from the front of `r`.
pub open spec fn address_read_value(r: Seq<u8>, a: Address) -> bool {
    match a {
        Address::V4(o, p) => {
            &&& r[0] == 4
            &&& o@ == seq![
                (0xff - r[1]) as u8,
                (0xff - r[2]) as u8,
                (0xff - r[3]) as u8,
                (0xff - r[4]) as u8,
            ]
            &&& p as nat == be_value(r.subrange(5, 7))
        },
        Address::V6(o, p) => {
            &&& r[0] != 4
            &&& o@ == r.subrange(9, 25)
            &&& p as nat == be_value(r.subrange(3, 5))
        },
    }
}

/// A cursor over the bytes of an incoming message.
pub struct RaknetReader {
    buf: Vec<u8>,
    pos: u64,
}

impl RaknetReader {
    /// The bytes being read.
    pub closed spec fn content(&self) -> Seq<u8> {
        self.buf@
    }

    /// The cursor position; it may lie past the end after `next`.
    pub closed spec fn offset(&self) -> nat {
        self.pos as nat
    }

    /// The bytes not yet read.
    pub open spec fn rest(&self) -> Seq<u8> {
        if self.offset() < self.content().len() {
            self.content().skip(self.offset() as int)
        } else {
            Seq::empty()
        }
    }

    /// `self` reads the same bytes as `prev`, `k` bytes further on.
    pub open spec fn moved(&self, prev: &Self, k: nat) -> bool {
        &&& self.content() == prev.content()
        &&& self.offset() == prev.offset() + k
    }

    pub fn new(buf: Vec<u8>) -> (r: Self)
        ensures
            r.content() == buf@,
            r.offset() == 0,
    {
        RaknetReader { buf, pos: 0 }
    }

    fn remaining(&self) -> (r: usize)
        ensures
            r == self.rest().len(),
    {
        if self.pos < self.buf.len() as u64 {
            self.buf.len() - self.pos as usize
        } else {
            0
        }
    }

    fn rest_slice(&self) -> (s: &[u8])
        ensures
            s@ == self.rest(),
    {
        if self.pos < self.buf.len() as u64 {
            let s = slice_subrange(self.buf.as_slice(), self.pos as usize, self.buf.len());
            assert(s@ =~= self.rest());
            s
        } else {
            let s = slice_subrange(self.buf.as_slice(), 0, 0);
            assert(s@ =~= self.rest());
            s
        }
    }

    /// The bytes of a reader always fit a `u64` count.
    pub proof fn lemma_content_fits(&self)
        ensures
            self.content().len() <= u64::MAX,
    {
        assert(self.buf@.len() == self.buf.len());
    }

    fn skip_bytes(&mut self, k: usize)
        requires
            k <= old(self).rest().len(),
        ensures
            final(self).moved(old(self), k as nat),
    {
        proof {
            self.lemma_content_fits();
        }
        self.pos = self.pos + k as u64;
    }

    /// Fills `out` from the unread bytes; when too few remain, fails, leaves `out`
    /// as it was and moves the cursor to the end.
    pub fn read(&mut self, out: &mut [u8]) -> (r: Result<(), RaknetError>)
        ensures
            old(self).rest().len() >= old(out)@.len() ==> {
                &&& r is Ok
                &&& final(out)@ == old(self).rest().take(old(out)@.len() as int)
                &&& final(self).moved(old(self), old(out)@.len())
            },
            old(self).rest().len() < old(out)@.len() ==> {
                &&& r == Err::<(), RaknetError>(RaknetError::ReadPacketBufferError)
                &&& final(out)@ == old(out)@
                &&& final(self).content() == old(self).content()
                &&& final(self).offset() == old(self).content().len()
            },
    {
        let n = out.len();
        if self.remaining() >= n {
            let src = self.rest_slice();
            let mut i: usize = 0;
            while i < n
                invariant
                    n == out@.len(),
                    n <= src@.len(),
                    0 <= i <= n,
                    forall|j: int| 0 <= j < i ==> out@[j] == src@[j],
                decreases n - i,
            {
                out[i] = src[i];
                i = i + 1;
            }
            assert(out@ =~= old(self).rest().take(n as int));
            self.skip_bytes(n);
            Ok(())
        } else {
            self.pos = self.buf.len() as u64;
            Err(RaknetError::ReadPacketBufferError)
        }
    }

    /// The next byte. Reading past the end is a caller error ruled out by `requires`.
    pub fn read_u8(&mut self) -> (r: Result<u8, RaknetError>)
        requires
            old(self).rest().len() >= 1,
        ensures
            r == Ok::<u8, RaknetError>(old(self).rest()[0]),
            final(self).moved(old(self), 1),
    {
        let v = wire::get_u8(self.rest_slice());
        self.skip_bytes(1);
        Ok(v)
    }

    pub fn read_u16(&mut self, n: Endian) -> (r: Result<u16, RaknetError>)
        ensures
            old(self).rest().len() < 2 ==> r == Err::<u16, RaknetError>(
                RaknetError::ReadPacketBufferError,
            ) && *final(self) == *old(self),
            old(self).rest().len() >= 2 ==> (r matches Ok(v) && v as nat == decode_uint(
                old(self).rest().take(2),
                n,
            )) && final(self).moved(old(self), 2),
    {
        if self.remaining() < 2 {
            return Err(RaknetError::ReadPacketBufferError);
        }
        let s = self.rest_slice();
        let v = match n {
            Endian::Big => wire::get_u16(s),
            Endian::Little => wire::get_u16_le(s),
        };
        self.skip_bytes(2);
        Ok(v)
    }

    pub fn read_u24(&mut self, n: Endian) -> (r: Result<u32, RaknetError>)
        ensures
            old(self).rest().len() < 3 ==> r == Err::<u32, RaknetError>(
                RaknetError::ReadPacketBufferError,
            ) && *final(self) == *old(self),
            old(self).rest().len() >= 3 ==> (r matches Ok(v) && v as nat == decode_uint(
                old(self).rest().take(3),
                n,
            )) && final(self).moved(old(self), 3),
    {
        if self.remaining() < 3 {
            return Err(RaknetError::ReadPacketBufferError);
        }
        let ghost r0 = old(self).rest();
        let a = wire::get_u8(self.rest_slice());
        self.skip_bytes(1);
        let b = wire::get_u8(self.rest_slice());
        self.skip_bytes(1);
        let c = wire::get_u8(self.rest_slice());
        self.skip_bytes(1);
        proof {
            assert(r0.take(3) =~= seq![a, b, c]);
            reveal_with_fuel(be_value, 4);
            reveal_with_fuel(le_value, 4);
            assert(seq![a, b, c].drop_last() =~= seq![a, b]);
            assert(seq![a, b].drop_last() =~= seq![a]);
            assert(seq![a].drop_last() =~= Seq::<u8>::empty());
            assert(seq![a, b, c].drop_first() =~= seq![b, c]);
            assert(seq![b, c].drop_first() =~= seq![c]);
            assert(seq![c].drop_first() =~= Seq::<u8>::empty());
        }
        let v = match n {
            Endian::Big => (a as u32) * 65536 + (b as u32) * 256 + (c as u32),
            Endian::Little => (c as u32) * 65536 + (b as u32) * 256 + (a as u32),
        };
        Ok(v)
    }

    pub fn read_u32(&mut self, n: Endian) -> (r: Result<u32, RaknetError>)
        ensures
            old(self).rest().len() < 4 ==> r == Err::<u32, RaknetError>(
                RaknetError::ReadPacketBufferError,
            ) && *final(self) == *old(self),
            old(self).rest().len() >= 4 ==> (r matches Ok(v) && v as nat == decode_uint(
                old(self).rest().take(4),
                n,
            )) && final(self).moved(old(self), 4),
    {
        if self.remaining() < 4 {
            return Err(RaknetError::ReadPacketBufferError);
        }
        let s = self.rest_slice();
        let v = match n {
            Endian::Big => wire::get_u32(s),
            Endian::Little => wire::get_u32_le(s),
        };
        self.skip_bytes(4);
        Ok(v)
    }

    pub fn read_u64(&mut self, n: Endian) -> (r: Result<u64, RaknetError>)
        ensures
            old(self).rest().len() < 8 ==> r == Err::<u64, RaknetError>(
                RaknetError::ReadPacketBufferError,
            ) && *final(self) == *old(self),
            old(self).rest().len() >= 8 ==> (r matches Ok(v) && v as nat == decode_uint(
                old(self).rest().take(8),
                n,
            )) && final(self).moved(old(self), 8),
    {
        if self.remaining() < 8 {
            return Err(RaknetError::ReadPacketBufferError);
        }
        let s = self.rest_slice();
        let v = match n {
            Endian::Big => wire::get_u64(s),
            Endian::Little => wire::get_u64_le(s),
        };
        self.skip_bytes(8);
        Ok(v)
    }

    pub fn read_i64(&mut self, n: Endian) -> (r: Result<i64, RaknetError>)
        ensures
            old(self).rest().len() < 8 ==> r == Err::<i64, RaknetError>(
                RaknetError::ReadPacketBufferError,
            ) && *final(self) == *old(self),
            old(self).rest().len() >= 8 ==> (r matches Ok(v) && v as int == to_signed(
                decode_uint(old(self).rest().take(8), n),
                8,
            )) && final(self).moved(old(self), 8),
    {
        if self.remaining() < 8 {
            return Err(RaknetError::ReadPacketBufferError);
        }
        let s = self.rest_slice();
        let v = match n {
            Endian::Big => wire::get_i64(s),
            Endian::Little => wire::get_i64_le(s),
        };
        self.skip_bytes(8);
        Ok(v)
    }

    /// A length-prefixed UTF-8 string. The bytes of a string that is present must be
    /// valid UTF-8: anything else is a caller error ruled out by `requires`.
    pub fn read_string(&mut self) -> (r: Result<String, RaknetError>)
        requires
            string_payload(old(self).rest()) matches Some(b) ==> valid_utf8(b),
        ensures
            old(self).rest().len() < 2 ==> r == Err::<String, RaknetError>(
                RaknetError::ReadPacketBufferError,
            ) && *final(self) == *old(self),
            old(self).rest().len() >= 2 && string_payload(old(self).rest()) is None ==> r
                == Err::<String, RaknetError>(RaknetError::ReadPacketBufferError)
                && final(self).moved(old(self), 2),
            string_payload(old(self).rest()) matches Some(b) ==> (r matches Ok(s) && s@
                == decode_utf8(b)) && final(self).moved(old(self), 2 + b.len()),
    {
        if self.remaining() < 2 {
            return Err(RaknetError::ReadPacketBufferError);
        }
        let ghost r0 = old(self).rest();
        let size = self.read_u16(Endian::Big)?;
        assert(self.rest() =~= r0.skip(2));
        if self.remaining() < size as usize {
            return Err(RaknetError::ReadPacketBufferError);
        }
        let s = self.rest_slice();
        let bytes = slice_to_vec(slice_subrange(s, 0, size as usize));
        assert(bytes@ =~= r0.subrange(2, 2 + size as int));
        self.skip_bytes(size as usize);
        match string_from_utf8(bytes) {
            Some(st) => Ok(st),
            None => {
                assert(false);
                Err(RaknetError::ReadPacketBufferError)
            },
        }
    }

    /// Whether the next 16 bytes are the offline-message marker.
    pub fn read_magic(&mut self) -> (r: Result<bool, RaknetError>)
        ensures
            old(self).rest().len() < 16 ==> r == Err::<bool, RaknetError>(
                RaknetError::ReadPacketBufferError,
            ) && *final(self) == *old(self),
            old(self).rest().len() >= 16 ==> r == Ok::<bool, RaknetError>(
                old(self).rest().take(16) == magic_bytes(),
            ) && final(self).moved(old(self), 16),
    {
        if self.remaining() < 16 {
            return Err(RaknetError::ReadPacketBufferError);
        }
        let ghost r0 = old(self).rest();
        let magic = offline_magic();
        let s = self.rest_slice();
        let mut same = true;
        let mut i: usize = 0;
        while i < 16
            invariant
                s@ == r0,
                s@.len() >= 16,
                magic@ == magic_bytes(),
                0 <= i <= 16,
                same <==> (forall|j: int| 0 <= j < i ==> s@[j] == magic@[j]),
            decreases 16 - i,
        {
            if s[i] != magic[i] {
                same = false;
            }
            i = i + 1;
        }
        proof {
            if same {
                assert(r0.take(16) =~= magic_bytes());
            } else {
                let j = choose|j: int| 0 <= j < 16 && s@[j] != magic@[j];
                assert(r0.take(16)[j] != magic_bytes()[j]);
            }
        }
        self.skip_bytes(16);
        Ok(same)
    }

    /// An address: IPv4 (tag 4) or IPv6 (any other tag). The tag byte must be
    /// present: reading it past the end is a caller error ruled out by `requires`.
    pub fn read_address(&mut self) -> (r: Result<Address, RaknetError>)
        requires
            old(self).rest().len() >= 1,
        ensures
            !address_readable(old(self).rest()) ==> r == Err::<Address, RaknetError>(
                RaknetError::ReadPacketBufferError,
            ) && final(self).moved(old(self), 1),
            address_readable(old(self).rest()) ==> (r matches Ok(a) && address_read_value(
                old(self).rest(),
                a,
            )) && final(self).moved(old(self), address_read_len(old(self).rest())),
    {
        let ghost r0 = old(self).rest();
        let ip_ver = self.read_u8()?;
        assert(self.rest() =~= r0.skip(1));
        if ip_ver == 4 {
            if self.remaining() < 6 {
                return Err(RaknetError::ReadPacketBufferError);
            }
            let a = 0xff - self.read_u8()?;
            let b = 0xff - self.read_u8()?;
            let c = 0xff - self.read_u8()?;
            let d = 0xff - self.read_u8()?;
            let ghost r5 = self.rest();
            let port = self.read_u16(Endian::Big)?;
            assert(r5.take(2) =~= r0.subrange(5, 7));
            let octets: [u8; 4] = [a, b, c, d];
            assert(octets@ =~= seq![
                (0xff - r0[1]) as u8,
                (0xff - r0[2]) as u8,
                (0xff - r0[3]) as u8,
                (0xff - r0[4]) as u8,
            ]);
            Ok(Address::V4(octets, port))
        } else {
            if self.remaining() < 44 {
                return Err(RaknetError::ReadPacketBufferError);
            }
            proof {
                self.lemma_content_fits();
            }
            self.next(2);
            let ghost r3 = self.rest();
            assert(r3 =~= r0.skip(3));
            let port = self.read_u16(Endian::Big)?;
            assert(r3.take(2) =~= r0.subrange(3, 5));
            proof {
                self.lemma_content_fits();
            }
            self.next(4);
            let mut octets = [0u8; 16];
            let ghost r9 = self.rest();
            assert(r9 =~= r0.skip(9));
            let _ = self.read(&mut octets);
            assert(octets@ =~= r0.subrange(9, 25));
            proof {
                self.lemma_content_fits();
            }
            self.next(4);
            Ok(Address::V6(octets, port))
        }
    }

    /// Moves the cursor `n` bytes on, possibly past the end.
    pub fn next(&mut self, n: u64)
        requires
            old(self).offset() + n <= u64::MAX,
        ensures
            final(self).content() == old(self).content(),
            final(self).offset() == old(self).offset() + n,
    {
        self.pos = self.pos + n;
    }

    pub fn pos(&self) -> (r: u64)
        ensures
            r == self.offset(),
    {
        self.pos
    }
}

/// Law: an IPv4 address reads back as written, whatever follows it.
/// (An IPv6 address does not: the reader skips one byte more than the writer emits
/// before the port.)
pub proof fn lemma_address_v4_roundtrip(octets: [u8; 4], port: u16, tail: Seq<u8>)
    ensures
        ({
            let r = address_bytes(Address::V4(octets, port)) + tail;
            &&& address_bytes(Address::V4(octets, port)).len() == 7
            &&& address_readable(r)
            &&& address_read_len(r) == 7
            &&& address_read_value(r, Address::V4(octets, port))
        }),
{
    let r = address_bytes(Address::V4(octets, port)) + tail;
    crate::codec::lemma_pow256_values();
    crate::codec::lemma_roundtrip(port as nat, 2);
    assert(r.subrange(5, 7) =~= be_bytes(port as nat, 2));
    assert(octets@ =~= seq![
        (0xff - r[1]) as u8,
        (0xff - r[2]) as u8,
        (0xff - r[3]) as u8,
        (0xff - r[4]) as u8,
    ]);
}

} // verus!
