//! Mathematical model of fixed-width integer encodings on the wire.
//!
//! `be_bytes(v, n)` / `le_bytes(v, n)` are the `n` low-order bytes of `v`
//! in big- and little-endian order; `be_value` / `le_value` read a byte
//! sequence back as a natural number.
use vstd::prelude::*;
use vstd::arithmetic::div_mod::*;
use crate::utils::Endian;

verus! {

/// 256 raised to the power `n`.
pub open spec fn pow256(n: nat) -> nat
    decreases n,
{
    if n == 0 {
        1
    } else {
        256 * pow256((n - 1) as nat)
    }
}

/// The `n` low-order bytes of `v`, most significant first.
pub open spec fn be_bytes(v: nat, n: nat) -> Seq<u8>
    decreases n,
{
    if n == 0 {
        Seq::empty()
    } else {
        be_bytes(v / 256, (n - 1) as nat).push((v % 256) as u8)
    }
}

/// The `n` low-order bytes of `v`, least significant first.
pub open spec fn le_bytes(v: nat, n: nat) -> Seq<u8>
    decreases n,
{
    if n == 0 {
        Seq::empty()
    } else {
        seq![(v % 256) as u8] + le_bytes(v / 256, (n - 1) as nat)
    }
}

/// The number whose big-endian representation is `s`.
pub open spec fn be_value(s: Seq<u8>) -> nat
    decreases s.len(),
{
    if s.len() == 0 {
        0
    } else {
        be_value(s.drop_last()) * 256 + s.last() as nat
    }
}

/// The number whose little-endian representation is `s`.
pub open spec fn le_value(s: Seq<u8>) -> nat
    decreases s.len(),
{
    if s.len() == 0 {
        0
    } else {
        s[0] as nat + 256 * le_value(s.drop_first())
    }
}

/// The `n` low-order bytes of `v` in byte order `e`.
pub open spec fn encode_uint(v: nat, n: nat, e: Endian) -> Seq<u8> {
    match e {
        Endian::Big => be_bytes(v, n),
        Endian::Little => le_bytes(v, n),
    }
}

/// The number whose representation in byte order `e` is `s`.
pub open spec fn decode_uint(s: Seq<u8>, e: Endian) -> nat {
    match e {
        Endian::Big => be_value(s),
        Endian::Little => le_value(s),
    }
}

pub broadcast proof fn lemma_encode_uint_len(v: nat, n: nat, e: Endian)
    ensures
        #[trigger] encode_uint(v, n, e).len() == n,
{
    lemma_be_bytes_len(v, n);
    lemma_le_bytes_len(v, n);
}

pub broadcast group group_encoding_len {
    lemma_be_bytes_len,
    lemma_le_bytes_len,
    lemma_encode_uint_len,
}

/// Two's complement: the unsigned `n`-byte pattern of the signed value `v`.
pub open spec fn to_unsigned(v: int, n: nat) -> nat {
    if v >= 0 {
        v as nat
    } else {
        (v + pow256(n)) as nat
    }
}

/// Two's complement: the signed value of the unsigned `n`-byte pattern `u`.
pub open spec fn to_signed(u: nat, n: nat) -> int {
    if u * 2 >= pow256(n) {
        u - pow256(n)
    } else {
        u as int
    }
}

pub proof fn lemma_pow256_values()
    ensures
        pow256(0) == 1,
        pow256(1) == 256,
        pow256(2) == 0x1_0000,
        pow256(3) == 0x100_0000,
        pow256(4) == 0x1_0000_0000,
        pow256(8) == 0x1_0000_0000_0000_0000,
{
    reveal_with_fuel(pow256, 9);
}

pub proof fn lemma_pow256_pos(n: nat)
    ensures
        pow256(n) > 0,
    decreases n,
{
    if n > 0 {
        lemma_pow256_pos((n - 1) as nat);
    }
}

pub broadcast proof fn lemma_be_bytes_len(v: nat, n: nat)
    ensures
        #[trigger] be_bytes(v, n).len() == n,
    decreases n,
{
    if n > 0 {
        lemma_be_bytes_len(v / 256, (n - 1) as nat);
    }
}

pub broadcast proof fn lemma_le_bytes_len(v: nat, n: nat)
    ensures
        #[trigger] le_bytes(v, n).len() == n,
    decreases n,
{
    if n > 0 {
        lemma_le_bytes_len(v / 256, (n - 1) as nat);
    }
}

/// Reading back `n` big-endian bytes of `v` gives `v` modulo `256^n`.
pub proof fn lemma_be_value_of_bytes(v: nat, n: nat)
    ensures
        be_value(be_bytes(v, n)) == v % pow256(n),
    decreases n,
{
    if n == 0 {
        assert(be_bytes(v, n) =~= Seq::<u8>::empty());
    } else {
        let p = pow256((n - 1) as nat);
        let rest = be_bytes(v / 256, (n - 1) as nat);
        lemma_be_value_of_bytes(v / 256, (n - 1) as nat);
        lemma_pow256_pos((n - 1) as nat);
        assert(be_bytes(v, n).drop_last() =~= rest);
        lemma_mod_breakdown(v as int, 256, p as int);
    }
}

/// Reading back `n` little-endian bytes of `v` gives `v` modulo `256^n`.
pub proof fn lemma_le_value_of_bytes(v: nat, n: nat)
    ensures
        le_value(le_bytes(v, n)) == v % pow256(n),
    decreases n,
{
    if n == 0 {
        assert(le_bytes(v, n) =~= Seq::<u8>::empty());
    } else {
        let p = pow256((n - 1) as nat);
        let rest = le_bytes(v / 256, (n - 1) as nat);
        lemma_le_value_of_bytes(v / 256, (n - 1) as nat);
        lemma_pow256_pos((n - 1) as nat);
        assert(le_bytes(v, n).drop_first() =~= rest);
        lemma_mod_breakdown(v as int, 256, p as int);
    }
}

pub proof fn lemma_be_value_bound(s: Seq<u8>)
    ensures
        be_value(s) < pow256(s.len()),
    decreases s.len(),
{
    if s.len() > 0 {
        lemma_be_value_bound(s.drop_last());
    }
}

pub proof fn lemma_le_value_bound(s: Seq<u8>)
    ensures
        le_value(s) < pow256(s.len()),
    decreases s.len(),
{
    if s.len() > 0 {
        lemma_le_value_bound(s.drop_first());
    }
}

/// Writing out the big-endian value of `s` in `|s|` bytes gives `s` back.
pub proof fn lemma_be_bytes_of_value(s: Seq<u8>)
    ensures
        be_bytes(be_value(s), s.len()) == s,
    decreases s.len(),
{
    if s.len() > 0 {
        let init = s.drop_last();
        lemma_be_bytes_of_value(init);
        let x = be_value(s);
        lemma_fundamental_div_mod_converse(x as int, 256, be_value(init) as int, s.last() as int);
        assert(be_bytes(x, s.len()) =~= s);
    } else {
        assert(be_bytes(be_value(s), 0) =~= s);
    }
}

/// Writing out the little-endian value of `s` in `|s|` bytes gives `s` back.
pub proof fn lemma_le_bytes_of_value(s: Seq<u8>)
    ensures
        le_bytes(le_value(s), s.len()) == s,
    decreases s.len(),
{
    if s.len() > 0 {
        let tail = s.drop_first();
        lemma_le_bytes_of_value(tail);
        let x = le_value(s);
        lemma_fundamental_div_mod_converse(x as int, 256, le_value(tail) as int, s[0] as int);
        assert(le_bytes(x, s.len()) =~= s);
    } else {
        assert(le_bytes(le_value(s), 0) =~= s);
    }
}

/// Only the low `n` bytes of a value reach its `n`-byte encodings.
pub proof fn lemma_bytes_mod(v: nat, n: nat)
    ensures
        be_bytes(v, n) == be_bytes(v % pow256(n), n),
        le_bytes(v, n) == le_bytes(v % pow256(n), n),
{
    lemma_be_bytes_len(v, n);
    lemma_le_bytes_len(v, n);
    lemma_be_value_of_bytes(v, n);
    lemma_le_value_of_bytes(v, n);
    lemma_be_bytes_of_value(be_bytes(v, n));
    lemma_le_bytes_of_value(le_bytes(v, n));
}

/// The big-endian value of two bytes.
pub proof fn lemma_be_value_two(s: Seq<u8>)
    requires
        s.len() == 2,
    ensures
        be_value(s) == s[0] * 256 + s[1],
{
    let t = s.drop_last();
    assert(t.drop_last() =~= Seq::<u8>::empty());
    assert(be_value(t.drop_last()) == 0);
    assert(be_value(t) == t[0] as nat);
    assert(t[0] == s[0]);
}

/// A value below `256^n` survives an `n`-byte round trip in either byte order.
pub proof fn lemma_roundtrip(v: nat, n: nat)
    requires
        v < pow256(n),
    ensures
        be_value(be_bytes(v, n)) == v,
        le_value(le_bytes(v, n)) == v,
        be_bytes(v, n).len() == n,
        le_bytes(v, n).len() == n,
{
    lemma_be_value_of_bytes(v, n);
    lemma_le_value_of_bytes(v, n);
    lemma_be_bytes_len(v, n);
    lemma_le_bytes_len(v, n);
    lemma_small_mod(v, pow256(n));
}

/// A value below `256^n` survives an `n`-byte round trip in byte order `e`.
pub proof fn lemma_uint_roundtrip(v: nat, n: nat, e: Endian)
    requires
        v < pow256(n),
    ensures
        decode_uint(encode_uint(v, n, e), e) == v,
        encode_uint(v, n, e).len() == n,
{
    lemma_roundtrip(v, n);
}

/// Any `n`-byte sequence is the encoding of its value, in either byte order.
pub proof fn lemma_uint_of_bytes(s: Seq<u8>, e: Endian)
    ensures
        encode_uint(decode_uint(s, e), s.len(), e) == s,
        decode_uint(s, e) < pow256(s.len()),
{
    lemma_be_bytes_of_value(s);
    lemma_le_bytes_of_value(s);
    lemma_be_value_bound(s);
    lemma_le_value_bound(s);
}

/// Signed values survive the two's complement conversion.
pub proof fn lemma_signed_roundtrip(v: int, n: nat)
    requires
        n > 0,
        -pow256(n) <= v * 2 < pow256(n),
    ensures
        to_unsigned(v, n) < pow256(n),
        to_signed(to_unsigned(v, n), n) == v,
{
}

} // verus!
