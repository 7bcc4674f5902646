//! Socket addresses as plain values: an IPv4 or IPv6 address and a port.
use vstd::prelude::*;
use crate::bytes::{be32, from_be32, lemma_be32_roundtrip};

verus! {

/// An IP address: IPv4 as its 32-bit number, IPv6 as its 128-bit number.
#[derive(PartialEq, Eq, Structural, Clone, Copy, Debug)]
pub enum Ip {
    V4(u32),
    V6(u128),
}

/// The address of a peer: its IP address and its port.
#[derive(PartialEq, Eq, Structural, Clone, Copy, Debug)]
pub struct PeerAddr {
    pub ip: Ip,
    pub port: u16,
}

/// The eight big-endian bytes of `x`.
pub open spec fn be64(x: u64) -> Seq<u8> {
    be32((x >> 32u64) as u32) + be32(x as u32)
}

/// The number whose big-endian bytes are the eight bytes of `b` from `i` on.
pub open spec fn from_be64(b: Seq<u8>, i: int) -> u64 {
    (((from_be32(b[i], b[i + 1], b[i + 2], b[i + 3]) as u64) << 32u64) | (from_be32(
        b[i + 4],
        b[i + 5],
        b[i + 6],
        b[i + 7],
    ) as u64))
}

/// The sixteen big-endian bytes of `x`.
pub open spec fn be128(x: u128) -> Seq<u8> {
    be64((x >> 64u128) as u64) + be64(x as u64)
}

/// The number whose big-endian bytes are the sixteen bytes of `b` from `i` on.
pub open spec fn from_be128(b: Seq<u8>, i: int) -> u128 {
    ((from_be64(b, i) as u128) << 64u128) | (from_be64(b, i + 8) as u128)
}

/// The octets of an IP address, most significant first.
pub open spec fn octets(ip: Ip) -> Seq<u8> {
    match ip {
        Ip::V4(x) => be32(x),
        Ip::V6(x) => be128(x),
    }
}

proof fn lemma_join64(hi: u32, lo: u32, x: u64)
    requires
        hi == (x >> 32u64) as u32,
        lo == x as u32,
    ensures
        ((hi as u64) << 32u64) | (lo as u64) == x,
{
    assert(((hi as u64) << 32u64) | (lo as u64) == x) by (bit_vector)
        requires
            hi == (x >> 32u64) as u32,
            lo == x as u32,
    ;
}

proof fn lemma_join128(hi: u64, lo: u64, x: u128)
    requires
        hi == (x >> 64u128) as u64,
        lo == x as u64,
    ensures
        ((hi as u128) << 64u128) | (lo as u128) == x,
{
    assert(((hi as u128) << 64u128) | (lo as u128) == x) by (bit_vector)
        requires
            hi == (x >> 64u128) as u64,
            lo == x as u64,
    ;
}

/// Reading back the eight bytes of a `u64` gives the number.
pub proof fn lemma_be64_roundtrip(x: u64, b: Seq<u8>, i: int)
    requires
        0 <= i,
        i + 8 <= b.len(),
        b.subrange(i, i + 8) == be64(x),
    ensures
        from_be64(b, i) == x,
{
    let hi = (x >> 32u64) as u32;
    let lo = x as u32;
    lemma_be32_roundtrip(hi);
    lemma_be32_roundtrip(lo);
    assert(b[i] == be64(x)[0] && b[i + 1] == be64(x)[1] && b[i + 2] == be64(x)[2] && b[i + 3]
        == be64(x)[3]);
    assert(b[i + 4] == be64(x)[4] && b[i + 5] == be64(x)[5] && b[i + 6] == be64(x)[6] && b[i
        + 7] == be64(x)[7]);
    lemma_join64(hi, lo, x);
}

/// Reading back the sixteen bytes of a `u128` gives the number.
pub proof fn lemma_be128_roundtrip(x: u128, b: Seq<u8>, i: int)
    requires
        0 <= i,
        i + 16 <= b.len(),
        b.subrange(i, i + 16) == be128(x),
    ensures
        from_be128(b, i) == x,
{
    let hi = (x >> 64u128) as u64;
    let lo = x as u64;
    assert(b.subrange(i, i + 16).subrange(0, 8) =~= b.subrange(i, i + 8));
    assert(b.subrange(i, i + 16).subrange(8, 16) =~= b.subrange(i + 8, i + 16));
    assert(be128(x).subrange(0, 8) =~= be64(hi));
    assert(be128(x).subrange(8, 16) =~= be64(lo));
    lemma_be64_roundtrip(hi, b, i);
    lemma_be64_roundtrip(lo, b, i + 8);
    lemma_join128(hi, lo, x);
}

/// Appends the eight big-endian bytes of `x`.
pub fn push_be64(v: &mut Vec<u8>, x: u64)
    ensures
        final(v)@ == old(v)@ + be64(x),
{
    crate::bytes::push_be32(v, (x >> 32u64) as u32);
    crate::bytes::push_be32(v, x as u32);
    assert(final(v)@ =~= old(v)@ + be64(x));
}

/// Appends the octets of `ip`.
pub fn push_octets(v: &mut Vec<u8>, ip: Ip)
    ensures
        final(v)@ == old(v)@ + octets(ip),
{
    match ip {
        Ip::V4(x) => {
            crate::bytes::push_be32(v, x);
        },
        Ip::V6(x) => {
            push_be64(v, (x >> 64u128) as u64);
            push_be64(v, x as u64);
            assert(final(v)@ =~= old(v)@ + octets(ip));
        },
    }
}

/// Reads a `u64` from the eight big-endian bytes of `b` from `i` on.
pub fn read_be64(b: &Vec<u8>, i: usize) -> (x: u64)
    requires
        i + 8 <= b.len(),
    ensures
        x == from_be64(b@, i as int),
{
    let hi = crate::bytes::read_be32(b[i], b[i + 1], b[i + 2], b[i + 3]);
    let lo = crate::bytes::read_be32(b[i + 4], b[i + 5], b[i + 6], b[i + 7]);
    ((hi as u64) << 32u64) | (lo as u64)
}

/// Reads a `u128` from the sixteen big-endian bytes of `b` from `i` on.
pub fn read_be128(b: &Vec<u8>, i: usize) -> (x: u128)
    requires
        i + 16 <= b.len(),
    ensures
        x == from_be128(b@, i as int),
{
    let hi = read_be64(b, i);
    let lo = read_be64(b, i + 8);
    ((hi as u128) << 64u128) | (lo as u128)
}

impl PeerAddr {
    /// Whether this is an IPv4 address.
    pub fn is_ipv4(&self) -> (b: bool)
        ensures
            b == (self.ip is V4),
    {
        match self.ip {
            Ip::V4(_) => true,
            Ip::V6(_) => false,
        }
    }
}

/// The unspecified IPv4 address with port 0 (`0.0.0.0:0`).
pub fn localhost() -> (a: PeerAddr)
    ensures
        a == (PeerAddr { ip: Ip::V4(0), port: 0 }),
{
    PeerAddr { ip: Ip::V4(0), port: 0 }
}

} // verus!
