//! The match-making between two clients that name the same identifier: the
//! server tells each the public address of the other, and each client reads
//! the address of the other from the server's reply.
use vstd::prelude::*;
use crate::addr::{Ip, PeerAddr, octets, from_be128, lemma_be128_roundtrip, push_octets, read_be128};
use crate::bytes::{be16, from_be32, from_be16, lemma_be32_roundtrip, lemma_be16_roundtrip, read_be32, read_be16};

verus! {

/// The message that tells a client the address `about` of its peer: the IP
/// version (4 or 6), the octets of the IP address, the port (big-endian).
pub open spec fn info_message(about: PeerAddr) -> Seq<u8> {
    seq![if about.ip is V4 { 4u8 } else { 6u8 }] + octets(about.ip) + be16(about.port)
}

/// Why a reply of the server could not be read.
#[derive(PartialEq, Eq, Structural, Clone, Copy, Debug)]
pub enum ReplyError {
    /// The reply is shorter than its IP version needs.
    TooShort,
    /// The peer used another IP version (the first byte is neither 4 nor 6).
    OtherIpVersion,
}

/// What a client reads from the first `size` bytes of the server's reply `b`.
pub open spec fn read_reply(b: Seq<u8>, size: int) -> Result<PeerAddr, ReplyError> {
    if b[0] == 4 {
        if size < 7 {
            Err(ReplyError::TooShort)
        } else {
            Ok(
                PeerAddr {
                    ip: Ip::V4(from_be32(b[1], b[2], b[3], b[4])),
                    port: from_be16(b[5], b[6]),
                },
            )
        }
    } else if b[0] == 6 {
        if size < 19 {
            Err(ReplyError::TooShort)
        } else {
            Ok(PeerAddr { ip: Ip::V6(from_be128(b, 1)), port: from_be16(b[17], b[18]) })
        }
    } else {
        Err(ReplyError::OtherIpVersion)
    }
}

/// The message that tells a client the address of its peer.
pub fn info_bytes(about: PeerAddr) -> (v: Vec<u8>)
    ensures
        v@ == info_message(about),
{
    let mut packet: Vec<u8> = Vec::new();
    packet.push(if about.is_ipv4() { 4u8 } else { 6u8 });
    push_octets(&mut packet, about.ip);
    let port = about.port;
    packet.push((port >> 8u16) as u8);
    packet.push((port % 0x100) as u8);
    assert((port % 0x100) as u8 == port as u8) by (bit_vector);
    assert(packet@ =~= info_message(about));
    packet
}

/// Reads the address of the peer from the first `size` bytes of the server's
/// reply `b` (a receive buffer of at least 19 bytes).
pub fn parse_peer_reply(b: &Vec<u8>, size: usize) -> (r: Result<PeerAddr, ReplyError>)
    requires
        b.len() >= 19,
    ensures
        r == read_reply(b@, size as int),
{
    if b[0] == 4 {
        if size < 7 {
            return Err(ReplyError::TooShort);
        }
        let ip = read_be32(b[1], b[2], b[3], b[4]);
        let port = read_be16(b[5], b[6]);
        Ok(PeerAddr { ip: Ip::V4(ip), port })
    } else if b[0] == 6 {
        if size < 19 {
            return Err(ReplyError::TooShort);
        }
        let ip = read_be128(b, 1);
        let port = read_be16(b[17], b[18]);
        Ok(PeerAddr { ip: Ip::V6(ip), port })
    } else {
        Err(ReplyError::OtherIpVersion)
    }
}

/// Law: a client that receives the server's message about its peer (into a
/// buffer of at least 19 bytes) reads back exactly the peer's address.
pub proof fn lemma_info_roundtrip(about: PeerAddr, b: Seq<u8>)
    requires
        b.len() >= 19,
        b.subrange(0, info_message(about).len() as int) == info_message(about),
    ensures
        read_reply(b, info_message(about).len() as int) == Ok::<PeerAddr, ReplyError>(about),
{
    let m = info_message(about);
    lemma_be16_roundtrip(about.port);
    match about.ip {
        Ip::V4(x) => {
            assert(m.len() == 7);
            lemma_be32_roundtrip(x);
            assert(b[0] == m[0]);
            assert(b[1] == m[1] && b[2] == m[2] && b[3] == m[3] && b[4] == m[4]);
            assert(b[5] == m[5] && b[6] == m[6]);
        },
        Ip::V6(x) => {
            assert(m.len() == 19);
            assert(b[0] == m[0]);
            assert(b.subrange(1, 17) =~= m.subrange(1, 17));
            assert(m.subrange(1, 17) =~= octets(about.ip));
            lemma_be128_roundtrip(x, b, 1);
            assert(b[17] == m[17] && b[18] == m[18]);
        },
    }
}

/// What the server sends when it matches `addr1` with `addr2`: when both use
/// the same IP version, `Ok` with the message for `addr1` (about `addr2`) and
/// the message for `addr2` (about `addr1`); otherwise `Err` with the single
/// zero byte that each of them is sent.
pub fn make_match(addr1: PeerAddr, addr2: PeerAddr) -> (r: Result<(Vec<u8>, Vec<u8>), (Vec<u8>, Vec<u8>)>)
    ensures
        (addr1.ip is V4) == (addr2.ip is V4) ==> (r matches Ok((to1, to2)) && to1@ == info_message(
            addr2,
        ) && to2@ == info_message(addr1)),
        (addr1.ip is V4) != (addr2.ip is V4) ==> (r matches Err((to1, to2)) && to1@ == seq![0u8]
            && to2@ == seq![0u8]),
{
    if addr1.is_ipv4() != addr2.is_ipv4() {
        let mut z1: Vec<u8> = Vec::new();
        z1.push(0u8);
        let mut z2: Vec<u8> = Vec::new();
        z2.push(0u8);
        assert(z1@ =~= seq![0u8]);
        assert(z2@ =~= seq![0u8]);
        Err((z1, z2))
    } else {
        Ok((info_bytes(addr2), info_bytes(addr1)))
    }
}

} // verus!
