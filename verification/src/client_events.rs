//! What a client does with a datagram: one from the swap server carries a
//! command and the text of an address or id; one from a peer is a packet.
use vstd::prelude::*;
use vstd::utf8::{valid_utf8, decode_utf8, encode_utf8};
use vstd::string::StringSliceAdditionalSpecFns;
use crate::addr::PeerAddr;
use crate::bytes::{be32, from_be32, copy_range};
use crate::conf::Conf;
use crate::packet::{HEADER_LEN, Packet, PacketView, packet_bytes, parse_packet, reply_to};
use crate::rec_store::RecKey;
use crate::db::{DB, SendDelOne};
use crate::send_store::{SendKey, send_key};
use crate::swap_cmd::{SwapCmd, cmd_of_byte, cmd_frame};

verus! {

/// `std::str::from_utf8`: the bytes read as text when they are valid UTF-8.
/// Claimed: the result is present exactly when the bytes are valid UTF-8, and
/// then the text is made of exactly these bytes.
#[verifier::external_body]
fn utf8_text(b: &[u8]) -> (r: Option<&str>)
    ensures
        r is Some <==> valid_utf8(b@),
        r matches Some(s) ==> s.spec_bytes() == b@,
{
    std::str::from_utf8(b).ok()
}

/// The text that bytes stand for: their UTF-8 reading, or "" when they are not UTF-8.
pub open spec fn text_of(b: Seq<u8>) -> Seq<char> {
    if valid_utf8(b) {
        decode_utf8(b)
    } else {
        seq![]
    }
}

/// The text that the first `n` bytes of a datagram `buf` from the swap server
/// carry after the command byte: an address or an id ("" when not UTF-8).
pub fn reply_text(buf: &Vec<u8>, n: usize) -> (r: String)
    requires
        1 <= n <= buf@.len(),
    ensures
        r@ == text_of(buf@.subrange(1, n as int)),
{
    let part = copy_range(buf, 1, n);
    match utf8_text(part.as_slice()) {
        Some(s) => {
            proof {
                vstd::utf8::encode_utf8_decode_utf8(s@);
            }
            s.to_owned()
        },
        None => String::new(),
    }
}

/// Law: the text carried by a frame `[command] ++ utf8(id)` reads back as `id`.
pub proof fn lemma_frame_text_roundtrip(id: Seq<char>, c: SwapCmd)
    ensures
        cmd_frame(id, c).len() >= 1,
        text_of(cmd_frame(id, c).subrange(1, cmd_frame(id, c).len() as int)) == id,
        cmd_of_byte(cmd_frame(id, c)[0]) == c,
{
    let f = cmd_frame(id, c);
    assert(f.subrange(1, f.len() as int) =~= encode_utf8(id));
    vstd::utf8::encode_utf8_valid_utf8(id);
    vstd::utf8::encode_utf8_decode_utf8(id);
    crate::swap_cmd::lemma_cmd_byte_roundtrip(c);
}

/// What a client does with a datagram from the swap server.
pub enum ServerAction {
    /// Send a `Hello` packet (these bytes) to the peer at this address, to open the way.
    SendHello(String, Vec<u8>),
    /// Remember this address as the peer's.
    SetPeerAddress(String),
    /// Nothing.
    Ignore,
}

/// Decides what to do with the first `n` bytes of a datagram `buf` from the
/// swap server: on `Open`, send `Hello` to the address it carries; on `Ask`,
/// remember the address it carries as the peer's; otherwise nothing.
pub fn process_from_server(n: usize, buf: &Vec<u8>) -> (a: ServerAction)
    requires
        1 <= n <= buf@.len(),
    ensures
        cmd_of_byte(buf@[0]) == SwapCmd::Open ==> (a matches ServerAction::SendHello(to, hello) && to@
            == text_of(buf@.subrange(1, n as int)) && hello@ == packet_bytes(
            PacketView { cmd: crate::swap_cmd::cmd_byte(SwapCmd::Hello), sess: 0, max: 0, order: 0, body: seq![] },
        )),
        cmd_of_byte(buf@[0]) == SwapCmd::Ask ==> (a matches ServerAction::SetPeerAddress(addr) && addr@
            == text_of(buf@.subrange(1, n as int))),
        cmd_of_byte(buf@[0]) != SwapCmd::Open && cmd_of_byte(buf@[0]) != SwapCmd::Ask ==> a is Ignore,
{
    let cmd = SwapCmd::client_int2enum(buf[0]);
    match cmd {
        SwapCmd::Open => ServerAction::SendHello(reply_text(buf, n), Packet::hello()),
        SwapCmd::Ask => ServerAction::SetPeerAddress(reply_text(buf, n)),
        _ => ServerAction::Ignore,
    }
}

/// What a client does with a packet from a peer.
pub enum PeerAction {
    /// Keep the packet in the receive store (these bytes under this key) and
    /// send the acknowledgement (these bytes) back to the peer.
    Store(RecKey, Vec<u8>, Vec<u8>),
    /// The peer acknowledged a packet: remove these keys from the send store.
    Acknowledged(Vec<SendKey>),
    /// Nothing.
    Ignore,
}

/// Decides what to do with the packet in the first `n` bytes of a datagram
/// `buf` from the peer at `address`: a `P2P` packet is kept and acknowledged
/// with `Got`; a `Got` packet removes the acknowledged packet from the send store.
pub fn process_from_peer(n: usize, address: PeerAddr, buf: &Vec<u8>, conf: &Conf) -> (a: PeerAction)
    requires
        HEADER_LEN <= n <= buf@.len(),
        cmd_of_byte(buf@[0]) == SwapCmd::Got ==> conf.retry_send_times < i32::MAX,
    ensures
        ({
            let p = parse_packet(buf@, n as int);
            &&& cmd_of_byte(buf@[0]) == SwapCmd::P2P ==> (a matches PeerAction::Store(key, value, reply)
                && key == (RecKey { address: address, session: p.sess, max: p.max, order: p.order })
                && value@ == packet_bytes(p) && reply@ == packet_bytes(reply_to(SwapCmd::Got, p)))
            &&& cmd_of_byte(buf@[0]) == SwapCmd::Got ==> (a matches PeerAction::Acknowledged(keys)
                && keys@.len() == (if conf.retry_send_times < 0 { 0 } else { conf.retry_send_times + 1 })
                && forall|i: int| 0 <= i < keys@.len() ==> #[trigger] keys@[i] == send_key(p, address, i as i32))
            &&& cmd_of_byte(buf@[0]) != SwapCmd::P2P && cmd_of_byte(buf@[0]) != SwapCmd::Got ==> a is Ignore
        }),
{
    let cmd = SwapCmd::client_int2enum(buf[0]);
    let pac = Packet::new_from_rec_bytes(n, buf);
    match cmd {
        SwapCmd::P2P => {
            let key = RecKey::new(&pac, address);
            let value = pac.to_bytes();
            let got = Packet::got(&pac);
            PeerAction::Store(key, value, got)
        },
        SwapCmd::Got => PeerAction::Acknowledged(DB::Send.send_del_one(conf, address, &pac)),
        _ => PeerAction::Ignore,
    }
}

/// Law: the bytes kept for a received packet are exactly the bytes received.
pub proof fn lemma_stored_bytes_are_received_bytes(buf: Seq<u8>, n: int)
    requires
        HEADER_LEN <= n <= buf.len(),
    ensures
        packet_bytes(parse_packet(buf, n)) == buf.subrange(0, n),
{
    let p = parse_packet(buf, n);
    lemma_be32_of_bytes(buf[1], buf[2], buf[3], buf[4]);
    lemma_be32_of_bytes(buf[5], buf[6], buf[7], buf[8]);
    lemma_be32_of_bytes(buf[9], buf[10], buf[11], buf[12]);
    assert(packet_bytes(p) =~= buf.subrange(0, n));
}

/// Writing back a number read from four big-endian bytes gives the bytes.
pub proof fn lemma_be32_of_bytes(b0: u8, b1: u8, b2: u8, b3: u8)
    ensures
        be32(from_be32(b0, b1, b2, b3)) == seq![b0, b1, b2, b3],
{
    let x = from_be32(b0, b1, b2, b3);
    assert((x >> 24u32) as u8 == b0 && (x >> 16u32) as u8 == b1 && (x >> 8u32) as u8 == b2 && x as u8
        == b3) by (bit_vector)
        requires
            x == ((b0 as u32) << 24u32) | ((b1 as u32) << 16u32) | ((b2 as u32) << 8u32) | (b3 as u32),
    ;
    assert(be32(x) =~= seq![b0, b1, b2, b3]);
}

} // verus!
