//! The packet that peers exchange: a 13-byte header (command, session, index
//! of the last packet of the message, index of this packet, each number
//! big-endian) followed by a piece of the message.
use vstd::prelude::*;
use rand::Rng;
use crate::bytes::{be32, from_be32, lemma_be32_roundtrip, push_be32, read_be32, copy_range, append_all};
use crate::conf::Conf;
use crate::swap_cmd::{SwapCmd, cmd_byte};
use crate::tools::{piece_count, segment_bytes, segments, vec_views};

verus! {

/// The length of the header of a packet.
pub const HEADER_LEN: usize = 13;

/// A packet as plain values.
pub struct PacketView {
    pub cmd: u8,
    pub sess: u32,
    pub max: u32,
    pub order: u32,
    pub body: Seq<u8>,
}

/// A packet: command, session of the message it belongs to, index of the last
/// packet of that message, index of this packet, and its piece of the message.
#[derive(Debug, PartialEq, Eq)]
pub struct Packet {
    pub cmd: u8,
    pub sess: u32,
    pub max: u32,
    pub order: u32,
    pub body: Vec<u8>,
}

impl View for Packet {
    type V = PacketView;

    open spec fn view(&self) -> PacketView {
        PacketView {
            cmd: self.cmd,
            sess: self.sess,
            max: self.max,
            order: self.order,
            body: self.body@,
        }
    }
}

/// The bytes of a packet on the wire.
pub open spec fn packet_bytes(p: PacketView) -> Seq<u8> {
    seq![p.cmd] + be32(p.sess) + be32(p.max) + be32(p.order) + p.body
}

/// The packet read from the first `total` bytes of `buf`.
pub open spec fn parse_packet(buf: Seq<u8>, total: int) -> PacketView {
    PacketView {
        cmd: buf[0],
        sess: from_be32(buf[1], buf[2], buf[3], buf[4]),
        max: from_be32(buf[5], buf[6], buf[7], buf[8]),
        order: from_be32(buf[9], buf[10], buf[11], buf[12]),
        body: buf.subrange(13, total),
    }
}

/// The packets of a message of session `sess` cut into `pieces`: command `P2P`,
/// index `i`, the index of the last piece as `max`.
pub open spec fn message_packets(sess: u32, pieces: Seq<Seq<u8>>) -> Seq<PacketView> {
    Seq::new(
        pieces.len(),
        |i: int|
            PacketView {
                cmd: cmd_byte(SwapCmd::P2P),
                sess: sess,
                max: (pieces.len() - 1) as u32,
                order: i as u32,
                body: pieces[i],
            },
    )
}

/// The views of a vector of packets.
pub open spec fn packet_views(s: Seq<Packet>) -> Seq<PacketView> {
    s.map_values(|p: Packet| p@)
}

/// A packet with the command `cmd`, the session, last index and index of `p`, and no body.
pub open spec fn reply_to(cmd: SwapCmd, p: PacketView) -> PacketView {
    PacketView { cmd: cmd_byte(cmd), sess: p.sess, max: p.max, order: p.order, body: seq![] }
}

/// Reading the bytes of a packet back gives the packet.
pub proof fn lemma_packet_roundtrip(p: PacketView)
    ensures
        packet_bytes(p).len() == HEADER_LEN + p.body.len(),
        parse_packet(packet_bytes(p), packet_bytes(p).len() as int) == p,
{
    let b = packet_bytes(p);
    lemma_be32_roundtrip(p.sess);
    lemma_be32_roundtrip(p.max);
    lemma_be32_roundtrip(p.order);
    assert(b.subrange(13, b.len() as int) =~= p.body);
    assert(b[1] == be32(p.sess)[0] && b[2] == be32(p.sess)[1] && b[3] == be32(p.sess)[2] && b[4]
        == be32(p.sess)[3]);
    assert(b[5] == be32(p.max)[0] && b[6] == be32(p.max)[1] && b[7] == be32(p.max)[2] && b[8]
        == be32(p.max)[3]);
    assert(b[9] == be32(p.order)[0] && b[10] == be32(p.order)[1] && b[11] == be32(p.order)[2]
        && b[12] == be32(p.order)[3]);
}

impl Clone for Packet {
    /// A copy of this packet.
    fn clone(&self) -> (p: Packet)
        ensures
            p@ == self@,
    {
        Packet {
            cmd: self.cmd,
            sess: self.sess,
            max: self.max,
            order: self.order,
            body: self.body.clone(),
        }
    }
}

impl Packet {
    /// A packet with command `Unknown`, all numbers 0 and no body.
    pub fn empty() -> (p: Packet)
        ensures
            p@ == (PacketView {
                cmd: cmd_byte(SwapCmd::Unknown),
                sess: 0,
                max: 0,
                order: 0,
                body: seq![],
            }),
    {
        Packet { cmd: SwapCmd::Unknown.enum2int(), sess: 0, max: 0, order: 0, body: Vec::new() }
    }

    /// A fresh session number, from `rand::thread_rng().gen::<u32>()`. Nothing
    /// is claimed of it: any number may come back.
    #[verifier::external_body]
    pub fn random_sess() -> u32 {
        rand::thread_rng().gen::<u32>()
    }

    /// The bytes of a `Hello` packet, which a peer sends to open the way to another.
    pub fn hello() -> (v: Vec<u8>)
        ensures
            v@ == packet_bytes(
                PacketView { cmd: cmd_byte(SwapCmd::Hello), sess: 0, max: 0, order: 0, body: seq![] },
            ),
    {
        let mut pac = Packet::empty();
        pac.cmd = SwapCmd::Hello.enum2int();
        pac.to_bytes()
    }

    /// The bytes of the `Got` packet that acknowledges `p`.
    pub fn got(p: &Packet) -> (v: Vec<u8>)
        ensures
            v@ == packet_bytes(reply_to(SwapCmd::Got, p@)),
    {
        let mut pac = Packet::empty();
        pac.cmd = SwapCmd::Got.enum2int();
        pac.sess = p.sess;
        pac.max = p.max;
        pac.order = p.order;
        pac.to_bytes()
    }

    /// The length of the header.
    pub fn header_len() -> (n: usize)
        ensures
            n == HEADER_LEN,
    {
        13
    }

    /// The bytes of this packet on the wire.
    pub fn to_bytes(&self) -> (v: Vec<u8>)
        ensures
            v@ == packet_bytes(self@),
    {
        let mut v: Vec<u8> = Vec::new();
        v.push(self.cmd);
        push_be32(&mut v, self.sess);
        push_be32(&mut v, self.max);
        push_be32(&mut v, self.order);
        append_all(&mut v, &self.body);
        assert(v@ =~= packet_bytes(self@));
        v
    }

    /// Cuts `body` into the packets of one message of session `sess`, each at
    /// most `conf_size` bytes long on the wire.
    pub fn new_pacs_with_sess(sess: u32, body: &Vec<u8>, conf_size: usize) -> (pacs: Vec<Packet>)
        requires
            body@.len() == 0 || conf_size > HEADER_LEN,
            body@.len() == 0 || piece_count(body@.len(), (conf_size - HEADER_LEN) as nat) <= u32::MAX,
        ensures
            packet_views(pacs@) == message_packets(
                sess,
                segments(body@, (conf_size - HEADER_LEN) as nat),
            ),
    {
        let data = segment_bytes(body, conf_size, Packet::header_len());
        let ghost pieces = segments(body@, (conf_size - HEADER_LEN) as nat);
        proof {
            if body@.len() == 0 {
                assert(pieces =~= seq![]);
            } else {
                crate::tools::lemma_segments_shape(body@, (conf_size - HEADER_LEN) as nat);
            }
        }
        assert(vec_views(data@) == pieces);
        let command = SwapCmd::P2P;
        let total = data.len();
        let mut res: Vec<Packet> = Vec::new();
        let mut i: usize = 0;
        while i < total
            invariant
                command == SwapCmd::P2P,
                total == data@.len(),
                total == pieces.len(),
                total <= u32::MAX,
                vec_views(data@) == pieces,
                i <= total,
                packet_views(res@) == message_packets(sess, pieces).take(i as int),
            decreases total - i,
        {
            let p = Packet {
                cmd: command.enum2int(),
                sess: sess,
                max: (total - 1) as u32,
                order: i as u32,
                body: data[i].clone(),
            };
            assert(data@[i as int]@ == pieces[i as int]);
            assert(p.body@ =~= data@[i as int]@);
            assert(p@ == message_packets(sess, pieces)[i as int]);
            let ghost before = packet_views(res@);
            res.push(p);
            assert(packet_views(res@) =~= before.push(p@));
            assert(message_packets(sess, pieces).take(i + 1) =~= message_packets(sess, pieces).take(
                i as int,
            ).push(p@));
            i = i + 1;
        }
        assert(message_packets(sess, pieces).take(total as int) =~= message_packets(sess, pieces));
        res
    }

    /// Cuts `body` into the packets of one message, of a fresh random session,
    /// each at most `conf.size` bytes long on the wire. Returns the session and the packets.
    pub fn new_pacs_from_send_bytes(body: &Vec<u8>, conf: &Conf) -> (r: (u32, Vec<Packet>))
        requires
            body@.len() == 0 || conf.size > HEADER_LEN,
            body@.len() == 0 || piece_count(body@.len(), (conf.size - HEADER_LEN) as nat) <= u32::MAX,
        ensures
            packet_views(r.1@) == message_packets(
                r.0,
                segments(body@, (conf.size - HEADER_LEN) as nat),
            ),
    {
        let ses = Packet::random_sess();
        let pacs = Packet::new_pacs_with_sess(ses, body, conf.size);
        (ses, pacs)
    }

    /// The packet kept in a store, whose bytes are all of `buf`.
    pub fn new_from_save_db(buf: &Vec<u8>) -> (p: Packet)
        requires
            buf@.len() >= HEADER_LEN,
        ensures
            p@ == parse_packet(buf@, buf@.len() as int),
    {
        let total = buf.len();
        Packet::new_from_rec_bytes(total, buf)
    }

    /// The packet held in the first `total` bytes of `buf`.
    pub fn new_from_rec_bytes(total: usize, buf: &Vec<u8>) -> (p: Packet)
        requires
            HEADER_LEN <= total <= buf@.len(),
        ensures
            p@ == parse_packet(buf@, total as int),
    {
        let sess_u = read_be32(buf[1], buf[2], buf[3], buf[4]);
        let max_u = read_be32(buf[5], buf[6], buf[7], buf[8]);
        let ord_u = read_be32(buf[9], buf[10], buf[11], buf[12]);
        Packet {
            cmd: buf[0],
            sess: sess_u,
            max: max_u,
            order: ord_u,
            body: copy_range(buf, 13, total),
        }
    }
}

/// The packets that answer a command.
pub trait Cmd2Pac {
    /// A `Hello` packet.
    fn hello(&self) -> Packet;

    /// A `Finish` packet for the packet of index `order`.
    fn finish(&self, order: u32) -> Packet;
}

impl Cmd2Pac for SwapCmd {
    fn hello(&self) -> (p: Packet)
        ensures
            p@ == (PacketView { cmd: cmd_byte(SwapCmd::Hello), sess: 0, max: 0, order: 0, body: seq![] }),
    {
        let mut pac = Packet::empty();
        pac.cmd = SwapCmd::Hello.enum2int();
        pac
    }

    fn finish(&self, order: u32) -> (p: Packet)
        ensures
            p@ == (PacketView { cmd: cmd_byte(SwapCmd::Finish), sess: 0, max: 0, order: order, body: seq![] }),
    {
        let mut pac = Packet::empty();
        pac.cmd = SwapCmd::Finish.enum2int();
        pac.order = order;
        pac
    }
}

} // verus!
