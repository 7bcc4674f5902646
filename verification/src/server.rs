//! The swap server: callees register their id and address; a caller that
//! names an id gets the callee's address, and the callee gets the caller's.
//! Its packets travel as a length-prefixed frame around their serialization.
use vstd::prelude::*;
use vstd::utf8::encode_utf8;
use vstd::string::StringSliceAdditionalSpecFns;
use rand::Rng;
use crate::addr::{Ip, PeerAddr};
use crate::bytes::{be16, from_be16, lemma_be16_roundtrip, read_be16, copy_range};
use crate::assoc::{assoc, keys_distinct, lemma_assoc, lemma_assoc_dom, lemma_assoc_push, lemma_assoc_remove};
use crate::match_map::{entry_views, bytes_eq};

verus! {

/// The largest datagram the server reads.
pub const PAC_SIZE: usize = 1472;

/// The command of a server packet.
#[derive(PartialEq, Eq, Structural, Copy, Clone, Debug)]
pub enum CMD {
    Save,
    Open,
    P2P,
    Unknown,
}

/// A packet of the swap server.
#[derive(Debug, PartialEq, Eq)]
pub struct Packet {
    pub address: PeerAddr,
    pub callee: String,
    pub cmd: CMD,
    pub success: bool,
    pub err: String,
    pub session: u16,
    pub order: u16,
    pub max: u16,
    pub body_len: u16,
}

/// A random `u16`, from `rand::thread_rng().gen::<u16>()`. Nothing is
/// claimed of it: any number may come back.
#[verifier::external_body]
pub fn rand_u16() -> u16 {
    rand::thread_rng().gen::<u16>()
}

/// The default port number of a packet: 0.
pub fn default0() -> (n: usize)
    ensures
        n == 0,
{
    0
}

/// The default command of a packet.
pub fn default_cmd() -> (c: CMD)
    ensures
        c == CMD::Unknown,
{
    CMD::Unknown
}

/// The empty text.
pub fn empty() -> (s: String)
    ensures
        s@ == Seq::<char>::empty(),
{
    String::new()
}

/// The default success flag: true.
pub fn default_true() -> (b: bool)
    ensures
        b,
{
    true
}

/// The default body: a single zero byte.
pub fn default_vec() -> (v: Vec<u8>)
    ensures
        v@ == seq![0u8],
{
    let mut v: Vec<u8> = Vec::new();
    v.push(0u8);
    assert(v@ =~= seq![0u8]);
    v
}

/// The frame of a serialized packet: its length (modulo 2^16, big-endian) and the bytes.
pub open spec fn frame_of(encoded: Seq<u8>) -> Seq<u8> {
    be16((encoded.len() % 0x10000) as u16) + encoded
}

/// The length that a frame announces.
pub open spec fn frame_len(enc: Seq<u8>) -> int {
    from_be16(enc[0], enc[1]) as int
}

impl Packet {
    /// A packet from `0.0.0.0:0` with no callee, command `Unknown`, success,
    /// no error, a random session and all other numbers 0.
    pub fn default() -> (p: Packet)
        ensures
            p.address == (PeerAddr { ip: Ip::V4(0), port: 0 }),
            p.callee@ == Seq::<char>::empty(),
            p.cmd == CMD::Unknown,
            p.success,
            p.err@ == Seq::<char>::empty(),
            p.order == 0,
            p.max == 0,
            p.body_len == 0,
    {
        Packet {
            address: crate::addr::localhost(),
            callee: String::new(),
            cmd: CMD::Unknown,
            success: true,
            err: String::new(),
            session: rand_u16(),
            order: 0,
            max: 0,
            body_len: 0,
        }
    }

    /// The registration packet of a callee whose id is `uuid`.
    pub fn callee_save_default(uuid: &str) -> (p: Packet)
        ensures
            p.address == (PeerAddr { ip: Ip::V4(0), port: 0 }),
            p.callee@ == uuid@,
            p.cmd == CMD::Save,
            p.success,
            p.err@ == Seq::<char>::empty(),
            p.order == 0 && p.max == 0 && p.body_len == 0,
    {
        let mut def = Packet::default();
        def.callee = uuid.to_owned();
        def.cmd = CMD::Save;
        def
    }

    /// The packet a caller sends to be matched with callee `id`.
    pub fn caller_open_default(id: &str) -> (p: Packet)
        ensures
            p.address == (PeerAddr { ip: Ip::V4(0), port: 0 }),
            p.callee@ == id@,
            p.cmd == CMD::Open,
            p.success,
            p.err@ == Seq::<char>::empty(),
            p.order == 0 && p.max == 0 && p.body_len == 0,
    {
        let mut def = Packet::default();
        def.cmd = CMD::Open;
        def.callee = id.to_owned();
        def
    }

    /// A packet for the peer at `address`.
    pub fn p2p_default(address: PeerAddr) -> (p: Packet)
        ensures
            p.address == address,
            p.callee@ == Seq::<char>::empty(),
            p.cmd == CMD::P2P,
            p.success,
            p.err@ == Seq::<char>::empty(),
            p.order == 0 && p.max == 0 && p.body_len == 0,
    {
        let mut def = Packet::default();
        def.cmd = CMD::P2P;
        def.address = address;
        def
    }
}

impl Clone for Packet {
    /// A field-by-field copy.
    fn clone(&self) -> (p: Packet)
        ensures
            p == *self,
    {
        Packet {
            address: self.address,
            callee: self.callee.clone(),
            cmd: self.cmd,
            success: self.success,
            err: self.err.clone(),
            session: self.session,
            order: self.order,
            max: self.max,
            body_len: self.body_len,
        }
    }
}

/// Frames the serialization `encoded` of a packet: two big-endian bytes of
/// its length (modulo 2^16), then the bytes.
pub fn pack_frame(encoded: &Vec<u8>) -> (v: Vec<u8>)
    ensures
        v@ == frame_of(encoded@),
{
    let n = (encoded.len() % 0x10000) as u16;
    let mut v: Vec<u8> = Vec::new();
    v.push((n >> 8u16) as u8);
    v.push(n as u8);
    crate::bytes::append_all(&mut v, encoded);
    assert(v@ =~= frame_of(encoded@));
    v
}

/// The serialized packet inside a frame: as many bytes after the two-byte
/// length as the length says.
pub fn unpack_frame(enc: &Vec<u8>) -> (body: Vec<u8>)
    requires
        enc@.len() >= 2,
        enc@.len() >= 2 + frame_len(enc@),
    ensures
        body@ == enc@.subrange(2, 2 + frame_len(enc@)),
{
    let n = read_be16(enc[0], enc[1]) as usize;
    copy_range(enc, 2, 2 + n)
}

/// Law: unframing a frame gives back the serialized packet (up to 2^16 - 1 bytes).
pub proof fn lemma_frame_roundtrip(encoded: Seq<u8>)
    requires
        encoded.len() < 0x10000,
    ensures
        frame_of(encoded).len() >= 2,
        frame_of(encoded).len() == 2 + frame_len(frame_of(encoded)),
        frame_of(encoded).subrange(2, 2 + frame_len(frame_of(encoded))) == encoded,
{
    let f = frame_of(encoded);
    lemma_be16_roundtrip(encoded.len() as u16);
    assert(f[0] == be16(encoded.len() as u16)[0] && f[1] == be16(encoded.len() as u16)[1]);
    assert(f.subrange(2, f.len() as int) =~= encoded);
}

/// The body after the serialized header in a datagram `enc` of the peer
/// protocol: the header's length (two big-endian bytes), the header, then
/// `body_len` bytes of body.
pub fn unpack_body(enc: &Vec<u8>, body_len: usize) -> (body: Vec<u8>)
    requires
        enc@.len() >= 2,
        body_len > 0 ==> enc.len() >= 2 + frame_len(enc@) + body_len,
    ensures
        body_len > 0 ==> body@ == enc@.subrange(2 + frame_len(enc@), 2 + frame_len(enc@) + body_len),
        body_len == 0 ==> body@ == Seq::<u8>::empty(),
{
    let header_len = read_be16(enc[0], enc[1]) as usize;
    if body_len == 0 {
        return Vec::new();
    }
    let body_start = 2 + header_len;
    copy_range(enc, body_start, body_start + body_len)
}

/// The addresses of the registered callees, by the UTF-8 bytes of their ids.
pub struct Registry {
    entries: Vec<(Vec<u8>, PeerAddr)>,
}

impl View for Registry {
    type V = Map<Seq<u8>, PeerAddr>;

    closed spec fn view(&self) -> Map<Seq<u8>, PeerAddr> {
        assoc(entry_views(self.entries@))
    }
}

/// The key under which a callee id is registered: its UTF-8 bytes.
pub open spec fn id_key(id: Seq<char>) -> Seq<u8> {
    encode_utf8(id)
}

/// Law: different ids are registered under different keys.
pub proof fn lemma_id_key_injective(a: Seq<char>, b: Seq<char>)
    ensures
        id_key(a) == id_key(b) ==> a == b,
{
    vstd::utf8::encode_utf8_decode_utf8(a);
    vstd::utf8::encode_utf8_decode_utf8(b);
}

/// Law: registering another callee leaves the registration of a callee as it
/// was: after `id1` registers at `a1` and then a different `id2` at `a2`, `id1`
/// is still found at `a1` (and `id2` at `a2`).
pub proof fn lemma_other_registration_keeps(
    m: Map<Seq<u8>, PeerAddr>,
    id1: Seq<char>,
    a1: PeerAddr,
    id2: Seq<char>,
    a2: PeerAddr,
)
    requires
        id1 != id2,
    ensures
        m.insert(id_key(id1), a1).insert(id_key(id2), a2).dom().contains(id_key(id1)),
        m.insert(id_key(id1), a1).insert(id_key(id2), a2)[id_key(id1)] == a1,
        m.insert(id_key(id1), a1).insert(id_key(id2), a2)[id_key(id2)] == a2,
{
    lemma_id_key_injective(id1, id2);
}

impl Registry {
    /// No id is registered twice.
    pub closed spec fn wf(&self) -> bool {
        keys_distinct(entry_views(self.entries@))
    }

    /// No callee registered.
    pub fn new() -> (r: Registry)
        ensures
            r.wf(),
            r@ == Map::<Seq<u8>, PeerAddr>::empty(),
    {
        Registry { entries: Vec::new() }
    }

    /// Registers (or moves) callee `id` at `address`.
    pub fn insert(&mut self, id: &str, address: PeerAddr)
        requires
            old(self).wf(),
        ensures
            final(self).wf(),
            final(self)@ == old(self)@.insert(id_key(id@), address),
    {
        let key = bytes_to_vec(id.as_bytes());
        let ghost s = entry_views(self.entries@);
        let mut p: usize = 0;
        let mut found = false;
        while !found && p < self.entries.len()
            invariant
                s == entry_views(self.entries@),
                key@ == id_key(id@),
                p <= self.entries@.len(),
                found ==> p < self.entries@.len() && s[p as int].0 == key@,
                forall|j: int| 0 <= j < p ==> #[trigger] s[j].0 != key@,
            decreases self.entries@.len() - p, if found { 0int } else { 1int },
        {
            if bytes_eq(&self.entries[p].0, &key) {
                found = true;
            } else {
                p = p + 1;
            }
        }
        proof {
            lemma_assoc_dom(s);
        }
        let ghost s2 = s;
        if found {
            self.entries.remove(p);
            proof {
                lemma_assoc_remove(s, p as int);
                assert(entry_views(self.entries@) =~= s.remove(p as int));
            }
        }
        let ghost t = entry_views(self.entries@);
        proof {
            lemma_assoc_dom(t);
            assert(!assoc(t).dom().contains(key@));
        }
        self.entries.push((key, address));
        proof {
            assert(entry_views(self.entries@) =~= t.push((id_key(id@), address)));
            lemma_assoc_push(t, (id_key(id@), address));
            assert forall|k: Seq<u8>| true implies assoc(t).insert(id_key(id@), address).dom().contains(k)
                == assoc(s).insert(id_key(id@), address).dom().contains(k) by {}
            assert(assoc(t).insert(id_key(id@), address) =~= assoc(s).insert(id_key(id@), address));
        }
    }

    /// The address callee `id` registered from, if it did.
    pub fn get(&self, id: &str) -> (r: Option<PeerAddr>)
        requires
            self.wf(),
        ensures
            self@.dom().contains(id_key(id@)) ==> r == Some(self@[id_key(id@)]),
            !self@.dom().contains(id_key(id@)) ==> r is None,
    {
        let key = bytes_to_vec(id.as_bytes());
        let ghost s = entry_views(self.entries@);
        let mut p: usize = 0;
        while p < self.entries.len()
            invariant
                s == entry_views(self.entries@),
                keys_distinct(s),
                key@ == id_key(id@),
                p <= self.entries@.len(),
                forall|j: int| 0 <= j < p ==> #[trigger] s[j].0 != key@,
            decreases self.entries@.len() - p,
        {
            if bytes_eq(&self.entries[p].0, &key) {
                proof {
                    lemma_assoc(s);
                    assert(s[p as int] == (self.entries@[p as int].0@, self.entries@[p as int].1));
                    assert(s[p as int].0 == id_key(id@));
                }
                return Some(self.entries[p].1);
            }
            p = p + 1;
        }
        proof {
            lemma_assoc_dom(s);
        }
        None
    }
}

/// Copies the bytes of a slice into a vector.
pub fn bytes_to_vec(s: &[u8]) -> (v: Vec<u8>)
    ensures
        v@ == s@,
{
    let mut v: Vec<u8> = Vec::new();
    let mut i: usize = 0;
    while i < s.len()
        invariant
            i <= s@.len(),
            v@ == s@.subrange(0, i as int),
        decreases s@.len() - i,
    {
        v.push(s[i]);
        assert(s@.subrange(0, i + 1) == s@.subrange(0, i as int).push(s@[i as int]));
        i = i + 1;
    }
    assert(s@.subrange(0, s@.len() as int) == s@);
    v
}

/// An answer of the server to an `Open`: command `Open` for callee `callee`,
/// carrying `address`, with the given success flag and error text, and all
/// numbers but the (random) session 0.
pub open spec fn open_answer(p: Packet, callee: Seq<char>, address: PeerAddr, success: bool, err: Seq<char>) -> bool {
    &&& p.cmd == CMD::Open
    &&& p.callee@ == callee
    &&& p.address == address
    &&& p.success == success
    &&& p.err@ == err
    &&& p.order == 0 && p.max == 0 && p.body_len == 0
}

/// The error text of a failed `Open`.
pub open spec fn no_peer_text() -> Seq<char> {
    "can not find peer ip to call"@
}

/// What the server does with the packets it receives.
pub trait Process {
    /// Registers the sender of this packet as callee `callee`.
    fn callee_registry(&self, registry: &mut Registry) -> (b: bool)
        requires
            old(registry).wf(),
        ensures
            final(registry).wf(),
    ;

    /// The answers to a caller that asks for callee `callee`: the packet for the
    /// caller and the packet for the callee.
    fn make_pair(&self, registry: &Registry) -> (r: (Packet, Packet))
        requires
            registry.wf(),
    ;
}

impl Process for Packet {
    fn callee_registry(&self, registry: &mut Registry) -> (b: bool)
        ensures
            final(registry)@ == old(registry)@.insert(id_key(self.callee@), self.address),
            b,
    {
        registry.insert(self.callee.as_str(), self.address);
        true
    }

    fn make_pair(&self, registry: &Registry) -> (r: (Packet, Packet))
        ensures
            registry@.dom().contains(id_key(self.callee@)) ==> open_answer(
                r.0,
                self.callee@,
                registry@[id_key(self.callee@)],
                true,
                Seq::<char>::empty(),
            ) && open_answer(r.1, self.callee@, self.address, true, Seq::<char>::empty()),
            !registry@.dom().contains(id_key(self.callee@)) ==> open_answer(
                r.0,
                self.callee@,
                PeerAddr { ip: Ip::V4(0), port: 0 },
                false,
                no_peer_text(),
            ) && r.1 == r.0,
    {
        let mut pac2caller = Packet::caller_open_default(self.callee.as_str());
        let mut pac2callee = Packet::caller_open_default(self.callee.as_str());
        let mut pac2fail = Packet::caller_open_default(self.callee.as_str());
        match registry.get(self.callee.as_str()) {
            None => {
                pac2fail.success = false;
                pac2fail.err = "can not find peer ip to call".to_owned();
                (pac2fail.clone(), pac2fail)
            },
            Some(addr) => {
                pac2callee.address = self.address;
                pac2caller.address = addr;
                (pac2caller, pac2callee)
            },
        }
    }
}

/// What the server does with a packet `income` received from `me`: a `Save`
/// registers `me` as the callee it names and answers nothing; an `Open` asks
/// for the callee it names: when that callee is registered, the caller is sent
/// the callee's address and the callee the caller's, otherwise the caller is
/// sent a failure. Each answer comes with the address to send it to.
pub fn make_match_step(registry: &mut Registry, income: Packet, me: PeerAddr) -> (sends: Vec<(Packet, PeerAddr)>)
    requires
        old(registry).wf(),
    ensures
        final(registry).wf(),
        income.cmd == CMD::Save ==> final(registry)@ == old(registry)@.insert(id_key(income.callee@), me)
            && sends@.len() == 0,
        income.cmd != CMD::Save ==> final(registry)@ == old(registry)@,
        income.cmd == CMD::Open && old(registry)@.dom().contains(id_key(income.callee@)) ==> sends@.len() == 2
            && sends@[0].1 == me && open_answer(
                sends@[0].0,
                income.callee@,
                old(registry)@[id_key(income.callee@)],
                true,
                Seq::<char>::empty(),
            ) && sends@[1].1 == old(registry)@[id_key(income.callee@)] && open_answer(
                sends@[1].0,
                income.callee@,
                me,
                true,
                Seq::<char>::empty(),
            ),
        income.cmd == CMD::Open && !old(registry)@.dom().contains(id_key(income.callee@)) ==> sends@.len()
            == 1 && sends@[0].1 == me && open_answer(
                sends@[0].0,
                income.callee@,
                PeerAddr { ip: Ip::V4(0), port: 0 },
                false,
                no_peer_text(),
            ),
        income.cmd != CMD::Save && income.cmd != CMD::Open ==> sends@.len() == 0,
{
    let mut income = income;
    let mut sends: Vec<(Packet, PeerAddr)> = Vec::new();
    match income.cmd {
        CMD::Save => {
            income.address = me;
            income.callee_registry(registry);
        },
        CMD::Open => {
            income.address = me;
            let (pac2caller, pac2callee) = income.make_pair(registry);
            if pac2callee.success && pac2caller.success {
                let to = pac2caller.address;
                sends.push((pac2caller, me));
                sends.push((pac2callee, to));
            } else {
                sends.push((pac2caller, me));
            }
        },
        _ => {},
    }
    sends
}

/// Law: once a callee has registered under an id from an address, a caller
/// that asks for that id is sent that address (until the callee registers
/// again from elsewhere).
pub proof fn lemma_registered_callee_is_found(
    m: Map<Seq<u8>, PeerAddr>,
    id: Seq<char>,
    callee: PeerAddr,
)
    ensures
        m.insert(id_key(id), callee).dom().contains(id_key(id)),
        m.insert(id_key(id), callee)[id_key(id)] == callee,
{
}

} // verus!
