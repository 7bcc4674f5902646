//! The client's interface: sending a message and asking the swap server
//! for the address of a peer.
use vstd::prelude::*;
use crate::addr::PeerAddr;
use crate::conf::Conf;
use crate::db::{DB, BatchSave};
use crate::packet::{HEADER_LEN, Packet, packet_views, packet_bytes, message_packets};
use crate::send_store::{SendKey, send_key};
use crate::swap_cmd::{SwapCmd, cmd_frame};
use crate::tools::{piece_count, segments};

verus! {

/// Asks the swap server for the address of peer `peer_id`: forgets the
/// peer address known so far and gives the `Ask` frame to queue for the server.
pub fn ask_peer_address(peer_store: &mut String, peer_id: &str) -> (frame: Vec<u8>)
    ensures
        final(peer_store)@ == Seq::<char>::empty(),
        frame@ == cmd_frame(peer_id@, SwapCmd::Ask),
{
    crate::peer_address::update_peer_address(peer_store, String::new());
    SwapCmd::ask(peer_id)
}

/// What sending a message hands to the stores: the session, the entries to
/// keep until they are acknowledged, and the bytes of each packet to queue.
pub struct SendPlan {
    pub sess: u32,
    pub keep: Vec<(SendKey, Vec<u8>)>,
    pub queue: Vec<Vec<u8>>,
}

/// Sends `msg` to `address`: cuts it into the packets of a fresh session,
/// keeps them for resending when there are more than `conf.min_retry_len`
/// of them, and queues the bytes of every packet.
pub fn send(msg: &Vec<u8>, address: PeerAddr, conf: &Conf) -> (p: SendPlan)
    requires
        msg@.len() == 0 || conf.size > HEADER_LEN,
        msg@.len() == 0 || piece_count(msg@.len(), (conf.size - HEADER_LEN) as nat) <= u32::MAX,
    ensures
        ({
            let pacs = message_packets(p.sess, segments(msg@, (conf.size - HEADER_LEN) as nat));
            &&& p.queue@.len() == pacs.len()
            &&& forall|i: int| 0 <= i < pacs.len() ==> (#[trigger] p.queue@[i])@ == packet_bytes(pacs[i])
            &&& (pacs.len() > (conf.min_retry_len as usize) as int) ==> p.keep@.len() == pacs.len()
            &&& (pacs.len() > (conf.min_retry_len as usize) as int) ==> forall|i: int|
                0 <= i < pacs.len() ==> (#[trigger] p.keep@[i]).0 == send_key(pacs[i], address, 0)
                    && p.keep@[i].1@ == packet_bytes(pacs[i])
            &&& !(pacs.len() > (conf.min_retry_len as usize) as int) ==> p.keep@.len() == 0
        }),
{
    let (sess, pacs) = Packet::new_pacs_from_send_bytes(msg, conf);
    let ghost pv = packet_views(pacs@);
    let total = pacs.len();
    let lower = conf.min_retry_len as usize;
    let keep = if total > lower {
        DB::Send.batch_save(address, &pacs)
    } else {
        Vec::new()
    };
    let mut queue: Vec<Vec<u8>> = Vec::new();
    let mut i: usize = 0;
    while i < total
        invariant
            total == pacs@.len(),
            pv == packet_views(pacs@),
            i <= total,
            queue@.len() == i,
            forall|j: int| 0 <= j < i ==> (#[trigger] queue@[j])@ == packet_bytes(pv[j]),
        decreases total - i,
    {
        queue.push(pacs[i].to_bytes());
        i = i + 1;
    }
    proof {
        assert forall|i: int| 0 <= i < total implies pv[i] == pacs@[i]@ by {}
    }
    SendPlan { sess, keep, queue }
}

} // verus!
