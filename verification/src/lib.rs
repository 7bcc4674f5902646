//! UDP hole punching: the wire formats, the segmentation of messages into
//! packets and their reassembly, the bookkeeping of the send, receive and task
//! stores, and the match-making decisions of the swap server.
use vstd::prelude::*;

pub mod addr;
pub mod api;
pub mod assoc;
pub mod bytes;
pub mod cli;
pub mod client_events;
pub mod conf;
pub mod db;
pub mod handlers;
pub mod hole_punch;
pub mod match_map;
pub mod packet;
pub mod packets;
pub mod peer_address;
pub mod rec_store;
pub mod send_cache;
pub mod send_store;
pub mod server;
pub mod swap_cmd;
pub mod timer;
pub mod tools;

verus! {

} // verus!
