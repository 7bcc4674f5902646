//! The address of the peer, as the swap server last told it.
use vstd::prelude::*;

verus! {

/// Remembers `address` as the peer's address in `store`.
pub fn update_peer_address(store: &mut String, address: String)
    ensures
        *final(store) == address,
{
    *store = address;
}

/// The peer's address remembered in `store`.
pub fn get_peer_address(store: &String) -> (r: String)
    ensures
        r == *store,
{
    store.clone()
}

} // verus!
