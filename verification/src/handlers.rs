//! The message handlers that the examples run on the callee side.
use vstd::prelude::*;

verus! {

/// Answers a message with the same bytes.
pub fn echo(msg: &Vec<u8>) -> (r: Vec<u8>)
    ensures
        r@ == msg@,
{
    msg.clone()
}

/// Answers a text message with the same text.
pub fn handler(msg: &str) -> (r: String)
    ensures
        r@ == msg@,
{
    msg.to_owned()
}

} // verus!
