//! The heart beat that keeps a callee registered with the swap server.
use vstd::prelude::*;
use crate::conf::Conf;
use crate::swap_cmd::{SwapCmd, cmd_frame};

verus! {

#[verifier::external_type_specification]
#[verifier::external_body]
pub struct ExInstant(std::time::Instant);

/// `std::time::Instant::now`: the current time. Nothing is claimed of it.
#[verifier::external_body]
fn now() -> std::time::Instant {
    std::time::Instant::now()
}

/// `std::time::Instant::elapsed`: the time since `t`. Nothing is claimed of it.
#[verifier::external_body]
fn elapsed(t: &std::time::Instant) -> core::time::Duration {
    t.elapsed()
}

/// `std::time::Duration::as_secs`: the whole seconds of `d`. Nothing is claimed of it.
#[verifier::external_body]
fn as_secs(d: &core::time::Duration) -> u64 {
    d.as_secs()
}

/// The heart beat due after `elapsed_secs` seconds since the last one: none
/// for a client without an id, none before `conf.heart_beat_interval`
/// seconds, otherwise the `Save` frame that registers `conf.id` again.
pub fn heart_beat_due(conf: &Conf, elapsed_secs: i32) -> (r: Option<Vec<u8>>)
    ensures
        conf.id@.len() == 0 ==> r is None,
        conf.id@.len() > 0 && elapsed_secs < conf.heart_beat_interval ==> r is None,
        conf.id@.len() > 0 && elapsed_secs >= conf.heart_beat_interval ==> (r matches Some(v) && v@
            == cmd_frame(conf.id@, SwapCmd::Save)),
{
    let id = conf.id.as_str();
    if id.is_empty() {
        return None;
    }
    if elapsed_secs < conf.heart_beat_interval {
        return None;
    }
    Some(SwapCmd::save(id))
}

/// The time of the last heart beat.
pub struct Timer {
    time: std::time::Instant,
}

impl Timer {
    /// A timer started now.
    pub fn start() -> Timer {
        Timer { time: now() }
    }
}

/// Sending heart beats to the swap server.
pub trait HeartBeat {
    /// The heart beat to send now, if one is due.
    fn heart_beat(&mut self, conf: &Conf) -> Option<Vec<u8>>;
}

impl HeartBeat for Timer {
    /// The heart beat to send now, if one is due: for a client with an id,
    /// once `conf.heart_beat_interval` seconds have passed since the last one
    /// (the timer then starts again), the `Save` frame that registers `conf.id`.
    fn heart_beat(&mut self, conf: &Conf) -> (r: Option<Vec<u8>>)
        ensures
            conf.id@.len() == 0 ==> r is None,
            r is None || (r matches Some(v) && v@ == cmd_frame(conf.id@, SwapCmd::Save)),
            r is None ==> *final(self) == *old(self),
    {
        let secs = as_secs(&elapsed(&self.time)) as i32;
        let due = heart_beat_due(conf, secs);
        if due.is_some() {
            self.time = now();
        }
        due
    }
}

} // verus!
