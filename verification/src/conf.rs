//! The client's settings.
use vstd::prelude::*;

verus! {

/// The settings a client runs with.
#[derive(Debug, PartialEq, Eq)]
pub struct Conf {
    /// The id under which a callee registers with the swap server ("" registers nothing).
    pub id: String,
    /// Where the stores keep their data.
    pub db_path: String,
    /// The largest datagram, header included.
    pub size: usize,
    /// Messages split into more packets than this are kept for resending.
    pub min_retry_len: i32,
    /// How many times a kept packet is sent again.
    pub retry_send_times: i32,
    /// How long one receive waits, in microseconds.
    pub single_rec_timeout: i32,
    /// The address of the swap server.
    pub swap_server: String,
    /// Seconds between two heart beats to the swap server.
    pub heart_beat_interval: i32,
}

impl Conf {
    /// The settings a client starts with.
    pub fn default() -> (c: Conf)
        ensures
            c.id@ == ""@,
            c.db_path@ == "./db"@,
            c.size == 1024,
            c.min_retry_len == 10,
            c.retry_send_times == 4,
            c.single_rec_timeout == 50,
            c.swap_server@ == "127.0.0.1:4222"@,
            c.heart_beat_interval == 14,
    {
        Conf {
            id: "".to_owned(),
            db_path: "./db".to_owned(),
            size: 1024,
            min_retry_len: 10,
            retry_send_times: 4,
            single_rec_timeout: 50,
            swap_server: "127.0.0.1:4222".to_owned(),
            heart_beat_interval: 14,
        }
    }

    /// Writes these settings into `slot`, the place the running client reads them from.
    pub fn set(&self, slot: &mut Conf)
        ensures
            *final(slot) == *self,
    {
        *slot = self.clone();
    }

    /// Reads the settings kept in `slot`.
    pub fn get(slot: &Conf) -> (c: Conf)
        ensures
            c == *slot,
    {
        slot.clone()
    }
}

impl Clone for Conf {
    /// A field-by-field copy.
    fn clone(&self) -> (c: Conf)
        ensures
            c == *self,
    {
        Conf {
            id: self.id.clone(),
            db_path: self.db_path.clone(),
            size: self.size,
            min_retry_len: self.min_retry_len,
            retry_send_times: self.retry_send_times,
            single_rec_timeout: self.single_rec_timeout,
            swap_server: self.swap_server.clone(),
            heart_beat_interval: self.heart_beat_interval,
        }
    }
}

} // verus!
