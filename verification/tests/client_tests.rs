use udp_hole_punching::conf::Conf;
use udp_hole_punching::handlers::{echo, handler};
use udp_hole_punching::timer::{heart_beat_due, HeartBeat, Timer};
use udp_hole_punching::api::ask_peer_address;
use udp_hole_punching::peer_address::{update_peer_address, get_peer_address};
use udp_hole_punching::swap_cmd::SwapCmd;

#[test]
fn default_conf() {
    let c = Conf::default();
    assert_eq!(c.id, "");
    assert_eq!(c.db_path, "./db");
    assert_eq!(c.size, 1024);
    assert_eq!(c.min_retry_len, 10);
    assert_eq!(c.retry_send_times, 4);
    assert_eq!(c.single_rec_timeout, 50);
    assert_eq!(c.swap_server, "127.0.0.1:4222");
    assert_eq!(c.heart_beat_interval, 14);
}

#[test]
fn conf_set_then_get() {
    let mut slot = Conf::default();
    let mut c = Conf::default();
    c.id = "wq".to_string();
    c.swap_server = "39.96.40.177:4222".to_string();
    c.set(&mut slot);
    assert_eq!(Conf::get(&slot), c);
}

#[test]
fn peer_address_read_after_write() {
    let mut store = String::new();
    assert_eq!(get_peer_address(&store), "");
    update_peer_address(&mut store, "1.2.3.4:5".to_string());
    assert_eq!(get_peer_address(&store), "1.2.3.4:5");
}

#[test]
fn echoes() {
    assert_eq!(echo(&vec![1, 2, 3]), vec![1, 2, 3]);
    assert_eq!(handler("hi"), "hi");
}

#[test]
fn heart_beats() {
    let mut c = Conf::default();
    assert_eq!(heart_beat_due(&c, 100), None);
    c.id = "wq".to_string();
    assert_eq!(heart_beat_due(&c, 13), None);
    assert_eq!(heart_beat_due(&c, 14), Some(SwapCmd::save("wq")));
}

#[test]
fn timer_beats_only_with_an_id() {
    let c = Conf::default();
    let mut t = Timer::start();
    assert_eq!(t.heart_beat(&c), None);
    let mut c2 = Conf::default();
    c2.id = "wq".to_string();
    c2.heart_beat_interval = 0;
    assert_eq!(t.heart_beat(&c2), Some(SwapCmd::save("wq")));
    c2.heart_beat_interval = 1000;
    assert_eq!(t.heart_beat(&c2), None);
}

#[test]
fn ask_resets_the_peer_address() {
    let mut store = "1.2.3.4:5".to_string();
    let f = ask_peer_address(&mut store, "wq");
    assert_eq!(store, "");
    assert_eq!(f, SwapCmd::ask("wq"));
}
