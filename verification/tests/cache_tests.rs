use udp_hole_punching::addr::{Ip, PeerAddr};
use udp_hole_punching::packet::Packet;
use udp_hole_punching::send_cache::{CacheError, SendCache, copy_packets};

fn peer(n: u32) -> PeerAddr {
    PeerAddr { ip: Ip::V4(n), port: 4000 }
}

#[test]
fn new_sessions_are_the_lowest_free_ones() {
    let mut c = SendCache::new();
    assert_eq!(c.new_sess(peer(1)), 0);
    let pacs = Packet::new_pacs_with_sess(7, &vec![1, 2, 3], 1420);
    c.save_send_cache(&pacs, peer(1), 0);
    c.save_send_cache(&pacs, peer(1), 1);
    assert_eq!(c.new_sess(peer(1)), 2);
    assert_eq!(c.new_sess(peer(2)), 0);
    c.clear_send_cache(peer(1), 0);
    assert_eq!(c.new_sess(peer(1)), 0);
}

#[test]
fn all_sessions_in_use_gives_255() {
    let mut c = SendCache::new();
    let pacs: Vec<Packet> = vec![];
    for s in 0..=255u8 {
        c.save_send_cache(&pacs, peer(3), s);
    }
    assert_eq!(c.new_sess(peer(3)), 255);
}

#[test]
fn a_saved_packet_is_found_by_its_index() {
    let mut c = SendCache::new();
    let body: Vec<u8> = (0..3000u32).map(|i| (i % 251) as u8).collect();
    let pacs = Packet::new_pacs_with_sess(11, &body, 1420);
    assert_eq!(pacs.len(), 3);
    c.save_send_cache(&pacs, peer(1), 4);
    assert_eq!(c.get_send_cache(peer(1), 4, 1), Ok(pacs[1].clone()));
    assert_eq!(c.get_send_cache(peer(1), 4, 3), Err(CacheError::NotCached));
    assert_eq!(c.get_send_cache(peer(1), 5, 0), Err(CacheError::NotCached));
    assert_eq!(c.get_send_cache(peer(2), 4, 0), Err(CacheError::NotCached));
}

#[test]
fn saving_again_replaces_and_clearing_forgets() {
    let mut c = SendCache::new();
    let first = Packet::new_pacs_with_sess(1, &vec![1; 10], 1420);
    let second = Packet::new_pacs_with_sess(2, &vec![2; 10], 1420);
    c.save_send_cache(&first, peer(1), 0);
    c.save_send_cache(&second, peer(1), 0);
    assert_eq!(c.get_send_cache(peer(1), 0, 0), Ok(second[0].clone()));
    c.clear_send_cache(peer(1), 0);
    assert_eq!(c.get_send_cache(peer(1), 0, 0), Err(CacheError::NotCached));
    c.clear_send_cache(peer(1), 0);
}

#[test]
fn the_first_packet_with_an_index_wins() {
    let mut c = SendCache::new();
    let mut a = Packet::empty();
    a.order = 2;
    a.body = vec![1];
    let mut b = Packet::empty();
    b.order = 2;
    b.body = vec![2];
    c.save_send_cache(&vec![a.clone(), b], peer(9), 9);
    assert_eq!(c.get_send_cache(peer(9), 9, 2), Ok(a));
}

#[test]
fn copies_are_equal() {
    let pacs = Packet::new_pacs_with_sess(3, &vec![5; 2000], 1420);
    assert_eq!(copy_packets(&pacs), pacs);
}

#[test]
fn an_empty_message_needs_no_room_for_a_body() {
    let empty: Vec<u8> = vec![];
    assert!(Packet::new_pacs_with_sess(3, &empty, 5).is_empty());
}
