use udp_hole_punching::addr::{Ip, PeerAddr, localhost};
use udp_hole_punching::hole_punch::{info_bytes, parse_peer_reply, make_match, ReplyError};
use udp_hole_punching::match_map::MatchMap;

#[test]
fn info_roundtrip_v4() {
    let a = PeerAddr { ip: Ip::V4(0xC0A80102), port: 0x1234 };
    let m = info_bytes(a);
    assert_eq!(m, vec![4, 192, 168, 1, 2, 0x12, 0x34]);
    let mut b = [0u8; 512].to_vec();
    b[..m.len()].copy_from_slice(&m);
    assert_eq!(parse_peer_reply(&b, m.len()), Ok(a));
}

#[test]
fn info_roundtrip_v6() {
    let a = PeerAddr { ip: Ip::V6(0x2001_0db8_0000_0000_0000_0000_0000_0001), port: 443 };
    let m = info_bytes(a);
    assert_eq!(m.len(), 19);
    assert_eq!(m[0], 6);
    assert_eq!(&m[1..5], &[0x20, 0x01, 0x0d, 0xb8]);
    assert_eq!(m[16], 1);
    assert_eq!(&m[17..], &[1, 187]);
    let mut b = [0u8; 512].to_vec();
    b[..m.len()].copy_from_slice(&m);
    assert_eq!(parse_peer_reply(&b, m.len()), Ok(a));
}

#[test]
fn bad_replies() {
    let mut b = [0u8; 512].to_vec();
    b[0] = 4;
    assert_eq!(parse_peer_reply(&b, 6), Err(ReplyError::TooShort));
    b[0] = 6;
    assert_eq!(parse_peer_reply(&b, 18), Err(ReplyError::TooShort));
    b[0] = 0;
    assert_eq!(parse_peer_reply(&b, 19), Err(ReplyError::OtherIpVersion));
}

#[test]
fn match_pairs_same_family() {
    let a = PeerAddr { ip: Ip::V4(1), port: 1 };
    let b = PeerAddr { ip: Ip::V4(2), port: 2 };
    let c = PeerAddr { ip: Ip::V6(3), port: 3 };
    assert_eq!(make_match(a, b), Ok((info_bytes(b), info_bytes(a))));
    assert_eq!(make_match(a, c), Err((vec![0], vec![0])));
}

#[test]
fn waiting_room() {
    let mut m = MatchMap::new();
    let a = PeerAddr { ip: Ip::V4(1), port: 1 };
    let a2 = PeerAddr { ip: Ip::V4(1), port: 2 };
    let b = PeerAddr { ip: Ip::V4(2), port: 2 };
    assert_eq!(m.step(&b"room".to_vec(), a), None);
    assert_eq!(m.step(&b"room".to_vec(), b), Some(a));
    assert_eq!(m.step(&b"room".to_vec(), b), None);
    // a client from the same IP replaces the waiting one and is not matched with it
    assert_eq!(m.step(&b"room".to_vec(), PeerAddr { ip: Ip::V4(2), port: 9 }), None);
    assert_eq!(m.step(&b"room".to_vec(), a2), Some(PeerAddr { ip: Ip::V4(2), port: 9 }));
}

#[test]
fn localhost_is_unspecified() {
    assert_eq!(localhost(), PeerAddr { ip: Ip::V4(0), port: 0 });
    assert!(localhost().is_ipv4());
}

use udp_hole_punching::cli::{RecvCache, Receiver, RecvError, keep_piece, segment_headers, Who};
use udp_hole_punching::server::{Packet as ServerPacket, pack_frame};

#[test]
fn pieces_are_kept_and_sorted() {
    let mut cache = RecvCache::new();
    let mut h = ServerPacket::p2p_default(PeerAddr { ip: Ip::V4(1), port: 1 });
    h.session = 3;
    h.max = 1;
    h.body_len = 2;
    let header_bytes = vec![1, 2, 3];
    h.order = 1;
    let mut d = pack_frame(&header_bytes);
    d.extend_from_slice(&[7, 7]);
    keep_piece(&h, &d, &mut cache);
    assert!(!h.is_done(&cache));
    assert_eq!(h.assembly(&mut cache, &vec![]), Err(RecvError::NotDone));
    h.order = 0;
    let mut d0 = pack_frame(&header_bytes);
    d0.extend_from_slice(&[5, 5, 9]);
    keep_piece(&h, &d0, &mut cache);
    assert_eq!(h.get_cached(&cache), vec![(0, vec![5, 5]), (1, vec![7, 7])]);
    assert!(h.is_done(&cache));
    assert_eq!(h.assembly(&mut cache, &vec![]), Ok(vec![5, 5, 7, 7]));
    h.max = 2;
    let mut d1 = pack_frame(&header_bytes);
    d1.extend_from_slice(&[1, 1]);
    keep_piece(&h, &d1, &mut cache);
    keep_piece(&h, &d1, &mut cache);
    keep_piece(&h, &d1, &mut cache);
    // three pieces, but all with index 0: not done
    assert!(!h.is_done(&cache));
    assert_eq!(h.assembly(&mut cache, &vec![]), Err(RecvError::NotDone));
    h.clear_cached(&mut cache);
    let mut e = ServerPacket::default();
    e.body_len = 0;
    assert!(e.is_done(&cache));
    assert!(e.get_cached(&cache).is_empty());
    assert_eq!(e.assembly(&mut cache, &vec![4, 2]), Ok(vec![4, 2]));
    assert_ne!(Who::Callee, Who::Caller);
}

#[test]
fn headers_number_the_pieces() {
    let mut t = ServerPacket::p2p_default(PeerAddr { ip: Ip::V4(1), port: 1 });
    t.session = 9;
    let header_len = 1000;
    let msg: Vec<u8> = (0..1000u32).map(|i| (i % 256) as u8).collect();
    let r = segment_headers(&t, &msg, header_len);
    // 472 bytes of room per datagram: 472 + 472 + 56
    assert_eq!(r.len(), 3);
    for (i, (h, piece)) in r.iter().enumerate() {
        assert_eq!(h.order, i as u16);
        assert_eq!(h.max, 2);
        assert_eq!(h.body_len as usize, piece.len());
        assert_eq!(h.session, 9);
    }
    assert_eq!(r[2].1.len(), 56);
    let joined: Vec<u8> = r.iter().flat_map(|(_, p)| p.clone()).collect();
    assert_eq!(joined, msg);
    assert!(segment_headers(&t, &vec![], 5000).is_empty());
    // the pieces arriving out of order are put back together
    let mut cache = RecvCache::new();
    for (h, piece) in r.iter().rev() {
        let mut d = pack_frame(&vec![0u8; 3]);
        d.extend_from_slice(piece);
        keep_piece(h, &d, &mut cache);
    }
    let last = &r[2].0;
    assert!(last.is_done(&cache));
    assert_eq!(last.assembly(&mut cache, &vec![]), Ok(msg));
}
