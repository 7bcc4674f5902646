use udp_hole_punching::addr::{Ip, PeerAddr};
use udp_hole_punching::cli::Receiver;
use udp_hole_punching::server::{Packet as ServerPacket, Registry, Process, CMD, make_match_step, pack_frame, unpack_frame, unpack_body, default0, default_cmd, empty, default_true, default_vec, PAC_SIZE};

#[test]
fn frames() {
    let enc = vec![1, 2, 3];
    let f = pack_frame(&enc);
    assert_eq!(f, vec![0, 3, 1, 2, 3]);
    assert_eq!(unpack_frame(&f), enc);
    let mut g = f.clone();
    g.extend_from_slice(&[7, 8]);
    assert_eq!(unpack_frame(&g), enc);
    assert_eq!(unpack_body(&g, 2), vec![7, 8]);
    let long = vec![9u8; 300];
    let f = pack_frame(&long);
    assert_eq!(&f[..2], &[1, 44]);
    assert_eq!(unpack_frame(&f), long);
}

#[test]
fn defaults() {
    let p = ServerPacket::default();
    assert_eq!(p.address, PeerAddr { ip: Ip::V4(0), port: 0 });
    assert_eq!(p.cmd, CMD::Unknown);
    assert!(p.success);
    assert_eq!(p.callee, "");
    let o = ServerPacket::caller_open_default("abc");
    assert_eq!(o.cmd, CMD::Open);
    assert_eq!(o.callee, "abc");
    let s = ServerPacket::callee_save_default("me");
    assert_eq!(s.cmd, CMD::Save);
    assert_eq!(s.callee, "me");
    let a = PeerAddr { ip: Ip::V4(5), port: 6 };
    let q = ServerPacket::p2p_default(a);
    assert_eq!(q.cmd, CMD::P2P);
    assert_eq!(q.address, a);
    assert_eq!(default0(), 0);
    assert_eq!(default_cmd(), CMD::Unknown);
    assert_eq!(empty(), "");
    assert!(default_true());
    assert_eq!(default_vec(), vec![0]);
    assert_eq!(PAC_SIZE, 1472);
}

#[test]
fn registry_and_pairs() {
    let mut reg = Registry::new();
    let callee = PeerAddr { ip: Ip::V4(10), port: 10 };
    let caller = PeerAddr { ip: Ip::V4(20), port: 20 };
    let ask = ServerPacket::caller_open_default("callee-1");
    let (to_caller, to_callee) = ask.make_pair(&reg);
    assert!(!to_caller.success && !to_callee.success);
    assert_eq!(to_caller.err, "can not find peer ip to call");
    let mut save = ServerPacket::callee_save_default("callee-1");
    save.address = callee;
    assert!(save.callee_registry(&mut reg));
    assert_eq!(reg.get("callee-1"), Some(callee));
    let mut ask = ask;
    ask.address = caller;
    let (to_caller, to_callee) = ask.make_pair(&reg);
    assert!(to_caller.success && to_callee.success);
    assert_eq!(to_caller.address, callee);
    assert_eq!(to_callee.address, caller);
}

#[test]
fn server_steps() {
    let mut reg = Registry::new();
    let callee = PeerAddr { ip: Ip::V4(10), port: 10 };
    let caller = PeerAddr { ip: Ip::V4(20), port: 20 };
    let sends = make_match_step(&mut reg, ServerPacket::caller_open_default("x"), caller);
    assert_eq!(sends.len(), 1);
    assert_eq!(sends[0].1, caller);
    assert!(!sends[0].0.success);
    let sends = make_match_step(&mut reg, ServerPacket::callee_save_default("x"), callee);
    assert!(sends.is_empty());
    let sends = make_match_step(&mut reg, ServerPacket::caller_open_default("x"), caller);
    assert_eq!(sends.len(), 2);
    assert_eq!(sends[0].1, caller);
    assert_eq!(sends[0].0.address, callee);
    assert_eq!(sends[1].1, callee);
    assert_eq!(sends[1].0.address, caller);
    let moved = PeerAddr { ip: Ip::V4(11), port: 11 };
    make_match_step(&mut reg, ServerPacket::callee_save_default("x"), moved);
    assert_eq!(reg.get("x"), Some(moved));
    assert!(make_match_step(&mut reg, ServerPacket::p2p_default(caller), caller).is_empty());
}

#[test]
fn no_body_reads_nothing() {
    assert_eq!(unpack_body(&vec![0, 50], 0), Vec::<u8>::new());
    let mut cache = udp_hole_punching::cli::RecvCache::new();
    let h = ServerPacket::default();
    udp_hole_punching::cli::keep_piece(&h, &vec![], &mut cache);
    assert!(h.is_done(&cache));
}
