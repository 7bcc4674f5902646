use udp_hole_punching::client_events::{reply_text, process_from_server, process_from_peer, ServerAction, PeerAction};
use udp_hole_punching::addr::{Ip, PeerAddr};
use udp_hole_punching::conf::Conf;
use udp_hole_punching::packet::Packet;
use udp_hole_punching::swap_cmd::SwapCmd;

#[test]
fn command_bytes_roundtrip() {
    for i in 0u8..=20 {
        let c = SwapCmd::int2enum(i);
        if i <= 7 {
            assert_eq!(c.enum2int(), i);
        } else {
            assert_eq!(c, SwapCmd::Unknown);
        }
        let d = SwapCmd::client_int2enum(i);
        if i <= 12 {
            assert_eq!(d.enum2int(), i);
        } else {
            assert_eq!(d, SwapCmd::Unknown);
        }
    }
    let read: Vec<SwapCmd> = [0u8, 1, 2, 3, 4, 5, 6, 7, 8, 255].iter().map(|b| SwapCmd::int2enum(*b)).collect();
    assert_eq!(
        read,
        vec![
            SwapCmd::Unknown,
            SwapCmd::Save,
            SwapCmd::Ask,
            SwapCmd::Open,
            SwapCmd::Req,
            SwapCmd::ServerErr,
            SwapCmd::Got,
            SwapCmd::PeerErr,
            SwapCmd::Unknown,
            SwapCmd::Unknown
        ]
    );
    assert_eq!(SwapCmd::client_int2enum(8), SwapCmd::P2P);
    assert_eq!(SwapCmd::P2P.enum2int(), 8);
}

#[test]
fn frames_carry_the_id() {
    assert_eq!(SwapCmd::ask("wq"), vec![2, b'w', b'q']);
    assert_eq!(SwapCmd::save("id"), vec![1, b'i', b'd']);
    assert_eq!(SwapCmd::open(""), vec![3]);
    assert_eq!(SwapCmd::save("é"), vec![1, 0xC3, 0xA9]);
}

#[test]
fn from_server_commands() {
    assert!(SwapCmd::from_server(1));
    assert!(SwapCmd::from_server(2));
    assert!(SwapCmd::from_server(3));
    assert!(SwapCmd::from_server(5));
    assert!(!SwapCmd::from_server(0));
    assert!(!SwapCmd::from_server(4));
    assert!(!SwapCmd::from_server(6));
    assert!(!SwapCmd::from_server(8));
    assert!(!SwapCmd::from_server(200));
}

#[test]
fn reply_text_reads_utf8_or_nothing() {
    let f = SwapCmd::ask("1.2.3.4:5");
    assert_eq!(reply_text(&f, f.len()), "1.2.3.4:5");
    let mut g = f.clone();
    g.push(0);
    assert_eq!(reply_text(&g, f.len()), "1.2.3.4:5");
    let bad = vec![2, 0xFF, 0xFE];
    assert_eq!(reply_text(&bad, 3), "");
}

#[test]
fn server_datagrams() {
    let f = SwapCmd::open("9.9.9.9:99");
    match process_from_server(f.len(), &f) {
        ServerAction::SendHello(to, hello) => {
            assert_eq!(to, "9.9.9.9:99");
            assert_eq!(hello, Packet::hello());
        }
        _ => panic!("expected hello"),
    }
    let f = SwapCmd::ask("1.1.1.1:1");
    match process_from_server(f.len(), &f) {
        ServerAction::SetPeerAddress(a) => assert_eq!(a, "1.1.1.1:1"),
        _ => panic!("expected address"),
    }
    let f = SwapCmd::save("x");
    assert!(matches!(process_from_server(f.len(), &f), ServerAction::Ignore));
}

#[test]
fn peer_datagrams() {
    let addr = PeerAddr { ip: Ip::V4(0x7f000001), port: 9 };
    let conf = Conf::default();
    let mut p = Packet::empty();
    p.cmd = SwapCmd::P2P.enum2int();
    p.sess = 3;
    p.max = 0;
    p.order = 0;
    p.body = vec![1, 2];
    let b = p.to_bytes();
    match process_from_peer(b.len(), addr, &b, &conf) {
        PeerAction::Store(key, value, reply) => {
            assert_eq!(key.address, addr);
            assert_eq!(key.session, 3);
            assert_eq!(value, b);
            assert_eq!(reply, Packet::got(&p));
        }
        _ => panic!("expected store"),
    }
    p.cmd = SwapCmd::Got.enum2int();
    let b = p.to_bytes();
    match process_from_peer(b.len(), addr, &b, &conf) {
        PeerAction::Acknowledged(keys) => {
            assert_eq!(keys.len(), 5);
            for (i, k) in keys.iter().enumerate() {
                assert_eq!(k.retry, i as i32);
                assert_eq!(k.session, 3);
            }
        }
        _ => panic!("expected acknowledgement"),
    }
    p.cmd = SwapCmd::Hello.enum2int();
    let b = p.to_bytes();
    assert!(matches!(process_from_peer(b.len(), addr, &b, &conf), PeerAction::Ignore));
}
