use simple_simple_sync::codec::{encode, PeerAddr};
use simple_simple_sync::engine::{
    DeviceIdentity, Engine, EngineConfig, EngineState, PacketOutcome, StartError,
};

fn identity(b: u8, name: &str) -> DeviceIdentity {
    DeviceIdentity { device_id: vec![b; 16], device_name: name.as_bytes().to_vec() }
}

fn config(port: u16) -> EngineConfig {
    EngineConfig {
        port,
        multicast_ipv4: PeerAddr::from_octets(vec![244, 0, 0, 134]).unwrap(),
        multicast_ipv6: PeerAddr::from_octets(vec![
            0xff, 0x02, 0, 0, 0, 0, 0, 0, 0, 0, 0, 0, 0, 0, 0x01, 0x34,
        ])
        .unwrap(),
        announce_interval: 10,
        sweep_interval: 30,
        expiry_threshold: 30,
        min_reannounce_spacing: 2,
    }
}

fn running_engine(b: u8, name: &str, port: u16) -> Engine {
    match Engine::start(identity(b, name), config(port), true, true) {
        Ok(e) => e,
        Err(_) => panic!("engine must start with both families joined"),
    }
}

fn addr4(a: u8, b: u8, c: u8, d: u8) -> PeerAddr {
    PeerAddr::from_octets(vec![a, b, c, d]).unwrap()
}

#[test]
fn start_needs_at_least_one_address_family() {
    assert!(matches!(
        Engine::start(identity(1, "a"), config(9000), false, false),
        Err(StartError::NoAddressFamily)
    ));
    for (v4, v6) in [(true, false), (false, true), (true, true)] {
        match Engine::start(identity(1, "a"), config(9000), v4, v6) {
            Ok(e) => {
                assert!(matches!(e.state(), EngineState::Running));
                assert_eq!(e.peer_count(), 0);
            }
            Err(_) => panic!("one joined family must be enough"),
        }
    }
}

#[test]
fn self_packets_are_never_registered() {
    // Engine A receives its own multicast loopback.
    let mut a = running_engine(0x11, "alpha", 9000);
    let own = a.make_announcement(vec![addr4(10, 0, 0, 1)], false, 5);
    let bytes = encode(&own);
    let outcome = a.handle_datagram(&bytes, 6);
    assert!(matches!(outcome, PacketOutcome::OwnPacket));
    assert_eq!(a.peer_count(), 0);
    assert!(a.peers().is_empty());
}

#[test]
fn foreign_magic_changes_nothing() {
    let mut b = running_engine(0x22, "beta", 9001);
    let mut a = running_engine(0x11, "alpha", 9000);
    let announce = a.make_announcement(vec![addr4(10, 0, 0, 1)], false, 1);
    b.handle_datagram(&encode(&announce), 2);
    assert_eq!(b.peer_count(), 1);

    let mut foreign = encode(&a.make_announcement(vec![addr4(10, 0, 0, 1)], false, 3));
    foreign[0] = b'Q';
    let before = b.peers();
    let outcome = b.handle_datagram(&foreign, 4);
    assert!(matches!(outcome, PacketOutcome::DecodeFailed(_)));
    assert_eq!(b.peer_count(), 1);
    let after = b.peers();
    assert_eq!(after.len(), before.len());
    assert_eq!(after[0].device_id, before[0].device_id);
    assert_eq!(after[0].last_seen, before[0].last_seen);
}

#[test]
fn two_engines_discover_each_other() {
    let mut a = running_engine(0x11, "alpha", 9000);
    let mut b = running_engine(0x22, "beta", 9001);

    // A's first announce cycle reaches B.
    let pa = a.announce_tick(vec![addr4(10, 0, 0, 1)], 100).unwrap();
    let outcome = b.handle_datagram(&encode(&pa), 100);
    match outcome {
        PacketOutcome::PeerJoined(id) => assert_eq!(id, vec![0x11; 16]),
        _ => panic!("first announcement must join"),
    }
    let peers = b.peers();
    assert_eq!(peers.len(), 1);
    assert_eq!(peers[0].device_id, vec![0x11; 16]);
    assert_eq!(peers[0].device_name, b"alpha".to_vec());
    assert_eq!(peers[0].port, 9000);
    let first_last_seen = peers[0].last_seen;

    // B requests retransmission; A answers within the spacing rules.
    let req = b.request_retransmit(vec![addr4(10, 0, 0, 2)], 101);
    assert!(req.retransmit);
    let outcome = a.handle_datagram(&encode(&req), 102);
    match outcome {
        PacketOutcome::RetransmitRequested { announce_now } => assert!(announce_now),
        _ => panic!("a retransmit request must be recognized"),
    }
    let pa2 = a.make_announcement(vec![addr4(10, 0, 0, 1)], false, 102);
    let outcome = b.handle_datagram(&encode(&pa2), 103);
    assert!(matches!(outcome, PacketOutcome::PeerUpdated(_)));

    // No duplicate entry: only last_seen advanced.
    let peers = b.peers();
    assert_eq!(peers.len(), 1);
    assert_eq!(peers[0].device_name, b"alpha".to_vec());
    assert!(peers[0].last_seen > first_last_seen);
}

#[test]
fn retransmit_requests_do_not_register_the_requester() {
    let mut a = running_engine(0x11, "alpha", 9000);
    let mut b = running_engine(0x22, "beta", 9001);
    let req = b.request_retransmit(vec![addr4(10, 0, 0, 2)], 1);
    let outcome = a.handle_datagram(&encode(&req), 2);
    assert!(matches!(outcome, PacketOutcome::RetransmitRequested { .. }));
    assert_eq!(a.peer_count(), 0);
}

#[test]
fn reannounce_spacing_bounds_amplification() {
    let mut a = running_engine(0x11, "alpha", 9000);
    let mut b = running_engine(0x22, "beta", 9001);
    a.make_announcement(vec![addr4(10, 0, 0, 1)], false, 100);

    // Within the 2-second spacing the engine declines to answer already.
    let req = b.request_retransmit(vec![addr4(10, 0, 0, 2)], 101);
    match a.handle_datagram(&encode(&req), 101) {
        PacketOutcome::RetransmitRequested { announce_now } => assert!(!announce_now),
        _ => panic!("a retransmit request must be recognized"),
    }
    // Once the spacing has passed it answers.
    let req = b.request_retransmit(vec![addr4(10, 0, 0, 2)], 102);
    match a.handle_datagram(&encode(&req), 102) {
        PacketOutcome::RetransmitRequested { announce_now } => assert!(announce_now),
        _ => panic!("a retransmit request must be recognized"),
    }
}

#[test]
fn announce_tick_obeys_the_interval() {
    let mut a = running_engine(0x11, "alpha", 9000);
    // The first tick always announces.
    assert!(a.announce_tick(vec![addr4(10, 0, 0, 1)], 100).is_some());
    // Before the 10-second interval has passed, nothing is due.
    assert!(a.announce_tick(vec![addr4(10, 0, 0, 1)], 105).is_none());
    assert!(a.announce_tick(vec![addr4(10, 0, 0, 1)], 109).is_none());
    // From the interval boundary on, the next announcement is due.
    assert!(a.announce_tick(vec![addr4(10, 0, 0, 1)], 110).is_some());
}

#[test]
fn sweep_evicts_stale_peers_and_reports_them() {
    let mut b = running_engine(0x22, "beta", 9001);
    let mut a = running_engine(0x11, "alpha", 9000);
    let mut c = running_engine(0x33, "gamma", 9002);

    let pa = a.make_announcement(vec![addr4(10, 0, 0, 1)], false, 100);
    b.handle_datagram(&encode(&pa), 100);
    let pc = c.make_announcement(vec![addr4(10, 0, 0, 3)], false, 125);
    b.handle_datagram(&encode(&pc), 125);
    assert_eq!(b.peer_count(), 2);

    // At 131 the threshold of 30 has passed for A (seen 100) but not C.
    let removed = b.sweep_tick(131);
    assert_eq!(removed, vec![vec![0x11; 16]]);
    assert_eq!(b.peer_count(), 1);
    assert_eq!(b.peers()[0].device_id, vec![0x33; 16]);
}

#[test]
fn expiry_boundary_is_exact() {
    let mut b = running_engine(0x22, "beta", 9001);
    let mut a = running_engine(0x11, "alpha", 9000);
    let threshold = 30;
    let now = 1000;

    let pa = a.make_announcement(vec![addr4(10, 0, 0, 1)], false, now - threshold - 1);
    b.handle_datagram(&encode(&pa), now - threshold - 1);
    let removed = b.sweep_tick(now);
    assert_eq!(removed.len(), 1);
    assert_eq!(b.peer_count(), 0);

    let pa = a.make_announcement(vec![addr4(10, 0, 0, 1)], false, now - threshold + 1);
    b.handle_datagram(&encode(&pa), now - threshold + 1);
    let removed = b.sweep_tick(now);
    assert!(removed.is_empty());
    assert_eq!(b.peer_count(), 1);
}

#[test]
fn stopped_engines_change_nothing() {
    let mut b = running_engine(0x22, "beta", 9001);
    let mut a = running_engine(0x11, "alpha", 9000);
    let pa = a.make_announcement(vec![addr4(10, 0, 0, 1)], false, 1);
    b.handle_datagram(&encode(&pa), 1);
    assert_eq!(b.peer_count(), 1);

    b.stop();
    assert!(matches!(b.state(), EngineState::Stopping));
    let pa2 = a.make_announcement(vec![addr4(10, 0, 0, 1)], false, 2);
    assert!(matches!(b.handle_datagram(&encode(&pa2), 2), PacketOutcome::NotRunning));
    assert!(b.sweep_tick(1000).is_empty());
    assert_eq!(b.peer_count(), 1);
    assert!(b.announce_tick(vec![addr4(10, 0, 0, 2)], 50).is_none());

    b.confirm_stopped();
    assert!(matches!(b.state(), EngineState::Stopped));
    assert!(matches!(b.handle_datagram(&encode(&pa2), 3), PacketOutcome::NotRunning));
    assert_eq!(b.peer_count(), 1);
}
