use simple_simple_sync::codec::PeerAddr;
use simple_simple_sync::registry::{PeerRegistry, UpsertOutcome};

fn id(b: u8) -> Vec<u8> {
    vec![b; 16]
}

fn addr4(a: u8, b: u8, c: u8, d: u8) -> PeerAddr {
    PeerAddr::from_octets(vec![a, b, c, d]).unwrap()
}

#[test]
fn upsert_creates_then_merges() {
    let mut reg = PeerRegistry::new();
    assert_eq!(reg.peer_count(), 0);

    let joined = reg.upsert(&id(1), &b"alpha".to_vec(), 9000, &vec![addr4(10, 0, 0, 1)], 100);
    assert!(matches!(joined, UpsertOutcome::Joined));
    assert_eq!(reg.peer_count(), 1);

    let updated = reg.upsert(
        &id(1),
        &b"alpha-renamed".to_vec(),
        9001,
        &vec![addr4(10, 0, 0, 2)],
        150,
    );
    assert!(matches!(updated, UpsertOutcome::Updated));
    assert_eq!(reg.peer_count(), 1);

    let e = reg.get(&id(1)).unwrap();
    assert_eq!(e.device_name, b"alpha-renamed".to_vec());
    assert_eq!(e.port, 9001);
    assert_eq!(e.first_seen, 100);
    assert_eq!(e.last_seen, 150);
    // Addresses are unioned in first-seen order.
    assert_eq!(e.addresses.len(), 2);
    assert_eq!(e.addresses[0].octets, vec![10, 0, 0, 1]);
    assert_eq!(e.addresses[1].octets, vec![10, 0, 0, 2]);
}

#[test]
fn upsert_identical_data_advances_last_seen_only() {
    let mut reg = PeerRegistry::new();
    let addrs = vec![addr4(10, 0, 0, 1), addr4(10, 0, 0, 2)];
    reg.upsert(&id(1), &b"alpha".to_vec(), 9000, &addrs, 100);
    reg.upsert(&id(1), &b"alpha".to_vec(), 9000, &addrs, 160);
    assert_eq!(reg.peer_count(), 1);
    let e = reg.get(&id(1)).unwrap();
    assert_eq!(e.device_name, b"alpha".to_vec());
    assert_eq!(e.port, 9000);
    assert_eq!(e.addresses.len(), 2);
    assert_eq!(e.first_seen, 100);
    assert_eq!(e.last_seen, 160);
}

#[test]
fn upsert_never_rewinds_last_seen() {
    let mut reg = PeerRegistry::new();
    reg.upsert(&id(1), &b"a".to_vec(), 1, &Vec::new(), 200);
    // An out-of-order packet observed at an earlier time.
    reg.upsert(&id(1), &b"a".to_vec(), 1, &Vec::new(), 120);
    assert_eq!(reg.get(&id(1)).unwrap().last_seen, 200);
}

#[test]
fn upsert_deduplicates_addresses() {
    let mut reg = PeerRegistry::new();
    let addrs = vec![addr4(10, 0, 0, 1), addr4(10, 0, 0, 1), addr4(10, 0, 0, 2)];
    reg.upsert(&id(1), &b"a".to_vec(), 1, &addrs, 10);
    assert_eq!(reg.get(&id(1)).unwrap().addresses.len(), 2);
    reg.upsert(&id(1), &b"a".to_vec(), 1, &vec![addr4(10, 0, 0, 2)], 20);
    assert_eq!(reg.get(&id(1)).unwrap().addresses.len(), 2);
}

#[test]
fn remove_expired_at_the_boundary() {
    let mut reg = PeerRegistry::new();
    let threshold: u64 = 30;
    let now: u64 = 1000;
    reg.upsert(&id(1), &b"stale".to_vec(), 1, &Vec::new(), now - threshold - 1);
    reg.upsert(&id(2), &b"fresh".to_vec(), 2, &Vec::new(), now - threshold + 1);
    reg.upsert(&id(3), &b"edge".to_vec(), 3, &Vec::new(), now - threshold);

    let removed = reg.remove_expired(now, threshold);
    assert_eq!(removed, vec![id(1)]);
    assert_eq!(reg.peer_count(), 2);
    assert!(reg.get(&id(1)).is_none());
    assert!(reg.get(&id(2)).is_some());
    // Exactly at the threshold the entry is not yet stale.
    assert!(reg.get(&id(3)).is_some());
}

#[test]
fn remove_expired_keeps_order_and_reports_in_order() {
    let mut reg = PeerRegistry::new();
    for b in 1..=4u8 {
        let t = if b % 2 == 0 { 100 } else { 10 };
        reg.upsert(&id(b), &vec![b], 1, &Vec::new(), t);
    }
    let removed = reg.remove_expired(100, 50);
    assert_eq!(removed, vec![id(1), id(3)]);
    let snap = reg.snapshot();
    assert_eq!(snap.len(), 2);
    assert_eq!(snap[0].device_id, id(2));
    assert_eq!(snap[1].device_id, id(4));
}

#[test]
fn snapshot_is_independent_and_ordered() {
    let mut reg = PeerRegistry::new();
    reg.upsert(&id(2), &b"b".to_vec(), 2, &Vec::new(), 1);
    reg.upsert(&id(1), &b"a".to_vec(), 1, &Vec::new(), 2);
    let snap = reg.snapshot();
    assert_eq!(snap.len(), 2);
    // Insertion order, not key order.
    assert_eq!(snap[0].device_id, id(2));
    assert_eq!(snap[1].device_id, id(1));
    // Later mutation does not touch the snapshot.
    reg.upsert(&id(1), &b"renamed".to_vec(), 1, &Vec::new(), 3);
    assert_eq!(snap[1].device_name, b"a".to_vec());
}

#[test]
fn get_distinguishes_present_and_absent() {
    let mut reg = PeerRegistry::new();
    assert!(reg.get(&id(9)).is_none());
    assert!(!reg.contains_id(&id(9)));
    reg.upsert(&id(9), &b"x".to_vec(), 1, &Vec::new(), 1);
    assert!(reg.get(&id(9)).is_some());
    assert!(reg.contains_id(&id(9)));
}
