use ether_switch::{Fdb, MacEntry, NetDevice};

fn entry(dev: u32, now: u64) -> MacEntry {
    MacEntry::new(NetDevice::new(dev), now, 100)
}

#[test]
fn entry_expires_at_last_seen_plus_max_age() {
    let e = entry(1, 50);
    assert_eq!(e.get_expires_in(), 150);
    assert_eq!(e.get_dev(), 1);
    assert!(!e.is_expired(149));
    assert!(e.is_expired(150));
}

#[test]
fn entry_expiry_saturates() {
    let e = MacEntry::new(NetDevice::new(1), u64::MAX - 10, 100);
    assert_eq!(e.get_expires_in(), u64::MAX);
}

#[test]
fn lookup_finds_what_was_learned() {
    let mut db = Fdb::new(8);
    assert!(db.upsert(30, entry(3, 0)));
    assert!(db.upsert(10, entry(1, 0)));
    assert!(db.upsert(20, entry(2, 0)));
    assert_eq!(db.len(), 3);
    assert_eq!(db.get(10).map(|e| e.get_dev()), Some(1));
    assert_eq!(db.get(20).map(|e| e.get_dev()), Some(2));
    assert_eq!(db.get(30).map(|e| e.get_dev()), Some(3));
    assert_eq!(db.get(40), None);
}

#[test]
fn relearning_overwrites_in_place() {
    let mut db = Fdb::new(8);
    db.upsert(10, entry(1, 0));
    db.upsert(10, entry(2, 40));
    assert_eq!(db.len(), 1);
    let e = db.get(10).unwrap();
    assert_eq!(e.get_dev(), 2);
    assert_eq!(e.get_expires_in(), 140);
}

#[test]
fn capacity_bound_holds() {
    let cap: usize = 5;
    let mut db = Fdb::new(cap);
    for k in 0..(cap as u64 + 3) {
        let learned = db.upsert(1000 - k, entry(1, k));
        assert_eq!(learned, (k as usize) < cap);
    }
    assert_eq!(db.len(), cap);
    for k in 0..(cap as u64) {
        assert_eq!(db.get(1000 - k).map(|e| e.get_expires_in()), Some(k + 100));
    }
    for k in (cap as u64)..(cap as u64 + 3) {
        assert_eq!(db.get(1000 - k), None);
    }
    // a known address is still refreshed when the table is full
    assert!(db.upsert(1000, entry(4, 500)));
    assert_eq!(db.get(1000).map(|e| e.get_dev()), Some(4));
    assert_eq!(db.len(), cap);
}

#[test]
fn sweep_removes_expired_only() {
    let mut db = Fdb::new(8);
    db.upsert(1, entry(1, 0));
    db.upsert(2, entry(1, 50));
    db.upsert(3, entry(1, 10));
    db.expire(100, false);
    assert_eq!(db.get(1), None);
    assert!(db.get(2).is_some());
    assert!(db.get(3).is_some());
    db.expire(110, false);
    assert_eq!(db.get(3), None);
    assert_eq!(db.len(), 1);
}

#[test]
fn forced_sweep_empties() {
    let mut db = Fdb::new(8);
    db.upsert(1, entry(1, 0));
    db.upsert(2, entry(2, 0));
    db.expire(0, true);
    assert_eq!(db.len(), 0);
    assert_eq!(db.capacity(), 8);
}
