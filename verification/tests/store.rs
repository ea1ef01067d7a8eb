use frecdb::atomic::StoreSlot;
use frecdb::db::{Database, DecodeError};
use frecdb::entry::Entry;
use frecdb::policy::VISIT_WEIGHT;

#[test]
fn round_trip_preserves_entries() {
    let mut db = Database::new();
    db.add(b"/home/alpha".to_vec(), 5);
    db.add(b"/home/beta".to_vec(), 9);
    db.add(b"/home/alpha".to_vec(), 12);
    let payload = db.save_payload().expect("dirty database must yield a payload");
    let reopened = Database::open_from(&payload).expect("own payload must decode");
    assert_eq!(reopened.len(), db.len());
    for (a, b) in db.entries.iter().zip(reopened.entries.iter()) {
        assert_eq!(a.path, b.path);
        assert_eq!(a.rank, b.rank);
        assert_eq!(a.last_access, b.last_access);
    }
    assert!(!reopened.dirty);
}

#[test]
fn round_trip_empty_collection() {
    let entries: Vec<Entry> = Vec::new();
    let bytes = frecdb::codec::encode_entries(&entries);
    let back = frecdb::codec::decode_entries(&bytes).expect("empty encoding decodes");
    assert_eq!(back.len(), 0);
}

#[test]
fn repeated_add_accumulates_rank() {
    let mut db = Database::new();
    db.add(b"/a".to_vec(), 1);
    db.add(b"/a".to_vec(), 2);
    db.add(b"/a".to_vec(), 3);
    assert_eq!(db.len(), 1);
    assert_eq!(db.entries[0].path, b"/a".to_vec());
    assert_eq!(db.entries[0].rank, 3 * VISIT_WEIGHT);
    assert_eq!(db.entries[0].last_access, 3);
}

#[test]
fn add_keeps_paths_unique() {
    let mut db = Database::new();
    db.add(b"/a".to_vec(), 1);
    db.add(b"/b".to_vec(), 2);
    db.add(b"/a".to_vec(), 3);
    assert_eq!(db.len(), 2);
}

#[test]
fn aging_decays_all_ranks_and_keeps_order() {
    let mut db = Database {
        entries: vec![
            Entry { path: b"/big".to_vec(), rank: 500000, last_access: 0 },
            Entry { path: b"/mid".to_vec(), rank: 400000, last_access: 0 },
        ],
        dirty: false,
    };
    db.add(b"/new".to_vec(), 10);
    // the sum 900100 crossed the ceiling, so every rank decayed
    assert_eq!(db.len(), 3);
    assert_eq!(db.entries[0].rank, 375000);
    assert_eq!(db.entries[1].rank, 300000);
    assert_eq!(db.entries[2].rank, 75);
    assert!(db.entries[0].rank < 500000);
    assert!(db.entries[1].rank < 400000);
    assert!(db.entries[0].rank > db.entries[1].rank);
    assert!(db.entries[1].rank > db.entries[2].rank);
}

#[test]
fn aging_prunes_entries_at_or_below_epsilon() {
    let mut db = Database {
        entries: vec![
            Entry { path: b"/stale".to_vec(), rank: 13, last_access: 0 },
            Entry { path: b"/big".to_vec(), rank: 899987, last_access: 0 },
        ],
        dirty: false,
    };
    db.add(b"/new".to_vec(), 10);
    // 13 ages to 9, at or below the pruning threshold of 10
    assert_eq!(db.len(), 2);
    let mut stream = db.stream(10);
    while let Some(e) = stream.next() {
        assert_ne!(e.path, b"/stale".to_vec());
    }
}

#[test]
fn crash_before_rename_keeps_old_store_readable() {
    let mut db = Database::new();
    db.add(b"/kept".to_vec(), 4);
    let old_image = db.save_payload().expect("payload");
    let mut slot = StoreSlot::new(old_image);

    // a save starts: the new image is staged, then the process dies
    // before the rename
    let mut db2 = Database::new();
    db2.add(b"/other".to_vec(), 8);
    let staged = db2.save_payload().expect("payload");
    slot.stage(staged);
    slot.interrupt();

    let reread = Database::open_from(&slot.visible).expect("old store still whole");
    assert_eq!(reread.len(), 1);
    assert_eq!(reread.entries[0].path, b"/kept".to_vec());

    // a completed save flips to the new image in one step
    let staged = db2.save_payload().expect("payload");
    slot.stage(staged);
    slot.commit();
    let switched = Database::open_from(&slot.visible).expect("new store whole");
    assert_eq!(switched.entries[0].path, b"/other".to_vec());
}

#[test]
fn open_rejects_malformed_bytes() {
    assert!(matches!(Database::open_from(&Vec::new()), Err(DecodeError::Malformed)));

    let mut db = Database::new();
    db.add(b"/a".to_vec(), 1);
    let good = db.save_payload().expect("payload");

    let mut wrong_version = good.clone();
    wrong_version[0] = 0xfe;
    assert!(matches!(Database::open_from(&wrong_version), Err(DecodeError::Malformed)));

    let mut truncated = good.clone();
    truncated.pop();
    assert!(matches!(Database::open_from(&truncated), Err(DecodeError::Malformed)));

    let mut trailing = good.clone();
    trailing.push(0);
    assert!(matches!(Database::open_from(&trailing), Err(DecodeError::Malformed)));
}

#[test]
fn open_rejects_invalid_collections() {
    // duplicate paths
    let dup = vec![
        Entry { path: b"/a".to_vec(), rank: 100, last_access: 0 },
        Entry { path: b"/a".to_vec(), rank: 200, last_access: 1 },
    ];
    let bytes = frecdb::codec::encode_entries(&dup);
    assert!(matches!(Database::open_from(&bytes), Err(DecodeError::Invalid)));

    // a rank at the pruning threshold
    let low = vec![Entry { path: b"/a".to_vec(), rank: 10, last_access: 0 }];
    let bytes = frecdb::codec::encode_entries(&low);
    assert!(matches!(Database::open_from(&bytes), Err(DecodeError::Invalid)));

    // a rank sum over the aging ceiling
    let heavy = vec![
        Entry { path: b"/a".to_vec(), rank: 800000, last_access: 0 },
        Entry { path: b"/b".to_vec(), rank: 200000, last_access: 0 },
    ];
    let bytes = frecdb::codec::encode_entries(&heavy);
    assert!(matches!(Database::open_from(&bytes), Err(DecodeError::Invalid)));
}

#[test]
fn save_payload_follows_dirty_flag() {
    let mut db = Database::new();
    assert!(db.save_payload().is_none());
    db.add(b"/a".to_vec(), 1);
    assert!(db.save_payload().is_some());
    db.mark_saved();
    assert!(db.save_payload().is_none());
    // removing nothing leaves the database clean
    db.remove(&b"/missing".to_vec());
    assert!(db.save_payload().is_none());
    // removing something dirties it again
    db.remove(&b"/a".to_vec());
    assert!(db.save_payload().is_some());
    assert_eq!(db.len(), 0);
}

#[test]
fn remove_is_idempotent() {
    let mut db = Database::new();
    db.add(b"/a".to_vec(), 1);
    db.remove(&b"/a".to_vec());
    assert_eq!(db.len(), 0);
    db.remove(&b"/a".to_vec());
    assert_eq!(db.len(), 0);
}
