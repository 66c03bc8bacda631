//! Compaction tests: space reclamation, state preservation, the trigger
//! rules and the hour window.

use crabedb::crabe_db::CrabeDB;
use crabedb::lsm::RawFile;
use crabedb::options::{hour_in_window, StorageOptions, SyncOptions};

fn footprint(files: &[RawFile]) -> usize {
    files.iter().map(|f| f.data.len()).sum()
}

fn compaction_options() -> StorageOptions {
    let mut options = StorageOptions::new();
    options
        .max_file_size(8 * 1024)
        .sync(SyncOptions::Never)
        .compaction(false)
        .fragmentation_trigger(600)
        .fragmentation_threshold(400)
        .dead_bytes_trigger(64 * 1024)
        .dead_bytes_threshold(16 * 1024)
        .small_file_threshold(1024);
    options
}

#[test]
fn compaction_reclaims_space_of_overwrites() {
    let mut db = CrabeDB::load(Vec::new(), compaction_options()).unwrap();
    let value = vec![b'x'; 1024];
    for _ in 0..200 {
        db.set(b"hot-key", &value).unwrap();
    }
    let before = footprint(&db.export_files());
    db.compact().unwrap();
    let after = footprint(&db.export_files());
    assert!(after < before / 10, "footprint {} not reclaimed from {}", after, before);
    assert_eq!(db.get(b"hot-key").unwrap(), Some(value));
}

#[test]
fn compaction_preserves_observable_state() {
    let mut db = CrabeDB::load(Vec::new(), compaction_options()).unwrap();
    let filler = vec![b'f'; 512];
    for i in 0..50u32 {
        let key = format!("stable-{}", i).into_bytes();
        db.set(&key, &filler).unwrap();
    }
    for _ in 0..100 {
        db.set(b"churn", &filler).unwrap();
    }
    db.set(b"doomed", b"soon gone").unwrap();
    db.remove(b"doomed").unwrap();
    db.compact().unwrap();
    for i in 0..50u32 {
        let key = format!("stable-{}", i).into_bytes();
        assert_eq!(db.get(&key).unwrap(), Some(filler.clone()), "key {:?}", key);
    }
    assert_eq!(db.get(b"churn").unwrap(), Some(filler.clone()));
    assert_eq!(db.get(b"doomed").unwrap(), None);
    // The engine keeps serving writes after the pass.
    db.set(b"after", b"ok").unwrap();
    assert_eq!(db.get(b"after").unwrap(), Some(b"ok".to_vec()));
}

#[test]
fn removed_keys_stay_removed_across_compaction_and_restart() {
    let mut db = CrabeDB::load(Vec::new(), compaction_options()).unwrap();
    let value = vec![b'v'; 700];
    for _ in 0..100 {
        db.set(b"a", &value).unwrap();
    }
    db.set(b"gone", b"x").unwrap();
    db.remove(b"gone").unwrap();
    db.compact().unwrap();
    assert_eq!(db.get(b"gone").unwrap(), None);
    let db2 = CrabeDB::load(db.export_files(), compaction_options()).unwrap();
    assert_eq!(db2.get(b"gone").unwrap(), None);
    assert_eq!(db2.get(b"a").unwrap(), Some(value));
}

#[test]
fn compaction_without_a_trigger_changes_nothing() {
    // Fresh distinct keys: no dead records, no dead bytes, so no trigger
    // fires and the file set stays as it is.
    let mut options = compaction_options();
    options.small_file_threshold(0);
    let mut db = CrabeDB::load(Vec::new(), options).unwrap();
    for i in 0..20u32 {
        let key = format!("fresh-{}", i).into_bytes();
        db.set(&key, b"value").unwrap();
    }
    let before: Vec<u32> = db.export_files().iter().map(|f| f.id).collect();
    db.compact().unwrap();
    let after: Vec<u32> = db.export_files().iter().map(|f| f.id).collect();
    assert_eq!(before, after);
}

#[test]
fn compaction_is_idempotent() {
    let mut db = CrabeDB::load(Vec::new(), compaction_options()).unwrap();
    let value = vec![b'y'; 900];
    for _ in 0..120 {
        db.set(b"k", &value).unwrap();
    }
    db.compact().unwrap();
    let once: Vec<u32> = db.export_files().iter().map(|f| f.id).collect();
    db.compact().unwrap();
    assert_eq!(db.get(b"k").unwrap(), Some(value));
    let twice: Vec<u32> = db.export_files().iter().map(|f| f.id).collect();
    // A second pass right after the first finds nothing worth triggering on.
    assert_eq!(once, twice);
}

#[test]
fn hour_window_straight_and_wrapped() {
    // A straight window is inclusive on both ends.
    assert!(!hour_in_window(5, 1, 2));
    assert!(hour_in_window(1, 1, 2));
    assert!(hour_in_window(2, 1, 2));
    assert!(hour_in_window(12, 0, 23));
    // A wrapped window covers the late evening and the early morning.
    assert!(hour_in_window(23, 22, 4));
    assert!(hour_in_window(3, 22, 4));
    assert!(!hour_in_window(12, 22, 4));
}
