//! Restart, hint-rebuild, torn-tail and corruption tests.

use crabedb::crabe_db::CrabeDB;
use crabedb::error::Error;
use crabedb::lsm::{valid_trailer, RawFile};
use crabedb::options::{StorageOptions, SyncOptions};

fn small_file_options() -> StorageOptions {
    let mut options = StorageOptions::new();
    options.max_file_size(4096).sync(SyncOptions::Never).compaction(false);
    options
}

#[test]
fn restart_preserves_state() {
    let mut db = CrabeDB::load(Vec::new(), small_file_options()).unwrap();
    db.set(b"a", b"1").unwrap();
    db.set(b"b", b"2").unwrap();
    db.remove(b"a").unwrap();
    db.set(b"c", b"3").unwrap();
    let files = db.export_files();
    let db2 = CrabeDB::load(files, small_file_options()).unwrap();
    assert_eq!(db2.get(b"a").unwrap(), None);
    assert_eq!(db2.get(b"b").unwrap(), Some(b"2".to_vec()));
    assert_eq!(db2.get(b"c").unwrap(), Some(b"3".to_vec()));
}

#[test]
fn restart_after_restart_continues_the_sequence() {
    let mut db = CrabeDB::load(Vec::new(), small_file_options()).unwrap();
    db.set(b"k", b"v1").unwrap();
    let mut db2 = CrabeDB::load(db.export_files(), small_file_options()).unwrap();
    db2.set(b"k", b"v2").unwrap();
    let db3 = CrabeDB::load(db2.export_files(), small_file_options()).unwrap();
    // The newer write wins after the second restart, so the sequence
    // counter kept increasing across restarts.
    assert_eq!(db3.get(b"k").unwrap(), Some(b"v2".to_vec()));
}

#[test]
fn recovery_without_hint_files_scans_and_regenerates() {
    let mut db = CrabeDB::load(Vec::new(), small_file_options()).unwrap();
    let mut expected = Vec::new();
    for i in 0..1000u32 {
        let key = format!("key-{}", i).into_bytes();
        let value = format!("value-{}", i).into_bytes();
        db.set(&key, &value).unwrap();
        expected.push((key, value));
    }
    // Simulate a crash that left no (or empty, hence invalid) hint files.
    let files: Vec<RawFile> = db
        .export_files()
        .into_iter()
        .map(|f| RawFile { id: f.id, data: f.data, hint: Vec::new() })
        .collect();
    let db2 = CrabeDB::load(files, small_file_options()).unwrap();
    for (key, value) in &expected {
        assert_eq!(db2.get(key).unwrap(), Some(value.clone()), "key {:?}", key);
    }
    // The hint files were rebuilt: a fresh export carries valid trailers.
    for f in db2.export_files() {
        assert!(valid_trailer(&f.hint));
    }
}

#[test]
fn corrupt_hint_file_falls_back_to_the_data_file() {
    let mut db = CrabeDB::load(Vec::new(), small_file_options()).unwrap();
    db.set(b"x", b"42").unwrap();
    let mut files = db.export_files();
    let last = files.len() - 1;
    let hlen = files[last].hint.len();
    files[last].hint[hlen - 1] ^= 0xff;
    let db2 = CrabeDB::load(files, small_file_options()).unwrap();
    assert_eq!(db2.get(b"x").unwrap(), Some(b"42".to_vec()));
}

#[test]
fn torn_tail_drops_only_the_last_record() {
    let mut db = CrabeDB::load(Vec::new(), small_file_options()).unwrap();
    db.set(b"first", b"1").unwrap();
    db.set(b"second", b"2").unwrap();
    db.set(b"last", b"3").unwrap();
    let mut files = db.export_files();
    let last = files.len() - 1;
    // Tear the tail: cut 7 bytes out of the last record and drop the hint
    // file, as a crash in mid-write would.
    let dlen = files[last].data.len();
    files[last].data.truncate(dlen - 7);
    files[last].hint = Vec::new();
    let mut db2 = CrabeDB::load(files, small_file_options()).unwrap();
    assert_eq!(db2.get(b"first").unwrap(), Some(b"1".to_vec()));
    assert_eq!(db2.get(b"second").unwrap(), Some(b"2".to_vec()));
    assert_eq!(db2.get(b"last").unwrap(), None);
    // The engine keeps serving writes after the recovery.
    db2.set(b"last", b"3 again").unwrap();
    assert_eq!(db2.get(b"last").unwrap(), Some(b"3 again".to_vec()));
}

#[test]
fn flipped_data_byte_surfaces_as_invalid_checksum() {
    let mut db = CrabeDB::load(Vec::new(), small_file_options()).unwrap();
    db.set(b"crab", b"a rather long value so the flip lands in it").unwrap();
    let mut files = db.export_files();
    let last = files.len() - 1;
    // Flip a byte inside the record's payload while leaving the (valid)
    // hint file in place: the index then points at a corrupt record.
    let dlen = files[last].data.len();
    files[last].data[dlen - 5] ^= 0x01;
    let db2 = CrabeDB::load(files, small_file_options()).unwrap();
    match db2.get(b"crab") {
        Err(Error::InvalidChecksum { expected, found }) => assert_ne!(expected, found),
        other => panic!("expected a checksum mismatch, got {:?}", other),
    }
}

#[test]
fn every_payload_flip_in_a_record_is_caught() {
    // Build a single-record store, then flip each byte of the record body
    // and check the subsequent read fails; payload flips specifically
    // surface as checksum mismatches.
    let mut db = CrabeDB::load(Vec::new(), small_file_options()).unwrap();
    db.set(b"key", b"value").unwrap();
    let files = db.export_files();
    let dlen = files[0].data.len();
    for i in 0..dlen {
        let mut corrupt = clone_files(&files);
        corrupt[0].data[i] ^= 0x20;
        let db2 = CrabeDB::load(corrupt, small_file_options()).unwrap();
        let r = db2.get(b"key");
        assert!(
            r.is_err() || r == Ok(None),
            "flip at byte {} was not caught: {:?}",
            i,
            r
        );
    }
}

fn clone_files(files: &[RawFile]) -> Vec<RawFile> {
    files
        .iter()
        .map(|f| RawFile { id: f.id, data: f.data.clone(), hint: f.hint.clone() })
        .collect()
}
