//! Tests of the helpers: file names, directory scanning, byte formatting,
//! the id counter, and the index structures.

use crabedb::error::Error;
use crabedb::index::{AnalysisCounters, CompactionAnalysis, MemIdx, MemIdxEntry};
use crabedb::lsm::{DataFile, Lsm, Sequence};
use crabedb::util::{
    bytes_eq, contains_u32, find_data_files, format_u64, get_compaction_hint_file_path,
    get_data_file_path, human_readable_byte_count, insert_sorted, parse_data_file_name,
};

#[test]
fn file_paths_are_zero_padded() {
    assert_eq!(get_data_file_path("store", 123), "store/0000000123.crabe.sst");
    assert_eq!(get_data_file_path("/var/db", 1), "/var/db/0000000001.crabe.sst");
    assert_eq!(
        get_compaction_hint_file_path("store", 4294967295),
        "store/4294967295.crabe.cpct"
    );
}

#[test]
fn parse_accepts_exactly_the_data_file_shape() {
    assert_eq!(parse_data_file_name(b"0000000123.crabe.sst"), Some(123));
    assert_eq!(parse_data_file_name(b"0000000000.crabe.sst"), Some(0));
    assert_eq!(parse_data_file_name(b"4294967295.crabe.sst"), Some(4294967295));
    // Too large for a 32-bit id.
    assert_eq!(parse_data_file_name(b"4294967296.crabe.sst"), None);
    // Wrong extension, wrong length, stray characters.
    assert_eq!(parse_data_file_name(b"0000000123.crabe.cpc"), None);
    assert_eq!(parse_data_file_name(b"0000000123.crabe.cpct"), None);
    assert_eq!(parse_data_file_name(b"123.crabe.sst"), None);
    assert_eq!(parse_data_file_name(b"00000x0123.crabe.sst"), None);
    assert_eq!(parse_data_file_name(b"crabe.lock"), None);
}

#[test]
fn find_data_files_sorts_ascending() {
    let names = vec![
        b"0000000007.crabe.sst".to_vec(),
        b"crabe.lock".to_vec(),
        b"0000000002.crabe.sst".to_vec(),
        b"0000000002.crabe.cpct".to_vec(),
        b"0000000010.crabe.sst".to_vec(),
    ];
    assert_eq!(find_data_files(&names), vec![2, 7, 10]);
}

#[test]
fn format_and_human_readable() {
    assert_eq!(format_u64(0), "0");
    assert_eq!(format_u64(9000567), "9000567");
    assert_eq!(human_readable_byte_count(512, true), "512 B");
    assert_eq!(human_readable_byte_count(1000, true), "1 kB");
    assert_eq!(human_readable_byte_count(1024, false), "1 KiB");
    assert_eq!(human_readable_byte_count(2_500_000, true), "2 MB");
    assert_eq!(human_readable_byte_count(3 * 1024 * 1024 * 1024, false), "3 GiB");
}

#[test]
fn sequence_counts_up() {
    let mut seq = Sequence::new(5);
    assert_eq!(seq.increment(), 6);
    assert_eq!(seq.increment(), 7);
    assert_eq!(seq.value(), 7);
}

#[test]
fn sorted_insert_and_contains() {
    let mut v: Vec<u32> = Vec::new();
    insert_sorted(&mut v, 9);
    insert_sorted(&mut v, 3);
    insert_sorted(&mut v, 12);
    insert_sorted(&mut v, 9);
    assert_eq!(v, vec![3, 9, 12]);
    assert!(contains_u32(&v, 9));
    assert!(!contains_u32(&v, 4));
    assert!(bytes_eq(b"abc", b"abc"));
    assert!(!bytes_eq(b"abc", b"abd"));
    assert!(!bytes_eq(b"abc", b"ab"));
}

#[test]
fn mem_idx_tracks_the_latest_entry() {
    let mut idx = MemIdx::new();
    let e1 = MemIdxEntry { pos: 0, seq: 1, size: 30, file_id: 1 };
    let e2 = MemIdxEntry { pos: 30, seq: 2, size: 30, file_id: 1 };
    assert_eq!(idx.set(b"k".to_vec(), e1), None);
    assert_eq!(idx.set(b"k".to_vec(), e2), Some(e1));
    assert_eq!(idx.get(b"k"), Some(&e2));
    assert_eq!(idx.remove(b"k"), Some(e2));
    assert_eq!(idx.get(b"k"), None);
    assert_eq!(idx.remove(b"k"), None);
}

#[test]
fn analysis_counts_live_and_dead_records() {
    let mut ca = CompactionAnalysis::new();
    let e1 = MemIdxEntry { pos: 0, seq: 1, size: 100, file_id: 3 };
    let e2 = MemIdxEntry { pos: 100, seq: 2, size: 50, file_id: 3 };
    ca.add(&e1);
    ca.add(&e2);
    ca.remove(&e1);
    let rows = ca.file_analysis();
    assert_eq!(rows.len(), 1);
    let (file_id, frag_permille, dead_bytes) = rows[0];
    assert_eq!(file_id, 3);
    // One dead record out of two ever seen: 500 permille.
    assert_eq!(frag_permille, 500);
    assert_eq!(dead_bytes, 100);
    ca.remove_files(&[3]);
    assert!(ca.file_analysis().is_empty());
}

#[test]
fn analysis_ignores_unknown_files() {
    let mut ca = CompactionAnalysis::new();
    let stray = MemIdxEntry { pos: 0, seq: 1, size: 10, file_id: 9 };
    ca.remove(&stray);
    assert!(ca.file_analysis().is_empty());
}

#[test]
fn counters_are_plain_data() {
    let c = AnalysisCounters { entries: 2, dead_entries: 1, dead_bytes: 100 };
    assert_eq!(c, c);
}

#[test]
fn error_messages() {
    assert_eq!(Error::Io("boom".to_string()).message(), "IO error: boom");
    assert_eq!(Error::InvalidPath("p".to_string()).message(), "Invalid path provided: p");
    assert_eq!(Error::InvalidFileId(7).message(), "Invalid file id: 7");
    assert_eq!(Error::InvalidKeySize(0).message(), "Invalid key size, max: 65535, found: 0");
    assert_eq!(
        Error::InvalidValueSize(5).message(),
        "Invalid value size, max: 4294967294, found: 5"
    );
    assert_eq!(
        Error::InvalidChecksum { expected: 12, found: 3405691582 }.message(),
        "Invalid checksum, expected: 12, found: 3405691582"
    );
}

#[test]
fn unknown_file_ids_are_reported() {
    let lsm = Lsm::new(0, 1024);
    match lsm.read_log(5, 0) {
        Err(Error::InvalidFileId(5)) => {},
        other => panic!("expected InvalidFileId(5), got {:?}", other),
    }
    match lsm.file_size(9) {
        Err(Error::InvalidFileId(9)) => {},
        other => panic!("expected InvalidFileId(9), got {:?}", other),
    }
}

#[test]
fn files_excludes_the_active_file() {
    let mut lsm = Lsm::new(3, 1024);
    lsm.store.push(DataFile { id: 1, data: Vec::new(), hint: Vec::new() });
    lsm.store.push(DataFile { id: 2, data: Vec::new(), hint: Vec::new() });
    lsm.store.push(DataFile { id: 3, data: Vec::new(), hint: Vec::new() });
    lsm.active_file_id = Some(3);
    assert_eq!(lsm.files(), vec![1, 2]);
    lsm.active_file_id = None;
    assert_eq!(lsm.files(), vec![1, 2, 3]);
}
