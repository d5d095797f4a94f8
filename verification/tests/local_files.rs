use chrono::{DateTime, TimeZone, Utc};
use splatcad::error::Error;
use splatcad::local_files::{finalize, hash_and_finalize, is_stale, needs_rehash, PriorMetadata};
use splatcad::path::{FilePath, PathSegment, Precedence};
use splatcad::time::Timestamp;
use splatcad::types::{LocalFileData, LocalFileMetadata, TreeNames};
use std::collections::BTreeMap;

fn name(text: &str) -> PathSegment {
    PathSegment::Name(text.to_owned())
}

fn file(text: &str) -> FilePath {
    FilePath::new(vec![PathSegment::Root, name("root"), name(text)])
}

fn instant(time: DateTime<Utc>) -> Timestamp {
    Timestamp::new(time.timestamp(), time.timestamp_subsec_nanos())
}

fn metadata(text: &str, size: u64, modified: i64, seen: i64) -> LocalFileMetadata {
    LocalFileMetadata {
        path: file(text),
        size,
        modified: Timestamp::new(modified, 0),
        update_time: Timestamp::new(seen, 0),
    }
}

#[test]
#[allow(deprecated)]
fn test_compare_metadata() {
    let modified = instant(Utc.ymd(2021, 1, 1).and_hms(0, 0, 0));
    let data1 = LocalFileMetadata {
        path: FilePath::new(vec![name("test")]),
        size: 0,
        modified,
        update_time: instant(Utc::now()),
    };
    let data2 = LocalFileMetadata {
        path: FilePath::new(vec![name("test")]),
        size: 0,
        modified,
        update_time: instant(Utc.ymd(2014, 11, 28).and_hms(12, 0, 9)),
    };

    assert!(data1 == data2);
}

#[test]
fn metadata_differs_by_path_size_or_modification_time() {
    let base = metadata("a", 10, 100, 1);
    assert!(base.same_state(&metadata("a", 10, 100, 2)));
    assert!(base != metadata("b", 10, 100, 1));
    assert!(base != metadata("a", 11, 100, 1));
    assert!(base != metadata("a", 10, 101, 1));
    let mut later_by_a_nanosecond = metadata("a", 10, 100, 1);
    later_by_a_nanosecond.modified = Timestamp::new(100, 1);
    assert!(base != later_by_a_nanosecond);
}

#[test]
fn a_new_file_is_hashed() {
    assert!(needs_rehash(&PriorMetadata::Absent, &metadata("a", 10, 100, 5)));
}

#[test]
fn a_file_with_an_unreadable_record_is_hashed() {
    assert!(needs_rehash(&PriorMetadata::Unreadable, &metadata("a", 10, 100, 5)));
}

#[test]
fn an_unchanged_file_is_skipped() {
    let prior = PriorMetadata::Known(metadata("a", 10, 100, 1));
    assert!(!needs_rehash(&prior, &metadata("a", 10, 100, 5)));
}

#[test]
fn a_changed_file_is_hashed() {
    let prior = PriorMetadata::Known(metadata("a", 10, 100, 1));
    assert!(needs_rehash(&prior, &metadata("a", 11, 100, 5)));
    let prior = PriorMetadata::Known(metadata("a", 10, 100, 1));
    assert!(needs_rehash(&prior, &metadata("a", 10, 99, 5)));
    let prior = PriorMetadata::Known(metadata("b", 10, 100, 1));
    assert!(needs_rehash(&prior, &metadata("a", 10, 100, 5)));
}

#[test]
fn a_record_is_stale_when_seen_before_the_scan_began() {
    let start = Timestamp::new(50, 7);
    assert!(is_stale(&metadata("a", 1, 1, 49), &start));
    let mut same_second = metadata("a", 1, 1, 50);
    same_second.update_time = Timestamp::new(50, 6);
    assert!(is_stale(&same_second, &start));
    same_second.update_time = Timestamp::new(50, 7);
    assert!(!is_stale(&same_second, &start));
    assert!(!is_stale(&metadata("a", 1, 1, 51), &start));
}

#[test]
fn finalize_names_the_record_after_the_last_segment() {
    let record = finalize(metadata("model.step", 3, 100, 5), 0xffff_ffff_ffff_ffff).unwrap();
    assert_eq!(record.name, "model.step");
    assert_eq!(record.hash, 0xffff_ffff_ffff_ffff_u128);
    assert_eq!(record.metadata, metadata("model.step", 3, 100, 5));
    assert_eq!(record.metadata.update_time, Timestamp::new(5, 0));
}

#[test]
fn finalize_refuses_a_path_without_a_name() {
    let mut no_name = metadata("a", 3, 100, 5);
    no_name.path = FilePath::new(vec![PathSegment::Root]);
    assert_eq!(finalize(no_name, 1), Err(Error::NoFilename));
    let mut upwards = metadata("a", 3, 100, 5);
    upwards.path = FilePath::new(vec![name("a"), PathSegment::Parent]);
    assert_eq!(finalize(upwards, 1), Err(Error::NoFilename));
    let mut empty = metadata("a", 3, 100, 5);
    empty.path = FilePath::new(vec![]);
    assert_eq!(hash_and_finalize(empty, b"content"), Err(Error::NoFilename));
}

#[test]
fn hash_and_finalize_hashes_the_content() {
    let empty = hash_and_finalize(metadata("a", 0, 100, 5), b"").unwrap();
    assert_eq!(empty.hash, 0x2d06_8005_38d3_94c2_u128);
    let record = hash_and_finalize(metadata("a", 5, 100, 5), b"hello").unwrap();
    assert_eq!(record.hash, u128::from(xxhash_rust::xxh3::xxh3_64(b"hello")));
    assert_ne!(record.hash, empty.hash);
    assert_eq!(record.name, "a");
    let other = hash_and_finalize(metadata("a", 5, 100, 5), b"hellp").unwrap();
    assert_ne!(record.hash, other.hash);
}

#[test]
fn tree_names_are_prefix_then_root() {
    assert_eq!(
        TreeNames::tree_name(TreeNames::BASIC_LOCAL_METADATA, "/home/me/cad"),
        "basicMetadataLocal::>>/home/me/cad"
    );
    assert_eq!(
        TreeNames::tree_name(TreeNames::HASH_LOCAL_METDATA, "/home/me/cad"),
        "metaHashLocal::>>/home/me/cad"
    );
    assert_eq!(
        TreeNames::tree_name(TreeNames::HASH_HEAD_METDATA, ""),
        "metaHashHead::>>"
    );
    assert_eq!(
        TreeNames::tree_name(TreeNames::HASH_REMOTE_METDATA, "C:\\cad"),
        "metaHashRemote::>>C:\\cad"
    );
}

#[test]
fn error_messages() {
    assert_eq!(
        Error::MergeConflict.message(),
        "Found merge conflict - same key, different hash, same modified time"
    );
    assert_eq!(Error::NoFilename.message(), "No filename");
}

// A scan as the application runs it, over two maps in place of the two
// trees: store what was seen, hash what changed, then remove what the scan
// has left behind.
struct Trees {
    metadata: BTreeMap<String, LocalFileMetadata>,
    hashes: BTreeMap<String, LocalFileData>,
    hashed: usize,
}

fn scan(trees: &mut Trees, files: &[(&str, u64, i64, &[u8])], start: i64) {
    let scan_start = Timestamp::new(start, 0);
    for (text, size, modified, content) in files {
        let seen = metadata(text, *size, *modified, start);
        let prior = match trees.metadata.insert(text.to_string(), seen.clone()) {
            None => PriorMetadata::Absent,
            Some(known) => PriorMetadata::Known(known),
        };
        if needs_rehash(&prior, &seen) {
            let record = hash_and_finalize(seen, content).unwrap();
            trees.hashes.insert(text.to_string(), record);
            trees.hashed += 1;
        }
    }
    let left_behind: Vec<String> = trees
        .metadata
        .iter()
        .filter(|(_, record)| is_stale(record, &scan_start))
        .map(|(key, _)| key.clone())
        .collect();
    for key in left_behind {
        trees.metadata.remove(&key);
        trees.hashes.remove(&key);
    }
}

fn empty_trees() -> Trees {
    Trees { metadata: BTreeMap::new(), hashes: BTreeMap::new(), hashed: 0 }
}

#[test]
fn a_second_scan_of_the_same_files_changes_nothing() {
    let files: [(&str, u64, i64, &[u8]); 2] = [("a", 1, 100, b"x"), ("b", 2, 200, b"yz")];
    let mut trees = empty_trees();
    scan(&mut trees, &files, 1000);
    assert_eq!(trees.hashed, 2);
    let hashes = trees.hashes.clone();
    let metadata_before = trees.metadata.clone();
    scan(&mut trees, &files, 2000);
    assert_eq!(trees.hashed, 2);
    assert_eq!(trees.hashes, hashes);
    assert_eq!(trees.metadata, metadata_before);
    assert_eq!(trees.metadata["a"].update_time, Timestamp::new(2000, 0));
    assert_eq!(trees.hashes["a"].metadata.update_time, Timestamp::new(1000, 0));
}

#[test]
fn an_unchanged_file_keeps_its_hash_entry() {
    let mut trees = empty_trees();
    scan(&mut trees, &[("a", 1, 100, b"x"), ("b", 2, 200, b"yz")], 1000);
    let before = trees.hashes["a"].clone();
    // The content of `a` has changed, but neither its size nor its
    // modification time: the scan does not read it again.
    scan(&mut trees, &[("a", 1, 100, b"q"), ("b", 3, 300, b"yz!")], 2000);
    assert_eq!(trees.hashed, 3);
    assert_eq!(trees.hashes["a"].hash, before.hash);
    assert_eq!(trees.hashes["a"].metadata.update_time, Timestamp::new(1000, 0));
    assert_eq!(trees.hashes["b"].hash, u128::from(xxhash_rust::xxh3::xxh3_64(b"yz!")));
    assert_eq!(trees.hashes["b"].metadata.update_time, Timestamp::new(2000, 0));
}

#[test]
fn a_deleted_file_leaves_both_trees() {
    let mut trees = empty_trees();
    scan(&mut trees, &[("a", 1, 100, b"x"), ("b", 2, 200, b"yz")], 1000);
    assert!(trees.metadata.contains_key("b") && trees.hashes.contains_key("b"));
    scan(&mut trees, &[("a", 1, 100, b"x")], 2000);
    assert!(!trees.metadata.contains_key("b"));
    assert!(!trees.hashes.contains_key("b"));
    assert!(trees.metadata.contains_key("a") && trees.hashes.contains_key("a"));
}

#[test]
fn a_deleted_file_stays_while_the_clock_stands_still() {
    let mut trees = empty_trees();
    scan(&mut trees, &[("a", 1, 100, b"x"), ("b", 2, 200, b"yz")], 1000);
    scan(&mut trees, &[("a", 1, 100, b"x")], 1000);
    assert!(trees.metadata.contains_key("b"));
    assert!(trees.hashes.contains_key("b"));
}

#[test]
fn metadata_is_ordered_by_path_then_size_then_modification_time() {
    let base = metadata("m", 10, 100, 1);
    assert_eq!(base.compare(&metadata("m", 10, 100, 99)), Precedence::Same);
    assert_eq!(base.compare(&metadata("n", 1, 1, 1)), Precedence::Before);
    assert_eq!(base.compare(&metadata("l", 99, 999, 1)), Precedence::After);
    assert_eq!(base.compare(&metadata("m", 11, 1, 1)), Precedence::Before);
    assert_eq!(base.compare(&metadata("m", 9, 999, 1)), Precedence::After);
    assert_eq!(base.compare(&metadata("m", 10, 101, 1)), Precedence::Before);
    assert_eq!(base.compare(&metadata("m", 10, 99, 1)), Precedence::After);
}
