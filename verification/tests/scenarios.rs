use splatcad::compare::{compare_trees, find_diffs};
use splatcad::error::Error;
use splatcad::path::{FilePath, PathSegment, Precedence};
use splatcad::sorting::sort_tree_keys;
use splatcad::time::Timestamp;
use splatcad::types::{
    DiffTypes, FileDiff, FileDiffData, LocalFileData, LocalFileMetadata, TreeItem,
};

fn path(text: &str) -> FilePath {
    FilePath::new(text.split('/').map(|part| PathSegment::Name(part.to_owned())).collect())
}

fn record(text: &str, hash: u128, modified: i64) -> LocalFileData {
    LocalFileData {
        name: text.to_owned(),
        hash,
        metadata: LocalFileMetadata {
            path: path(text),
            size: 1,
            modified: Timestamp::new(modified, 0),
            update_time: Timestamp::new(1, 0),
        },
    }
}

fn item(text: &str, hash: u128, modified: i64) -> TreeItem {
    (path(text), record(text, hash, modified))
}

fn mirrored(diff: &FileDiff) -> FileDiff {
    let at = diff.path().clone();
    match (diff.diff_type(), diff.diff_metadata()) {
        (DiffTypes::LeftCreate, FileDiffData::Left(l)) => FileDiff::right_create(at, l.clone()),
        (DiffTypes::RightCreate, FileDiffData::Right(r)) => FileDiff::left_create(at, r.clone()),
        (DiffTypes::LeftNewer, FileDiffData::Both(l, r)) => {
            FileDiff::right_newer(at, r.clone(), l.clone())
        }
        (DiffTypes::RightNewer, FileDiffData::Both(l, r)) => {
            FileDiff::left_newer(at, r.clone(), l.clone())
        }
        _ => panic!("the kind of a divergence and its records do not agree"),
    }
}

#[test]
fn a_conflict_fails_the_diff() {
    let left = vec![item("p", 1, 100)];
    let right = vec![item("p", 2, 100)];
    assert_eq!(find_diffs(left, right), Err(Error::MergeConflict));
}

#[test]
fn a_conflict_fails_the_diff_whatever_came_before_it() {
    let left = vec![item("a", 1, 100), item("p", 1, 100), item("z", 1, 100)];
    let right = vec![item("b", 1, 100), item("p", 2, 100)];
    assert_eq!(find_diffs(left, right), Err(Error::MergeConflict));
    let left = vec![item("a", 1, 100), item("p", 1, 100), item("z", 1, 100)];
    let right = vec![item("b", 1, 100), item("p", 2, 100)];
    assert_eq!(find_diffs(right, left), Err(Error::MergeConflict));
}

#[test]
fn times_that_differ_by_a_nanosecond_are_no_conflict() {
    let mut left = item("p", 1, 100);
    left.1.metadata.modified = Timestamp::new(100, 1);
    let expected = FileDiff::left_newer(path("p"), left.1.clone(), record("p", 2, 100));
    assert_eq!(find_diffs(vec![left], vec![item("p", 2, 100)]), Ok(vec![expected]));
}

#[test]
fn a_path_on_the_right_only() {
    let found = find_diffs(vec![], vec![item("p", 5, 100)]).unwrap();
    assert_eq!(found, vec![FileDiff::right_create(path("p"), record("p", 5, 100))]);
    assert_eq!(found[0].diff_type(), DiffTypes::RightCreate);
    assert_eq!(found[0].diff_metadata(), &FileDiffData::Right(record("p", 5, 100)));
    assert_eq!(found[0].path(), &path("p"));
}

#[test]
fn a_path_on_the_left_only() {
    let found = find_diffs(vec![item("p", 5, 100)], vec![]).unwrap();
    assert_eq!(found, vec![FileDiff::left_create(path("p"), record("p", 5, 100))]);
    assert_eq!(found[0].diff_type(), DiffTypes::LeftCreate);
    assert_eq!(found[0].diff_metadata(), &FileDiffData::Left(record("p", 5, 100)));
}

#[test]
fn the_right_side_is_newer() {
    let found = find_diffs(vec![item("p", 1, 100)], vec![item("p", 2, 150)]).unwrap();
    assert_eq!(
        found,
        vec![FileDiff::right_newer(path("p"), record("p", 1, 100), record("p", 2, 150))]
    );
    assert_eq!(found[0].diff_type(), DiffTypes::RightNewer);
    assert_eq!(
        found[0].diff_metadata(),
        &FileDiffData::Both(record("p", 1, 100), record("p", 2, 150))
    );
}

#[test]
fn the_left_side_is_newer() {
    let found = find_diffs(vec![item("p", 1, 150)], vec![item("p", 2, 100)]).unwrap();
    assert_eq!(
        found,
        vec![FileDiff::left_newer(path("p"), record("p", 1, 150), record("p", 2, 100))]
    );
    assert_eq!(found[0].diff_type(), DiffTypes::LeftNewer);
    assert_eq!(
        found[0].diff_metadata(),
        &FileDiffData::Both(record("p", 1, 150), record("p", 2, 100))
    );
}

#[test]
fn the_same_content_is_no_divergence() {
    assert_eq!(find_diffs(vec![item("p", 1, 100)], vec![item("p", 1, 100)]), Ok(vec![]));
}

#[test]
fn the_same_content_is_no_divergence_whatever_the_times() {
    assert_eq!(find_diffs(vec![item("p", 1, 100)], vec![item("p", 1, 900)]), Ok(vec![]));
}

#[test]
fn empty_trees_do_not_diverge() {
    assert_eq!(find_diffs(vec![], vec![]), Ok(vec![]));
}

#[test]
fn every_diverging_path_occurs_once() {
    let left = vec![item("a", 1, 10), item("c", 1, 10), item("d", 1, 10), item("e", 7, 30)];
    let right = vec![item("b", 1, 10), item("c", 1, 10), item("d", 2, 20), item("e", 8, 20)];
    let found = find_diffs(left, right).unwrap();
    assert_eq!(
        found,
        vec![
            FileDiff::left_create(path("a"), record("a", 1, 10)),
            FileDiff::right_create(path("b"), record("b", 1, 10)),
            FileDiff::right_newer(path("d"), record("d", 1, 10), record("d", 2, 20)),
            FileDiff::left_newer(path("e"), record("e", 7, 30), record("e", 8, 20)),
        ]
    );
    for text in ["a", "b", "d", "e"] {
        let times = found.iter().filter(|d| d.path().compare(&path(text)) == Precedence::Same);
        assert_eq!(times.count(), 1);
    }
    assert!(found.iter().all(|d| d.path().compare(&path("c")) != Precedence::Same));
}

#[test]
fn what_is_left_over_on_one_side_is_held_by_that_side_only() {
    let left = vec![item("a", 1, 10), item("x", 1, 10), item("y", 1, 10)];
    let right = vec![item("a", 1, 10)];
    assert_eq!(
        find_diffs(left, right),
        Ok(vec![
            FileDiff::left_create(path("x"), record("x", 1, 10)),
            FileDiff::left_create(path("y"), record("y", 1, 10)),
        ])
    );
    let left = vec![item("m", 1, 10)];
    let right = vec![item("m", 1, 10), item("n", 1, 10), item("o", 1, 10)];
    assert_eq!(
        find_diffs(left, right),
        Ok(vec![
            FileDiff::right_create(path("n"), record("n", 1, 10)),
            FileDiff::right_create(path("o"), record("o", 1, 10)),
        ])
    );
}

#[test]
fn the_diff_seen_from_the_other_side_is_mirrored() {
    let left = || vec![item("a", 1, 10), item("c", 1, 10), item("d", 1, 10), item("e", 7, 30)];
    let right = || vec![item("b", 1, 10), item("c", 1, 10), item("d", 2, 20), item("e", 8, 20)];
    let found = find_diffs(left(), right()).unwrap();
    let swapped = find_diffs(right(), left()).unwrap();
    assert_eq!(swapped.len(), 4);
    assert_eq!(swapped, found.iter().map(mirrored).collect::<Vec<_>>());
    assert_eq!(swapped[0], FileDiff::right_create(path("a"), record("a", 1, 10)));
    assert_eq!(
        swapped[2],
        FileDiff::left_newer(path("d"), record("d", 2, 20), record("d", 1, 10))
    );
}

#[test]
fn sort_tree_keys_drops_what_did_not_decode_and_sorts() {
    let entries = vec![
        Some(item("b/z", 1, 10)),
        None,
        Some(item("a", 2, 10)),
        Some(item("b.c", 3, 10)),
        None,
        Some(item("b", 4, 10)),
    ];
    assert_eq!(
        sort_tree_keys(entries),
        vec![item("a", 2, 10), item("b", 4, 10), item("b/z", 1, 10), item("b.c", 3, 10)]
    );
    assert_eq!(sort_tree_keys(vec![]), Vec::<TreeItem>::new());
    assert_eq!(sort_tree_keys(vec![None, None]), Vec::<TreeItem>::new());
    assert_eq!(sort_tree_keys(vec![Some(item("a", 1, 1))]), vec![item("a", 1, 1)]);
}

#[test]
fn sort_tree_keys_keeps_equal_paths_in_their_order() {
    let entries: Vec<Option<TreeItem>> = vec![
        Some(item("k", 1, 10)),
        Some(item("j", 2, 10)),
        Some(item("k", 3, 10)),
        Some(item("i", 4, 10)),
        Some(item("k", 5, 10)),
        Some(item("j", 6, 10)),
        Some(item("k", 7, 10)),
    ];
    let hashes: Vec<u128> = sort_tree_keys(entries).iter().map(|entry| entry.1.hash).collect();
    assert_eq!(hashes, vec![4, 2, 6, 1, 3, 5, 7]);
}

#[test]
fn sort_tree_keys_sorts_many_entries() {
    let count: u128 = 1000;
    let entries: Vec<Option<TreeItem>> = (0..count)
        .map(|i| Some(item(&format!("{:04}", (i * 7919) % count), i, 10)))
        .collect();
    let sorted = sort_tree_keys(entries);
    assert_eq!(sorted.len(), 1000);
    for (place, entry) in sorted.iter().enumerate() {
        assert_eq!(entry.1.name, format!("{:04}", place));
    }
}

#[test]
fn compare_trees_sorts_both_sides_before_it_compares() {
    let left = vec![Some(item("c", 1, 10)), None, Some(item("a", 1, 10)), Some(item("b", 1, 50))];
    let right = vec![Some(item("b", 2, 40)), Some(item("d", 1, 10)), Some(item("c", 1, 10))];
    assert_eq!(
        compare_trees(left, right),
        Ok(vec![
            FileDiff::left_create(path("a"), record("a", 1, 10)),
            FileDiff::left_newer(path("b"), record("b", 1, 50), record("b", 2, 40)),
            FileDiff::right_create(path("d"), record("d", 1, 10)),
        ])
    );
}

#[test]
fn compare_trees_fails_on_a_conflict() {
    let left = vec![Some(item("c", 1, 10)), Some(item("a", 1, 10))];
    let right = vec![Some(item("z", 1, 10)), Some(item("a", 2, 10))];
    assert_eq!(compare_trees(left, right), Err(Error::MergeConflict));
}
