use chrono::{DateTime, TimeZone, Utc};
use splatcad::compare::find_diffs;
use splatcad::path::{FilePath, PathSegment, Precedence};
use splatcad::time::Timestamp;
use splatcad::types::{FileDiff, LocalFileData, LocalFileMetadata, TreeItem};
use std::path::{Component, Path};

fn path(text: &str) -> FilePath {
    let segments = Path::new(text)
        .components()
        .map(|component| match component {
            Component::RootDir => PathSegment::Root,
            Component::CurDir => PathSegment::Current,
            Component::ParentDir => PathSegment::Parent,
            Component::Normal(name) => PathSegment::Name(name.to_string_lossy().to_string()),
            Component::Prefix(prefix) => {
                PathSegment::Name(prefix.as_os_str().to_string_lossy().to_string())
            }
        })
        .collect();
    FilePath::new(segments)
}

fn instant(time: DateTime<Utc>) -> Timestamp {
    Timestamp::new(time.timestamp(), time.timestamp_subsec_nanos())
}

#[allow(deprecated)]
fn at(secs: i64) -> Timestamp {
    instant(Utc.timestamp(secs, 0))
}

fn sort(diffs: &mut Vec<FileDiff>) {
    diffs.sort_by(|a, b| match a.path().compare(b.path()) {
        Precedence::Before => std::cmp::Ordering::Less,
        Precedence::Same => a.diff_type().cmp(&b.diff_type()),
        Precedence::After => std::cmp::Ordering::Greater,
    });
}

#[test]
fn compare_test_merge_no_diff() {
    let left: Vec<TreeItem> = vec![(
        path("/this/is/in/both"),
        LocalFileData {
            hash: 0,
            name: "eee".to_owned(),
            metadata: LocalFileMetadata {
                path: path("/this/is/in/both"),
                modified: at(100),
                size: 1,
                update_time: at(100),
            },
        },
    )];
    let right: Vec<TreeItem> = vec![(
        path("/this/is/in/both"),
        LocalFileData {
            hash: 0,
            name: "eee".to_owned(),
            metadata: LocalFileMetadata {
                path: path("/this/is/in/both"),
                modified: at(100),
                size: 1,
                update_time: at(100),
            },
        },
    )];
    let mut expected: Vec<FileDiff> = vec![];

    let mut res = find_diffs(left, right).unwrap();

    sort(&mut expected);
    sort(&mut res);

    assert_eq!(expected, res);
}

#[test]
fn compare_test_both_new() {
    let left: Vec<TreeItem> = vec![(
        path("/this/is/in/left"),
        LocalFileData {
            hash: 0,
            name: "eee".to_owned(),
            metadata: LocalFileMetadata {
                path: path("/this/is/in/left"),
                modified: at(100),
                size: 1,
                update_time: at(100),
            },
        },
    )];
    let right: Vec<TreeItem> = vec![(
        path("/this/is/in/right"),
        LocalFileData {
            hash: 2,
            name: "ee2".to_owned(),
            metadata: LocalFileMetadata {
                path: path("/this/is/in/right"),
                modified: at(100),
                size: 1,
                update_time: at(100),
            },
        },
    )];
    let mut expected: Vec<FileDiff> = vec![
        FileDiff::left_create(
            path("/this/is/in/left"),
            LocalFileData {
                hash: 0,
                name: "eee".to_owned(),
                metadata: LocalFileMetadata {
                    path: path("/this/is/in/left"),
                    modified: at(100),
                    size: 1,
                    update_time: at(100),
                },
            },
        ),
        FileDiff::right_create(
            path("/this/is/in/right"),
            LocalFileData {
                hash: 2,
                name: "ee2".to_owned(),
                metadata: LocalFileMetadata {
                    path: path("/this/is/in/right"),
                    modified: at(100),
                    size: 1,
                    update_time: at(100),
                },
            },
        ),
    ];

    let mut res = find_diffs(left, right).unwrap();

    sort(&mut expected);
    sort(&mut res);

    assert_eq!(expected, res);
}

#[test]
fn compare_test_right_newer() {
    let left: Vec<TreeItem> = vec![(
        path("/this/is/in/both"),
        LocalFileData {
            hash: 0,
            name: "eee".to_owned(),
            metadata: LocalFileMetadata {
                path: path("/this/is/in/both"),
                modified: at(100),
                size: 1,
                update_time: instant(Utc::now()),
            },
        },
    )];
    let right: Vec<TreeItem> = vec![(
        path("/this/is/in/both"),
        LocalFileData {
            hash: 2,
            name: "eee".to_owned(),
            metadata: LocalFileMetadata {
                path: path("/this/is/in/both"),
                modified: at(102),
                size: 1,
                update_time: instant(Utc::now()),
            },
        },
    )];
    let mut expected: Vec<FileDiff> = vec![FileDiff::right_newer(
        path("/this/is/in/both"),
        LocalFileData {
            hash: 0,
            name: "eee".to_owned(),
            metadata: LocalFileMetadata {
                path: path("/this/is/in/both"),
                modified: at(100),
                size: 1,
                update_time: instant(Utc::now()),
            },
        },
        LocalFileData {
            hash: 2,
            name: "eee".to_owned(),
            metadata: LocalFileMetadata {
                path: path("/this/is/in/both"),
                modified: at(102),
                size: 1,
                update_time: instant(Utc::now()),
            },
        },
    )];

    let mut res = find_diffs(left, right).unwrap();

    sort(&mut expected);
    sort(&mut res);

    assert_eq!(expected, res);
}
