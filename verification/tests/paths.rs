use splatcad::path::{FilePath, PathSegment, Precedence};
use splatcad::time::Timestamp;
use std::path::{Component, Path};

fn path(text: &str) -> FilePath {
    let segments = Path::new(text)
        .components()
        .map(|component| match component {
            Component::RootDir => PathSegment::Root,
            Component::CurDir => PathSegment::Current,
            Component::ParentDir => PathSegment::Parent,
            Component::Normal(name) => PathSegment::Name(name.to_string_lossy().to_string()),
            Component::Prefix(prefix) => {
                PathSegment::Name(prefix.as_os_str().to_string_lossy().to_string())
            }
        })
        .collect();
    FilePath::new(segments)
}

fn expected(a: &str, b: &str) -> Precedence {
    match Path::new(a).cmp(Path::new(b)) {
        std::cmp::Ordering::Less => Precedence::Before,
        std::cmp::Ordering::Equal => Precedence::Same,
        std::cmp::Ordering::Greater => Precedence::After,
    }
}

#[test]
fn paths_compare_segment_by_segment() {
    assert_eq!(path("a/b").compare(&path("a/c")), Precedence::Before);
    assert_eq!(path("a/c").compare(&path("a/b")), Precedence::After);
    assert_eq!(path("a/b").compare(&path("a/b")), Precedence::Same);
    // As strings `a.b` sorts before `a/b`; as paths the segment `a` sorts
    // before the segment `a.b`.
    assert_eq!(path("a/b").compare(&path("a.b")), Precedence::Before);
    assert_eq!(path("a.b").compare(&path("a/b")), Precedence::After);
}

#[test]
fn a_path_sorts_before_what_lies_under_it() {
    assert_eq!(path("/a").compare(&path("/a/b")), Precedence::Before);
    assert_eq!(path("/a/b").compare(&path("/a")), Precedence::After);
    assert_eq!(path("").compare(&path("a")), Precedence::Before);
    assert_eq!(path("").compare(&path("")), Precedence::Same);
}

#[test]
fn names_compare_by_their_bytes() {
    assert_eq!(path("ab").compare(&path("abc")), Precedence::Before);
    assert_eq!(path("abc").compare(&path("abd")), Precedence::Before);
    assert_eq!(path("B").compare(&path("a")), Precedence::Before);
    assert_eq!(path("z").compare(&path("\u{e9}")), Precedence::Before);
    assert_eq!(path("\u{e9}").compare(&path("\u{20ac}")), Precedence::Before);
    assert_eq!(path("\u{ffff}").compare(&path("\u{10000}")), Precedence::Before);
}

#[test]
fn the_kinds_of_segments_are_ordered() {
    let root = FilePath::new(vec![PathSegment::Root]);
    let current = FilePath::new(vec![PathSegment::Current]);
    let parent = FilePath::new(vec![PathSegment::Parent]);
    let named = FilePath::new(vec![PathSegment::Name(String::new())]);
    assert_eq!(root.compare(&current), Precedence::Before);
    assert_eq!(current.compare(&parent), Precedence::Before);
    assert_eq!(parent.compare(&named), Precedence::Before);
    assert_eq!(named.compare(&root), Precedence::After);
    assert_eq!(PathSegment::Parent.compare(&PathSegment::Parent), Precedence::Same);
    assert_eq!(
        PathSegment::Name("-".to_owned()).compare(&PathSegment::Root),
        Precedence::After
    );
}

#[test]
fn paths_compare_as_the_paths_of_the_platform_do() {
    let samples = [
        "", "/", ".", "..", "a", "/a", "./a", "../a", "a/b", "a.b", "a/b/c", "a//b", "a/./b",
        "a/b/", "-x", "/x", "/this/is/in/left", "/this/is/in/right", "/this/is/in/both", "ab",
        "a b", "A", "\u{e9}t\u{e9}", "/a/../b",
    ];
    for a in samples {
        for b in samples {
            assert_eq!(path(a).compare(&path(b)), expected(a, b), "{:?} and {:?}", a, b);
        }
    }
}

#[test]
fn file_name_is_the_last_segment_if_it_is_a_name() {
    assert_eq!(path("/this/is/in/left").file_name(), Some("left".to_owned()));
    assert_eq!(path("plain").file_name(), Some("plain".to_owned()));
    assert_eq!(path("/").file_name(), None);
    assert_eq!(path("").file_name(), None);
    assert_eq!(path("a/..").file_name(), None);
    assert_eq!(path(".").file_name(), None);
}

#[test]
fn a_clone_is_the_same_path() {
    let first = path("/this/is/in/both");
    let copy = first.clone();
    assert_eq!(copy, first);
    assert_eq!(copy.compare(&first), Precedence::Same);
    assert_eq!(copy.segments.len(), 5);
}

#[test]
fn instants_are_ordered_by_seconds_then_nanoseconds() {
    let early = Timestamp::new(-5, 999_999_999);
    let noon = Timestamp::new(10, 0);
    let just_after = Timestamp::new(10, 1);
    assert!(early.is_before(&noon));
    assert!(noon.is_before(&just_after));
    assert!(!just_after.is_before(&noon));
    assert!(!noon.is_before(&noon));
    assert!(just_after.is_after(&noon));
    assert!(!noon.is_after(&noon));
    assert!(noon.is_after(&early));
    assert_eq!(Timestamp::new(3, 4), Timestamp { secs: 3, nanos: 4 });
    assert!(Timestamp::new(i64::MIN, u32::MAX).is_before(&Timestamp::new(i64::MAX, 0)));
}
