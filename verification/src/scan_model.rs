//! What a scan does to the two trees of a root, stated over the trees as maps,
//! and what follows from it for a scan that is run again.
//!
//! A scan walks the files under the root. For each file it stores what it saw
//! in the metadata tree and, where the tree did not know the file in that
//! state, hashes the file and stores the record in the hash tree. When the
//! walk and the hashing are done it removes from both trees every path whose
//! metadata record is older than the scan.

use vstd::prelude::*;
use crate::local_files::PriorView;
use crate::local_files::finalized;
use crate::local_files::must_rehash;
use crate::local_files::stale;
use crate::local_files::xxh3_64_of;
use crate::path::PathView;
use crate::time::Timestamp;
use crate::types::MetadataView;
use crate::types::RecordView;

verus! {

/// The two trees of one root whose entries decode: the metadata tree and the
/// hash tree, each a map from path to record.
pub ghost struct Trees {
    pub metadata: Map<PathView, MetadataView>,
    pub hashes: Map<PathView, RecordView>,
}

/// A regular file as a scan finds it: its size, its modification time, and its
/// content where the file can be read.
pub ghost struct FileState {
    pub size: u64,
    pub modified: Timestamp,
    pub content: Option<Seq<u8>>,
}

/// The metadata record that the scan begun at `scan_start` makes of a file.
pub open spec fn seen(path: PathView, file: FileState, scan_start: Timestamp) -> MetadataView {
    MetadataView { path, size: file.size, modified: file.modified, update_time: scan_start }
}

/// What the metadata tree holds for a path.
pub open spec fn prior(metadata: Map<PathView, MetadataView>, path: PathView) -> PriorView {
    if metadata.dom().contains(path) {
        PriorView::Known(metadata[path])
    } else {
        PriorView::Absent
    }
}

/// The record that the scan writes into the hash tree for a file, if it writes
/// one: the file is new or changed, it can be read, and its path ends in a
/// name.
pub open spec fn rehashed(
    metadata: Map<PathView, MetadataView>,
    path: PathView,
    file: FileState,
    scan_start: Timestamp,
) -> Option<RecordView> {
    if must_rehash(prior(metadata, path), seen(path, file, scan_start)) {
        match file.content {
            Some(bytes) => finalized(seen(path, file, scan_start), xxh3_64_of(bytes)),
            None => None,
        }
    } else {
        None
    }
}

/// The trees after the walk and the hashing, before anything is removed.
pub open spec fn walked(trees: Trees, files: Map<PathView, FileState>, scan_start: Timestamp) -> Trees {
    Trees {
        metadata: Map::new(
            |p: PathView| files.dom().contains(p) || trees.metadata.dom().contains(p),
            |p: PathView|
                if files.dom().contains(p) {
                    seen(p, files[p], scan_start)
                } else {
                    trees.metadata[p]
                },
        ),
        hashes: Map::new(
            |p: PathView|
                trees.hashes.dom().contains(p) || (files.dom().contains(p) && rehashed(
                    trees.metadata,
                    p,
                    files[p],
                    scan_start,
                ) is Some),
            |p: PathView|
                if files.dom().contains(p) && rehashed(trees.metadata, p, files[p], scan_start)
                    is Some {
                    rehashed(trees.metadata, p, files[p], scan_start)->0
                } else {
                    trees.hashes[p]
                },
        ),
    }
}

/// The paths that the scan begun at `scan_start` has left behind.
pub open spec fn left_behind(
    metadata: Map<PathView, MetadataView>,
    path: PathView,
    scan_start: Timestamp,
) -> bool {
    metadata.dom().contains(path) && stale(metadata[path], scan_start)
}

/// The trees without the paths that the scan has left behind.
pub open spec fn reaped(trees: Trees, scan_start: Timestamp) -> Trees {
    Trees {
        metadata: trees.metadata.remove_keys(
            Set::new(|p: PathView| left_behind(trees.metadata, p, scan_start)),
        ),
        hashes: trees.hashes.remove_keys(
            Set::new(|p: PathView| left_behind(trees.metadata, p, scan_start)),
        ),
    }
}

/// The trees after a whole scan of `files` that began at `scan_start`.
pub open spec fn scanned(trees: Trees, files: Map<PathView, FileState>, scan_start: Timestamp) -> Trees {
    reaped(walked(trees, files, scan_start), scan_start)
}

/// After a scan the metadata tree holds every file that the scan saw, in the
/// state in which it saw it.
pub proof fn lemma_scanned_holds_files(
    trees: Trees,
    files: Map<PathView, FileState>,
    scan_start: Timestamp,
    path: PathView,
)
    requires
        files.dom().contains(path),
    ensures
        scanned(trees, files, scan_start).metadata.dom().contains(path),
        scanned(trees, files, scan_start).metadata[path] == seen(path, files[path], scan_start),
{
}

/// After a scan of trees whose records are all older than the scan, the
/// metadata tree holds the files that the scan saw and nothing else.
pub proof fn lemma_scanned_holds_files_only(
    trees: Trees,
    files: Map<PathView, FileState>,
    scan_start: Timestamp,
)
    requires
        forall|p: PathView| #[trigger]
            trees.metadata.dom().contains(p) ==> stale(trees.metadata[p], scan_start),
    ensures
        scanned(trees, files, scan_start).metadata.dom() =~= files.dom(),
{
}

/// Change-skip: a file that the metadata tree knows with the size and the
/// modification time that the scan sees keeps its entry in the hash tree as
/// it is, or stays without one.
pub proof fn lemma_unchanged_file_keeps_hash(
    trees: Trees,
    files: Map<PathView, FileState>,
    scan_start: Timestamp,
    path: PathView,
)
    requires
        files.dom().contains(path),
        trees.metadata.dom().contains(path),
        trees.metadata[path].path == path,
        trees.metadata[path].size == files[path].size,
        trees.metadata[path].modified == files[path].modified,
    ensures
        scanned(trees, files, scan_start).hashes.dom().contains(path)
            == trees.hashes.dom().contains(path),
        trees.hashes.dom().contains(path) ==> scanned(trees, files, scan_start).hashes[path]
            == trees.hashes[path],
{
}

/// Reaping: a file that one scan saw and the next scan, begun later, does not
/// see is in neither tree after that next scan.
pub proof fn lemma_deleted_file_is_reaped(
    trees: Trees,
    files: Map<PathView, FileState>,
    scan_start: Timestamp,
    later_files: Map<PathView, FileState>,
    later_start: Timestamp,
    path: PathView,
)
    requires
        files.dom().contains(path),
        !later_files.dom().contains(path),
        scan_start.before(later_start),
    ensures
        !scanned(
            scanned(trees, files, scan_start),
            later_files,
            later_start,
        ).metadata.dom().contains(path),
        !scanned(
            scanned(trees, files, scan_start),
            later_files,
            later_start,
        ).hashes.dom().contains(path),
{
    let once = scanned(trees, files, scan_start);
    lemma_scanned_holds_files(trees, files, scan_start, path);
    let between = walked(once, later_files, later_start);
    assert(left_behind(between.metadata, path, later_start));
}

/// Idempotence: a second scan of the same files leaves the hash tree as the
/// first scan left it, and the metadata tree with the same paths, sizes and
/// modification times.
///
/// This holds where the trees, before the first scan, held no record of a
/// file which is gone and which was stamped at or after the first scan's
/// start and before the second's: the first scan keeps such a record and the
/// second removes it.
pub proof fn lemma_second_scan_changes_nothing(
    trees: Trees,
    files: Map<PathView, FileState>,
    scan_start: Timestamp,
    again_start: Timestamp,
)
    requires
        forall|p: PathView|
            #![trigger trees.metadata.dom().contains(p)]
            trees.metadata.dom().contains(p) && !files.dom().contains(p) ==> stale(
                trees.metadata[p],
                scan_start,
            ) || !stale(trees.metadata[p], again_start),
    ensures
        scanned(scanned(trees, files, scan_start), files, again_start).hashes == scanned(
            trees,
            files,
            scan_start,
        ).hashes,
        scanned(scanned(trees, files, scan_start), files, again_start).metadata.dom() == scanned(
            trees,
            files,
            scan_start,
        ).metadata.dom(),
        forall|p: PathView| #[trigger]
            scanned(trees, files, scan_start).metadata.dom().contains(p) ==> scanned(
                scanned(trees, files, scan_start),
                files,
                again_start,
            ).metadata[p].same_state(scanned(trees, files, scan_start).metadata[p]),
{
    let once = scanned(trees, files, scan_start);
    let between = walked(once, files, again_start);
    let twice = scanned(once, files, again_start);
    assert forall|p: PathView| files.dom().contains(p) implies rehashed(
        once.metadata,
        p,
        files[p],
        again_start,
    ) is None by {
        lemma_scanned_holds_files(trees, files, scan_start, p);
    }
    assert(between.hashes =~= once.hashes);
    assert forall|p: PathView| !left_behind(between.metadata, p, again_start) by {
        if between.metadata.dom().contains(p) && !files.dom().contains(p) {
            assert(once.metadata.dom().contains(p));
            assert(trees.metadata.dom().contains(p));
        }
    }
    assert(twice.hashes =~= once.hashes);
    assert(twice.metadata.dom() =~= once.metadata.dom());
}

/// A record that a scan writes into the hash tree holds the very metadata
/// that the scan stores for the path: the two are made of one observation.
pub proof fn lemma_hash_is_written_with_its_metadata(
    trees: Trees,
    files: Map<PathView, FileState>,
    scan_start: Timestamp,
    path: PathView,
)
    requires
        files.dom().contains(path),
        rehashed(trees.metadata, path, files[path], scan_start) is Some,
    ensures
        scanned(trees, files, scan_start).hashes.dom().contains(path),
        scanned(trees, files, scan_start).hashes[path] == rehashed(
            trees.metadata,
            path,
            files[path],
            scan_start,
        )->0,
        scanned(trees, files, scan_start).hashes[path].metadata == scanned(
            trees,
            files,
            scan_start,
        ).metadata[path],
        match files[path].content {
            Some(bytes) => scanned(trees, files, scan_start).hashes[path].hash == xxh3_64_of(bytes),
            None => false,
        },
{
}

/// Every path of the hash tree is a path of the metadata tree.
pub open spec fn hashes_within_metadata(trees: Trees) -> bool {
    forall|p: PathView| #[trigger]
        trees.hashes.dom().contains(p) ==> trees.metadata.dom().contains(p)
}

/// A scan keeps the hash tree within the metadata tree: it hashes only files
/// whose metadata it stores, and what it removes, it removes from both.
pub proof fn lemma_scan_keeps_hashes_within_metadata(
    trees: Trees,
    files: Map<PathView, FileState>,
    scan_start: Timestamp,
)
    requires
        hashes_within_metadata(trees),
    ensures
        hashes_within_metadata(scanned(trees, files, scan_start)),
{
    let between = walked(trees, files, scan_start);
    assert forall|p: PathView| #[trigger]
        scanned(trees, files, scan_start).hashes.dom().contains(p) implies scanned(
        trees,
        files,
        scan_start,
    ).metadata.dom().contains(p) by {
        assert(between.hashes.dom().contains(p));
        if !files.dom().contains(p) {
            assert(trees.hashes.dom().contains(p));
        }
    }
}

} // verus!
