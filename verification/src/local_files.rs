//! The decisions of a scan: which files have to be hashed again, what the
//! record of a hashed file is, and which records a scan has left behind.

use vstd::prelude::*;
use vstd::string::StringExecFns;
use crate::error::Error;
use crate::path::FilePath;
use crate::time::Timestamp;
use crate::types::LocalFileData;
use crate::types::LocalFileMetadata;
use crate::types::MetadataView;
use crate::types::RecordView;
use crate::types::TreeNames;

verus! {

// ---------------------------------------------------------------------------
// Tree names
// ---------------------------------------------------------------------------

impl TreeNames {
    /// The name of the tree of the given kind for the given root: the kind's
    /// prefix, then the root.
    pub fn tree_name(kind: &str, root: &str) -> (name: String)
        ensures
            name@ == kind@ + root@,
    {
        String::from_str(kind).concat(root)
    }
}

/// Trees of different kinds have different names, whatever their roots, and
/// two trees of one kind have the same name only for the same root.
pub proof fn lemma_tree_names_apart(root_a: Seq<char>, root_b: Seq<char>)
    ensures
        TreeNames::BASIC_LOCAL_METADATA@ + root_a != TreeNames::HASH_LOCAL_METDATA@ + root_b,
        TreeNames::BASIC_LOCAL_METADATA@ + root_a != TreeNames::HASH_HEAD_METDATA@ + root_b,
        TreeNames::BASIC_LOCAL_METADATA@ + root_a != TreeNames::HASH_REMOTE_METDATA@ + root_b,
        TreeNames::HASH_LOCAL_METDATA@ + root_a != TreeNames::HASH_HEAD_METDATA@ + root_b,
        TreeNames::HASH_LOCAL_METDATA@ + root_a != TreeNames::HASH_REMOTE_METDATA@ + root_b,
        TreeNames::HASH_HEAD_METDATA@ + root_a != TreeNames::HASH_REMOTE_METDATA@ + root_b,
        root_a != root_b ==> TreeNames::BASIC_LOCAL_METADATA@ + root_a
            != TreeNames::BASIC_LOCAL_METADATA@ + root_b,
        root_a != root_b ==> TreeNames::HASH_LOCAL_METDATA@ + root_a
            != TreeNames::HASH_LOCAL_METDATA@ + root_b,
        root_a != root_b ==> TreeNames::HASH_HEAD_METDATA@ + root_a
            != TreeNames::HASH_HEAD_METDATA@ + root_b,
        root_a != root_b ==> TreeNames::HASH_REMOTE_METDATA@ + root_a
            != TreeNames::HASH_REMOTE_METDATA@ + root_b,
{
    reveal_strlit("basicMetadataLocal::>>");
    reveal_strlit("metaHashLocal::>>");
    reveal_strlit("metaHashHead::>>");
    reveal_strlit("metaHashRemote::>>");
    let basic = TreeNames::BASIC_LOCAL_METADATA@;
    let local = TreeNames::HASH_LOCAL_METDATA@;
    let head = TreeNames::HASH_HEAD_METDATA@;
    let remote = TreeNames::HASH_REMOTE_METDATA@;
    assert((basic + root_a)[0] == 'b');
    assert((local + root_a)[0] == 'm' && (local + root_a)[8] == 'L');
    assert((local + root_b)[0] == 'm');
    assert((head + root_a)[8] == 'H');
    assert((head + root_b)[0] == 'm' && (head + root_b)[8] == 'H');
    assert((remote + root_b)[0] == 'm' && (remote + root_b)[8] == 'R');
    if root_a != root_b {
        lemma_same_prefix_apart(basic, root_a, root_b);
        lemma_same_prefix_apart(local, root_a, root_b);
        lemma_same_prefix_apart(head, root_a, root_b);
        lemma_same_prefix_apart(remote, root_a, root_b);
    }
}

proof fn lemma_same_prefix_apart(prefix: Seq<char>, a: Seq<char>, b: Seq<char>)
    requires
        a != b,
    ensures
        prefix + a != prefix + b,
{
    if prefix + a == prefix + b {
        assert((prefix + a).skip(prefix.len() as int) =~= a);
        assert((prefix + b).skip(prefix.len() as int) =~= b);
    }
}

// ---------------------------------------------------------------------------
// Change detection
// ---------------------------------------------------------------------------

/// What the metadata tree held for a path before a scan stored what it saw.
#[derive(Debug)]
pub enum PriorMetadata {
    /// The tree had no record of the path.
    Absent,
    /// The tree had a record that could not be decoded.
    Unreadable,
    /// The tree had this record.
    Known(LocalFileMetadata),
}

/// What a [`PriorMetadata`] stands for in contracts.
pub ghost enum PriorView {
    Absent,
    Unreadable,
    Known(MetadataView),
}

impl DeepView for PriorMetadata {
    type V = PriorView;

    open spec fn deep_view(&self) -> PriorView {
        match self {
            PriorMetadata::Absent => PriorView::Absent,
            PriorMetadata::Unreadable => PriorView::Unreadable,
            PriorMetadata::Known(m) => PriorView::Known(m@),
        }
    }
}

impl View for PriorMetadata {
    type V = PriorView;

    open spec fn view(&self) -> PriorView {
        self.deep_view()
    }
}

/// A file has to be hashed again unless the tree knew it in the very state
/// that the scan has seen: with the same path, size and modification time.
pub open spec fn must_rehash(prior: PriorView, seen: MetadataView) -> bool {
    match prior {
        PriorView::Absent => true,
        PriorView::Unreadable => true,
        PriorView::Known(known) => !known.same_state(seen),
    }
}

/// Whether the file that a scan has seen as `seen` has to be hashed again,
/// given what the metadata tree held for its path before.
pub fn needs_rehash(prior: &PriorMetadata, seen: &LocalFileMetadata) -> (rehash: bool)
    ensures
        rehash == must_rehash(prior@, seen@),
{
    match prior {
        PriorMetadata::Absent => true,
        PriorMetadata::Unreadable => true,
        PriorMetadata::Known(known) => !known.same_state(seen),
    }
}

// ---------------------------------------------------------------------------
// Hashing
// ---------------------------------------------------------------------------

/// How many files a scan reads and hashes at one time.
pub const MAX_CONCURRENT_HASHES: usize = 200;

/// The XXH3 64-bit hash of a byte string, with the seed 0 and the default
/// secret.
pub uninterp spec fn xxh3_64_of(bytes: Seq<u8>) -> u64;

/// Calls `xxhash_rust::xxh3::xxh3_64`. The hash is a function of the bytes
/// alone; which function, is that crate's matter and is not proved here.
#[verifier::external_body]
fn xxh3_64(bytes: &[u8]) -> (hash: u64)
    ensures
        hash == xxh3_64_of(bytes@),
{
    xxhash_rust::xxh3::xxh3_64(bytes)
}

/// The record of a file that was read under `metadata` and whose content has
/// the 64-bit hash `hash`, where the file's path ends in a name.
pub open spec fn finalized(metadata: MetadataView, hash: u64) -> Option<RecordView> {
    match FilePath::spec_file_name(metadata.path) {
        Some(name) => Some(RecordView { name, hash: hash as u128, metadata }),
        None => None,
    }
}

/// Makes the record of a file from its metadata and the hash of its content.
/// The record is named after the final segment of the path; a path without
/// one is refused.
pub fn finalize(metadata: LocalFileMetadata, hash: u64) -> (res: Result<LocalFileData, Error>)
    ensures
        match finalized(metadata@, hash) {
            Some(record) => res matches Ok(data) && data@ == record,
            None => res matches Err(e) && e == Error::NoFilename,
        },
{
    match metadata.path.file_name() {
        Some(name) => Ok(LocalFileData { name, hash: hash as u128, metadata }),
        None => Err(Error::NoFilename),
    }
}

/// Hashes the content of a file and makes its record.
pub fn hash_and_finalize(metadata: LocalFileMetadata, bytes: &[u8]) -> (res: Result<
    LocalFileData,
    Error,
>)
    ensures
        match finalized(metadata@, xxh3_64_of(bytes@)) {
            Some(record) => res matches Ok(data) && data@ == record,
            None => res matches Err(e) && e == Error::NoFilename,
        },
{
    let hash = xxh3_64(bytes);
    finalize(metadata, hash)
}

// ---------------------------------------------------------------------------
// Reaping
// ---------------------------------------------------------------------------

/// A record is stale for a scan when it was last seen before the scan began.
pub open spec fn stale(record: MetadataView, scan_start: Timestamp) -> bool {
    record.update_time.before(scan_start)
}

/// Whether the scan that began at `scan_start` has left `record` behind, so
/// that its path has to leave both trees.
pub fn is_stale(record: &LocalFileMetadata, scan_start: &Timestamp) -> (b: bool)
    ensures
        b == stale(record@, *scan_start),
{
    record.update_time.is_before(scan_start)
}

} // verus!
