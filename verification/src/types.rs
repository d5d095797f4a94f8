//! The records that the trees hold and the divergences between two trees.

use vstd::prelude::*;
use crate::path::FilePath;
use crate::path::PathView;
use crate::path::Precedence;
use crate::path::path_precedence;
use crate::time::Timestamp;
use crate::time::lemma_timestamp_total;

verus! {

/// The tree kinds of one watched root. A tree's name is its kind's prefix
/// followed by the root.
pub struct TreeNames;

impl TreeNames {
    /// What the last scan saw of each file: its metadata, not yet hashed.
    pub const BASIC_LOCAL_METADATA: &'static str = "basicMetadataLocal::>>";
    /// The hashed local files.
    pub const HASH_LOCAL_METDATA: &'static str = "metaHashLocal::>>";
    /// The reference version of the local files.
    pub const HASH_HEAD_METDATA: &'static str = "metaHashHead::>>";
    /// The latest remote state, as known locally.
    pub const HASH_REMOTE_METDATA: &'static str = "metaHashRemote::>>";
}

// ---------------------------------------------------------------------------
// Metadata
// ---------------------------------------------------------------------------

/// What a scan sees of one file without reading it.
///
/// `path`, `size` and `modified` say which state of which file this is: two
/// records are equal when they agree on these three. `update_time` is the
/// start of the scan that saw the file; it is bookkeeping and takes no part in
/// equality.
#[derive(Debug, Eq)]
pub struct LocalFileMetadata {
    pub path: FilePath,
    pub size: u64,
    pub modified: Timestamp,
    pub update_time: Timestamp,
}

/// What a [`LocalFileMetadata`] stands for in contracts.
pub ghost struct MetadataView {
    pub path: PathView,
    pub size: u64,
    pub modified: Timestamp,
    pub update_time: Timestamp,
}

impl MetadataView {
    /// Both records describe the same state of the same file.
    pub open spec fn same_state(self, other: MetadataView) -> bool {
        &&& self.path == other.path
        &&& self.size == other.size
        &&& self.modified == other.modified
    }

    /// How this record stands to `other`: by path first, by size second and
    /// by modification time third.
    pub open spec fn precedence(self, other: MetadataView) -> Precedence {
        match path_precedence(self.path, other.path) {
            Precedence::Before => Precedence::Before,
            Precedence::After => Precedence::After,
            Precedence::Same => if self.size < other.size {
                Precedence::Before
            } else if self.size > other.size {
                Precedence::After
            } else if self.modified.before(other.modified) {
                Precedence::Before
            } else if other.modified.before(self.modified) {
                Precedence::After
            } else {
                Precedence::Same
            },
        }
    }
}

impl DeepView for LocalFileMetadata {
    type V = MetadataView;

    open spec fn deep_view(&self) -> MetadataView {
        MetadataView {
            path: self.path@,
            size: self.size,
            modified: self.modified,
            update_time: self.update_time,
        }
    }
}

impl View for LocalFileMetadata {
    type V = MetadataView;

    open spec fn view(&self) -> MetadataView {
        self.deep_view()
    }
}

impl Clone for LocalFileMetadata {
    fn clone(&self) -> (res: Self)
        ensures
            res@ == self@,
    {
        LocalFileMetadata {
            path: self.path.clone(),
            size: self.size,
            modified: self.modified,
            update_time: self.update_time,
        }
    }
}

impl LocalFileMetadata {
    /// Whether both records describe the same state of the same file,
    /// whichever scans saw it.
    pub fn same_state(&self, other: &LocalFileMetadata) -> (b: bool)
        ensures
            b == self@.same_state(other@),
    {
        self.size == other.size && self.modified == other.modified && self.path.compare(&other.path)
            == Precedence::Same
    }

    /// How this record stands to `other`: by path first, by size second and
    /// by modification time third. The time at which a scan saw the file
    /// takes no part.
    pub fn compare(&self, other: &LocalFileMetadata) -> (o: Precedence)
        ensures
            o == self@.precedence(other@),
            o == Precedence::Same <==> self@.same_state(other@),
    {
        proof {
            lemma_timestamp_total(self.modified, other.modified);
        }
        match self.path.compare(&other.path) {
            Precedence::Before => Precedence::Before,
            Precedence::After => Precedence::After,
            Precedence::Same => {
                if self.size < other.size {
                    Precedence::Before
                } else if self.size > other.size {
                    Precedence::After
                } else if self.modified.is_before(&other.modified) {
                    Precedence::Before
                } else if self.modified.is_after(&other.modified) {
                    Precedence::After
                } else {
                    Precedence::Same
                }
            },
        }
    }
}

impl PartialEq for LocalFileMetadata {
    fn eq(&self, other: &LocalFileMetadata) -> (res: bool) {
        self.same_state(other)
    }
}

impl vstd::std_specs::cmp::PartialEqSpecImpl for LocalFileMetadata {
    open spec fn obeys_eq_spec() -> bool {
        true
    }

    open spec fn eq_spec(&self, other: &LocalFileMetadata) -> bool {
        self@.same_state(other@)
    }
}

// ---------------------------------------------------------------------------
// Hashed records
// ---------------------------------------------------------------------------

/// A file with the fingerprint of its content, and the metadata that the
/// content was read under.
#[derive(Debug, PartialEq, Eq)]
pub struct LocalFileData {
    pub name: String,
    pub hash: u128,
    pub metadata: LocalFileMetadata,
}

/// What a [`LocalFileData`] stands for in contracts.
pub ghost struct RecordView {
    pub name: Seq<char>,
    pub hash: u128,
    pub metadata: MetadataView,
}

impl DeepView for LocalFileData {
    type V = RecordView;

    open spec fn deep_view(&self) -> RecordView {
        RecordView { name: self.name@, hash: self.hash, metadata: self.metadata@ }
    }
}

impl View for LocalFileData {
    type V = RecordView;

    open spec fn view(&self) -> RecordView {
        self.deep_view()
    }
}

impl Clone for LocalFileData {
    fn clone(&self) -> (res: Self)
        ensures
            res@ == self@,
    {
        LocalFileData { name: self.name.clone(), hash: self.hash, metadata: self.metadata.clone() }
    }
}

/// An entry of a hash tree: the path it is keyed by and the record.
pub type TreeItem = (FilePath, LocalFileData);

/// What a [`TreeItem`] stands for in contracts.
pub type ItemView = (PathView, RecordView);

// ---------------------------------------------------------------------------
// Divergences
// ---------------------------------------------------------------------------

/// How a path diverges between a left and a right tree.
#[derive(Clone, Copy, Debug, PartialEq, Eq, Structural, PartialOrd, Ord)]
pub enum DiffTypes {
    /// Only the right tree has the path.
    RightCreate,
    /// Only the left tree has the path.
    LeftCreate,
    /// Both have it with different content, and the right one was modified later.
    RightNewer,
    /// Both have it with different content, and the left one was modified later.
    LeftNewer,
}

/// The records of a diverging path: the left one, the right one, or both with
/// the left one first.
#[derive(Debug, PartialEq, Eq)]
pub enum FileDiffData {
    Left(LocalFileData),
    Right(LocalFileData),
    Both(LocalFileData, LocalFileData),
}

/// What a [`FileDiffData`] stands for in contracts.
pub ghost enum DiffDataView {
    Left(RecordView),
    Right(RecordView),
    Both(RecordView, RecordView),
}

impl DeepView for FileDiffData {
    type V = DiffDataView;

    open spec fn deep_view(&self) -> DiffDataView {
        match self {
            FileDiffData::Left(l) => DiffDataView::Left(l@),
            FileDiffData::Right(r) => DiffDataView::Right(r@),
            FileDiffData::Both(l, r) => DiffDataView::Both(l@, r@),
        }
    }
}

impl View for FileDiffData {
    type V = DiffDataView;

    open spec fn view(&self) -> DiffDataView {
        self.deep_view()
    }
}

impl Clone for FileDiffData {
    fn clone(&self) -> (res: Self)
        ensures
            res@ == self@,
    {
        match self {
            FileDiffData::Left(l) => FileDiffData::Left(l.clone()),
            FileDiffData::Right(r) => FileDiffData::Right(r.clone()),
            FileDiffData::Both(l, r) => FileDiffData::Both(l.clone(), r.clone()),
        }
    }
}

/// One path's divergence between two trees.
#[derive(Debug, PartialEq, Eq)]
pub struct FileDiff {
    path: FilePath,
    diff_metadata: FileDiffData,
    diff_type: DiffTypes,
}

/// What a [`FileDiff`] stands for in contracts.
pub ghost struct DiffView {
    pub path: PathView,
    pub diff_metadata: DiffDataView,
    pub diff_type: DiffTypes,
}

impl DiffView {
    /// Only the right tree has `path`.
    pub open spec fn right_create(path: PathView, right: RecordView) -> DiffView {
        DiffView {
            path,
            diff_metadata: DiffDataView::Right(right),
            diff_type: DiffTypes::RightCreate,
        }
    }

    /// Both trees have `path`, and the right record is the newer one.
    pub open spec fn right_newer(path: PathView, left: RecordView, right: RecordView) -> DiffView {
        DiffView {
            path,
            diff_metadata: DiffDataView::Both(left, right),
            diff_type: DiffTypes::RightNewer,
        }
    }

    /// Only the left tree has `path`.
    pub open spec fn left_create(path: PathView, left: RecordView) -> DiffView {
        DiffView {
            path,
            diff_metadata: DiffDataView::Left(left),
            diff_type: DiffTypes::LeftCreate,
        }
    }

    /// Both trees have `path`, and the left record is the newer one.
    pub open spec fn left_newer(path: PathView, left: RecordView, right: RecordView) -> DiffView {
        DiffView {
            path,
            diff_metadata: DiffDataView::Both(left, right),
            diff_type: DiffTypes::LeftNewer,
        }
    }

    /// The payload is of the shape that the kind calls for.
    pub open spec fn well_formed(self) -> bool {
        match self.diff_type {
            DiffTypes::RightCreate => self.diff_metadata is Right,
            DiffTypes::LeftCreate => self.diff_metadata is Left,
            DiffTypes::RightNewer => self.diff_metadata is Both,
            DiffTypes::LeftNewer => self.diff_metadata is Both,
        }
    }
}

impl DeepView for FileDiff {
    type V = DiffView;

    closed spec fn deep_view(&self) -> DiffView {
        DiffView {
            path: self.path@,
            diff_metadata: self.diff_metadata@,
            diff_type: self.diff_type,
        }
    }
}

impl View for FileDiff {
    type V = DiffView;

    open spec fn view(&self) -> DiffView {
        self.deep_view()
    }
}

impl Clone for FileDiff {
    fn clone(&self) -> (res: Self)
        ensures
            res@ == self@,
    {
        FileDiff {
            path: self.path.clone(),
            diff_metadata: self.diff_metadata.clone(),
            diff_type: self.diff_type,
        }
    }
}

impl FileDiff {
    /// The divergence of a path that only the right tree has.
    pub fn right_create(path: FilePath, right: LocalFileData) -> (d: Self)
        ensures
            d@ == DiffView::right_create(path@, right@),
    {
        Self { path, diff_metadata: FileDiffData::Right(right), diff_type: DiffTypes::RightCreate }
    }

    /// The divergence of a path that both trees have, with the newer
    /// content on the right.
    pub fn right_newer(path: FilePath, left: LocalFileData, right: LocalFileData) -> (d: Self)
        ensures
            d@ == DiffView::right_newer(path@, left@, right@),
    {
        Self {
            path,
            diff_metadata: FileDiffData::Both(left, right),
            diff_type: DiffTypes::RightNewer,
        }
    }

    /// The divergence of a path that only the left tree has.
    pub fn left_create(path: FilePath, left: LocalFileData) -> (d: Self)
        ensures
            d@ == DiffView::left_create(path@, left@),
    {
        Self { path, diff_metadata: FileDiffData::Left(left), diff_type: DiffTypes::LeftCreate }
    }

    /// The divergence of a path that both trees have, with the newer
    /// content on the left.
    pub fn left_newer(path: FilePath, left: LocalFileData, right: LocalFileData) -> (d: Self)
        ensures
            d@ == DiffView::left_newer(path@, left@, right@),
    {
        Self {
            path,
            diff_metadata: FileDiffData::Both(left, right),
            diff_type: DiffTypes::LeftNewer,
        }
    }

    /// The path that diverges.
    pub fn path(&self) -> (p: &FilePath)
        ensures
            p@ == self@.path,
    {
        &self.path
    }

    /// The records of the path on the sides that have it.
    pub fn diff_metadata(&self) -> (data: &FileDiffData)
        ensures
            data@ == self@.diff_metadata,
    {
        &self.diff_metadata
    }

    /// How the path diverges.
    pub fn diff_type(&self) -> (kind: DiffTypes)
        ensures
            kind == self@.diff_type,
    {
        self.diff_type
    }
}

} // verus!
