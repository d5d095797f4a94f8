//! File paths as the engine keys its trees by them: a sequence of segments,
//! ordered lexicographically segment by segment.

use vstd::prelude::*;
use vstd::utf8::encode_utf8;
use vstd::utf8::encode_utf8_decode_utf8;

verus! {

/// How one key stands to another in a strict total order.
#[derive(Clone, Copy, Debug, PartialEq, Eq, Structural)]
pub enum Precedence {
    Before,
    Same,
    After,
}

/// One segment of a path. The variants are listed in ascending order: the root
/// sorts before `.`, `.` before `..`, and `..` before every name; names are
/// ordered by their UTF-8 bytes.
#[derive(Debug, PartialEq, Eq, Hash)]
pub enum PathSegment {
    Root,
    Current,
    Parent,
    Name(String),
}

/// What a [`PathSegment`] stands for in contracts.
pub ghost enum SegmentView {
    Root,
    Current,
    Parent,
    Name(Seq<char>),
}

/// What a [`FilePath`] stands for in contracts.
pub type PathView = Seq<SegmentView>;

impl DeepView for PathSegment {
    type V = SegmentView;

    open spec fn deep_view(&self) -> SegmentView {
        match self {
            PathSegment::Root => SegmentView::Root,
            PathSegment::Current => SegmentView::Current,
            PathSegment::Parent => SegmentView::Parent,
            PathSegment::Name(s) => SegmentView::Name(s@),
        }
    }
}

impl View for PathSegment {
    type V = SegmentView;

    open spec fn view(&self) -> SegmentView {
        self.deep_view()
    }
}

impl Clone for PathSegment {
    fn clone(&self) -> (res: Self)
        ensures
            res@ == self@,
    {
        match self {
            PathSegment::Root => PathSegment::Root,
            PathSegment::Current => PathSegment::Current,
            PathSegment::Parent => PathSegment::Parent,
            PathSegment::Name(s) => PathSegment::Name(s.clone()),
        }
    }
}

/// A path: its segments from the outermost to the innermost.
#[derive(Debug, PartialEq, Eq, Hash)]
pub struct FilePath {
    pub segments: Vec<PathSegment>,
}

impl DeepView for FilePath {
    type V = Seq<SegmentView>;

    open spec fn deep_view(&self) -> Seq<SegmentView> {
        self.segments.deep_view()
    }
}

impl View for FilePath {
    type V = Seq<SegmentView>;

    open spec fn view(&self) -> Seq<SegmentView> {
        self.deep_view()
    }
}

// ---------------------------------------------------------------------------
// The order, on byte strings, segments and paths
// ---------------------------------------------------------------------------

/// Lexicographic order on byte strings: at the first position where the two
/// differ the smaller byte decides, and a proper prefix sorts first.
pub open spec fn bytes_lt(a: Seq<u8>, b: Seq<u8>) -> bool
    decreases a.len(),
{
    if b.len() == 0 {
        false
    } else if a.len() == 0 {
        true
    } else if a[0] != b[0] {
        a[0] < b[0]
    } else {
        bytes_lt(a.drop_first(), b.drop_first())
    }
}

/// The place of a segment's kind among the kinds.
pub open spec fn segment_rank(s: SegmentView) -> int {
    match s {
        SegmentView::Root => 0,
        SegmentView::Current => 1,
        SegmentView::Parent => 2,
        SegmentView::Name(_) => 3,
    }
}

/// The bytes a segment is compared by within its kind.
pub open spec fn segment_bytes(s: SegmentView) -> Seq<u8> {
    match s {
        SegmentView::Name(name) => encode_utf8(name),
        _ => Seq::empty(),
    }
}

/// Strict order on segments: by kind, and names by their UTF-8 bytes.
pub open spec fn segment_lt(a: SegmentView, b: SegmentView) -> bool {
    segment_rank(a) < segment_rank(b) || (segment_rank(a) == segment_rank(b) && bytes_lt(
        segment_bytes(a),
        segment_bytes(b),
    ))
}

/// Strict order on paths: lexicographic over their segments.
pub open spec fn path_lt(a: PathView, b: PathView) -> bool
    decreases a.len(),
{
    if b.len() == 0 {
        false
    } else if a.len() == 0 {
        true
    } else if a[0] != b[0] {
        segment_lt(a[0], b[0])
    } else {
        path_lt(a.drop_first(), b.drop_first())
    }
}

/// How byte string `a` stands to byte string `b`.
pub open spec fn bytes_precedence(a: Seq<u8>, b: Seq<u8>) -> Precedence {
    if bytes_lt(a, b) {
        Precedence::Before
    } else if bytes_lt(b, a) {
        Precedence::After
    } else {
        Precedence::Same
    }
}

/// How segment `a` stands to segment `b`.
pub open spec fn segment_precedence(a: SegmentView, b: SegmentView) -> Precedence {
    if segment_lt(a, b) {
        Precedence::Before
    } else if segment_lt(b, a) {
        Precedence::After
    } else {
        Precedence::Same
    }
}

/// How path `a` stands to path `b`.
pub open spec fn path_precedence(a: PathView, b: PathView) -> Precedence {
    if path_lt(a, b) {
        Precedence::Before
    } else if path_lt(b, a) {
        Precedence::After
    } else {
        Precedence::Same
    }
}

// ---------------------------------------------------------------------------
// The order is a strict total order
// ---------------------------------------------------------------------------

/// No byte string sorts before itself.
pub proof fn lemma_bytes_lt_irreflexive(a: Seq<u8>)
    ensures
        !bytes_lt(a, a),
    decreases a.len(),
{
    if a.len() > 0 {
        lemma_bytes_lt_irreflexive(a.drop_first());
    }
}

/// The order on byte strings is transitive.
pub proof fn lemma_bytes_lt_transitive(a: Seq<u8>, b: Seq<u8>, c: Seq<u8>)
    requires
        bytes_lt(a, b),
        bytes_lt(b, c),
    ensures
        bytes_lt(a, c),
    decreases a.len(),
{
    if a.len() > 0 && a[0] == b[0] && b[0] == c[0] {
        lemma_bytes_lt_transitive(a.drop_first(), b.drop_first(), c.drop_first());
    }
}

/// Of two different byte strings one sorts before the other.
pub proof fn lemma_bytes_lt_total(a: Seq<u8>, b: Seq<u8>)
    ensures
        bytes_lt(a, b) || bytes_lt(b, a) || a == b,
    decreases a.len(),
{
    if a.len() > 0 && b.len() > 0 && a[0] == b[0] {
        lemma_bytes_lt_total(a.drop_first(), b.drop_first());
        if a.drop_first() == b.drop_first() {
            assert(a =~= seq![a[0]] + a.drop_first());
            assert(b =~= seq![b[0]] + b.drop_first());
        }
    } else if a.len() == 0 && b.len() == 0 {
        assert(a =~= b);
    }
}

/// No segment sorts before itself.
pub proof fn lemma_segment_lt_irreflexive(a: SegmentView)
    ensures
        !segment_lt(a, a),
{
    lemma_bytes_lt_irreflexive(segment_bytes(a));
}

/// The order on segments is transitive.
pub proof fn lemma_segment_lt_transitive(a: SegmentView, b: SegmentView, c: SegmentView)
    requires
        segment_lt(a, b),
        segment_lt(b, c),
    ensures
        segment_lt(a, c),
{
    if segment_rank(a) == segment_rank(b) && segment_rank(b) == segment_rank(c) {
        lemma_bytes_lt_transitive(segment_bytes(a), segment_bytes(b), segment_bytes(c));
    }
}

/// Of two different segments one sorts before the other: two names with
/// the same UTF-8 bytes are the same name.
pub proof fn lemma_segment_lt_total(a: SegmentView, b: SegmentView)
    ensures
        segment_lt(a, b) || segment_lt(b, a) || a == b,
{
    if segment_rank(a) == segment_rank(b) {
        lemma_bytes_lt_total(segment_bytes(a), segment_bytes(b));
        if let SegmentView::Name(x) = a {
            if let SegmentView::Name(y) = b {
                if encode_utf8(x) == encode_utf8(y) {
                    encode_utf8_decode_utf8(x);
                    encode_utf8_decode_utf8(y);
                }
            }
        }
    }
}

/// No path sorts before itself.
pub proof fn lemma_path_lt_irreflexive(a: PathView)
    ensures
        !path_lt(a, a),
    decreases a.len(),
{
    if a.len() > 0 {
        lemma_path_lt_irreflexive(a.drop_first());
    }
}

/// The order on paths is transitive.
pub proof fn lemma_path_lt_transitive(a: PathView, b: PathView, c: PathView)
    requires
        path_lt(a, b),
        path_lt(b, c),
    ensures
        path_lt(a, c),
    decreases a.len(),
{
    if a.len() > 0 {
        if a[0] == b[0] && b[0] == c[0] {
            lemma_path_lt_transitive(a.drop_first(), b.drop_first(), c.drop_first());
        } else if a[0] != b[0] && b[0] != c[0] {
            lemma_segment_lt_transitive(a[0], b[0], c[0]);
            lemma_segment_lt_irreflexive(a[0]);
        }
    }
}

/// Of two different paths one sorts before the other.
pub proof fn lemma_path_lt_total(a: PathView, b: PathView)
    ensures
        path_lt(a, b) || path_lt(b, a) || a == b,
    decreases a.len(),
{
    if a.len() > 0 && b.len() > 0 {
        if a[0] == b[0] {
            lemma_path_lt_total(a.drop_first(), b.drop_first());
            if a.drop_first() == b.drop_first() {
                assert(a =~= seq![a[0]] + a.drop_first());
                assert(b =~= seq![b[0]] + b.drop_first());
            }
        } else {
            lemma_segment_lt_total(a[0], b[0]);
        }
    } else if a.len() == 0 && b.len() == 0 {
        assert(a =~= b);
    }
}

/// No two paths sort before each other.
pub proof fn lemma_path_lt_asymmetric(a: PathView, b: PathView)
    requires
        path_lt(a, b),
    ensures
        !path_lt(b, a),
        a != b,
{
    lemma_path_lt_irreflexive(a);
    if path_lt(b, a) {
        lemma_path_lt_transitive(a, b, a);
    }
}

/// Two byte strings that agree on their first `k` bytes compare as what
/// follows those bytes.
proof fn lemma_bytes_common_prefix(a: Seq<u8>, b: Seq<u8>, k: int)
    requires
        0 <= k <= a.len(),
        k <= b.len(),
        forall|j: int| 0 <= j < k ==> a[j] == b[j],
    ensures
        bytes_lt(a, b) == bytes_lt(a.skip(k), b.skip(k)),
        bytes_lt(b, a) == bytes_lt(b.skip(k), a.skip(k)),
    decreases k,
{
    if k == 0 {
        assert(a.skip(0) =~= a);
        assert(b.skip(0) =~= b);
    } else {
        lemma_bytes_common_prefix(a.drop_first(), b.drop_first(), k - 1);
        assert(a.drop_first().skip(k - 1) =~= a.skip(k));
        assert(b.drop_first().skip(k - 1) =~= b.skip(k));
    }
}

/// Two paths that agree on their first `k` segments compare as what follows
/// those segments.
proof fn lemma_path_common_prefix(a: PathView, b: PathView, k: int)
    requires
        0 <= k <= a.len(),
        k <= b.len(),
        forall|j: int| 0 <= j < k ==> a[j] == b[j],
    ensures
        path_lt(a, b) == path_lt(a.skip(k), b.skip(k)),
        path_lt(b, a) == path_lt(b.skip(k), a.skip(k)),
    decreases k,
{
    if k == 0 {
        assert(a.skip(0) =~= a);
        assert(b.skip(0) =~= b);
    } else {
        lemma_path_common_prefix(a.drop_first(), b.drop_first(), k - 1);
        assert(a.drop_first().skip(k - 1) =~= a.skip(k));
        assert(b.drop_first().skip(k - 1) =~= b.skip(k));
    }
}

// ---------------------------------------------------------------------------
// Comparing
// ---------------------------------------------------------------------------

fn compare_bytes(a: &[u8], b: &[u8]) -> (o: Precedence)
    ensures
        o == bytes_precedence(a@, b@),
{
    let mut i: usize = 0;
    while i < a.len() && i < b.len()
        invariant
            i <= a.len(),
            i <= b.len(),
            forall|j: int| 0 <= j < i ==> a@[j] == b@[j],
        decreases a.len() - i,
    {
        if a[i] != b[i] {
            proof {
                lemma_bytes_common_prefix(a@, b@, i as int);
            }
            if a[i] < b[i] {
                return Precedence::Before;
            } else {
                return Precedence::After;
            }
        }
        i += 1;
    }
    proof {
        lemma_bytes_common_prefix(a@, b@, i as int);
    }
    if a.len() < b.len() {
        Precedence::Before
    } else if a.len() > b.len() {
        Precedence::After
    } else {
        Precedence::Same
    }
}

impl PathSegment {
    fn rank(&self) -> (r: u8)
        ensures
            r == segment_rank(self@),
    {
        match self {
            PathSegment::Root => 0,
            PathSegment::Current => 1,
            PathSegment::Parent => 2,
            PathSegment::Name(_) => 3,
        }
    }

    /// How this segment stands to `other`.
    pub fn compare(&self, other: &PathSegment) -> (o: Precedence)
        ensures
            o == segment_precedence(self@, other@),
            o == Precedence::Same <==> self@ == other@,
    {
        proof {
            lemma_segment_lt_total(self@, other@);
            lemma_segment_lt_irreflexive(self@);
            lemma_bytes_lt_irreflexive(segment_bytes(self@));
        }
        let r1 = self.rank();
        let r2 = other.rank();
        if r1 < r2 {
            Precedence::Before
        } else if r1 > r2 {
            Precedence::After
        } else {
            match (self, other) {
                (PathSegment::Name(x), PathSegment::Name(y)) => compare_bytes(
                    x.as_str().as_bytes(),
                    y.as_str().as_bytes(),
                ),
                _ => Precedence::Same,
            }
        }
    }
}

impl FilePath {
    /// The path made of the given segments.
    pub fn new(segments: Vec<PathSegment>) -> (p: FilePath)
        ensures
            p.segments == segments,
    {
        FilePath { segments }
    }

    /// How this path stands to `other` in the order the trees are kept in.
    pub fn compare(&self, other: &FilePath) -> (o: Precedence)
        ensures
            o == path_precedence(self@, other@),
            o == Precedence::Same <==> self@ == other@,
    {
        proof {
            lemma_path_lt_total(self@, other@);
            lemma_path_lt_irreflexive(self@);
        }
        let n = self.segments.len();
        let m = other.segments.len();
        let mut i: usize = 0;
        while i < n && i < m
            invariant
                n == self.segments.len(),
                m == other.segments.len(),
                i <= n,
                i <= m,
                forall|j: int| 0 <= j < i ==> self@[j] == other@[j],
            decreases n - i,
        {
            let o = self.segments[i].compare(&other.segments[i]);
            if o != Precedence::Same {
                proof {
                    lemma_path_common_prefix(self@, other@, i as int);
                    assert(self@[i as int] != other@[i as int]);
                }
                return o;
            }
            i += 1;
        }
        proof {
            lemma_path_common_prefix(self@, other@, i as int);
        }
        if n < m {
            Precedence::Before
        } else if n > m {
            Precedence::After
        } else {
            Precedence::Same
        }
    }

    /// The final segment of a path, where that segment is a name.
    pub open spec fn spec_file_name(p: PathView) -> Option<Seq<char>> {
        if p.len() > 0 && p.last() is Name {
            Some(p.last()->Name_0)
        } else {
            None
        }
    }

    /// The name of the file that the path leads to: its final segment, unless
    /// the path is empty or ends in the root, `.` or `..`.
    pub fn file_name(&self) -> (name: Option<String>)
        ensures
            match name {
                Some(s) => Self::spec_file_name(self@) == Some(s@),
                None => Self::spec_file_name(self@) is None,
            },
    {
        let n = self.segments.len();
        if n == 0 {
            return None;
        }
        match &self.segments[n - 1] {
            PathSegment::Name(s) => Some(s.clone()),
            _ => None,
        }
    }
}

impl Clone for FilePath {
    fn clone(&self) -> (res: Self)
        ensures
            res@ == self@,
    {
        let mut segments: Vec<PathSegment> = Vec::with_capacity(self.segments.len());
        let mut i: usize = 0;
        while i < self.segments.len()
            invariant
                i <= self.segments.len(),
                segments.len() == i,
                forall|j: int| 0 <= j < i ==> segments@[j]@ == self.segments@[j]@,
            decreases self.segments.len() - i,
        {
            segments.push(self.segments[i].clone());
            i += 1;
        }
        let res = FilePath { segments };
        assert(res@ =~= self@);
        res
    }
}

} // verus!
