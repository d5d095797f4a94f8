//! What the diff engine's result is for snapshots, path by path.

use vstd::prelude::*;
use crate::compare::Comparison;
use crate::compare::compare_records;
use crate::compare::divergences;
use crate::compare::emit;
use crate::path::PathView;
use crate::path::lemma_path_lt_asymmetric;
use crate::path::lemma_path_lt_irreflexive;
use crate::path::lemma_path_lt_total;
use crate::path::lemma_path_lt_transitive;
use crate::path::path_lt;
use crate::snapshot::is_snapshot;
use crate::snapshot::lemma_snapshot_tail;
use crate::snapshot::snapshot_map;
use crate::time::lemma_timestamp_total;
use crate::types::DiffDataView;
use crate::types::DiffTypes;
use crate::types::DiffView;
use crate::types::ItemView;
use crate::types::RecordView;

verus! {

/// How path `p` diverges between a left and a right tree, given as maps from
/// path to record: held by one side only, held by both and compared, or of no
/// interest.
pub open spec fn divergence_at(
    left: Map<PathView, RecordView>,
    right: Map<PathView, RecordView>,
    p: PathView,
) -> Comparison {
    if left.dom().contains(p) && right.dom().contains(p) {
        compare_records(p, left[p], p, right[p])
    } else if left.dom().contains(p) {
        Comparison::Diverged(DiffView::left_create(p, left[p]))
    } else if right.dom().contains(p) {
        Comparison::Diverged(DiffView::right_create(p, right[p]))
    } else {
        Comparison::Unchanged
    }
}

/// The divergences stand in strictly ascending path order.
pub open spec fn ascending(d: Seq<DiffView>) -> bool {
    forall|a: int, b: int| 0 <= a < b < d.len() ==> path_lt(#[trigger] d[a].path, #[trigger] d[b].path)
}

/// Every divergence in `d` is the one that its path has between `left` and
/// `right`.
pub open spec fn sound(
    d: Seq<DiffView>,
    left: Map<PathView, RecordView>,
    right: Map<PathView, RecordView>,
) -> bool {
    forall|k: int|
        0 <= k < d.len() ==> divergence_at(left, right, #[trigger] d[k].path) == Comparison::Diverged(
            d[k],
        )
}

/// Every path that diverges between `left` and `right` has its divergence in
/// `d`.
pub open spec fn complete(
    d: Seq<DiffView>,
    left: Map<PathView, RecordView>,
    right: Map<PathView, RecordView>,
) -> bool {
    forall|p: PathView| #[trigger]
        divergence_at(left, right, p) is Diverged ==> exists|k: int|
            0 <= k < d.len() && #[trigger] d[k].path == p
}

/// Every path of `d` sorts after `bound`.
spec fn above(d: Seq<DiffView>, bound: PathView) -> bool {
    forall|k: int| 0 <= k < d.len() ==> path_lt(bound, #[trigger] d[k].path)
}

proof fn lemma_emit_keeps(
    first: DiffView,
    rest: Seq<DiffView>,
    left: Map<PathView, RecordView>,
    right: Map<PathView, RecordView>,
    left_rest: Map<PathView, RecordView>,
    right_rest: Map<PathView, RecordView>,
)
    requires
        ascending(rest),
        sound(rest, left_rest, right_rest),
        complete(rest, left_rest, right_rest),
        divergence_at(left, right, first.path) == Comparison::Diverged(first),
        !(divergence_at(left_rest, right_rest, first.path) is Diverged),
        forall|p: PathView|
            p != first.path ==> #[trigger] divergence_at(left, right, p) == divergence_at(
                left_rest,
                right_rest,
                p,
            ),
        forall|p: PathView| #[trigger]
            divergence_at(left_rest, right_rest, p) is Diverged ==> path_lt(first.path, p),
    ensures
        ascending(seq![first] + rest),
        sound(seq![first] + rest, left, right),
        complete(seq![first] + rest, left, right),
{
    let d = seq![first] + rest;
    assert forall|k: int| 0 <= k < rest.len() implies path_lt(
        first.path,
        #[trigger] rest[k].path,
    ) by {
        assert(divergence_at(left_rest, right_rest, rest[k].path) is Diverged);
    }
    assert forall|a: int, b: int| 0 <= a < b < d.len() implies path_lt(
        #[trigger] d[a].path,
        #[trigger] d[b].path,
    ) by {
        assert(d[b] == rest[b - 1]);
        if a > 0 {
            assert(d[a] == rest[a - 1]);
        }
    }
    assert forall|k: int| 0 <= k < d.len() implies divergence_at(left, right, #[trigger] d[k].path)
        == Comparison::Diverged(d[k]) by {
        if k > 0 {
            assert(d[k] == rest[k - 1]);
            assert(path_lt(first.path, rest[k - 1].path));
            lemma_path_lt_irreflexive(first.path);
        }
    }
    assert forall|p: PathView| #[trigger] divergence_at(left, right, p) is Diverged implies exists|
        k: int,
    |
        0 <= k < d.len() && #[trigger] d[k].path == p by {
        if p == first.path {
            assert(d[0].path == p);
        } else {
            assert(divergence_at(left_rest, right_rest, p) is Diverged);
            let k = choose|k: int| 0 <= k < rest.len() && #[trigger] rest[k].path == p;
            assert(d[k + 1] == rest[k]);
            assert(d[k + 1].path == p);
        }
    }
}

proof fn lemma_skip_keeps(
    skipped: PathView,
    rest: Seq<DiffView>,
    left: Map<PathView, RecordView>,
    right: Map<PathView, RecordView>,
    left_rest: Map<PathView, RecordView>,
    right_rest: Map<PathView, RecordView>,
)
    requires
        sound(rest, left_rest, right_rest),
        complete(rest, left_rest, right_rest),
        !(divergence_at(left, right, skipped) is Diverged),
        !(divergence_at(left_rest, right_rest, skipped) is Diverged),
        forall|p: PathView|
            p != skipped ==> #[trigger] divergence_at(left, right, p) == divergence_at(
                left_rest,
                right_rest,
                p,
            ),
    ensures
        sound(rest, left, right),
        complete(rest, left, right),
{
    assert forall|k: int| 0 <= k < rest.len() implies divergence_at(
        left,
        right,
        #[trigger] rest[k].path,
    ) == Comparison::Diverged(rest[k]) by {
        assert(divergence_at(left_rest, right_rest, rest[k].path) is Diverged);
    }
    assert forall|p: PathView| #[trigger] divergence_at(left, right, p) is Diverged implies exists|
        k: int,
    |
        0 <= k < rest.len() && #[trigger] rest[k].path == p by {
        assert(divergence_at(left_rest, right_rest, p) is Diverged);
    }
}

/// For snapshots the merge-join finds, path by path, what the two maps say:
/// it fails exactly where some path is in conflict, and otherwise its result
/// is ascending, sound and complete.
pub proof fn lemma_divergences_of_snapshots(left: Seq<ItemView>, right: Seq<ItemView>)
    requires
        is_snapshot(left),
        is_snapshot(right),
    ensures
        divergences(left, right) is None ==> exists|p: PathView| #[trigger]
            divergence_at(snapshot_map(left), snapshot_map(right), p) is Conflict,
        forall|p: PathView| #[trigger]
            divergence_at(snapshot_map(left), snapshot_map(right), p) is Conflict ==> divergences(
                left,
                right,
            ) is None,
        divergences(left, right) matches Some(d) ==> {
            &&& ascending(d)
            &&& sound(d, snapshot_map(left), snapshot_map(right))
            &&& complete(d, snapshot_map(left), snapshot_map(right))
        },
    decreases left.len() + right.len(),
{
    let ml = snapshot_map(left);
    let mr = snapshot_map(right);
    if left.len() == 0 && right.len() == 0 {
    } else if left.len() == 0 || (right.len() > 0 && path_lt(right[0].0, left[0].0)) {
        // Only the right side holds the smaller path.
        let rest_r = right.drop_first();
        let mr2 = snapshot_map(rest_r);
        let p0 = right[0].0;
        lemma_snapshot_tail(right);
        if left.len() > 0 {
            lemma_snapshot_tail(left);
            assert forall|p: PathView| #[trigger] ml.dom().contains(p) implies path_lt(p0, p) by {
                if p != left[0].0 {
                    lemma_path_lt_transitive(p0, left[0].0, p);
                }
            }
        }
        lemma_path_lt_irreflexive(p0);
        lemma_divergences_of_snapshots(left, rest_r);
        let first = DiffView::right_create(p0, right[0].1);
        assert(divergences(left, right) == emit(first, divergences(left, rest_r)));
        assert forall|p: PathView| p != p0 implies #[trigger] divergence_at(ml, mr, p)
            == divergence_at(ml, mr2, p) by {}
        if let Some(rest) = divergences(left, rest_r) {
            lemma_emit_keeps(first, rest, ml, mr, ml, mr2);
        } else {
            let p = choose|p: PathView| #[trigger] divergence_at(ml, mr2, p) is Conflict;
            assert(divergence_at(ml, mr, p) is Conflict);
        }
    } else if right.len() == 0 || path_lt(left[0].0, right[0].0) {
        // Only the left side holds the smaller path.
        let rest_l = left.drop_first();
        let ml2 = snapshot_map(rest_l);
        let p0 = left[0].0;
        lemma_snapshot_tail(left);
        if right.len() > 0 {
            lemma_snapshot_tail(right);
            lemma_path_lt_asymmetric(left[0].0, right[0].0);
            assert forall|p: PathView| #[trigger] mr.dom().contains(p) implies path_lt(p0, p) by {
                if p != right[0].0 {
                    lemma_path_lt_transitive(p0, right[0].0, p);
                }
            }
        }
        lemma_path_lt_irreflexive(p0);
        lemma_divergences_of_snapshots(rest_l, right);
        let first = DiffView::left_create(p0, left[0].1);
        assert(divergences(left, right) == emit(first, divergences(rest_l, right)));
        assert forall|p: PathView| p != p0 implies #[trigger] divergence_at(ml, mr, p)
            == divergence_at(ml2, mr, p) by {}
        if let Some(rest) = divergences(rest_l, right) {
            lemma_emit_keeps(first, rest, ml, mr, ml2, mr);
        } else {
            let p = choose|p: PathView| #[trigger] divergence_at(ml2, mr, p) is Conflict;
            assert(divergence_at(ml, mr, p) is Conflict);
        }
    } else {
        // Both sides hold the path.
        let rest_l = left.drop_first();
        let rest_r = right.drop_first();
        let ml2 = snapshot_map(rest_l);
        let mr2 = snapshot_map(rest_r);
        let p0 = left[0].0;
        lemma_path_lt_total(left[0].0, right[0].0);
        lemma_snapshot_tail(left);
        lemma_snapshot_tail(right);
        lemma_path_lt_irreflexive(p0);
        lemma_divergences_of_snapshots(rest_l, rest_r);
        assert forall|p: PathView| p != p0 implies #[trigger] divergence_at(ml, mr, p)
            == divergence_at(ml2, mr2, p) by {}
        let here = compare_records(p0, left[0].1, p0, right[0].1);
        assert(divergence_at(ml, mr, p0) == here);
        match here {
            Comparison::Unchanged => {
                if let Some(rest) = divergences(rest_l, rest_r) {
                    lemma_skip_keeps(p0, rest, ml, mr, ml2, mr2);
                } else {
                    let p = choose|p: PathView| #[trigger] divergence_at(ml2, mr2, p) is Conflict;
                    assert(divergence_at(ml, mr, p) is Conflict);
                }
            },
            Comparison::Diverged(first) => {
                if let Some(rest) = divergences(rest_l, rest_r) {
                    lemma_emit_keeps(first, rest, ml, mr, ml2, mr2);
                } else {
                    let p = choose|p: PathView| #[trigger] divergence_at(ml2, mr2, p) is Conflict;
                    assert(divergence_at(ml, mr, p) is Conflict);
                }
            },
            Comparison::Conflict => {},
        }
    }
}

/// Totality: a path that one of two snapshots holds, and that the two do not
/// hold with the same content, occurs in the result exactly once.
pub proof fn lemma_diverging_path_occurs_once(
    left: Seq<ItemView>,
    right: Seq<ItemView>,
    p: PathView,
)
    requires
        is_snapshot(left),
        is_snapshot(right),
        divergences(left, right) is Some,
        snapshot_map(left).dom().contains(p) || snapshot_map(right).dom().contains(p),
        !(snapshot_map(left).dom().contains(p) && snapshot_map(right).dom().contains(p)
            && snapshot_map(left)[p].hash == snapshot_map(right)[p].hash),
    ensures
        exists|k: int|
            {
                &&& 0 <= k < divergences(left, right)->0.len()
                &&& #[trigger] divergences(left, right)->0[k].path == p
                &&& divergence_at(snapshot_map(left), snapshot_map(right), p)
                    == Comparison::Diverged(divergences(left, right)->0[k])
                &&& forall|j: int|
                    0 <= j < divergences(left, right)->0.len() && #[trigger] divergences(
                        left,
                        right,
                    )->0[j].path == p ==> j == k
            },
{
    let d = divergences(left, right)->0;
    let ml = snapshot_map(left);
    let mr = snapshot_map(right);
    lemma_divergences_of_snapshots(left, right);
    assert(!(divergence_at(ml, mr, p) is Conflict));
    assert(divergence_at(ml, mr, p) is Diverged);
    let k = choose|k: int| 0 <= k < d.len() && #[trigger] d[k].path == p;
    assert forall|j: int| 0 <= j < d.len() && #[trigger] d[j].path == p implies j == k by {
        lemma_path_lt_irreflexive(p);
        if j < k {
            assert(path_lt(d[j].path, d[k].path));
        } else if k < j {
            assert(path_lt(d[k].path, d[j].path));
        }
    }
}

/// A path that neither of two snapshots holds, or that both hold with the same
/// content, does not occur in the result.
pub proof fn lemma_unchanged_path_is_absent(left: Seq<ItemView>, right: Seq<ItemView>, p: PathView)
    requires
        is_snapshot(left),
        is_snapshot(right),
        divergences(left, right) is Some,
        divergence_at(snapshot_map(left), snapshot_map(right), p) is Unchanged,
    ensures
        forall|k: int|
            0 <= k < divergences(left, right)->0.len() ==> #[trigger] divergences(
                left,
                right,
            )->0[k].path != p,
{
    lemma_divergences_of_snapshots(left, right);
}

/// Conflict detection: the diff of two snapshots fails if and only if some
/// path is held by both with different content and the same modification
/// time.
pub proof fn lemma_fails_on_conflict_only(left: Seq<ItemView>, right: Seq<ItemView>)
    requires
        is_snapshot(left),
        is_snapshot(right),
    ensures
        divergences(left, right) is None <==> exists|p: PathView|
            {
                &&& #[trigger] snapshot_map(left).dom().contains(p)
                &&& snapshot_map(right).dom().contains(p)
                &&& snapshot_map(left)[p].hash != snapshot_map(right)[p].hash
                &&& snapshot_map(left)[p].metadata.modified == snapshot_map(
                    right,
                )[p].metadata.modified
            },
{
    let ml = snapshot_map(left);
    let mr = snapshot_map(right);
    lemma_divergences_of_snapshots(left, right);
    if divergences(left, right) is None {
        let p = choose|p: PathView| #[trigger] divergence_at(ml, mr, p) is Conflict;
        lemma_timestamp_total(ml[p].metadata.modified, mr[p].metadata.modified);
        assert(ml.dom().contains(p));
    }
    if exists|p: PathView|
        {
            &&& #[trigger] ml.dom().contains(p)
            &&& mr.dom().contains(p)
            &&& ml[p].hash != mr[p].hash
            &&& ml[p].metadata.modified == mr[p].metadata.modified
        } {
        let p = choose|p: PathView|
            {
                &&& #[trigger] ml.dom().contains(p)
                &&& mr.dom().contains(p)
                &&& ml[p].hash != mr[p].hash
                &&& ml[p].metadata.modified == mr[p].metadata.modified
            };
        lemma_timestamp_total(ml[p].metadata.modified, mr[p].metadata.modified);
        assert(divergence_at(ml, mr, p) is Conflict);
    }
}

/// The kind of a divergence as the other side sees it.
pub open spec fn mirrored_kind(kind: DiffTypes) -> DiffTypes {
    match kind {
        DiffTypes::RightCreate => DiffTypes::LeftCreate,
        DiffTypes::LeftCreate => DiffTypes::RightCreate,
        DiffTypes::RightNewer => DiffTypes::LeftNewer,
        DiffTypes::LeftNewer => DiffTypes::RightNewer,
    }
}

/// A divergence as the other side sees it: left and right change places.
pub open spec fn mirrored(d: DiffView) -> DiffView {
    DiffView {
        path: d.path,
        diff_metadata: match d.diff_metadata {
            DiffDataView::Left(x) => DiffDataView::Right(x),
            DiffDataView::Right(x) => DiffDataView::Left(x),
            DiffDataView::Both(x, y) => DiffDataView::Both(y, x),
        },
        diff_type: mirrored_kind(d.diff_type),
    }
}

/// A result of the diff as the other side sees it.
pub open spec fn mirrored_all(d: Option<Seq<DiffView>>) -> Option<Seq<DiffView>> {
    match d {
        Some(diffs) => Some(diffs.map_values(|x: DiffView| mirrored(x))),
        None => None,
    }
}

proof fn lemma_mirrored_emit(first: DiffView, rest: Option<Seq<DiffView>>)
    ensures
        mirrored_all(emit(first, rest)) == emit(mirrored(first), mirrored_all(rest)),
{
    if let Some(diffs) = rest {
        assert((seq![first] + diffs).map_values(|x: DiffView| mirrored(x)) =~= seq![
            mirrored(first),
        ] + diffs.map_values(|x: DiffView| mirrored(x)));
    }
}

/// Symmetry: with the sides exchanged the diff finds the same paths in the
/// same order, each with its kind and its records mirrored, and it fails on
/// the same inputs.
pub proof fn lemma_divergences_mirrored(left: Seq<ItemView>, right: Seq<ItemView>)
    ensures
        divergences(right, left) == mirrored_all(divergences(left, right)),
    decreases left.len() + right.len(),
{
    if left.len() == 0 && right.len() == 0 {
        assert(Seq::<DiffView>::empty().map_values(|x: DiffView| mirrored(x)) =~= Seq::<
            DiffView,
        >::empty());
    } else if left.len() == 0 {
        lemma_divergences_mirrored(left, right.drop_first());
        lemma_mirrored_emit(
            DiffView::right_create(right[0].0, right[0].1),
            divergences(left, right.drop_first()),
        );
    } else if right.len() == 0 {
        lemma_divergences_mirrored(left.drop_first(), right);
        lemma_mirrored_emit(
            DiffView::left_create(left[0].0, left[0].1),
            divergences(left.drop_first(), right),
        );
    } else if path_lt(right[0].0, left[0].0) {
        lemma_path_lt_asymmetric(right[0].0, left[0].0);
        lemma_divergences_mirrored(left, right.drop_first());
        lemma_mirrored_emit(
            DiffView::right_create(right[0].0, right[0].1),
            divergences(left, right.drop_first()),
        );
    } else if path_lt(left[0].0, right[0].0) {
        lemma_divergences_mirrored(left.drop_first(), right);
        lemma_mirrored_emit(
            DiffView::left_create(left[0].0, left[0].1),
            divergences(left.drop_first(), right),
        );
    } else {
        lemma_path_lt_total(left[0].0, right[0].0);
        lemma_timestamp_total(left[0].1.metadata.modified, right[0].1.metadata.modified);
        lemma_divergences_mirrored(left.drop_first(), right.drop_first());
        match compare_records(left[0].0, left[0].1, right[0].0, right[0].1) {
            Comparison::Diverged(d) => {
                lemma_mirrored_emit(d, divergences(left.drop_first(), right.drop_first()));
            },
            _ => {},
        }
    }
}

} // verus!
