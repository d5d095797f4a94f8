//! The diff engine: a merge-join of two trees' entries that tells for each
//! path how it diverges between the two.

use vstd::prelude::*;
use crate::error::Error;
use crate::path::PathView;
use crate::path::Precedence;
use crate::path::lemma_path_lt_asymmetric;
use crate::path::path_lt;
use crate::sorting::decoded;
use crate::sorting::sort_tree_keys;
use crate::sorting::sorted_by_path;
use crate::types::DiffView;
use crate::types::FileDiff;
use crate::types::ItemView;
use crate::types::RecordView;
use crate::types::TreeItem;

verus! {

/// What the records that two trees hold under one path come to.
pub ghost enum Comparison {
    /// Both sides have the same content.
    Unchanged,
    /// The content differs, and the modification times tell which is newer.
    Diverged(DiffView),
    /// The content differs and the modification times do not.
    Conflict,
}

/// Compares the records of `left_path` and `right_path`, which are the same
/// path as it is held on the left and on the right.
///
/// Equal hashes are no divergence, whatever the metadata says. With different
/// hashes the later modification time wins, and equal times are a conflict.
pub open spec fn compare_records(
    left_path: PathView,
    left: RecordView,
    right_path: PathView,
    right: RecordView,
) -> Comparison {
    if left.hash == right.hash {
        Comparison::Unchanged
    } else if right.metadata.modified.before(left.metadata.modified) {
        Comparison::Diverged(DiffView::left_newer(left_path, left, right))
    } else if left.metadata.modified.before(right.metadata.modified) {
        Comparison::Diverged(DiffView::right_newer(right_path, left, right))
    } else {
        Comparison::Conflict
    }
}

/// `first` in front of `rest`, where there is a rest.
pub open spec fn emit(first: DiffView, rest: Option<Seq<DiffView>>) -> Option<Seq<DiffView>> {
    match rest {
        Some(diffs) => Some(seq![first] + diffs),
        None => None,
    }
}

/// The divergences between two sequences of entries, as a merge-join finds
/// them: it looks at the heads of both, reports the smaller path as held by
/// one side only and moves past it, or compares the records where the paths
/// are equal and moves past both. `None` where it meets a conflict.
pub open spec fn divergences(left: Seq<ItemView>, right: Seq<ItemView>) -> Option<Seq<DiffView>>
    decreases left.len() + right.len(),
{
    if left.len() == 0 && right.len() == 0 {
        Some(Seq::empty())
    } else if left.len() == 0 {
        emit(
            DiffView::right_create(right[0].0, right[0].1),
            divergences(left, right.drop_first()),
        )
    } else if right.len() == 0 {
        emit(DiffView::left_create(left[0].0, left[0].1), divergences(left.drop_first(), right))
    } else if path_lt(right[0].0, left[0].0) {
        emit(
            DiffView::right_create(right[0].0, right[0].1),
            divergences(left, right.drop_first()),
        )
    } else if path_lt(left[0].0, right[0].0) {
        emit(DiffView::left_create(left[0].0, left[0].1), divergences(left.drop_first(), right))
    } else {
        match compare_records(left[0].0, left[0].1, right[0].0, right[0].1) {
            Comparison::Unchanged => divergences(left.drop_first(), right.drop_first()),
            Comparison::Diverged(d) => emit(
                d,
                divergences(left.drop_first(), right.drop_first()),
            ),
            Comparison::Conflict => None,
        }
    }
}

/// `found` in front of `rest`, where there is a rest.
pub open spec fn found_so_far(found: Seq<DiffView>, rest: Option<Seq<DiffView>>) -> Option<
    Seq<DiffView>,
> {
    match rest {
        Some(diffs) => Some(found + diffs),
        None => None,
    }
}

proof fn lemma_found_nothing(rest: Option<Seq<DiffView>>)
    ensures
        found_so_far(Seq::empty(), rest) == rest,
{
    if let Some(diffs) = rest {
        assert(Seq::<DiffView>::empty() + diffs =~= diffs);
    }
}

proof fn lemma_found_one_more(found: Seq<DiffView>, d: DiffView, rest: Option<Seq<DiffView>>)
    ensures
        found_so_far(found, emit(d, rest)) == found_so_far(found.push(d), rest),
{
    if let Some(diffs) = rest {
        assert(found + (seq![d] + diffs) =~= found.push(d) + diffs);
    }
}

/// Finds the divergences between the entries of a left and a right tree.
///
/// Both are meant to be snapshots: sorted ascending by path, each path once.
/// The result then holds every path that diverges once, in ascending order,
/// as the laws on [`divergences`] state path by path. A conflict fails the
/// whole operation, whatever was found before it.
pub fn find_diffs(left: Vec<TreeItem>, right: Vec<TreeItem>) -> (res: Result<Vec<FileDiff>, Error>)
    ensures
        match divergences(left.deep_view(), right.deep_view()) {
            Some(diffs) => res matches Ok(found) && found.deep_view() == diffs,
            None => res matches Err(e) && e == Error::MergeConflict,
        },
{
    let capacity = if left.len() > right.len() {
        left.len()
    } else {
        right.len()
    };
    let mut file_diffs: Vec<FileDiff> = Vec::with_capacity(capacity);
    let ghost l = left.deep_view();
    let ghost r = right.deep_view();
    let mut i: usize = 0;
    let mut j: usize = 0;
    proof {
        assert(l.skip(0) =~= l);
        assert(r.skip(0) =~= r);
        lemma_found_nothing(divergences(l, r));
    }
    while i < left.len() && j < right.len()
        invariant
            l == left.deep_view(),
            r == right.deep_view(),
            i <= left.len(),
            j <= right.len(),
            divergences(l, r) == found_so_far(
                file_diffs.deep_view(),
                divergences(l.skip(i as int), r.skip(j as int)),
            ),
        decreases (left.len() - i) + (right.len() - j),
    {
        let ghost found = file_diffs.deep_view();
        let ghost rest_l = l.skip(i as int);
        let ghost rest_r = r.skip(j as int);
        proof {
            assert(rest_l.drop_first() =~= l.skip(i + 1));
            assert(rest_r.drop_first() =~= r.skip(j + 1));
            assert(rest_l[0] == l[i as int]);
            assert(rest_r[0] == r[j as int]);
        }
        let left_path = &left[i].0;
        let left_data = &left[i].1;
        let right_path = &right[j].0;
        let right_data = &right[j].1;
        match left_path.compare(right_path) {
            Precedence::After => {
                let d = FileDiff::right_create(right_path.clone(), right_data.clone());
                proof {
                    lemma_found_one_more(found, d@, divergences(rest_l, rest_r.drop_first()));
                }
                file_diffs.push(d);
                j += 1;
                proof {
                    assert(file_diffs.deep_view() =~= found.push(d@));
                }
            },
            Precedence::Before => {
                let d = FileDiff::left_create(left_path.clone(), left_data.clone());
                proof {
                    lemma_path_lt_asymmetric(left_path@, right_path@);
                    lemma_found_one_more(found, d@, divergences(rest_l.drop_first(), rest_r));
                }
                file_diffs.push(d);
                i += 1;
                proof {
                    assert(file_diffs.deep_view() =~= found.push(d@));
                }
            },
            Precedence::Same => {
                if left_data.hash != right_data.hash {
                    let d = if left_data.metadata.modified.is_after(&right_data.metadata.modified) {
                        FileDiff::left_newer(
                            left_path.clone(),
                            left_data.clone(),
                            right_data.clone(),
                        )
                    } else if left_data.metadata.modified.is_before(
                        &right_data.metadata.modified,
                    ) {
                        FileDiff::right_newer(
                            right_path.clone(),
                            left_data.clone(),
                            right_data.clone(),
                        )
                    } else {
                        return Err(Error::MergeConflict);
                    };
                    proof {
                        lemma_found_one_more(
                            found,
                            d@,
                            divergences(rest_l.drop_first(), rest_r.drop_first()),
                        );
                    }
                    file_diffs.push(d);
                    proof {
                        assert(file_diffs.deep_view() =~= found.push(d@));
                    }
                }
                i += 1;
                j += 1;
            },
        }
    }
    while i < left.len()
        invariant
            l == left.deep_view(),
            r == right.deep_view(),
            i <= left.len(),
            j <= right.len(),
            i == left.len() || j == right.len(),
            divergences(l, r) == found_so_far(
                file_diffs.deep_view(),
                divergences(l.skip(i as int), r.skip(j as int)),
            ),
        decreases left.len() - i,
    {
        let ghost found = file_diffs.deep_view();
        let ghost rest_l = l.skip(i as int);
        let ghost rest_r = r.skip(j as int);
        let d = FileDiff::left_create(left[i].0.clone(), left[i].1.clone());
        proof {
            assert(rest_l.drop_first() =~= l.skip(i + 1));
            assert(rest_l[0] == l[i as int]);
            lemma_found_one_more(found, d@, divergences(rest_l.drop_first(), rest_r));
        }
        file_diffs.push(d);
        i += 1;
        proof {
            assert(file_diffs.deep_view() =~= found.push(d@));
        }
    }
    while j < right.len()
        invariant
            l == left.deep_view(),
            r == right.deep_view(),
            i == left.len(),
            j <= right.len(),
            divergences(l, r) == found_so_far(
                file_diffs.deep_view(),
                divergences(l.skip(i as int), r.skip(j as int)),
            ),
        decreases right.len() - j,
    {
        let ghost found = file_diffs.deep_view();
        let ghost rest_l = l.skip(i as int);
        let ghost rest_r = r.skip(j as int);
        let d = FileDiff::right_create(right[j].0.clone(), right[j].1.clone());
        proof {
            assert(rest_r.drop_first() =~= r.skip(j + 1));
            assert(rest_r[0] == r[j as int]);
            lemma_found_one_more(found, d@, divergences(rest_l, rest_r.drop_first()));
        }
        file_diffs.push(d);
        j += 1;
        proof {
            assert(file_diffs.deep_view() =~= found.push(d@));
        }
    }
    proof {
        assert(file_diffs.deep_view() + Seq::<DiffView>::empty() =~= file_diffs.deep_view());
    }
    Ok(file_diffs)
}

/// Finds the divergences between a left and a right tree from their entries
/// as they were read: entries that could not be decoded are dropped, both
/// sides are sorted by path, and the sorted sides are compared.
pub fn compare_trees(left: Vec<Option<TreeItem>>, right: Vec<Option<TreeItem>>) -> (res: Result<
    Vec<FileDiff>,
    Error,
>)
    ensures
        match divergences(
            sorted_by_path(decoded(left.deep_view())),
            sorted_by_path(decoded(right.deep_view())),
        ) {
            Some(diffs) => res matches Ok(found) && found.deep_view() == diffs,
            None => res matches Err(e) && e == Error::MergeConflict,
        },
{
    find_diffs(sort_tree_keys(left), sort_tree_keys(right))
}

} // verus!
