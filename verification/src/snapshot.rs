//! Snapshots: the entries of one hash tree in the order of their paths, each
//! path once, and the map from path to record that such entries are.

use vstd::prelude::*;
use crate::path::PathView;
use crate::path::lemma_path_lt_irreflexive;
use crate::path::path_lt;
use crate::types::ItemView;
use crate::types::RecordView;

verus! {

/// The entries stand in strictly ascending path order, so none of their paths
/// occurs twice.
pub open spec fn is_snapshot(s: Seq<ItemView>) -> bool {
    forall|i: int, j: int| 0 <= i < j < s.len() ==> path_lt(#[trigger] s[i].0, #[trigger] s[j].0)
}

/// The record that the entries hold for each path. Where a path occurs more
/// than once, its first entry counts.
pub open spec fn snapshot_map(s: Seq<ItemView>) -> Map<PathView, RecordView>
    decreases s.len(),
{
    if s.len() == 0 {
        Map::empty()
    } else {
        snapshot_map(s.drop_first()).insert(s[0].0, s[0].1)
    }
}

/// Every path of the map belongs to one of the entries.
pub proof fn lemma_snapshot_map_has_entry(s: Seq<ItemView>, p: PathView)
    requires
        snapshot_map(s).dom().contains(p),
    ensures
        exists|i: int| 0 <= i < s.len() && #[trigger] s[i].0 == p,
    decreases s.len(),
{
    if s.len() > 0 {
        if s[0].0 != p {
            lemma_snapshot_map_has_entry(s.drop_first(), p);
            let i = choose|i: int| 0 <= i < s.drop_first().len() && #[trigger] s.drop_first()[i].0 == p;
            assert(s[i + 1].0 == p);
        }
    }
}

/// A snapshot's map holds each entry's record under the entry's path.
pub proof fn lemma_snapshot_map_entry(s: Seq<ItemView>, i: int)
    requires
        is_snapshot(s),
        0 <= i < s.len(),
    ensures
        snapshot_map(s).dom().contains(s[i].0),
        snapshot_map(s)[s[i].0] == s[i].1,
    decreases s.len(),
{
    if i > 0 {
        lemma_snapshot_tail(s);
        lemma_snapshot_map_entry(s.drop_first(), i - 1);
        assert(s.drop_first()[i - 1] == s[i]);
        assert(path_lt(s[0].0, s[i].0));
        lemma_path_lt_irreflexive(s[0].0);
    }
}

/// What follows a snapshot's first entry is a snapshot of paths that all sort
/// after the first one.
pub proof fn lemma_snapshot_tail(s: Seq<ItemView>)
    requires
        is_snapshot(s),
        s.len() > 0,
    ensures
        is_snapshot(s.drop_first()),
        forall|p: PathView| #[trigger]
            snapshot_map(s.drop_first()).dom().contains(p) ==> path_lt(s[0].0, p),
        !snapshot_map(s.drop_first()).dom().contains(s[0].0),
{
    let t = s.drop_first();
    assert forall|i: int, j: int| 0 <= i < j < t.len() implies path_lt(
        #[trigger] t[i].0,
        #[trigger] t[j].0,
    ) by {
        assert(t[i] == s[i + 1]);
        assert(t[j] == s[j + 1]);
    }
    assert forall|p: PathView| #[trigger] snapshot_map(t).dom().contains(p) implies path_lt(
        s[0].0,
        p,
    ) by {
        lemma_snapshot_map_has_entry(t, p);
        let i = choose|i: int| 0 <= i < t.len() && #[trigger] t[i].0 == p;
        assert(t[i] == s[i + 1]);
    }
    lemma_path_lt_irreflexive(s[0].0);
}

} // verus!
