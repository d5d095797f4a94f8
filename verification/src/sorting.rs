//! Bringing the entries read from a tree into the order of their paths.

use vstd::prelude::*;
use vstd::seq_lib::lemma_multiset_commutative;
use vstd::seq_lib::to_multiset_build;
use crate::path::PathView;
use crate::path::Precedence;
use crate::path::lemma_path_lt_irreflexive;
use crate::path::lemma_path_lt_total;
use crate::path::lemma_path_lt_transitive;
use crate::snapshot::is_snapshot;
use crate::snapshot::lemma_snapshot_map_entry;
use crate::snapshot::lemma_snapshot_map_has_entry;
use crate::snapshot::snapshot_map;
use crate::path::path_lt;
use crate::types::ItemView;
use crate::types::TreeItem;

verus! {

/// The entries that could be decoded, in the order in which they were read.
pub open spec fn decoded(entries: Seq<Option<ItemView>>) -> Seq<ItemView>
    decreases entries.len(),
{
    if entries.len() == 0 {
        Seq::empty()
    } else {
        match entries.last() {
            Some(item) => decoded(entries.drop_last()).push(item),
            None => decoded(entries.drop_last()),
        }
    }
}

/// The stable merge of two runs by path, from the largest entry down: the last
/// entry of `a` comes last where its path sorts after that of the last entry
/// of `b`, and else the last entry of `b` does. Entries with equal paths keep
/// their order, those of `a` before those of `b`.
pub open spec fn merged(a: Seq<ItemView>, b: Seq<ItemView>) -> Seq<ItemView>
    decreases a.len() + b.len(),
{
    if a.len() == 0 {
        b
    } else if b.len() == 0 {
        a
    } else if path_lt(b.last().0, a.last().0) {
        merged(a.drop_last(), b).push(a.last())
    } else {
        merged(a, b.drop_last()).push(b.last())
    }
}

/// The entries sorted by path with a stable merge sort: both halves sorted,
/// then merged.
pub open spec fn sorted_by_path(s: Seq<ItemView>) -> Seq<ItemView>
    decreases s.len(),
{
    if s.len() <= 1 {
        s
    } else {
        let mid = (s.len() / 2) as int;
        merged(
            sorted_by_path(s.subrange(0, mid)),
            sorted_by_path(s.subrange(mid, s.len() as int)),
        )
    }
}

fn merge_runs(a: Vec<TreeItem>, b: Vec<TreeItem>) -> (out: Vec<TreeItem>)
    ensures
        out.deep_view() == merged(a.deep_view(), b.deep_view()),
{
    let ghost goal = merged(a.deep_view(), b.deep_view());
    let mut a = a;
    let mut b = b;
    // The entries that come last, the largest one first.
    let mut tail: Vec<TreeItem> = Vec::new();
    proof {
        assert(tail.deep_view().reverse() =~= Seq::<ItemView>::empty());
        assert(goal + Seq::<ItemView>::empty() =~= goal);
    }
    while a.len() > 0 && b.len() > 0
        invariant
            goal == merged(a.deep_view(), b.deep_view()) + tail.deep_view().reverse(),
        decreases a.len() + b.len(),
    {
        let ghost av = a.deep_view();
        let ghost bv = b.deep_view();
        let ghost tv = tail.deep_view();
        let last_b = &b[b.len() - 1];
        let last_a = &a[a.len() - 1];
        let take_a = match last_b.0.compare(&last_a.0) {
            Precedence::Before => true,
            _ => false,
        };
        let item = if take_a {
            a.pop().unwrap()
        } else {
            b.pop().unwrap()
        };
        tail.push(item);
        proof {
            let x = item.deep_view();
            assert(a.deep_view() =~= if take_a {
                av.drop_last()
            } else {
                av
            });
            assert(b.deep_view() =~= if take_a {
                bv
            } else {
                bv.drop_last()
            });
            assert(x == if take_a {
                av.last()
            } else {
                bv.last()
            });
            assert(tail.deep_view() =~= tv.push(x));
            assert(tv.push(x).reverse() =~= seq![x] + tv.reverse());
            assert(merged(av, bv) == merged(a.deep_view(), b.deep_view()).push(x));
            assert(merged(a.deep_view(), b.deep_view()).push(x) + tv.reverse() =~= merged(
                a.deep_view(),
                b.deep_view(),
            ) + (seq![x] + tv.reverse()));
        }
    }
    let mut out = if a.len() == 0 {
        b
    } else {
        a
    };
    while tail.len() > 0
        invariant
            goal == out.deep_view() + tail.deep_view().reverse(),
        decreases tail.len(),
    {
        let ghost ov = out.deep_view();
        let ghost tv = tail.deep_view();
        let item = tail.pop().unwrap();
        out.push(item);
        proof {
            let x = item.deep_view();
            assert(tail.deep_view() =~= tv.drop_last());
            assert(out.deep_view() =~= ov.push(x));
            assert(tv.reverse() =~= seq![x] + tv.drop_last().reverse());
            assert(ov + (seq![x] + tv.drop_last().reverse()) =~= ov.push(x)
                + tv.drop_last().reverse());
        }
    }
    proof {
        assert(tail.deep_view().reverse() =~= Seq::<ItemView>::empty());
        assert(out.deep_view() + Seq::<ItemView>::empty() =~= out.deep_view());
    }
    out
}

fn sort_by_path(items: Vec<TreeItem>) -> (out: Vec<TreeItem>)
    ensures
        out.deep_view() == sorted_by_path(items.deep_view()),
    decreases items.len(),
{
    if items.len() <= 1 {
        return items;
    }
    let ghost all = items.deep_view();
    let mut lower = items;
    let mid = lower.len() / 2;
    let upper = lower.split_off(mid);
    proof {
        assert(lower.deep_view() =~= all.subrange(0, mid as int));
        assert(upper.deep_view() =~= all.subrange(mid as int, all.len() as int));
    }
    merge_runs(sort_by_path(lower), sort_by_path(upper))
}

/// Drops the entries that could not be decoded and sorts the others ascending
/// by path. Entries with equal paths stay in the order in which they were
/// read.
pub fn sort_tree_keys(entries: Vec<Option<TreeItem>>) -> (sorted: Vec<TreeItem>)
    ensures
        sorted.deep_view() == sorted_by_path(decoded(entries.deep_view())),
{
    let ghost all = entries.deep_view();
    let mut entries = entries;
    // The decoded entries, the last one read first.
    let mut kept_back: Vec<TreeItem> = Vec::new();
    proof {
        assert(kept_back.deep_view().reverse() =~= Seq::<ItemView>::empty());
        assert(decoded(all) + Seq::<ItemView>::empty() =~= decoded(all));
    }
    while entries.len() > 0
        invariant
            decoded(all) == decoded(entries.deep_view()) + kept_back.deep_view().reverse(),
        decreases entries.len(),
    {
        let ghost ev = entries.deep_view();
        let ghost kv = kept_back.deep_view();
        let entry = entries.pop().unwrap();
        proof {
            assert(entries.deep_view() =~= ev.drop_last());
            assert(entry.deep_view() == ev.last());
        }
        if let Some(item) = entry {
            kept_back.push(item);
            proof {
                let x = item.deep_view();
                assert(kept_back.deep_view() =~= kv.push(x));
                assert(kv.push(x).reverse() =~= seq![x] + kv.reverse());
                assert(decoded(ev.drop_last()).push(x) + kv.reverse() =~= decoded(ev.drop_last())
                    + (seq![x] + kv.reverse()));
            }
        }
    }
    let mut kept: Vec<TreeItem> = Vec::new();
    proof {
        assert(decoded(entries.deep_view()) =~= Seq::<ItemView>::empty());
        assert(Seq::<ItemView>::empty() + kept_back.deep_view().reverse()
            =~= kept_back.deep_view().reverse());
        assert(kept.deep_view() + kept_back.deep_view().reverse()
            =~= kept_back.deep_view().reverse());
    }
    while kept_back.len() > 0
        invariant
            decoded(all) == kept.deep_view() + kept_back.deep_view().reverse(),
        decreases kept_back.len(),
    {
        let ghost kv = kept.deep_view();
        let ghost bv = kept_back.deep_view();
        let item = kept_back.pop().unwrap();
        kept.push(item);
        proof {
            let x = item.deep_view();
            assert(kept_back.deep_view() =~= bv.drop_last());
            assert(kept.deep_view() =~= kv.push(x));
            assert(bv.reverse() =~= seq![x] + bv.drop_last().reverse());
            assert(kv + (seq![x] + bv.drop_last().reverse()) =~= kv.push(x)
                + bv.drop_last().reverse());
        }
    }
    proof {
        assert(kept_back.deep_view().reverse() =~= Seq::<ItemView>::empty());
        assert(kept.deep_view() + Seq::<ItemView>::empty() =~= kept.deep_view());
    }
    sort_by_path(kept)
}

// ---------------------------------------------------------------------------
// What sorting achieves
// ---------------------------------------------------------------------------

/// No entry's path sorts before that of an entry in front of it.
pub open spec fn in_order(s: Seq<ItemView>) -> bool {
    forall|i: int, j: int| 0 <= i < j < s.len() ==> !path_lt(#[trigger] s[j].0, #[trigger] s[i].0)
}

/// No path occurs in two entries.
pub open spec fn distinct_paths(s: Seq<ItemView>) -> bool {
    forall|i: int, j: int| 0 <= i < j < s.len() ==> #[trigger] s[i].0 != #[trigger] s[j].0
}

/// No entry's path sorts after `bound`.
spec fn at_most(s: Seq<ItemView>, bound: PathView) -> bool {
    forall|i: int| 0 <= i < s.len() ==> !path_lt(bound, #[trigger] s[i].0)
}

proof fn lemma_merged_at_most(a: Seq<ItemView>, b: Seq<ItemView>, bound: PathView)
    requires
        at_most(a, bound),
        at_most(b, bound),
    ensures
        at_most(merged(a, b), bound),
    decreases a.len() + b.len(),
{
    if a.len() == 0 || b.len() == 0 {
    } else if path_lt(b.last().0, a.last().0) {
        lemma_merged_at_most(a.drop_last(), b, bound);
    } else {
        lemma_merged_at_most(a, b.drop_last(), bound);
    }
}

proof fn lemma_merged_in_order(a: Seq<ItemView>, b: Seq<ItemView>)
    requires
        in_order(a),
        in_order(b),
    ensures
        in_order(merged(a, b)),
    decreases a.len() + b.len(),
{
    if a.len() == 0 || b.len() == 0 {
    } else {
        let top_a = a.last().0;
        let top_b = b.last().0;
        if path_lt(top_b, top_a) {
            let rest = merged(a.drop_last(), b);
            lemma_merged_in_order(a.drop_last(), b);
            assert forall|i: int| 0 <= i < b.len() implies !path_lt(top_a, #[trigger] b[i].0) by {
                if path_lt(top_a, b[i].0) {
                    lemma_path_lt_transitive(top_b, top_a, b[i].0);
                    lemma_path_lt_irreflexive(top_b);
                    if i < b.len() - 1 {
                        assert(!path_lt(b[b.len() - 1].0, b[i].0));
                    }
                }
            }
            assert forall|i: int| 0 <= i < a.drop_last().len() implies !path_lt(
                top_a,
                #[trigger] a.drop_last()[i].0,
            ) by {
                assert(!path_lt(a[a.len() - 1].0, a[i].0));
            }
            lemma_merged_at_most(a.drop_last(), b, top_a);
        } else {
            let rest = merged(a, b.drop_last());
            lemma_merged_in_order(a, b.drop_last());
            assert forall|i: int| 0 <= i < a.len() implies !path_lt(top_b, #[trigger] a[i].0) by {
                if path_lt(top_b, a[i].0) {
                    lemma_path_lt_total(top_a, top_b);
                    if path_lt(top_a, top_b) {
                        lemma_path_lt_transitive(top_a, top_b, a[i].0);
                    }
                    lemma_path_lt_irreflexive(top_a);
                    if i < a.len() - 1 {
                        assert(!path_lt(a[a.len() - 1].0, a[i].0));
                    }
                }
            }
            assert forall|i: int| 0 <= i < b.drop_last().len() implies !path_lt(
                top_b,
                #[trigger] b.drop_last()[i].0,
            ) by {
                assert(!path_lt(b[b.len() - 1].0, b[i].0));
            }
            lemma_merged_at_most(a, b.drop_last(), top_b);
        }
    }
}

proof fn lemma_merged_permutes(a: Seq<ItemView>, b: Seq<ItemView>)
    ensures
        merged(a, b).to_multiset() == a.to_multiset().add(b.to_multiset()),
    decreases a.len() + b.len(),
{
    broadcast use vstd::multiset::group_multiset_axioms;

    if a.len() == 0 {
        lemma_multiset_commutative(a, b);
        assert(a + b =~= b);
    } else if b.len() == 0 {
        lemma_multiset_commutative(a, b);
        assert(a + b =~= a);
    } else if path_lt(b.last().0, a.last().0) {
        lemma_merged_permutes(a.drop_last(), b);
        to_multiset_build(merged(a.drop_last(), b), a.last());
        to_multiset_build(a.drop_last(), a.last());
        assert(a.drop_last().push(a.last()) =~= a);
        assert(merged(a, b).to_multiset() =~= a.to_multiset().add(b.to_multiset()));
    } else {
        lemma_merged_permutes(a, b.drop_last());
        to_multiset_build(merged(a, b.drop_last()), b.last());
        to_multiset_build(b.drop_last(), b.last());
        assert(b.drop_last().push(b.last()) =~= b);
        assert(merged(a, b).to_multiset() =~= a.to_multiset().add(b.to_multiset()));
    }
}

/// Sorting brings the entries into ascending order of their paths.
pub proof fn lemma_sorted_by_path_in_order(s: Seq<ItemView>)
    ensures
        in_order(sorted_by_path(s)),
    decreases s.len(),
{
    if s.len() > 1 {
        let mid = (s.len() / 2) as int;
        lemma_sorted_by_path_in_order(s.subrange(0, mid));
        lemma_sorted_by_path_in_order(s.subrange(mid, s.len() as int));
        lemma_merged_in_order(
            sorted_by_path(s.subrange(0, mid)),
            sorted_by_path(s.subrange(mid, s.len() as int)),
        );
    }
}

/// Sorting rearranges the entries: it loses none and adds none.
pub proof fn lemma_sorted_by_path_permutes(s: Seq<ItemView>)
    ensures
        sorted_by_path(s).to_multiset() == s.to_multiset(),
        sorted_by_path(s).len() == s.len(),
    decreases s.len(),
{
    if s.len() > 1 {
        let mid = (s.len() / 2) as int;
        let lower = s.subrange(0, mid);
        let upper = s.subrange(mid, s.len() as int);
        lemma_sorted_by_path_permutes(lower);
        lemma_sorted_by_path_permutes(upper);
        lemma_merged_permutes(sorted_by_path(lower), sorted_by_path(upper));
        lemma_multiset_commutative(lower, upper);
        assert(lower + upper =~= s);
    }
    sorted_by_path(s).to_multiset_ensures();
    s.to_multiset_ensures();
}

/// Entries with distinct paths sort into a snapshot, and the snapshot holds
/// each entry's record under the entry's path and no other path.
pub proof fn lemma_sorted_distinct_is_snapshot(s: Seq<ItemView>)
    requires
        distinct_paths(s),
    ensures
        is_snapshot(sorted_by_path(s)),
        forall|i: int|
            0 <= i < s.len() ==> snapshot_map(sorted_by_path(s)).dom().contains(#[trigger] s[i].0)
                && snapshot_map(sorted_by_path(s))[s[i].0] == s[i].1,
        forall|p: PathView| #[trigger]
            snapshot_map(sorted_by_path(s)).dom().contains(p) ==> exists|i: int|
                0 <= i < s.len() && #[trigger] s[i].0 == p,
{
    let t = sorted_by_path(s);
    lemma_sorted_by_path_in_order(s);
    lemma_sorted_by_path_permutes(s);
    s.to_multiset_ensures();
    t.to_multiset_ensures();
    assert forall|i: int, j: int| 0 <= i < j < t.len() implies path_lt(
        #[trigger] t[i].0,
        #[trigger] t[j].0,
    ) by {
        assert(t.contains(t[i]));
        assert(t.contains(t[j]));
        assert(t.to_multiset().count(t[i]) > 0);
        assert(t.to_multiset().count(t[j]) > 0);
        assert(s.contains(t[i]));
        assert(s.contains(t[j]));
        let a = choose|a: int| 0 <= a < s.len() && s[a] == t[i];
        let b = choose|b: int| 0 <= b < s.len() && s[b] == t[j];
        if t[i].0 == t[j].0 {
            if a == b {
                // One entry of `s` would stand at two places of `t`.
                assert(s.no_duplicates()) by {
                    assert forall|x: int, y: int|
                        0 <= x < s.len() && 0 <= y < s.len() && x != y implies s[x] != s[y] by {
                        if x < y {
                            assert(s[x].0 != s[y].0);
                        } else {
                            assert(s[y].0 != s[x].0);
                        }
                    }
                }
                s.lemma_multiset_has_no_duplicates();
                t.lemma_multiset_has_no_duplicates_conv();
                assert(t[i] != t[j]);
            } else if a < b {
                assert(s[a].0 != s[b].0);
            } else {
                assert(s[b].0 != s[a].0);
            }
        }
        lemma_path_lt_total(t[i].0, t[j].0);
    }
    assert forall|i: int| 0 <= i < s.len() implies snapshot_map(t).dom().contains(
        #[trigger] s[i].0,
    ) && snapshot_map(t)[s[i].0] == s[i].1 by {
        assert(s.contains(s[i]));
        assert(s.to_multiset().count(s[i]) > 0);
        assert(t.contains(s[i]));
        let k = choose|k: int| 0 <= k < t.len() && t[k] == s[i];
        lemma_snapshot_map_entry(t, k);
    }
    assert forall|p: PathView| #[trigger] snapshot_map(t).dom().contains(p) implies exists|i: int|
        0 <= i < s.len() && #[trigger] s[i].0 == p by {
        lemma_snapshot_map_has_entry(t, p);
        let k = choose|k: int| 0 <= k < t.len() && #[trigger] t[k].0 == p;
        assert(t.contains(t[k]));
        assert(t.to_multiset().count(t[k]) > 0);
        assert(s.contains(t[k]));
        let i = choose|i: int| 0 <= i < s.len() && s[i] == t[k];
        assert(s[i].0 == p);
    }
}

/// The entries that are keyed by `p`, in the order in which they stand.
pub open spec fn entries_at(s: Seq<ItemView>, p: PathView) -> Seq<ItemView>
    decreases s.len(),
{
    if s.len() == 0 {
        Seq::empty()
    } else if s.last().0 == p {
        entries_at(s.drop_last(), p).push(s.last())
    } else {
        entries_at(s.drop_last(), p)
    }
}

proof fn lemma_entries_at_concat(a: Seq<ItemView>, b: Seq<ItemView>, p: PathView)
    ensures
        entries_at(a + b, p) == entries_at(a, p) + entries_at(b, p),
    decreases b.len(),
{
    if b.len() == 0 {
        assert(a + b =~= a);
        assert(entries_at(a, p) + entries_at(b, p) =~= entries_at(a, p));
    } else {
        lemma_entries_at_concat(a, b.drop_last(), p);
        assert((a + b).drop_last() =~= a + b.drop_last());
        assert((a + b).last() == b.last());
        assert((entries_at(a, p) + entries_at(b.drop_last(), p)).push(b.last()) =~= entries_at(a, p)
            + entries_at(b.drop_last(), p).push(b.last()));
    }
}

proof fn lemma_entries_at_none(s: Seq<ItemView>, p: PathView)
    requires
        forall|i: int| 0 <= i < s.len() ==> #[trigger] s[i].0 != p,
    ensures
        entries_at(s, p) == Seq::<ItemView>::empty(),
    decreases s.len(),
{
    if s.len() > 0 {
        assert(s[s.len() - 1].0 != p);
        assert forall|i: int| 0 <= i < s.drop_last().len() implies #[trigger] s.drop_last()[i].0
            != p by {
            assert(s.drop_last()[i] == s[i]);
        }
        lemma_entries_at_none(s.drop_last(), p);
    }
}

proof fn lemma_merged_is_stable(a: Seq<ItemView>, b: Seq<ItemView>, p: PathView)
    requires
        in_order(b),
    ensures
        entries_at(merged(a, b), p) == entries_at(a, p) + entries_at(b, p),
    decreases a.len() + b.len(),
{
    if a.len() == 0 {
        assert(entries_at(a, p) + entries_at(b, p) =~= entries_at(b, p));
    } else if b.len() == 0 {
        assert(entries_at(a, p) + entries_at(b, p) =~= entries_at(a, p));
    } else if path_lt(b.last().0, a.last().0) {
        lemma_merged_is_stable(a.drop_last(), b, p);
        assert(merged(a, b).drop_last() =~= merged(a.drop_last(), b));
        if a.last().0 == p {
            assert forall|i: int| 0 <= i < b.len() implies #[trigger] b[i].0 != p by {
                lemma_path_lt_irreflexive(p);
                if i < b.len() - 1 {
                    assert(!path_lt(b[b.len() - 1].0, b[i].0));
                }
            }
            lemma_entries_at_none(b, p);
            assert(entries_at(a.drop_last(), p) + entries_at(b, p) =~= entries_at(
                a.drop_last(),
                p,
            ));
            assert(entries_at(a, p) + entries_at(b, p) =~= entries_at(a, p));
        }
    } else {
        assert forall|i: int, j: int| 0 <= i < j < b.drop_last().len() implies !path_lt(
            #[trigger] b.drop_last()[j].0,
            #[trigger] b.drop_last()[i].0,
        ) by {
            assert(b.drop_last()[i] == b[i]);
            assert(b.drop_last()[j] == b[j]);
        }
        lemma_merged_is_stable(a, b.drop_last(), p);
        assert(merged(a, b).drop_last() =~= merged(a, b.drop_last()));
        assert((entries_at(a, p) + entries_at(b.drop_last(), p)).push(b.last()) =~= entries_at(a, p)
            + entries_at(b.drop_last(), p).push(b.last()));
    }
}

/// Sorting is stable: the entries of any one path stand in the sorted
/// sequence as they stood before, the same entries in the same order.
pub proof fn lemma_sorted_by_path_is_stable(s: Seq<ItemView>, p: PathView)
    ensures
        entries_at(sorted_by_path(s), p) == entries_at(s, p),
    decreases s.len(),
{
    if s.len() > 1 {
        let mid = (s.len() / 2) as int;
        let lower = s.subrange(0, mid);
        let upper = s.subrange(mid, s.len() as int);
        lemma_sorted_by_path_is_stable(lower, p);
        lemma_sorted_by_path_is_stable(upper, p);
        lemma_sorted_by_path_in_order(upper);
        lemma_merged_is_stable(sorted_by_path(lower), sorted_by_path(upper), p);
        lemma_entries_at_concat(lower, upper, p);
        assert(lower + upper =~= s);
    }
}

} // verus!
