//! What holds of merging matches, in terms of their fields.

use vstd::prelude::*;

#[allow(unused_imports)]
use crate::merge::{best, drawn_from, extended, has_rank, is_sorted, is_strictly_sorted,
    is_subsequence, law_extended_keeps_best, law_extended_sorted, lemma_merged_sorted, lemma_slot,
    merged, merged_in_any_order, room, slot, stands_at, sure_to_stay, with_match};
#[allow(unused_imports)]
use crate::order::Order;
#[allow(unused_imports)]
use crate::path::{path_components, path_order};
#[allow(unused_imports)]
use crate::path_match::{MatchView, law_match_order_by_fields, law_match_order_level,
    lemma_match_order_total, match_order};

verus! {

/// `a` need not stand behind `b`: it has the better score, or the same one and the
/// greater worktree, or the same of both and is closer to the open file, or the same
/// of all and a path that does not come before.
pub proof fn law_not_below_by_fields(a: MatchView, b: MatchView)
    ensures
        match_order(a, b) != Order::Less <==> (a.score.whole > b.score.whole || a.score.whole == b.score.whole && (a.score.fraction
                > b.score.fraction || a.score.fraction == b.score.fraction && (a.worktree_id
                > b.worktree_id || a.worktree_id == b.worktree_id && (
            a.distance_to_relative_ancestor < b.distance_to_relative_ancestor
                || a.distance_to_relative_ancestor == b.distance_to_relative_ancestor
                && path_order(a.path, b.path) != Order::Less)))),
        match_order(a, b) == Order::Greater <==> (a.score.whole > b.score.whole || a.score.whole == b.score.whole && (a.score.fraction
                > b.score.fraction || a.score.fraction == b.score.fraction && (a.worktree_id
                > b.worktree_id || a.worktree_id == b.worktree_id && (
            a.distance_to_relative_ancestor < b.distance_to_relative_ancestor
                || a.distance_to_relative_ancestor == b.distance_to_relative_ancestor
                && path_order(a.path, b.path) == Order::Greater)))),
{
    law_match_order_by_fields(a, b);
    law_match_order_by_fields(b, a);
}

/// A list is sorted exactly where no match needs to stand behind a later one.
pub proof fn law_sorted_by_fields(list: Seq<MatchView>)
    ensures
        is_sorted(list) <==> forall|i: int, j: int|
            #![trigger list[i], list[j]]
            0 <= i < j < list.len() ==> {
                let a = list[i];
                let b = list[j];
                a.score.whole > b.score.whole || a.score.whole == b.score.whole && (a.score.fraction
                > b.score.fraction || a.score.fraction == b.score.fraction && (a.worktree_id
                > b.worktree_id || a.worktree_id == b.worktree_id && (
            a.distance_to_relative_ancestor < b.distance_to_relative_ancestor
                || a.distance_to_relative_ancestor == b.distance_to_relative_ancestor
                && path_order(a.path, b.path) != Order::Less)))
            },
        is_strictly_sorted(list) <==> forall|i: int, j: int|
            #![trigger list[i], list[j]]
            0 <= i < j < list.len() ==> {
                let a = list[i];
                let b = list[j];
                a.score.whole > b.score.whole || a.score.whole == b.score.whole && (a.score.fraction
                > b.score.fraction || a.score.fraction == b.score.fraction && (a.worktree_id
                > b.worktree_id || a.worktree_id == b.worktree_id && (
            a.distance_to_relative_ancestor < b.distance_to_relative_ancestor
                || a.distance_to_relative_ancestor == b.distance_to_relative_ancestor
                && path_order(a.path, b.path) == Order::Greater)))
            },
{
    assert forall|i: int, j: int| #![trigger list[i], list[j]] 0 <= i < j < list.len() implies (
    match_order(list[i], list[j]) != Order::Less <==> {
        let a = list[i];
        let b = list[j];
        a.score.whole > b.score.whole || a.score.whole == b.score.whole && (a.score.fraction
                > b.score.fraction || a.score.fraction == b.score.fraction && (a.worktree_id
                > b.worktree_id || a.worktree_id == b.worktree_id && (
            a.distance_to_relative_ancestor < b.distance_to_relative_ancestor
                || a.distance_to_relative_ancestor == b.distance_to_relative_ancestor
                && path_order(a.path, b.path) != Order::Less)))
    }) && (match_order(list[i], list[j]) == Order::Greater <==> {
        let a = list[i];
        let b = list[j];
        a.score.whole > b.score.whole || a.score.whole == b.score.whole && (a.score.fraction
                > b.score.fraction || a.score.fraction == b.score.fraction && (a.worktree_id
                > b.worktree_id || a.worktree_id == b.worktree_id && (
            a.distance_to_relative_ancestor < b.distance_to_relative_ancestor
                || a.distance_to_relative_ancestor == b.distance_to_relative_ancestor
                && path_order(a.path, b.path) == Order::Greater)))
    }) by {
        law_not_below_by_fields(list[i], list[j]);
    }
}

/// A list has a match of the rank of another exactly where one agrees with that in
/// score, worktree, closeness and the components of its path.
pub proof fn law_rank_by_fields(list: Seq<MatchView>, item: MatchView)
    ensures
        has_rank(list, item) <==> exists|k: int|
            0 <= k < list.len() && (#[trigger] list[k]).score.whole == item.score.whole
                && list[k].score.fraction == item.score.fraction && list[k].worktree_id
                == item.worktree_id && list[k].distance_to_relative_ancestor
                == item.distance_to_relative_ancestor && path_components(list[k].path)
                == path_components(item.path),
{
    assert forall|k: int| 0 <= k < list.len() implies (match_order(#[trigger] list[k], item)
        == Order::Equal <==> list[k].score.whole == item.score.whole && list[k].score.fraction
        == item.score.fraction && list[k].worktree_id == item.worktree_id
        && list[k].distance_to_relative_ancestor == item.distance_to_relative_ancestor
        && path_components(list[k].path) == path_components(item.path)) by {
        law_match_order_level(list[k], item);
    }
}

/// In a merged list scores never increase, whatever worktrees, distances and paths
/// the matches have.
pub proof fn law_merged_scores_never_increase(
    list: Seq<MatchView>,
    items: Seq<MatchView>,
    limit: int,
    i: int,
    j: int,
)
    requires
        is_sorted(list),
        0 <= i < j < extended(list, items, limit).len(),
    ensures
        ({
            let a = extended(list, items, limit)[i].score;
            let b = extended(list, items, limit)[j].score;
            a.whole > b.whole || a.whole == b.whole && a.fraction >= b.fraction
        }),
{
    let out = extended(list, items, limit);
    law_extended_sorted(list, items, limit);
    assert(match_order(out[i], out[j]) != Order::Less);
    law_not_below_by_fields(out[i], out[j]);
}

/// A list without two matches that agree in all that ranks them stays one.
pub proof fn law_merged_has_no_duplicates(
    list: Seq<MatchView>,
    items: Seq<MatchView>,
    limit: int,
    i: int,
    j: int,
)
    requires
        is_strictly_sorted(list),
        is_sorted(list),
        0 <= i < j < extended(list, items, limit).len(),
    ensures
        ({
            let a = extended(list, items, limit)[i];
            let b = extended(list, items, limit)[j];
            !(a.score == b.score && a.worktree_id == b.worktree_id
                && a.distance_to_relative_ancestor == b.distance_to_relative_ancestor
                && path_components(a.path) == path_components(b.path))
        }),
{
    let out = extended(list, items, limit);
    law_extended_sorted(list, items, limit);
    assert(match_order(out[i], out[j]) == Order::Greater);
    law_match_order_level(out[i], out[j]);
}

/// Putting a match in its place takes none away, and adds no other.
proof fn lemma_with_match_members(list: Seq<MatchView>, item: MatchView)
    requires
        is_sorted(list),
    ensures
        forall|m: MatchView| list.contains(m) ==> #[trigger] with_match(list, item).contains(m),
        forall|m: MatchView| #[trigger]
            with_match(list, item).contains(m) ==> list.contains(m) || m == item,
        has_rank(list, item) || with_match(list, item).contains(item),
        list.len() <= with_match(list, item).len() <= list.len() + 1,
{
    lemma_slot(list, item);
    let at = slot(list, item);
    let out = with_match(list, item);
    if at < list.len() && match_order(list[at], item) == Order::Equal {
        assert(has_rank(list, item));
    } else {
        assert(out[at] == item);
        assert forall|m: MatchView| list.contains(m) implies #[trigger] out.contains(m) by {
            let k = choose|k: int| 0 <= k < list.len() && list[k] == m;
            if k < at {
                assert(out[k] == m);
            } else {
                assert(out[k + 1] == m);
            }
        }
        assert forall|m: MatchView| #[trigger] out.contains(m) implies list.contains(m) || m
            == item by {
            let k = choose|k: int| 0 <= k < out.len() && out[k] == m;
            if k < at {
                assert(list[k] == m);
            } else if k > at {
                assert(list[k - 1] == m);
            }
        }
    }
}

/// A merged list has all matches of the one list, all those of the other that are
/// new to it, and no others.
proof fn lemma_merged_members(list: Seq<MatchView>, items: Seq<MatchView>)
    requires
        is_sorted(list),
    ensures
        forall|m: MatchView| list.contains(m) ==> #[trigger] merged(list, items).contains(m),
        forall|m: MatchView| #[trigger]
            merged(list, items).contains(m) ==> list.contains(m) || items.contains(m),
        list.len() <= merged(list, items).len() <= list.len() + items.len(),
    decreases items.len(),
{
    if items.len() > 0 {
        let front = items.drop_last();
        let last = items.last();
        lemma_merged_members(list, front);
        lemma_merged_sorted(list, front);
        lemma_with_match_members(merged(list, front), last);
        assert forall|m: MatchView| #[trigger]
            merged(list, items).contains(m) implies list.contains(m) || items.contains(m) by {
            assert(merged(list, front).contains(m) || m == last);
            if front.contains(m) {
                let k = choose|k: int| 0 <= k < front.len() && front[k] == m;
                assert(items[k] == m);
            }
            assert(items[items.len() - 1] == last);
        }
    }
}

/// A match that is new to the list, and to what came before it, is merged as it is.
proof fn lemma_merged_new(list: Seq<MatchView>, items: Seq<MatchView>, j: int)
    requires
        is_sorted(list),
        0 <= j < items.len(),
        !has_rank(list, items[j]),
        forall|i: int|
            0 <= i < j ==> match_order(#[trigger] items[i], items[j]) != Order::Equal,
    ensures
        merged(list, items).contains(items[j]),
    decreases items.len(),
{
    let front = items.drop_last();
    lemma_merged_sorted(list, front);
    lemma_with_match_members(merged(list, front), items.last());
    if j < front.len() {
        assert forall|i: int| 0 <= i < j implies match_order(#[trigger] front[i], front[j])
            != Order::Equal by {
            assert(front[i] == items[i]);
        }
        lemma_merged_new(list, front, j);
    } else {
        crate::merge::law_merged_ranks(list, front, items[j]);
        if has_rank(front, items[j]) {
            let k = choose|k: int|
                0 <= k < front.len() && match_order(#[trigger] front[k], items[j]) == Order::Equal;
            assert(front[k] == items[k]);
        }
    }
}

/// What is kept of a list that holds a match holds it, or is full of matches that it
/// does not rank above.
proof fn lemma_kept_or_full(all: Seq<MatchView>, count: int, m: MatchView)
    requires
        is_sorted(all),
        all.contains(m),
        0 <= count,
    ensures
        best(all, count).contains(m) || (best(all, count).len() == count && forall|i: int|
            0 <= i < best(all, count).len() ==> match_order(#[trigger] best(all, count)[i], m)
                != Order::Less),
{
    let kept = best(all, count);
    let at = choose|at: int| 0 <= at < all.len() && all[at] == m;
    if at < kept.len() {
        assert(kept[at] == m);
    } else {
        assert forall|i: int| 0 <= i < kept.len() implies match_order(#[trigger] kept[i], m)
            != Order::Less by {
            assert(kept[i] == all[i]);
            assert(match_order(all[i], all[at]) != Order::Less);
        }
    }
}

/// Merging never shortens a list, and lengthens it within the limit, by no more than
/// there are others; it brings in nothing from elsewhere.
pub proof fn law_merged_len_and_members(list: Seq<MatchView>, items: Seq<MatchView>, limit: int)
    requires
        is_sorted(list),
    ensures
        list.len() <= extended(list, items, limit).len(),
        extended(list, items, limit).len() <= list.len() || extended(list, items, limit).len()
            <= limit,
        extended(list, items, limit).len() <= list.len() + items.len(),
        forall|k: int|
            0 <= k < extended(list, items, limit).len() ==> list.contains(
                #[trigger] extended(list, items, limit)[k],
            ) || items.contains(extended(list, items, limit)[k]),
{
    let all = merged(list, items);
    let out = extended(list, items, limit);
    lemma_merged_members(list, items);
    assert forall|k: int| 0 <= k < out.len() implies list.contains(#[trigger] out[k])
        || items.contains(out[k]) by {
        assert(all[k] == out[k]);
        assert(all.contains(out[k]));
    }
}

/// A listed match stays as it is, unless the list is full of matches that it does not
/// rank above.
pub proof fn law_listed_match_stays(
    list: Seq<MatchView>,
    items: Seq<MatchView>,
    limit: int,
    k: int,
)
    requires
        is_sorted(list),
        0 <= k < list.len(),
    ensures
        extended(list, items, limit).contains(list[k]) || (extended(list, items, limit).len()
            >= limit && forall|i: int|
            0 <= i < extended(list, items, limit).len() ==> match_order(
                #[trigger] extended(list, items, limit)[i],
                list[k],
            ) != Order::Less),
{
    let all = merged(list, items);
    lemma_merged_members(list, items);
    lemma_merged_sorted(list, items);
    assert(all.contains(list[k]));
    lemma_kept_or_full(all, room(list.len(), limit), list[k]);
}

/// A match that agrees with no listed one, and with none before it, in all that ranks
/// them is listed as it is, unless the list is full of matches that it does not rank
/// above.
pub proof fn law_new_match_is_listed(
    list: Seq<MatchView>,
    items: Seq<MatchView>,
    limit: int,
    j: int,
)
    requires
        is_sorted(list),
        0 <= j < items.len(),
        !has_rank(list, items[j]),
        forall|i: int|
            0 <= i < j ==> match_order(#[trigger] items[i], items[j]) != Order::Equal,
    ensures
        extended(list, items, limit).contains(items[j]) || (extended(list, items, limit).len()
            >= limit && forall|i: int|
            0 <= i < extended(list, items, limit).len() ==> match_order(
                #[trigger] extended(list, items, limit)[i],
                items[j],
            ) != Order::Less),
{
    let all = merged(list, items);
    lemma_merged_new(list, items, j);
    lemma_merged_sorted(list, items);
    lemma_kept_or_full(all, room(list.len(), limit), items[j]);
}

/// Whatever order the matches are in, merging never shortens a list and lengthens it
/// within the limit; it brings in nothing from elsewhere; and where room is left, or
/// there was room for all, every match is listed, or one that agrees with it in all
/// that ranks them.
pub proof fn law_any_order_lists_all(
    list: Seq<MatchView>,
    items: Seq<MatchView>,
    limit: int,
    out: Seq<MatchView>,
)
    requires
        merged_in_any_order(list, items, limit, out),
    ensures
        list.len() <= out.len(),
        out.len() <= list.len() || out.len() <= limit,
        out.len() <= list.len() + items.len(),
        forall|k: int|
            0 <= k < out.len() ==> list.contains(#[trigger] out[k]) || items.contains(out[k]),
        list.len() + items.len() <= limit || out.len() < limit ==> forall|k: int|
            0 <= k < items.len() ==> exists|p: int|
                0 <= p < out.len() && (#[trigger] out[p]).score == (#[trigger] items[k]).score
                    && out[p].worktree_id == items[k].worktree_id
                    && out[p].distance_to_relative_ancestor
                    == items[k].distance_to_relative_ancestor && path_components(out[p].path)
                    == path_components(items[k].path),
{
    if list.len() + items.len() <= limit || out.len() < limit {
        assert forall|k: int| 0 <= k < items.len() implies exists|p: int|
            0 <= p < out.len() && (#[trigger] out[p]).score == (#[trigger] items[k]).score
                && out[p].worktree_id == items[k].worktree_id
                && out[p].distance_to_relative_ancestor == items[k].distance_to_relative_ancestor
                && path_components(out[p].path) == path_components(items[k].path) by {
            assert(has_rank(out, items[k]));
            let p = choose|p: int|
                0 <= p < out.len() && match_order(#[trigger] out[p], items[k]) == Order::Equal;
            law_match_order_level(out[p], items[k]);
            assert(out[p].score == items[k].score);
        }
    }
}

/// Whatever order the matches are in, two listed ones that the others leave room for
/// stay, the earlier before the later.
pub proof fn law_any_order_keeps_order(
    list: Seq<MatchView>,
    items: Seq<MatchView>,
    limit: int,
    out: Seq<MatchView>,
    i: int,
    j: int,
)
    requires
        merged_in_any_order(list, items, limit, out),
        0 <= i < j < list.len(),
        j + items.len() < limit || j + items.len() < list.len(),
    ensures
        exists|p: int, q: int|
            0 <= p < q < out.len() && #[trigger] out[p] == list[i] && #[trigger] out[q] == list[j],
{
    let stay = sure_to_stay(list.len(), items.len(), limit);
    let part = list.take(stay);
    let at = choose|at: Seq<int>| stands_at(part, out, at);
    assert(part[i] == list[i] && part[j] == list[j]);
    assert(at[i] < at[j]);
    assert(out[at[i]] == list[i] && out[at[j]] == list[j]);
}

/// Whatever order the matches are in, a listed one that the others leave room for
/// stays.
pub proof fn law_any_order_keeps_listed(
    list: Seq<MatchView>,
    items: Seq<MatchView>,
    limit: int,
    out: Seq<MatchView>,
    k: int,
)
    requires
        merged_in_any_order(list, items, limit, out),
        0 <= k < list.len(),
        k + items.len() < limit || k + items.len() < list.len(),
    ensures
        out.contains(list[k]),
{
    let stay = sure_to_stay(list.len(), items.len(), limit);
    let part = list.take(stay);
    let at = choose|at: Seq<int>| stands_at(part, out, at);
    assert(part[k] == list[k]);
    assert(out[at[k]] == list[k]);
}

} // verus!
