//! Merging the results of one search into those of another.

use vstd::prelude::*;

use crate::order::Order;
use crate::path_match::{PathMatch, compare_matches};
#[allow(unused_imports)]
use crate::path_match::{MatchView, lemma_match_order_total, lemma_match_order_transitive,
    match_order, match_views};

verus! {

/// The best match comes first.
pub open spec fn is_sorted(list: Seq<MatchView>) -> bool {
    forall|i: int, j: int|
        0 <= i < j < list.len() ==> match_order(#[trigger] list[i], #[trigger] list[j])
            != Order::Less
}

/// How many matches at the start of the list rank above `item`.
pub open spec fn slot(list: Seq<MatchView>, item: MatchView) -> int
    decreases list.len(),
{
    if list.len() > 0 && match_order(list[0], item) == Order::Greater {
        1 + slot(list.drop_first(), item)
    } else {
        0
    }
}

/// The list with `item` in its place, unless a match of its rank is there.
pub open spec fn with_match(list: Seq<MatchView>, item: MatchView) -> Seq<MatchView> {
    let at = slot(list, item);
    if at < list.len() && match_order(list[at], item) == Order::Equal {
        list
    } else {
        list.insert(at, item)
    }
}

/// The list with each of `items` in its place, one after the other.
pub open spec fn merged(list: Seq<MatchView>, items: Seq<MatchView>) -> Seq<MatchView>
    decreases items.len(),
{
    if items.len() == 0 {
        list
    } else {
        with_match(merged(list, items.drop_last()), items.last())
    }
}

/// At most the first `count` matches of the list.
pub open spec fn best(list: Seq<MatchView>, count: int) -> Seq<MatchView> {
    if list.len() <= count {
        list
    } else {
        list.take(count)
    }
}

/// The length that a list of `len` matches may grow to: `limit`, but a list that is
/// longer keeps its length.
pub open spec fn room(len: nat, limit: int) -> int {
    if limit < len {
        len as int
    } else {
        limit
    }
}

/// What a list of at most `limit` matches becomes when `items` are merged into it.
/// A list that is longer keeps its length.
pub open spec fn extended(
    list: Seq<MatchView>,
    items: Seq<MatchView>,
    limit: int,
) -> Seq<MatchView> {
    best(merged(list, items), room(list.len(), limit))
}

/// In a sorted list the slot parts the matches above `item` from the others.
pub proof fn lemma_slot(list: Seq<MatchView>, item: MatchView)
    requires
        is_sorted(list),
    ensures
        0 <= slot(list, item) <= list.len(),
        forall|k: int|
            0 <= k < slot(list, item) ==> match_order(#[trigger] list[k], item) == Order::Greater,
        forall|k: int|
            slot(list, item) <= k < list.len() ==> match_order(#[trigger] list[k], item)
                != Order::Greater,
    decreases list.len(),
{
    if list.len() > 0 && match_order(list[0], item) == Order::Greater {
        let rest = list.drop_first();
        lemma_slot(rest, item);
        assert forall|k: int| 0 <= k < slot(list, item) implies match_order(
            #[trigger] list[k],
            item,
        ) == Order::Greater by {
            if k > 0 {
                assert(list[k] == rest[k - 1]);
            }
        }
        assert forall|k: int| slot(list, item) <= k < list.len() implies match_order(
            #[trigger] list[k],
            item,
        ) != Order::Greater by {
            assert(list[k] == rest[k - 1]);
        }
    } else if list.len() > 0 {
        assert forall|k: int| 0 <= k < list.len() implies match_order(#[trigger] list[k], item)
            != Order::Greater by {
            if k > 0 {
                assert(match_order(list[0], list[k]) != Order::Less);
                lemma_match_order_transitive(list[0], list[k], item);
            }
        }
    }
}

/// Only one index parts a sorted list like that.
proof fn lemma_slot_unique(list: Seq<MatchView>, item: MatchView, at: int)
    requires
        is_sorted(list),
        0 <= at <= list.len(),
        forall|k: int| 0 <= k < at ==> match_order(#[trigger] list[k], item) == Order::Greater,
        at < list.len() ==> match_order(list[at], item) != Order::Greater,
    ensures
        slot(list, item) == at,
{
    lemma_slot(list, item);
    let s = slot(list, item);
    if s < at {
        assert(match_order(list[s], item) == Order::Greater);
    }
    if at < s {
        assert(match_order(list[at], item) == Order::Greater);
    }
}

/// Putting a match in its place keeps a list sorted.
pub proof fn lemma_with_match_sorted(list: Seq<MatchView>, item: MatchView)
    requires
        is_sorted(list),
    ensures
        is_sorted(with_match(list, item)),
{
    lemma_slot(list, item);
    let at = slot(list, item);
    let out = with_match(list, item);
    if out != list {
        assert forall|i: int, j: int| 0 <= i < j < out.len() implies match_order(
            #[trigger] out[i],
            #[trigger] out[j],
        ) != Order::Less by {
            let oi = if i < at { i } else { i - 1 };
            let oj = if j < at { j } else { j - 1 };
            if i == at {
                assert(out[j] == list[oj]);
                lemma_match_order_total(list[oj], item);
            } else if j == at {
                assert(out[i] == list[oi]);
            } else {
                assert(out[i] == list[oi]);
                assert(out[j] == list[oj]);
            }
        }
    }
}

/// Merging keeps a list sorted.
pub proof fn lemma_merged_sorted(list: Seq<MatchView>, items: Seq<MatchView>)
    requires
        is_sorted(list),
    ensures
        is_sorted(merged(list, items)),
    decreases items.len(),
{
    if items.len() > 0 {
        lemma_merged_sorted(list, items.drop_last());
        lemma_with_match_sorted(merged(list, items.drop_last()), items.last());
    }
}

proof fn lemma_best_sorted(list: Seq<MatchView>, count: int)
    requires
        is_sorted(list),
        0 <= count,
    ensures
        is_sorted(best(list, count)),
{
}

/// Matches beyond the first `count` have no say in which come first after one
/// more is put in its place.
proof fn lemma_best_with_match(list: Seq<MatchView>, item: MatchView, count: int)
    requires
        is_sorted(list),
        0 <= count,
    ensures
        best(with_match(list, item), count) == best(with_match(best(list, count), item), count),
{
    if list.len() > count {
        let head = best(list, count);
        lemma_slot(list, item);
        lemma_best_sorted(list, count);
        let at = slot(list, item);
        if at < count {
            assert forall|k: int| 0 <= k < at implies match_order(#[trigger] head[k], item)
                == Order::Greater by {
                assert(head[k] == list[k]);
            }
            assert(head[at] == list[at]);
            lemma_slot_unique(head, item, at);
            assert(best(with_match(list, item), count) =~= best(with_match(head, item), count));
        } else {
            assert forall|k: int| 0 <= k < count implies match_order(#[trigger] head[k], item)
                == Order::Greater by {
                assert(head[k] == list[k]);
            }
            lemma_slot_unique(head, item, count);
            assert(best(with_match(list, item), count) =~= head);
            assert(best(with_match(head, item), count) =~= head);
        }
    }
}

/// Looks for the place of `item` among the matches from `start` on. The first
/// result tells whether a match of its rank is there; the second is that match, or
/// the index to insert at.
fn search_slot(list: &Vec<PathMatch>, start: usize, item: &PathMatch) -> (place: (bool, usize))
    requires
        start <= list@.len(),
    ensures
        start <= place.1 <= list@.len(),
        place.0 ==> place.1 < list@.len() && match_order(
            match_views(list@)[place.1 as int],
            item@,
        ) == Order::Equal,
        is_sorted(match_views(list@)) && (forall|k: int|
            0 <= k < start ==> match_order(#[trigger] match_views(list@)[k], item@)
                == Order::Greater) ==> (if place.0 {
            with_match(match_views(list@), item@) == match_views(list@)
        } else {
            &&& place.1 == slot(match_views(list@), item@)
            &&& with_match(match_views(list@), item@) == match_views(list@).insert(
                place.1 as int,
                item@,
            )
        }),
{
    let mut low: usize = start;
    let mut high: usize = list.len();
    let ghost views = match_views(list@);
    let ghost ready = is_sorted(views) && (forall|k: int|
        0 <= k < start ==> match_order(#[trigger] views[k], item@) == Order::Greater);
    while low < high
        invariant
            start <= low <= high <= list@.len(),
            views == match_views(list@),
            ready ==> is_sorted(views),
            ready == (is_sorted(views) && (forall|k: int|
                0 <= k < start ==> match_order(#[trigger] views[k], item@) == Order::Greater)),
            ready ==> forall|k: int|
                0 <= k < low ==> match_order(#[trigger] views[k], item@) == Order::Greater,
            ready ==> forall|k: int|
                high <= k < views.len() ==> match_order(#[trigger] views[k], item@) == Order::Less,
        decreases high - low,
    {
        let mid: usize = low + (high - low) / 2;
        assert(views[mid as int] == list@[mid as int]@);
        match compare_matches(&list[mid], item) {
            Order::Equal => {
                proof {
                    if ready {
                        lemma_slot(views, item@);
                        let s = slot(views, item@);
                        if mid < s {
                            assert(match_order(views[mid as int], item@) == Order::Greater);
                        }
                        if s < mid {
                            assert(match_order(views[s], views[mid as int]) != Order::Less);
                        }
                        lemma_match_order_transitive(views[s], views[mid as int], item@);
                        assert(match_order(views[s], item@) == Order::Equal);
                    }
                }
                return (true, mid);
            },
            Order::Greater => {
                proof {
                    if ready {
                        assert forall|k: int| 0 <= k < mid + 1 implies match_order(
                            #[trigger] views[k],
                            item@,
                        ) == Order::Greater by {
                            if k < mid {
                                assert(match_order(views[k], views[mid as int]) != Order::Less);
                                lemma_match_order_transitive(views[k], views[mid as int], item@);
                            }
                        }
                    }
                }
                low = mid + 1;
            },
            Order::Less => {
                proof {
                    if ready {
                        assert forall|k: int| mid <= k < views.len() implies match_order(
                            #[trigger] views[k],
                            item@,
                        ) == Order::Less by {
                            if mid < k {
                                assert(match_order(views[mid as int], views[k]) != Order::Less);
                                lemma_match_order_total(views[mid as int], views[k]);
                                lemma_match_order_transitive(views[k], views[mid as int], item@);
                            }
                        }
                    }
                }
                high = mid;
            },
        }
    }
    proof {
        if ready {
            lemma_slot_unique(views, item@, low as int);
        }
    }
    (false, low)
}

/// Every match of `list` is in `list0` or in `items`.
pub open spec fn drawn_from(
    list: Seq<MatchView>,
    list0: Seq<MatchView>,
    items: Seq<MatchView>,
) -> bool {
    forall|k: int|
        0 <= k < list.len() ==> list0.contains(#[trigger] list[k]) || items.contains(list[k])
}

/// The matches of `part` stand in `list` at the places `at`, in their order.
pub open spec fn stands_at(part: Seq<MatchView>, list: Seq<MatchView>, at: Seq<int>) -> bool {
    &&& at.len() == part.len()
    &&& forall|k: int|
        0 <= k < at.len() ==> 0 <= #[trigger] at[k] < list.len() && list[at[k]] == part[k]
    &&& forall|j: int, k: int| 0 <= j < k < at.len() ==> #[trigger] at[j] < #[trigger] at[k]
}

/// The matches of `part` are in `list`, in their order.
pub open spec fn is_subsequence(part: Seq<MatchView>, list: Seq<MatchView>) -> bool {
    exists|at: Seq<int>| stands_at(part, list, at)
}

/// How many matches at the start of a list of `len` are sure to stay when `count`
/// others are merged into it: all where there is room for every match, and else
/// those that are left when each of the others that finds no room takes the place
/// of the last match.
pub open spec fn sure_to_stay(len: nat, count: nat, limit: int) -> int {
    if len + count <= room(len, limit) {
        len as int
    } else if count <= room(len, limit) {
        room(len, limit) - count
    } else {
        0
    }
}

/// What one match does to a list, wherever its place was found to be: a match of
/// its rank is there, or it is inserted where there is room, takes the place of the
/// last match, or finds none.
pub open spec fn placed(
    list: Seq<MatchView>,
    item: MatchView,
    limit: int,
    out: Seq<MatchView>,
) -> bool {
    ||| out == list && (has_rank(list, item) || limit <= list.len())
    ||| list.len() < limit && exists|index: int|
        0 <= index <= list.len() && out == #[trigger] list.insert(index, item)
    ||| limit <= list.len() && exists|index: int|
        0 <= index < list.len() && out == #[trigger] list.drop_last().insert(index, item)
}

/// `out` is what becomes of the list when the matches of `items` are placed one after
/// the other.
pub open spec fn placed_in_turn(
    list: Seq<MatchView>,
    items: Seq<MatchView>,
    limit: int,
    out: Seq<MatchView>,
) -> bool
    decreases items.len(),
{
    if items.len() == 0 {
        out == list
    } else {
        exists|before: Seq<MatchView>|
            placed_in_turn(list, items.drop_last(), limit, before) && #[trigger] placed(
                before,
                items.last(),
                limit,
                out,
            )
    }
}

/// What holds of merging whatever order the matches are in: each of the others finds
/// its place in turn; nothing comes from elsewhere; the list does not shrink, and
/// grows within its room by no more than there are others; its first matches stay in
/// their order; and where there was room for every match, or room is left, each of
/// the others is listed, or one of its rank is.
pub open spec fn merged_in_any_order(
    list: Seq<MatchView>,
    items: Seq<MatchView>,
    limit: int,
    out: Seq<MatchView>,
) -> bool {
    &&& placed_in_turn(list, items, limit, out)
    &&& drawn_from(out, list, items)
    &&& list.len() <= out.len() <= room(list.len(), limit)
    &&& out.len() <= list.len() + items.len()
    &&& is_subsequence(list.take(sure_to_stay(list.len(), items.len(), limit)), out)
    &&& list.len() + items.len() <= room(list.len(), limit) || out.len() < limit ==> forall|k: int|
        0 <= k < items.len() ==> has_rank(out, #[trigger] items[k])
}

/// A list is a subsequence of itself, and so is its start.
proof fn lemma_start_is_subsequence(part: Seq<MatchView>, list: Seq<MatchView>, count: int)
    requires
        is_subsequence(part, list),
        0 <= count <= part.len(),
    ensures
        is_subsequence(part.take(count), list),
{
    let at = choose|at: Seq<int>| stands_at(part, list, at);
    assert(stands_at(part.take(count), list, at.take(count)));
}

/// A subsequence stays one when a match is inserted.
proof fn lemma_subsequence_insert(
    part: Seq<MatchView>,
    list: Seq<MatchView>,
    index: int,
    item: MatchView,
)
    requires
        is_subsequence(part, list),
        0 <= index <= list.len(),
    ensures
        is_subsequence(part, list.insert(index, item)),
{
    let at = choose|at: Seq<int>| stands_at(part, list, at);
    let moved = at.map_values(
        |k: int|
            if k < index {
                k
            } else {
                k + 1
            },
    );
    let out = list.insert(index, item);
    assert forall|k: int| 0 <= k < moved.len() implies 0 <= #[trigger] moved[k] < out.len()
        && out[moved[k]] == part[k] by {
        assert(0 <= at[k] < list.len() && list[at[k]] == part[k]);
    }
    assert forall|j: int, k: int| 0 <= j < k < moved.len() implies #[trigger] moved[j]
        < #[trigger] moved[k] by {
        assert(at[j] < at[k]);
    }
    assert(stands_at(part, out, moved));
}

/// Without its last match a list has what a subsequence has before its last match.
proof fn lemma_subsequence_drop_last(part: Seq<MatchView>, list: Seq<MatchView>)
    requires
        is_subsequence(part, list),
        list.len() > 0,
        part.len() > 0,
    ensures
        is_subsequence(part.drop_last(), list.drop_last()),
{
    let at = choose|at: Seq<int>| stands_at(part, list, at);
    let kept = at.drop_last();
    assert forall|k: int| 0 <= k < kept.len() implies 0 <= #[trigger] kept[k]
        < list.drop_last().len() && list.drop_last()[kept[k]] == part.drop_last()[k] by {
        assert(at[k] < at[at.len() - 1]);
        assert(0 <= at[at.len() - 1] < list.len());
        assert(list[at[k]] == part[k]);
    }
    assert forall|j: int, k: int| 0 <= j < k < kept.len() implies #[trigger] kept[j]
        < #[trigger] kept[k] by {
        assert(at[j] < at[k]);
    }
    assert(stands_at(part.drop_last(), list.drop_last(), kept));
}

proof fn lemma_empty_is_subsequence(part: Seq<MatchView>, list: Seq<MatchView>)
    requires
        part.len() == 0,
    ensures
        is_subsequence(part, list),
{
    assert(stands_at(part, list, Seq::<int>::empty()));
}

proof fn lemma_list_is_subsequence(list: Seq<MatchView>)
    ensures
        is_subsequence(list, list),
{
    assert(stands_at(list, list, Seq::new(list.len(), |k: int| k)));
}

/// Inserting a match keeps the ranks of a list.
proof fn lemma_insert_keeps_rank(
    list: Seq<MatchView>,
    index: int,
    item: MatchView,
    probe: MatchView,
)
    requires
        has_rank(list, probe),
        0 <= index <= list.len(),
    ensures
        has_rank(list.insert(index, item), probe),
{
    let k = choose|k: int|
        0 <= k < list.len() && match_order(#[trigger] list[k], probe) == Order::Equal;
    let out = list.insert(index, item);
    if k < index {
        assert(out[k] == list[k]);
    } else {
        assert(out[k + 1] == list[k]);
    }
}

/// The first `count` matches of the list rank above `item`.
spec fn all_above(list: Seq<MatchView>, count: int, item: MatchView) -> bool {
    forall|k: int| 0 <= k < count ==> match_order(#[trigger] list[k], item) == Order::Greater
}

/// What ranks above a match ranks above those that do not rank above it.
proof fn lemma_all_above(list: Seq<MatchView>, count: int, item: MatchView, next: MatchView)
    requires
        all_above(list, count, item),
        match_order(item, next) != Order::Less,
    ensures
        all_above(list, count, next),
{
    assert forall|k: int| 0 <= k < count implies match_order(#[trigger] list[k], next)
        == Order::Greater by {
        lemma_match_order_transitive(list[k], item, next);
    }
}

/// Puts one match in its place among the matches from `start` on, and returns
/// where the place of a match that does not rank above it is to be looked for.
fn place_match(list: &mut Vec<PathMatch>, start: usize, item: PathMatch, limit: usize) -> (next:
    usize)
    requires
        start <= old(list)@.len(),
    ensures
        next <= final(list)@.len(),
        old(list)@.len() <= final(list)@.len() <= room(old(list)@.len(), limit as int),
        final(list)@.len() <= old(list)@.len() + 1,
        drawn_from(match_views(final(list)@), match_views(old(list)@), seq![item@]),
        placed(match_views(old(list)@), item@, limit as int, match_views(final(list)@)),
        is_sorted(match_views(old(list)@)) && all_above(
            match_views(old(list)@),
            start as int,
            item@,
        ) ==> {
            &&& match_views(final(list)@) == best(
                with_match(match_views(old(list)@), item@),
                room(old(list)@.len(), limit as int),
            )
            &&& all_above(match_views(final(list)@), next as int, item@)
        },
{
    let ghost before = match_views(list@);
    let ghost view = item@;
    let place = search_slot(list, start, &item);
    let index: usize = place.1;
    if place.0 {
        proof {
            assert(has_rank(before, view));
            assert forall|k: int| 0 <= k < before.len() implies before.contains(
                #[trigger] before[k],
            ) by {}
        }
        return start;
    }
    proof {
        if is_sorted(before) && all_above(before, start as int, view) {
            lemma_slot(before, view);
        }
    }
    if list.len() < limit {
        list.insert(index, item);
        assert(match_views(list@) =~= before.insert(index as int, view));
    } else if index < list.len() {
        list.pop();
        list.insert(index, item);
        assert(match_views(list@) =~= before.drop_last().insert(index as int, view));
        assert(match_views(list@) =~= before.insert(index as int, view).take(before.len() as int));
    } else {
        assert(before.insert(index as int, view).take(before.len() as int) =~= before);
    }
    proof {
        let after = match_views(list@);
        assert forall|k: int| 0 <= k < after.len() implies before.contains(#[trigger] after[k])
            || seq![view].contains(after[k]) by {
            if k < index {
                assert(after[k] == before[k]);
            } else if k == index {
                assert(seq![view][0] == after[k]);
            } else {
                assert(after[k] == before[k - 1]);
            }
        }
        assert forall|k: int| 0 <= k < index implies after[k] == before[k] by {}
    }
    index
}

/// How far merging has come: `pops` matches of the list have given up their place
/// so far, each for one of the first `count` of `items`, and only once there was no
/// room left.
spec fn merging(
    list: Seq<MatchView>,
    items: Seq<MatchView>,
    count: int,
    limit: int,
    pops: int,
    out: Seq<MatchView>,
) -> bool {
    &&& 0 <= pops
    &&& list.len() <= out.len() <= room(list.len(), limit)
    &&& out.len() - list.len() + pops <= count
    &&& pops > 0 ==> out.len() == room(list.len(), limit)
    &&& pops <= list.len() ==> is_subsequence(list.take(list.len() - pops), out)
    &&& list.len() + count <= room(list.len(), limit) || out.len() < limit ==> forall|k: int|
        0 <= k < count ==> has_rank(out, #[trigger] items[k])
}

/// Placing the next match takes merging one further; returns how many matches have
/// given up their place then.
proof fn lemma_merging_step(
    list: Seq<MatchView>,
    items: Seq<MatchView>,
    count: int,
    limit: int,
    pops: int,
    out: Seq<MatchView>,
    next: Seq<MatchView>,
) -> (next_pops: int)
    requires
        0 <= count < items.len(),
        merging(list, items, count, limit, pops, out),
        placed(out, items[count], limit, next),
    ensures
        merging(list, items, count + 1, limit, next_pops, next),
{
    let item = items[count];
    lemma_match_order_total(item, item);
    if out == next && (has_rank(out, item) || limit <= out.len()) {
        pops
    } else if out.len() < limit {
        let index = choose|index: int|
            0 <= index <= out.len() && next == #[trigger] out.insert(index, item);
        assert(next[index] == item);
        if pops <= list.len() {
            lemma_subsequence_insert(list.take(list.len() - pops), out, index, item);
        }
        assert forall|k: int| 0 <= k < count + 1 implies has_rank(next, #[trigger] items[k]) by {
            if k < count {
                lemma_insert_keeps_rank(out, index, item, items[k]);
            }
        }
        pops
    } else {
        let index = choose|index: int|
            0 <= index < out.len() && next == #[trigger] out.drop_last().insert(index, item);
        if pops + 1 <= list.len() {
            let part = list.take(list.len() - pops);
            lemma_subsequence_drop_last(part, out);
            assert(part.drop_last() =~= list.take(list.len() - (pops + 1)));
            lemma_subsequence_insert(part.drop_last(), out.drop_last(), index, item);
        }
        pops + 1
    }
}

/// When every match has been placed, what holds in any order holds.
proof fn lemma_merging_done(
    list: Seq<MatchView>,
    items: Seq<MatchView>,
    limit: int,
    pops: int,
    out: Seq<MatchView>,
)
    requires
        merging(list, items, items.len() as int, limit, pops, out),
        placed_in_turn(list, items, limit, out),
        drawn_from(out, list, items),
    ensures
        merged_in_any_order(list, items, limit, out),
{
    let stay = sure_to_stay(list.len(), items.len(), limit);
    if stay == 0 {
        lemma_empty_is_subsequence(list.take(stay), out);
    } else {
        let part = list.take(list.len() - pops);
        lemma_start_is_subsequence(part, out, stay);
        assert(part.take(stay) =~= list.take(stay));
    }
}

/// Merges `items` into `list`, which keeps its order, drops the matches that it
/// already has, and grows to no more than `limit` matches. Both are meant to be
/// sorted; of lists that are not, what holds wherever the search for a place ends
/// is said.
pub fn extend_sorted(list: &mut Vec<PathMatch>, items: Vec<PathMatch>, limit: usize)
    ensures
        is_sorted(match_views(old(list)@)) && is_sorted(match_views(items@)) ==> match_views(
            final(list)@,
        ) == extended(match_views(old(list)@), match_views(items@), limit as int),
        merged_in_any_order(
            match_views(old(list)@),
            match_views(items@),
            limit as int,
            match_views(final(list)@),
        ),
{
    let ghost list0 = match_views(list@);
    let ghost news = match_views(items@);
    let ghost cap = room(list0.len(), limit as int);
    let ghost ready = is_sorted(list0) && is_sorted(news);
    let ghost mut pops: int = 0;
    let mut start: usize = 0;
    let mut i: usize = 0;
    assert(news.take(0) =~= Seq::empty());
    proof {
        assert forall|k: int| 0 <= k < list0.len() implies list0.contains(#[trigger] list0[k]) by {}
        lemma_list_is_subsequence(list0);
        assert(list0.take(list0.len() as int) =~= list0);
    }
    while i < items.len()
        invariant
            i <= items@.len(),
            news == match_views(items@),
            ready ==> is_sorted(list0) && is_sorted(news),
            cap == room(list0.len(), limit as int),
            start <= list@.len(),
            merging(list0, news, i as int, limit as int, pops, match_views(list@)),
            placed_in_turn(list0, news.take(i as int), limit as int, match_views(list@)),
            drawn_from(match_views(list@), list0, news),
            ready ==> match_views(list@) == best(merged(list0, news.take(i as int)), cap),
            ready && i < news.len() ==> all_above(
                match_views(list@),
                start as int,
                news[i as int],
            ),
        decreases items@.len() - i,
    {
        let ghost before = match_views(list@);
        let ghost sofar = merged(list0, news.take(i as int));
        let item: PathMatch = items[i].clone();
        assert(item@ == news[i as int]);
        start = place_match(list, start, item, limit);
        proof {
            let after = match_views(list@);
            pops = lemma_merging_step(list0, news, i as int, limit as int, pops, before, after);
            assert(news.take(i + 1).drop_last() =~= news.take(i as int));
            assert(placed(before, news.take(i + 1).last(), limit as int, after));
            assert forall|k: int| 0 <= k < after.len() implies list0.contains(#[trigger] after[k])
                || news.contains(after[k]) by {
                if before.contains(after[k]) {
                    let o = choose|o: int| 0 <= o < before.len() && before[o] == after[k];
                    assert(before[o] == after[k]);
                } else {
                    assert(seq![news[i as int]].contains(after[k]));
                    assert(after[k] == news[i as int]);
                }
            }
            if ready {
                lemma_merged_sorted(list0, news.take(i as int));
                lemma_best_sorted(sofar, cap);
                lemma_best_with_match(sofar, news[i as int], cap);
                assert(room(before.len(), limit as int) == cap);
                if i + 1 < news.len() {
                    lemma_all_above(after, start as int, news[i as int], news[i + 1]);
                }
            }
        }
        i += 1;
    }
    assert(news.take(i as int) =~= news);
    proof {
        lemma_merging_done(list0, news, limit as int, pops, match_views(list@));
    }
}

/// The best match comes first, and no two matches are of the same rank.
pub open spec fn is_strictly_sorted(list: Seq<MatchView>) -> bool {
    forall|i: int, j: int|
        0 <= i < j < list.len() ==> match_order(#[trigger] list[i], #[trigger] list[j])
            == Order::Greater
}

/// The list has a match of the rank of `item`.
pub open spec fn has_rank(list: Seq<MatchView>, item: MatchView) -> bool {
    exists|k: int| 0 <= k < list.len() && match_order(#[trigger] list[k], item) == Order::Equal
}

proof fn lemma_with_match_strict(list: Seq<MatchView>, item: MatchView)
    requires
        is_strictly_sorted(list),
    ensures
        is_strictly_sorted(with_match(list, item)),
{
    lemma_slot(list, item);
    let at = slot(list, item);
    let out = with_match(list, item);
    if out != list {
        assert forall|i: int, j: int| 0 <= i < j < out.len() implies match_order(
            #[trigger] out[i],
            #[trigger] out[j],
        ) == Order::Greater by {
            let oi = if i < at { i } else { i - 1 };
            let oj = if j < at { j } else { j - 1 };
            if i == at {
                assert(out[j] == list[oj]);
                lemma_match_order_total(list[oj], item);
                if oj > at {
                    lemma_match_order_transitive(list[at], list[oj], item);
                }
                assert(match_order(list[at], item) == Order::Less);
                if match_order(list[oj], item) == Order::Equal {
                    assert(match_order(list[at], list[oj]) == Order::Greater);
                }
            } else if j == at {
                assert(out[i] == list[oi]);
            } else {
                assert(out[i] == list[oi]);
                assert(out[j] == list[oj]);
            }
        }
    }
}

/// Putting a match in its place adds its rank and no other.
proof fn lemma_with_match_ranks(list: Seq<MatchView>, item: MatchView, probe: MatchView)
    requires
        is_sorted(list),
    ensures
        has_rank(with_match(list, item), probe) <==> has_rank(list, probe) || match_order(
            item,
            probe,
        ) == Order::Equal,
{
    lemma_slot(list, item);
    let at = slot(list, item);
    let out = with_match(list, item);
    if at < list.len() && match_order(list[at], item) == Order::Equal {
        if match_order(item, probe) == Order::Equal {
            lemma_match_order_transitive(list[at], item, probe);
            assert(has_rank(list, probe));
        }
    } else {
        assert(out[at] == item);
        if has_rank(list, probe) {
            let k = choose|k: int|
                0 <= k < list.len() && match_order(#[trigger] list[k], probe) == Order::Equal;
            if k < at {
                assert(out[k] == list[k]);
            } else {
                assert(out[k + 1] == list[k]);
            }
        }
        if has_rank(out, probe) {
            let k = choose|k: int|
                0 <= k < out.len() && match_order(#[trigger] out[k], probe) == Order::Equal;
            if k < at {
                assert(out[k] == list[k]);
            } else if k > at {
                assert(out[k] == list[k - 1]);
            }
        }
    }
}

/// A list without two matches of one rank stays one when others are merged into it.
pub proof fn lemma_merged_strict(list: Seq<MatchView>, items: Seq<MatchView>)
    requires
        is_strictly_sorted(list),
    ensures
        is_strictly_sorted(merged(list, items)),
    decreases items.len(),
{
    if items.len() > 0 {
        lemma_merged_strict(list, items.drop_last());
        lemma_with_match_strict(merged(list, items.drop_last()), items.last());
    }
}

/// A merged list has the ranks of both lists and no other.
pub proof fn law_merged_ranks(list: Seq<MatchView>, items: Seq<MatchView>, probe: MatchView)
    requires
        is_sorted(list),
    ensures
        has_rank(merged(list, items), probe) <==> has_rank(list, probe) || has_rank(items, probe),
    decreases items.len(),
{
    if items.len() > 0 {
        let front = items.drop_last();
        let sofar = merged(list, front);
        law_merged_ranks(list, front, probe);
        lemma_merged_sorted(list, front);
        lemma_with_match_ranks(sofar, items.last(), probe);
        if has_rank(front, probe) {
            let k = choose|k: int|
                0 <= k < front.len() && match_order(#[trigger] front[k], probe) == Order::Equal;
            assert(items[k] == front[k]);
        }
        if match_order(items.last(), probe) == Order::Equal {
            assert(items[items.len() - 1] == items.last());
        }
        if has_rank(items, probe) {
            let k = choose|k: int|
                0 <= k < items.len() && match_order(#[trigger] items[k], probe) == Order::Equal;
            if k < front.len() {
                assert(items[k] == front[k]);
            }
        }
    }
}

/// What merging leaves out ranks below everything that it keeps, and is left out
/// only where the list is full.
pub proof fn law_extended_keeps_best(
    list: Seq<MatchView>,
    items: Seq<MatchView>,
    limit: int,
    probe: MatchView,
)
    requires
        is_sorted(list),
        has_rank(list, probe) || has_rank(items, probe),
        !has_rank(extended(list, items, limit), probe),
    ensures
        extended(list, items, limit).len() == room(list.len(), limit),
        forall|k: int|
            0 <= k < extended(list, items, limit).len() ==> match_order(
                #[trigger] extended(list, items, limit)[k],
                probe,
            ) == Order::Greater,
{
    let all = merged(list, items);
    let kept = extended(list, items, limit);
    law_merged_ranks(list, items, probe);
    lemma_merged_sorted(list, items);
    let at = choose|k: int|
        0 <= k < all.len() && match_order(#[trigger] all[k], probe) == Order::Equal;
    if at < kept.len() {
        assert(kept[at] == all[at]);
    }
    assert forall|k: int| 0 <= k < kept.len() implies match_order(#[trigger] kept[k], probe)
        == Order::Greater by {
        assert(kept[k] == all[k]);
        assert(match_order(all[k], all[at]) != Order::Less);
        lemma_match_order_transitive(all[k], all[at], probe);
    }
}

/// Merging keeps a list sorted, and free of two matches of one rank.
pub proof fn law_extended_sorted(list: Seq<MatchView>, items: Seq<MatchView>, limit: int)
    requires
        is_sorted(list),
    ensures
        is_sorted(extended(list, items, limit)),
        is_strictly_sorted(list) ==> is_strictly_sorted(extended(list, items, limit)),
{
    lemma_merged_sorted(list, items);
    if is_strictly_sorted(list) {
        lemma_merged_strict(list, items);
    }
}

/// Merging what a list already has changes nothing.
pub proof fn law_merge_again(list: Seq<MatchView>, items: Seq<MatchView>, limit: int)
    requires
        is_sorted(list),
        forall|k: int| 0 <= k < items.len() ==> has_rank(list, #[trigger] items[k]),
    ensures
        extended(list, items, limit) == list,
    decreases items.len(),
{
    if items.len() > 0 {
        let front = items.drop_last();
        let last = items.last();
        assert forall|k: int| 0 <= k < front.len() implies has_rank(list, #[trigger] front[k]) by {
            assert(front[k] == items[k]);
        }
        law_merge_again(list, front, (list.len() + front.len()) as int);
        lemma_merged_len(list, front);
        assert(merged(list, front) =~= list);
        assert(has_rank(list, items[items.len() - 1]));
        let at = choose|k: int|
            0 <= k < list.len() && match_order(#[trigger] list[k], last) == Order::Equal;
        lemma_slot(list, last);
        let s = slot(list, last);
        if at < s {
            assert(match_order(list[at], last) == Order::Greater);
        }
        if s < at {
            assert(match_order(list[s], list[at]) != Order::Less);
            lemma_match_order_transitive(list[s], list[at], last);
        }
        assert(match_order(list[s], last) == Order::Equal);
        assert(merged(list, items) =~= list);
    }
}

/// Two lists without two matches of one rank that hold the same matches are equal.
proof fn lemma_strict_unique(a: Seq<MatchView>, b: Seq<MatchView>)
    requires
        is_strictly_sorted(a),
        is_strictly_sorted(b),
        forall|k: int| 0 <= k < a.len() ==> b.contains(#[trigger] a[k]),
        forall|k: int| 0 <= k < b.len() ==> a.contains(#[trigger] b[k]),
    ensures
        a == b,
    decreases a.len(),
{
    if a.len() == 0 {
        if b.len() > 0 {
            assert(a.contains(b[0]));
        }
        assert(a =~= b);
    } else {
        assert(b.contains(a[0]));
        let j = choose|j: int| 0 <= j < b.len() && b[j] == a[0];
        assert(a.contains(b[0]));
        let i = choose|i: int| 0 <= i < a.len() && a[i] == b[0];
        lemma_match_order_total(a[0], b[0]);
        if j > 0 && i > 0 {
            assert(match_order(b[0], b[j]) == Order::Greater);
            assert(match_order(a[0], a[i]) == Order::Greater);
        }
        assert(a[0] == b[0]);
        let ra = a.drop_first();
        let rb = b.drop_first();
        assert forall|k: int| 0 <= k < ra.len() implies rb.contains(#[trigger] ra[k]) by {
            assert(ra[k] == a[k + 1]);
            assert(b.contains(a[k + 1]));
            let m = choose|m: int| 0 <= m < b.len() && b[m] == a[k + 1];
            assert(match_order(a[0], a[k + 1]) == Order::Greater);
            lemma_match_order_total(a[0], a[0]);
            assert(m > 0);
            assert(rb[m - 1] == ra[k]);
        }
        assert forall|k: int| 0 <= k < rb.len() implies ra.contains(#[trigger] rb[k]) by {
            assert(rb[k] == b[k + 1]);
            assert(a.contains(b[k + 1]));
            let m = choose|m: int| 0 <= m < a.len() && a[m] == b[k + 1];
            assert(match_order(b[0], b[k + 1]) == Order::Greater);
            lemma_match_order_total(b[0], b[0]);
            assert(m > 0);
            assert(ra[m - 1] == rb[k]);
        }
        assert forall|i: int, j: int| 0 <= i < j < ra.len() implies match_order(
            #[trigger] ra[i],
            #[trigger] ra[j],
        ) == Order::Greater by {
            assert(match_order(a[i + 1], a[j + 1]) == Order::Greater);
        }
        assert forall|i: int, j: int| 0 <= i < j < rb.len() implies match_order(
            #[trigger] rb[i],
            #[trigger] rb[j],
        ) == Order::Greater by {
            assert(match_order(b[i + 1], b[j + 1]) == Order::Greater);
        }
        lemma_strict_unique(ra, rb);
        assert(a =~= seq![a[0]] + ra);
        assert(b =~= seq![b[0]] + rb);
    }
}

/// A merged list holds only matches of the two lists.
proof fn lemma_merged_drawn(list: Seq<MatchView>, items: Seq<MatchView>)
    requires
        is_sorted(list),
    ensures
        drawn_from(merged(list, items), list, items),
    decreases items.len(),
{
    let out = merged(list, items);
    if items.len() == 0 {
        assert forall|k: int| 0 <= k < out.len() implies list.contains(#[trigger] out[k])
            || items.contains(out[k]) by {}
    } else {
        let front = items.drop_last();
        let sofar = merged(list, front);
        lemma_merged_drawn(list, front);
        lemma_merged_sorted(list, front);
        lemma_slot(sofar, items.last());
        let at = slot(sofar, items.last());
        assert forall|k: int| 0 <= k < out.len() implies list.contains(#[trigger] out[k])
            || items.contains(out[k]) by {
            if out != sofar && k == at {
                assert(items[items.len() - 1] == out[k]);
            } else {
                let o = if out == sofar || k < at { k } else { k - 1 };
                assert(out[k] == sofar[o]);
                if front.contains(sofar[o]) {
                    let f = choose|f: int| 0 <= f < front.len() && front[f] == sofar[o];
                    assert(items[f] == out[k]);
                }
            }
        }
    }
}

/// Searches that were cut short add up: where the matches that two of them found
/// make up the whole result, merging the one into the other gives the whole result.
pub proof fn law_partial_results_add_up(
    whole: Seq<MatchView>,
    first: Seq<MatchView>,
    second: Seq<MatchView>,
    limit: int,
)
    requires
        is_strictly_sorted(whole),
        is_strictly_sorted(first),
        is_strictly_sorted(second),
        whole.len() <= limit,
        drawn_from(whole, first, second),
        forall|k: int| 0 <= k < first.len() ==> whole.contains(#[trigger] first[k]),
        forall|k: int| 0 <= k < second.len() ==> whole.contains(#[trigger] second[k]),
    ensures
        extended(first, second, limit) == whole,
{
    let all = merged(first, second);
    lemma_merged_drawn(first, second);
    assert forall|k: int| 0 <= k < all.len() implies whole.contains(#[trigger] all[k]) by {
        if first.contains(all[k]) {
            let f = choose|f: int| 0 <= f < first.len() && first[f] == all[k];
            assert(whole.contains(first[f]));
        } else {
            let f = choose|f: int| 0 <= f < second.len() && second[f] == all[k];
            assert(whole.contains(second[f]));
        }
    }
    assert forall|k: int| 0 <= k < whole.len() implies all.contains(#[trigger] whole[k]) by {
        let m = whole[k];
        lemma_match_order_total(m, m);
        if first.contains(m) {
            let f = choose|f: int| 0 <= f < first.len() && first[f] == m;
            assert(match_order(first[f], m) == Order::Equal);
        } else {
            let f = choose|f: int| 0 <= f < second.len() && second[f] == m;
            assert(match_order(second[f], m) == Order::Equal);
        }
        law_merged_ranks(first, second, m);
        let at = choose|at: int|
            0 <= at < all.len() && match_order(#[trigger] all[at], m) == Order::Equal;
        assert(whole.contains(all[at]));
        let w = choose|w: int| 0 <= w < whole.len() && whole[w] == all[at];
        lemma_match_order_total(all[at], m);
        if w < k {
            assert(match_order(whole[w], whole[k]) == Order::Greater);
        }
        if k < w {
            assert(match_order(whole[k], whole[w]) == Order::Greater);
        }
        assert(all[at] == m);
    }
    lemma_merged_strict(first, second);
    lemma_strict_unique(all, whole);
    lemma_merged_len(first, second);
}

/// Merging never shortens a list.
proof fn lemma_merged_len(list: Seq<MatchView>, items: Seq<MatchView>)
    requires
        is_sorted(list),
    ensures
        list.len() <= merged(list, items).len() <= list.len() + items.len(),
    decreases items.len(),
{
    if items.len() > 0 {
        lemma_merged_len(list, items.drop_last());
        lemma_merged_sorted(list, items.drop_last());
        lemma_slot(merged(list, items.drop_last()), items.last());
    }
}

} // verus!
