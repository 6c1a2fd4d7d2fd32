//! What holds of the finder over several events.

use vstd::prelude::*;

#[allow(unused_imports)]
use crate::finder::{FileFinderDelegate, FinderView, Search, caret_of, candidate_sets_of,
    first_selected, is_first_selected, lemma_first_selected, not_open, path_views, recent_match,
    recent_matches, recent_paths, selects};
#[allow(unused_imports)]
use crate::path::path_components;
#[allow(unused_imports)]
use crate::path_match::MatchView;
#[allow(unused_imports)]
use crate::project_path::{ProjectPath, ProjectPathView, same_file};
#[allow(unused_imports)]
use crate::query::{PathLikeWithPosition, QueryView};

verus! {

/// The newest search is never out of date: whatever happened before it was started,
/// its matches are accepted.
pub proof fn law_newest_search_is_accepted(
    finder: FinderView,
    query: PathLikeWithPosition<QueryView>,
    roots: Seq<Option<bool>>,
)
    requires
        finder.wf(),
    ensures
        finder.started().accepts(finder.search_for(query, roots).search_id),
{
}

/// Searches are numbered in the order in which they are started.
pub proof fn law_later_search_has_greater_id(
    finder: FinderView,
    query: PathLikeWithPosition<QueryView>,
    roots: Seq<Option<bool>>,
    later_query: PathLikeWithPosition<QueryView>,
    later_roots: Seq<Option<bool>>,
)
    requires
        finder.search_count < usize::MAX,
    ensures
        finder.search_for(query, roots).search_id < finder.started().search_for(
            later_query,
            later_roots,
        ).search_id,
{
}

/// Once the matches of a search are listed, those of an older one are dropped.
pub proof fn law_older_search_is_dropped(
    finder: FinderView,
    newer: usize,
    older: usize,
    did_cancel: bool,
    query: PathLikeWithPosition<QueryView>,
    matches: Seq<MatchView>,
)
    requires
        older < newer,
    ensures
        !finder.listing(newer, did_cancel, query, matches).accepts(older),
{
}

/// Emptying the query drops whatever searches that were started before still find.
pub proof fn law_emptied_query_drops_searches(finder: FinderView, search_id: usize)
    requires
        search_id < finder.search_count,
    ensures
        !finder.cleared().accepts(search_id),
{
}

/// A search goes on with the one listed before it exactly where that was cut short
/// and asked for the same file. Rows and columns do not count.
pub proof fn law_cut_short_search_is_resumed(
    finder: FinderView,
    search_id: usize,
    did_cancel: bool,
    query: PathLikeWithPosition<QueryView>,
    matches: Seq<MatchView>,
    next: PathLikeWithPosition<QueryView>,
)
    ensures
        finder.listing(search_id, did_cancel, query, matches).resumes(next) <==> did_cancel
            && query.path_like.path_query() == next.path_like.path_query(),
{
}

/// The open file is listed first, and only there.
pub proof fn law_open_file_is_listed_once(
    open: ProjectPathView,
    history: Seq<ProjectPathView>,
)
    ensures
        recent_paths(Some(open), history).len() > 0,
        recent_paths(Some(open), history)[0] == open,
        forall|k: int|
            0 < k < recent_paths(Some(open), history).len() ==> !same_file(
                #[trigger] recent_paths(Some(open), history)[k],
                open,
            ),
{
    let keep = not_open(Some(open));
    let listed = recent_paths(Some(open), history);
    let rest = history.filter(keep);
    assert forall|k: int| 0 < k < listed.len() implies !same_file(#[trigger] listed[k], open) by {
        assert(listed[k] == rest[k - 1]);
        history.lemma_filter_pred(keep, k - 1);
    }
}

/// Every file visited before is listed, under its own name unless it is the open
/// file, and no other file is.
pub proof fn law_history_is_listed(
    opened: Option<ProjectPathView>,
    history: Seq<ProjectPathView>,
    path: ProjectPathView,
)
    ensures
        recent_paths(opened, history).contains(path) <==> opened == Some(path) || (
        history.contains(path) && not_open(opened)(path)),
{
    let keep = not_open(opened);
    let listed = recent_paths(opened, history);
    let rest = history.filter(keep);
    let lead: Seq<ProjectPathView> = match opened {
        Some(open) => seq![open],
        None => Seq::empty(),
    };
    assert(listed == lead + rest);
    if listed.contains(path) {
        let k = choose|k: int| 0 <= k < listed.len() && listed[k] == path;
        if k >= lead.len() {
            assert(rest[k - lead.len()] == path);
            history.lemma_filter_contains_rev(keep, path);
            history.lemma_filter_pred(keep, k - lead.len());
        }
    }
    if opened == Some(path) {
        assert(listed[0] == path);
    }
    if history.contains(path) && keep(path) {
        let k = choose|k: int| 0 <= k < history.len() && history[k] == path;
        history.lemma_filter_contains(keep, k);
        let r = choose|r: int| 0 <= r < rest.len() && rest[r] == path;
        assert(listed[lead.len() + r] == path);
    }
}

/// Without an open file the history is listed as it is.
pub proof fn law_history_without_open_file(history: Seq<ProjectPathView>)
    ensures
        recent_paths(None, history) == history,
    decreases history.len(),
{
    reveal(Seq::filter);
    let keep = not_open(None);
    if history.len() > 0 {
        law_history_without_open_file(history.drop_last());
        assert(recent_paths(None, history.drop_last()) =~= history.drop_last().filter(keep));
    }
    assert(history.filter(keep) =~= history);
    assert(recent_paths(None, history) =~= history);
}

/// Moving to a match selects its file: the selected match is the first one of that
/// file, so it is that match itself where no match before it is of the same file.
pub proof fn law_moving_selects(finder: FinderView, ix: int)
    requires
        0 <= ix < finder.matches.len(),
    ensures
        0 <= finder.selecting(ix).selected_index() <= ix,
        selects(
            (finder.matches[ix].worktree_id, finder.matches[ix].path),
            finder.matches[finder.selecting(ix).selected_index()],
        ),
        (forall|k: int|
            0 <= k < ix ==> !selects(
                (finder.matches[ix].worktree_id, finder.matches[ix].path),
                #[trigger] finder.matches[k],
            )) ==> finder.selecting(ix).selected_index() == ix,
{
    let wanted = (finder.matches[ix].worktree_id, finder.matches[ix].path);
    let first = lemma_some_first_selected(finder.matches, wanted, ix);
    lemma_first_selected(finder.matches, wanted, first);
}

/// Among matches up to one of the selected file there is a first such match.
proof fn lemma_some_first_selected(
    matches: Seq<MatchView>,
    selected: (usize, Seq<u8>),
    ix: int,
) -> (first: int)
    requires
        0 <= ix < matches.len(),
        selects(selected, matches[ix]),
    ensures
        0 <= first <= ix,
        is_first_selected(matches, selected, first),
    decreases ix,
{
    if forall|j: int| 0 <= j < ix ==> !selects(selected, #[trigger] matches[j]) {
        ix
    } else {
        let j = choose|j: int| 0 <= j < ix && selects(selected, #[trigger] matches[j]);
        lemma_some_first_selected(matches, selected, j)
    }
}

/// The selection is of a file, not of a place in the list: when other matches are
/// listed, the selected match is the first one of the selected file, and the first
/// match where that file is not listed.
pub proof fn law_selection_follows_file(
    finder: FinderView,
    search_id: usize,
    did_cancel: bool,
    query: PathLikeWithPosition<QueryView>,
    matches: Seq<MatchView>,
    selected: (usize, Seq<u8>),
)
    requires
        finder.selected == Some(selected),
    ensures
        ({
            let ix = finder.listing(search_id, did_cancel, query, matches).selected_index();
            if exists|k: int| 0 <= k < matches.len() && selects(selected, #[trigger] matches[k]) {
                is_first_selected(matches, selected, ix)
            } else {
                ix == 0
            }
        }),
{
    if exists|k: int| 0 <= k < matches.len() && selects(selected, #[trigger] matches[k]) {
        let k = choose|k: int| 0 <= k < matches.len() && selects(selected, #[trigger] matches[k]);
        let first = lemma_some_first_selected(matches, selected, k);
        lemma_first_selected(matches, selected, first);
    } else {
        assert forall|k: int| !is_first_selected(matches, selected, k) by {}
    }
}

/// Rows and columns that a user counts from one are the same ones in the caret's
/// count from zero; zero is taken for one, and so is a missing column.
pub proof fn law_caret_counts_from_zero(query: PathLikeWithPosition<QueryView>, row: u32)
    requires
        query.row == Some(row),
    ensures
        caret_of(Some(query)) matches Some(caret) && {
            &&& caret.0 + 1 == (if row == 0 {
                1
            } else {
                row as int
            })
            &&& caret.1 + 1 == (match query.column {
                Some(column) => if column == 0 {
                    1
                } else {
                    column as int
                },
                None => 1,
            })
        },
{
}

/// The matches of a search are accepted exactly where it is not older than the listed
/// one, however many searches were started since.
pub proof fn law_accepted_unless_older(finder: FinderView, search_id: usize, started: usize)
    ensures
        search_id >= finder.latest_search_id <==> finder.accepts(search_id),
        finder.accepts(search_id) <==> (FinderView { search_count: started, ..finder }).accepts(
            search_id,
        ),
{
}

/// A search that was started after the listed one is accepted after any number of
/// further starts.
pub proof fn law_further_starts_drop_nothing(
    finder: FinderView,
    query: PathLikeWithPosition<QueryView>,
    roots: Seq<Option<bool>>,
    starts: nat,
)
    requires
        finder.latest_search_id <= finder.search_count,
    ensures
        after_starts(finder.started(), starts).accepts(finder.search_for(query, roots).search_id),
{
    lemma_starts_keep_listed(finder.started(), starts);
}

/// The finder after so many more starts.
pub open spec fn after_starts(finder: FinderView, starts: nat) -> FinderView
    decreases starts,
{
    if starts == 0 {
        finder
    } else {
        after_starts(finder.started(), (starts - 1) as nat)
    }
}

proof fn lemma_starts_keep_listed(finder: FinderView, starts: nat)
    ensures
        after_starts(finder, starts).latest_search_id == finder.latest_search_id,
    decreases starts,
{
    if starts > 0 {
        lemma_starts_keep_listed(finder.started(), (starts - 1) as nat);
    }
}

/// A finder opens with nothing searched, listed or selected.
pub proof fn law_fresh_finder_is_empty(
    opened: Option<ProjectPathView>,
    history: Seq<ProjectPathView>,
)
    ensures
        ({
            let finder = FinderView::fresh(opened, history);
            &&& finder.search_count == 0
            &&& finder.latest_search_id == 0
            &&& !finder.latest_search_did_cancel
            &&& finder.latest_search_query is None
            &&& finder.matches.len() == 0
            &&& finder.selected is None
            &&& finder.currently_opened_path == opened
            &&& finder.history_items == history
        }),
{
}

/// Starting a search counts it, and changes nothing that is listed or selected.
pub proof fn law_start_only_counts(finder: FinderView)
    requires
        finder.search_count < usize::MAX,
    ensures
        finder.started().search_count == finder.search_count + 1,
        finder.started().latest_search_id == finder.latest_search_id,
        finder.started().latest_search_did_cancel == finder.latest_search_did_cancel,
        finder.started().latest_search_query == finder.latest_search_query,
        finder.started().currently_opened_path == finder.currently_opened_path,
        finder.started().matches == finder.matches,
        finder.started().selected == finder.selected,
        finder.started().history_items == finder.history_items,
{
}

/// A search looks for the part of the query that names a file, near the open file,
/// without regard to capitals, and for no more than a hundred matches.
pub proof fn law_search_asks_for_query(
    finder: FinderView,
    query: PathLikeWithPosition<QueryView>,
    roots: Seq<Option<bool>>,
)
    ensures
        ({
            let search = finder.search_for(query, roots);
            &&& search.search_id == finder.search_count
            &&& search.query == query
            &&& search.path_query == query.path_like.path_query()
            &&& finder.currently_opened_path is None ==> search.relative_to is None
            &&& finder.currently_opened_path matches Some(opened) ==> search.relative_to == Some(
                opened.path,
            )
            &&& !search.smart_case
            &&& search.max_results == 100
            &&& search.candidate_sets == candidate_sets_of(roots)
        }),
{
}

/// Every worktree is searched, in turn: ignored files only where its root is known to
/// be ignored, and its root's name only where there are several worktrees.
pub proof fn law_every_worktree_is_searched(roots: Seq<Option<bool>>, k: int)
    ensures
        candidate_sets_of(roots).len() == roots.len(),
        0 <= k < roots.len() ==> {
            &&& candidate_sets_of(roots)[k].include_ignored <==> roots[k] == Some(true)
            &&& candidate_sets_of(roots)[k].include_root_name <==> roots.len() > 1
        },
{
}

/// Emptying the query lists the recent files, all of them and each at its place, and
/// takes the place of the newest search. What is selected and what was asked for last
/// stay.
pub proof fn law_emptied_query_lists_recent(finder: FinderView)
    requires
        finder.search_count < usize::MAX,
    ensures
        ({
            let recent = recent_paths(finder.currently_opened_path, finder.history_items);
            let after = finder.cleared();
            &&& after.matches.len() == recent.len()
            &&& forall|k: int|
                0 <= k < recent.len() ==> {
                    let m = #[trigger] after.matches[k];
                    &&& m.worktree_id == recent[k].worktree_id
                    &&& m.path == recent[k].path
                    &&& m.score.fraction == 0
                    &&& k <= i128::MAX ==> m.score.whole == k
                    &&& m.positions.len() == 0
                    &&& m.path_prefix.len() == 0
                    &&& m.distance_to_relative_ancestor == usize::MAX
                }
            &&& after.search_count == finder.search_count + 1
            &&& after.latest_search_id == finder.search_count
            &&& after.latest_search_did_cancel == finder.latest_search_did_cancel
            &&& after.latest_search_query == finder.latest_search_query
            &&& after.currently_opened_path == finder.currently_opened_path
            &&& after.selected == finder.selected
            &&& after.history_items == finder.history_items
        }),
{
}

/// The recent files are the open one and then the history, file by file in its order,
/// each time that it occurs there, without those of the open one's worktree whose
/// paths have the open one's components.
pub proof fn law_recent_files_one_by_one(
    opened: Option<ProjectPathView>,
    history: Seq<ProjectPathView>,
    path: ProjectPathView,
)
    ensures
        opened is None ==> recent_paths(opened, Seq::empty()) == Seq::<ProjectPathView>::empty(),
        opened matches Some(open) ==> recent_paths(opened, Seq::empty()) == seq![open],
        (opened matches Some(open) && open.worktree_id == path.worktree_id && path_components(
            open.path,
        ) == path_components(path.path)) ==> recent_paths(opened, history.push(path))
            == recent_paths(opened, history),
        !(opened matches Some(open) && open.worktree_id == path.worktree_id && path_components(
            open.path,
        ) == path_components(path.path)) ==> recent_paths(opened, history.push(path))
            == recent_paths(opened, history).push(path),
{
    let keep = not_open(opened);
    reveal(Seq::filter);
    assert(history.push(path).drop_last() =~= history);
    let none = Seq::<ProjectPathView>::empty();
    assert(none.filter(keep) =~= none);
    let lead: Seq<ProjectPathView> = match opened {
        Some(open) => seq![open],
        None => Seq::empty(),
    };
    assert(recent_paths(opened, none) =~= lead);
    if keep(path) {
        assert(recent_paths(opened, history.push(path)) =~= recent_paths(opened, history).push(
            path,
        ));
    }
}

/// Emptying the query while a file is open lists that file first, and no other match
/// is of its worktree with a path of the same components.
pub proof fn law_open_file_is_first_match(finder: FinderView, open: ProjectPathView)
    requires
        finder.currently_opened_path == Some(open),
    ensures
        ({
            let listed = finder.cleared().matches;
            &&& listed.len() > 0
            &&& listed[0].worktree_id == open.worktree_id
            &&& listed[0].path == open.path
            &&& forall|k: int|
                0 < k < listed.len() ==> !((#[trigger] listed[k]).worktree_id == open.worktree_id
                    && path_components(listed[k].path) == path_components(open.path))
        }),
{
    let recent = recent_paths(Some(open), finder.history_items);
    let listed = finder.cleared().matches;
    law_open_file_is_listed_once(open, finder.history_items);
    assert forall|k: int| 0 < k < listed.len() implies !((#[trigger] listed[k]).worktree_id
        == open.worktree_id && path_components(listed[k].path) == path_components(open.path)) by {
        assert(!same_file(recent[k], open));
    }
}

/// Emptying the query without an open file lists the whole history in its order.
pub proof fn law_whole_history_is_listed(finder: FinderView)
    requires
        finder.currently_opened_path is None,
    ensures
        finder.cleared().matches.len() == finder.history_items.len(),
        forall|k: int|
            0 <= k < finder.history_items.len() ==> (#[trigger] finder.cleared().matches[k]).path
                == finder.history_items[k].path && finder.cleared().matches[k].worktree_id
                == finder.history_items[k].worktree_id,
{
    law_history_without_open_file(finder.history_items);
}

/// A query goes on with the listed search exactly where that was cut short and its
/// query names the same file.
pub proof fn law_resumes(finder: FinderView, query: PathLikeWithPosition<QueryView>)
    ensures
        finder.latest_search_query is None || !finder.latest_search_did_cancel ==> !finder.resumes(
            query,
        ),
        finder.latest_search_query matches Some(latest) ==> (finder.latest_search_did_cancel
            && latest.path_like.path_query() == query.path_like.path_query() <==> finder.resumes(
            query,
        )),
{
}

/// Listing matches notes whose they are, and changes neither the count of searches
/// nor what is selected or visited.
pub proof fn law_listing_notes_search(
    finder: FinderView,
    search_id: usize,
    did_cancel: bool,
    query: PathLikeWithPosition<QueryView>,
    matches: Seq<MatchView>,
)
    ensures
        ({
            let after = finder.listing(search_id, did_cancel, query, matches);
            &&& after.latest_search_id == search_id
            &&& after.latest_search_did_cancel == did_cancel
            &&& after.latest_search_query == Some(query)
            &&& after.matches == matches
            &&& after.search_count == finder.search_count
            &&& after.currently_opened_path == finder.currently_opened_path
            &&& after.selected == finder.selected
            &&& after.history_items == finder.history_items
        }),
{
}

/// Moving to a match notes its worktree and path, and changes nothing else.
pub proof fn law_moving_notes_file(finder: FinderView, ix: int)
    requires
        0 <= ix < finder.matches.len(),
    ensures
        ({
            let after = finder.selecting(ix);
            &&& after.selected == Some((finder.matches[ix].worktree_id, finder.matches[ix].path))
            &&& after.matches == finder.matches
            &&& after.search_count == finder.search_count
            &&& after.latest_search_id == finder.latest_search_id
            &&& after.latest_search_did_cancel == finder.latest_search_did_cancel
            &&& after.latest_search_query == finder.latest_search_query
            &&& after.currently_opened_path == finder.currently_opened_path
            &&& after.history_items == finder.history_items
        }),
{
}

/// Moving to a match selects a match of its worktree whose path has the same
/// components, and that match itself unless one before it is such a match too. A file
/// of the same name elsewhere is another file.
pub proof fn law_moving_selects_file(finder: FinderView, ix: int)
    requires
        0 <= ix < finder.matches.len(),
    ensures
        ({
            let at = finder.selecting(ix).selected_index();
            let wanted = finder.matches[ix];
            &&& 0 <= at <= ix
            &&& finder.matches[at].worktree_id == wanted.worktree_id
            &&& path_components(finder.matches[at].path) == path_components(wanted.path)
            &&& forall|k: int|
                0 <= k < at ==> !((#[trigger] finder.matches[k]).worktree_id == wanted.worktree_id
                    && path_components(finder.matches[k].path) == path_components(wanted.path))
            &&& (forall|k: int|
                0 <= k < ix ==> !((#[trigger] finder.matches[k]).worktree_id == wanted.worktree_id
                    && path_components(finder.matches[k].path) == path_components(wanted.path)))
                ==> at == ix
        }),
{
    let wanted = (finder.matches[ix].worktree_id, finder.matches[ix].path);
    let first = lemma_some_first_selected(finder.matches, wanted, ix);
    lemma_first_selected(finder.matches, wanted, first);
    assert forall|k: int| 0 <= k < first implies !((#[trigger] finder.matches[k]).worktree_id
        == wanted.0 && path_components(finder.matches[k].path) == path_components(wanted.1)) by {
        assert(!selects(wanted, finder.matches[k]));
    }
}

/// The selected match is the first one of the noted worktree whose path has the noted
/// one's components, and the first match where there is none or nothing is noted.
pub proof fn law_selected_match_is_noted_file(finder: FinderView)
    ensures
        finder.selected is None ==> finder.selected_index() == 0,
        finder.selected matches Some(noted) ==> {
            let at = finder.selected_index();
            ||| 0 <= at < finder.matches.len() && finder.matches[at].worktree_id == noted.0
                && path_components(finder.matches[at].path) == path_components(noted.1) && forall|
                k: int,
            |
                0 <= k < at ==> !((#[trigger] finder.matches[k]).worktree_id == noted.0
                    && path_components(finder.matches[k].path) == path_components(noted.1))
            ||| at == 0 && forall|k: int|
                0 <= k < finder.matches.len() ==> !((#[trigger] finder.matches[k]).worktree_id
                    == noted.0 && path_components(finder.matches[k].path) == path_components(
                    noted.1,
                ))
        },
{
    if let Some(noted) = finder.selected {
        let matches = finder.matches;
        if exists|k: int| 0 <= k < matches.len() && selects(noted, #[trigger] matches[k]) {
            let k = choose|k: int| 0 <= k < matches.len() && selects(noted, #[trigger] matches[k]);
            let first = lemma_some_first_selected(matches, noted, k);
            lemma_first_selected(matches, noted, first);
            assert forall|k: int| 0 <= k < first implies !((#[trigger] matches[k]).worktree_id
                == noted.0 && path_components(matches[k].path) == path_components(noted.1)) by {
                assert(!selects(noted, matches[k]));
            }
        } else {
            assert forall|k: int| !is_first_selected(matches, noted, k) by {}
            assert forall|k: int| 0 <= k < matches.len() implies !((
            #[trigger] matches[k]).worktree_id == noted.0 && path_components(matches[k].path)
                == path_components(noted.1)) by {
                assert(!selects(noted, matches[k]));
            }
        }
    }
}

/// Without a row there is no place to put the caret at.
pub proof fn law_no_caret_without_row(query: Option<PathLikeWithPosition<QueryView>>)
    ensures
        caret_of(query) is Some <==> query is Some && query->Some_0.row is Some,
{
}

/// The listed search has been started, and its query is well formed: no more is asked
/// of a finder.
pub proof fn law_finder_validity(finder: FinderView)
    ensures
        finder.wf() <==> finder.latest_search_id <= finder.search_count && (
        finder.latest_search_query is Some ==> finder.latest_search_query->Some_0.path_like.wf()),
{
}

/// A finder is seen with all that it holds.
pub proof fn law_finder_view(finder: FileFinderDelegate)
    ensures
        finder@.search_count == finder.search_count,
        finder@.latest_search_id == finder.latest_search_id,
        finder@.latest_search_did_cancel == finder.latest_search_did_cancel,
        finder.latest_search_query is None <==> finder@.latest_search_query is None,
        finder.latest_search_query matches Some(query) ==> finder@.latest_search_query == Some(
            query@,
        ),
        finder.currently_opened_path is None <==> finder@.currently_opened_path is None,
        finder.currently_opened_path matches Some(path) ==> finder@.currently_opened_path == Some(
            path@,
        ),
        finder@.matches.len() == finder.matches@.len(),
        forall|k: int|
            0 <= k < finder.matches@.len() ==> #[trigger] finder@.matches[k] == finder.matches@[k]@,
        finder.selected is None <==> finder@.selected is None,
        finder.selected matches Some(noted) ==> finder@.selected == Some((noted.0, noted.1@)),
        finder@.history_items.len() == finder.history_items@.len(),
        forall|k: int|
            0 <= k < finder.history_items@.len() ==> #[trigger] finder@.history_items[k]
                == finder.history_items@[k]@,
{
}

/// A list of files is seen file by file.
pub proof fn law_path_views(paths: Seq<ProjectPath>)
    ensures
        path_views(paths).len() == paths.len(),
        forall|k: int| 0 <= k < paths.len() ==> #[trigger] path_views(paths)[k] == paths[k]@,
{
}

/// A search is seen with all that it asks for.
pub proof fn law_search_view(search: Search)
    ensures
        search@.search_id == search.search_id,
        search@.query == search.query@,
        search@.path_query == search.path_query@,
        search.relative_to is None <==> search@.relative_to is None,
        search.relative_to matches Some(path) ==> search@.relative_to == Some(path@),
        search@.candidate_sets == search.candidate_sets@,
        search@.smart_case == search.smart_case,
        search@.max_results == search.max_results,
{
}

} // verus!
