//! The state of the finder and what each event does to it.

use vstd::prelude::*;

use crate::labels::labels_of;
#[allow(unused_imports)]
use crate::labels::{full_label, name_label, name_start, shifted};
use crate::merge::extend_sorted;
#[allow(unused_imports)]
use crate::merge::{extended, is_sorted, merged_in_any_order};
use crate::path::same_path;
#[allow(unused_imports)]
use crate::path::path_components;
use crate::path_match::{PathMatch, Score};
#[allow(unused_imports)]
use crate::path_match::{MatchView, match_views};
use crate::project_path::{ProjectPath, WorktreeId};
#[allow(unused_imports)]
use crate::project_path::{ProjectPathView, same_file};
use crate::query::{FileSearchQuery, PathLikeWithPosition};
#[allow(unused_imports)]
use crate::query::{QueryView, query_of};

verus! {

/// How many recently visited files the finder is opened with.
pub const MAX_RECENT_SELECTIONS: usize = 20;

/// How many matches a search finds, and a list of matches grows to.
pub const MAX_MATCHES: usize = 100;

/// The finder.
#[derive(Debug)]
pub struct FileFinderDelegate {
    /// How many searches were started; the number of the next one.
    pub search_count: usize,
    /// The newest search whose matches are listed.
    pub latest_search_id: usize,
    pub latest_search_did_cancel: bool,
    pub latest_search_query: Option<PathLikeWithPosition<FileSearchQuery>>,
    pub currently_opened_path: Option<ProjectPath>,
    pub matches: Vec<PathMatch>,
    /// The worktree and path of the match that the user moved to.
    pub selected: Option<(usize, Vec<u8>)>,
    pub history_items: Vec<ProjectPath>,
}

/// What the finder is.
#[verifier::ext_equal]
pub struct FinderView {
    pub search_count: usize,
    pub latest_search_id: usize,
    pub latest_search_did_cancel: bool,
    pub latest_search_query: Option<PathLikeWithPosition<QueryView>>,
    pub currently_opened_path: Option<ProjectPathView>,
    pub matches: Seq<MatchView>,
    pub selected: Option<(usize, Seq<u8>)>,
    pub history_items: Seq<ProjectPathView>,
}

/// What the files of a list are.
pub open spec fn path_views(paths: Seq<ProjectPath>) -> Seq<ProjectPathView> {
    paths.map_values(|p: ProjectPath| p@)
}

impl View for FileFinderDelegate {
    type V = FinderView;

    open spec fn view(&self) -> FinderView {
        FinderView {
            search_count: self.search_count,
            latest_search_id: self.latest_search_id,
            latest_search_did_cancel: self.latest_search_did_cancel,
            latest_search_query: match self.latest_search_query {
                Some(query) => Some(query@),
                None => None,
            },
            currently_opened_path: match self.currently_opened_path {
                Some(path) => Some(path@),
                None => None,
            },
            matches: match_views(self.matches@),
            selected: match self.selected {
                Some(selected) => Some((selected.0, selected.1@)),
                None => None,
            },
            history_items: path_views(self.history_items@),
        }
    }
}

/// Which files of a worktree a search looks at.
#[derive(Clone, Copy, Debug, PartialEq, Eq, Structural)]
pub struct CandidateSet {
    pub include_ignored: bool,
    pub include_root_name: bool,
}

/// A search that is to be run.
#[derive(Debug)]
pub struct Search {
    pub search_id: usize,
    pub query: PathLikeWithPosition<FileSearchQuery>,
    /// What to match paths against.
    pub path_query: String,
    /// The path that matches are better the closer they are to.
    pub relative_to: Option<Vec<u8>>,
    /// One for each worktree, in their order.
    pub candidate_sets: Vec<CandidateSet>,
    /// Whether a query with capitals matches capitals only.
    pub smart_case: bool,
    pub max_results: usize,
}

/// What a search is.
#[verifier::ext_equal]
pub struct SearchView {
    pub search_id: usize,
    pub query: PathLikeWithPosition<QueryView>,
    pub path_query: Seq<char>,
    pub relative_to: Option<Seq<u8>>,
    pub candidate_sets: Seq<CandidateSet>,
    pub smart_case: bool,
    pub max_results: usize,
}

impl View for Search {
    type V = SearchView;

    open spec fn view(&self) -> SearchView {
        SearchView {
            search_id: self.search_id,
            query: self.query@,
            path_query: self.path_query@,
            relative_to: match self.relative_to {
                Some(path) => Some(path@),
                None => None,
            },
            candidate_sets: self.candidate_sets@,
            smart_case: self.smart_case,
            max_results: self.max_results,
        }
    }
}

/// What confirming a match opens.
#[derive(Debug)]
pub struct Confirmed {
    pub project_path: ProjectPath,
    /// The row and column to put the caret at, counted from zero.
    pub caret: Option<(u32, u32)>,
}

/// What is left to do once the file that was confirmed has been opened, or could
/// not be.
#[derive(Clone, Copy, Debug)]
pub struct AfterOpening {
    /// Where to put the caret, counted from zero, if anywhere.
    pub caret: Option<(u32, u32)>,
    /// Whether the finder closes.
    pub dismiss: bool,
}

/// What worktrees are searched for: files that version control ignores only where
/// it ignores the root, and the root's name only where there is another worktree.
pub open spec fn candidate_sets_of(roots: Seq<Option<bool>>) -> Seq<CandidateSet> {
    roots.map_values(
        |ignored: Option<bool>|
            CandidateSet {
                include_ignored: ignored == Some(true),
                include_root_name: roots.len() > 1,
            },
    )
}

/// The open file is another one, or none is open.
pub open spec fn not_open(
    opened: Option<ProjectPathView>,
) -> spec_fn(ProjectPathView) -> bool {
    |p: ProjectPathView| opened matches Some(open) ==> !same_file(p, open)
}

/// The files that are listed while nothing is typed: the open one, then those
/// visited before, without the open one.
pub open spec fn recent_paths(
    opened: Option<ProjectPathView>,
    history: Seq<ProjectPathView>,
) -> Seq<ProjectPathView> {
    (match opened {
        Some(open) => seq![open],
        None => Seq::empty(),
    }) + history.filter(not_open(opened))
}

/// A recent file as the match at index `i`.
pub open spec fn recent_match(i: int, path: ProjectPathView) -> MatchView {
    MatchView {
        score: Score { whole: i as i128, fraction: 0 },
        positions: Seq::empty(),
        worktree_id: path.worktree_id,
        path: path.path,
        path_prefix: Seq::empty(),
        distance_to_relative_ancestor: usize::MAX,
    }
}

/// Recent files as matches.
pub open spec fn recent_matches(paths: Seq<ProjectPathView>) -> Seq<MatchView> {
    Seq::new(paths.len(), |i: int| recent_match(i, paths[i]))
}

/// The match is of the selected file.
pub open spec fn selects(selected: (usize, Seq<u8>), m: MatchView) -> bool {
    &&& m.worktree_id == selected.0
    &&& path_components(m.path) == path_components(selected.1)
}

/// The match at `k` is the first one of the selected file.
pub open spec fn is_first_selected(
    matches: Seq<MatchView>,
    selected: (usize, Seq<u8>),
    k: int,
) -> bool {
    &&& 0 <= k < matches.len()
    &&& selects(selected, matches[k])
    &&& forall|j: int| 0 <= j < k ==> !selects(selected, #[trigger] matches[j])
}

/// The index of the first match of the selected file, and zero where there is none.
pub open spec fn first_selected(matches: Seq<MatchView>, selected: (usize, Seq<u8>)) -> int {
    if exists|k: int| is_first_selected(matches, selected, k) {
        choose|k: int| is_first_selected(matches, selected, k)
    } else {
        0
    }
}

/// Only one match is the first one of the selected file.
pub proof fn lemma_first_selected(matches: Seq<MatchView>, selected: (usize, Seq<u8>), ix: int)
    requires
        is_first_selected(matches, selected, ix),
    ensures
        first_selected(matches, selected) == ix,
{
    let k = first_selected(matches, selected);
    assert(is_first_selected(matches, selected, k));
    if k < ix {
        assert(!selects(selected, matches[k]));
    }
    if ix < k {
        assert(!selects(selected, matches[ix]));
    }
}

/// `value` less one, and zero at the least.
pub open spec fn less_one(value: u32) -> u32 {
    if value == 0 {
        0
    } else {
        (value - 1) as u32
    }
}

/// The place in the file, counted from zero, that a query asks for. There is none
/// without a row; a column alone is nothing.
pub open spec fn caret_of(query: Option<PathLikeWithPosition<QueryView>>) -> Option<(u32, u32)> {
    match query {
        Some(q) => match q.row {
            Some(row) => Some(
                (
                    less_one(row),
                    match q.column {
                        Some(column) => less_one(column),
                        None => 0,
                    },
                ),
            ),
            None => None,
        },
        None => None,
    }
}

impl FinderView {
    /// The listed search has been started, and what names the file in its query ends
    /// between two characters.
    pub open spec fn wf(self) -> bool {
        &&& self.latest_search_id <= self.search_count
        &&& self.latest_search_query matches Some(latest) ==> latest.path_like.wf()
    }

    /// The finder when it opens.
    pub open spec fn fresh(
        opened: Option<ProjectPathView>,
        history: Seq<ProjectPathView>,
    ) -> FinderView {
        FinderView {
            search_count: 0,
            latest_search_id: 0,
            latest_search_did_cancel: false,
            latest_search_query: None,
            currently_opened_path: opened,
            matches: Seq::empty(),
            selected: None,
            history_items: history,
        }
    }

    /// The finder once another search was started.
    pub open spec fn started(self) -> FinderView {
        FinderView { search_count: (self.search_count + 1) as usize, ..self }
    }

    /// The search that is started for a query.
    pub open spec fn search_for(
        self,
        query: PathLikeWithPosition<QueryView>,
        roots: Seq<Option<bool>>,
    ) -> SearchView {
        SearchView {
            search_id: self.search_count,
            query,
            path_query: query.path_like.path_query(),
            relative_to: match self.currently_opened_path {
                Some(path) => Some(path.path),
                None => None,
            },
            candidate_sets: candidate_sets_of(roots),
            smart_case: false,
            max_results: MAX_MATCHES,
        }
    }

    /// The finder once its query was emptied.
    pub open spec fn cleared(self) -> FinderView {
        FinderView {
            search_count: (self.search_count + 1) as usize,
            latest_search_id: self.search_count,
            matches: recent_matches(recent_paths(self.currently_opened_path, self.history_items)),
            ..self
        }
    }

    /// The matches of the search are not out of date.
    pub open spec fn accepts(self, search_id: usize) -> bool {
        search_id >= self.latest_search_id
    }

    /// The query goes on with the search that is listed: that one was cut short, and
    /// the part that names the file is the same.
    pub open spec fn resumes(self, query: PathLikeWithPosition<QueryView>) -> bool {
        &&& self.latest_search_did_cancel
        &&& self.latest_search_query matches Some(latest)
            && latest.path_like.path_query() == query.path_like.path_query()
    }

    /// The finder once `matches` of an accepted search are listed.
    pub open spec fn listing(
        self,
        search_id: usize,
        did_cancel: bool,
        query: PathLikeWithPosition<QueryView>,
        matches: Seq<MatchView>,
    ) -> FinderView {
        FinderView {
            latest_search_id: search_id,
            latest_search_did_cancel: did_cancel,
            latest_search_query: Some(query),
            matches,
            ..self
        }
    }

    /// The finder once the user moved to the match at `ix`.
    pub open spec fn selecting(self, ix: int) -> FinderView {
        FinderView {
            selected: Some((self.matches[ix].worktree_id, self.matches[ix].path)),
            ..self
        }
    }

    /// The index of the selected match: that of the first match of the selected
    /// file, and zero where there is none.
    pub open spec fn selected_index(self) -> int {
        match self.selected {
            Some(selected) => first_selected(self.matches, selected),
            None => 0,
        }
    }
}

/// Tells whether two texts are the same.
fn same_text(a: &str, b: &str) -> (same: bool)
    ensures
        same == (a@ == b@),
{
    let a: String = a.to_owned();
    let b: String = b.to_owned();
    a == b
}

/// Increments the value and returns what it was.
fn post_inc(value: &mut usize) -> (prior: usize)
    requires
        *old(value) < usize::MAX,
    ensures
        prior == *old(value),
        *final(value) == *old(value) + 1,
{
    let prior: usize = *value;
    *value = prior + 1;
    prior
}

/// What the worktrees are searched for. For each worktree `roots` has whether its
/// root is ignored, or nothing where it has no root entry.
pub fn candidate_sets(roots: &Vec<Option<bool>>) -> (sets: Vec<CandidateSet>)
    ensures
        sets@ == candidate_sets_of(roots@),
{
    let include_root_name: bool = roots.len() > 1;
    let mut sets: Vec<CandidateSet> = Vec::new();
    let mut i: usize = 0;
    while i < roots.len()
        invariant
            i <= roots@.len(),
            include_root_name == (roots@.len() > 1),
            sets@ == candidate_sets_of(roots@).take(i as int),
        decreases roots@.len() - i,
    {
        let include_ignored: bool = match roots[i] {
            Some(ignored) => ignored,
            None => false,
        };
        sets.push(CandidateSet { include_ignored, include_root_name });
        assert(sets@ =~= candidate_sets_of(roots@).take(i + 1));
        i += 1;
    }
    assert(sets@ =~= candidate_sets_of(roots@));
    sets
}

/// A recent file as the match at index `i`.
fn match_of_recent(i: usize, path: &ProjectPath) -> (m: PathMatch)
    ensures
        m@ == recent_match(i as int, path@),
{
    let bytes: Vec<u8> = path.path.clone();
    assert(bytes@ =~= path.path@);
    let m = PathMatch {
        score: Score { whole: i as i128, fraction: 0 },
        positions: Vec::new(),
        worktree_id: path.worktree_id.0,
        path: bytes,
        path_prefix: String::new(),
        distance_to_relative_ancestor: usize::MAX,
    };
    assert(m@ =~= recent_match(i as int, path@));
    m
}

impl Confirmed {
    /// What is left to do once the file was opened, or could not be. A caret is put
    /// only into an editor; the finder closes unless the file could not be opened.
    pub fn after_opening(&self, opened: bool, is_editor: bool) -> (after: AfterOpening)
        ensures
            after.caret == (if opened && is_editor {
                self.caret
            } else {
                None
            }),
            after.dismiss == opened,
    {
        let caret: Option<(u32, u32)> = if opened && is_editor {
            self.caret
        } else {
            None
        };
        AfterOpening { caret, dismiss: opened }
    }
}

impl FileFinderDelegate {
    /// A finder that knows the open file and the files visited before.
    pub fn new(
        currently_opened_path: Option<ProjectPath>,
        history_items: Vec<ProjectPath>,
    ) -> (finder: FileFinderDelegate)
        ensures
            finder@ == FinderView::fresh(
                match currently_opened_path {
                    Some(path) => Some(path@),
                    None => None,
                },
                path_views(history_items@),
            ),
            finder@.wf(),
    {
        let finder = FileFinderDelegate {
            search_count: 0,
            latest_search_id: 0,
            latest_search_did_cancel: false,
            latest_search_query: None,
            currently_opened_path,
            matches: Vec::new(),
            selected: None,
            history_items,
        };
        assert(finder@.matches =~= Seq::empty());
        finder
    }

    /// The labels of a match: its file name and the matched characters in it, then
    /// its full path and the matched characters in that.
    pub fn labels_for_match(&self, path_match: &PathMatch) -> (labels: (
        String,
        Vec<usize>,
        String,
        Vec<usize>,
    ))
        ensures
            labels.0@ == name_label(path_match@),
            labels.1@ == shifted(path_match@.positions, name_start(path_match@)),
            labels.2@ == full_label(path_match@),
            labels.3@ == path_match@.positions,
    {
        labels_of(path_match)
    }

    /// Starts a search. The caller cancels the one that runs, runs this one, and
    /// hands its matches to `set_matches`. `roots` tells of each visible worktree
    /// whether its root is ignored, or nothing where it has no root entry.
    pub fn spawn_search(
        &mut self,
        query: PathLikeWithPosition<FileSearchQuery>,
        roots: &Vec<Option<bool>>,
    ) -> (search: Search)
        requires
            query.path_like@.wf(),
            old(self).search_count < usize::MAX,
        ensures
            final(self)@ == old(self)@.started(),
            search@ == old(self)@.search_for(query@, roots@),
            old(self)@.wf() ==> final(self)@.wf(),
    {
        let relative_to: Option<Vec<u8>> = match &self.currently_opened_path {
            Some(opened) => {
                let path: Vec<u8> = opened.path.clone();
                assert(path@ =~= opened.path@);
                Some(path)
            },
            None => None,
        };
        let candidate_sets: Vec<CandidateSet> = candidate_sets(roots);
        let path_query: String = query.path_like.path_query().to_owned();
        let search_id: usize = post_inc(&mut self.search_count);
        Search {
            search_id,
            query,
            path_query,
            relative_to,
            candidate_sets,
            smart_case: false,
            max_results: MAX_MATCHES,
        }
    }

    /// Takes in the matches of a search, and tells whether the list may have changed.
    /// Matches of a search older than the listed one are dropped. Where the listed
    /// search was cut short and this one is for the same file, they are merged into
    /// the list; else they replace it.
    pub fn set_matches(
        &mut self,
        search_id: usize,
        did_cancel: bool,
        query: PathLikeWithPosition<FileSearchQuery>,
        matches: Vec<PathMatch>,
    ) -> (changed: bool)
        requires
            old(self)@.accepts(search_id) && old(self).latest_search_did_cancel ==> {
                &&& query.path_like@.wf()
                &&& old(self)@.latest_search_query matches Some(latest) ==> latest.path_like.wf()
            },
        ensures
            changed == old(self)@.accepts(search_id),
            changed == (search_id >= old(self).latest_search_id),
            !changed ==> final(self)@ == old(self)@,
            changed ==> final(self)@ == old(self)@.listing(
                search_id,
                did_cancel,
                query@,
                final(self)@.matches,
            ),
            changed && !old(self)@.resumes(query@) ==> final(self)@.matches == match_views(
                matches@,
            ),
            changed && old(self)@.resumes(query@) && is_sorted(old(self)@.matches) && is_sorted(
                match_views(matches@),
            ) ==> final(self)@.matches == extended(
                old(self)@.matches,
                match_views(matches@),
                MAX_MATCHES as int,
            ),
            changed && old(self)@.resumes(query@) ==> merged_in_any_order(
                old(self)@.matches,
                match_views(matches@),
                MAX_MATCHES as int,
                final(self)@.matches,
            ),
            old(self)@.wf() && search_id < old(self).search_count && query.path_like@.wf()
                ==> final(self)@.wf(),
    {
        if search_id < self.latest_search_id {
            return false;
        }
        let resumes: bool = self.latest_search_did_cancel && match &self.latest_search_query {
            Some(latest) => same_text(query.path_like.path_query(), latest.path_like.path_query()),
            None => false,
        };
        self.latest_search_id = search_id;
        if resumes {
            extend_sorted(&mut self.matches, matches, MAX_MATCHES);
        } else {
            self.matches = matches;
        }
        self.latest_search_query = Some(query);
        self.latest_search_did_cancel = did_cancel;
        true
    }

    /// What stands in the empty input field.
    pub fn placeholder_text(&self) -> (text: String)
        ensures
            text@ == "Search project files..."@,
    {
        "Search project files...".to_owned()
    }

    /// How many matches are listed.
    pub fn match_count(&self) -> (count: usize)
        ensures
            count == self@.matches.len(),
    {
        self.matches.len()
    }

    /// The index of the selected match: that of the first match of the selected file,
    /// and the first match where there is none.
    pub fn selected_index(&self) -> (index: usize)
        ensures
            index == self@.selected_index(),
            index < self@.matches.len() || index == 0,
    {
        if let Some(selected) = &self.selected {
            let ghost views = self@.matches;
            let ghost wanted = (selected.0, selected.1@);
            let mut ix: usize = 0;
            while ix < self.matches.len()
                invariant
                    ix <= self.matches@.len(),
                    views == match_views(self.matches@),
                    views == self@.matches,
                    wanted == (selected.0, selected.1@),
                    self@.selected == Some(wanted),
                    forall|j: int| 0 <= j < ix ==> !selects(wanted, #[trigger] views[j]),
                decreases self.matches@.len() - ix,
            {
                let m: &PathMatch = &self.matches[ix];
                assert(views[ix as int] == m@);
                if m.worktree_id == selected.0 && same_path(&m.path, &selected.1) {
                    proof {
                        lemma_first_selected(views, wanted, ix as int);
                    }
                    return ix;
                }
                ix += 1;
            }
        }
        0
    }

    /// Moves to the match at `ix`.
    pub fn set_selected_index(&mut self, ix: usize)
        requires
            ix < old(self)@.matches.len(),
        ensures
            final(self)@ == old(self)@.selecting(ix as int),
    {
        let path: Vec<u8> = self.matches[ix].path.clone();
        assert(path@ =~= self.matches@[ix as int].path@);
        assert(self@.matches[ix as int] == self.matches@[ix as int]@);
        self.selected = Some((self.matches[ix].worktree_id, path));
    }

    /// Lists the open file and the files visited before.
    fn list_recent(&self) -> (matches: Vec<PathMatch>)
        ensures
            match_views(matches@) == recent_matches(
                recent_paths(self@.currently_opened_path, self@.history_items),
            ),
    {
        let mut matches: Vec<PathMatch> = Vec::new();
        let ghost mut listed: Seq<ProjectPathView> = Seq::empty();
        if let Some(opened) = &self.currently_opened_path {
            matches.push(match_of_recent(0, opened));
            proof {
                listed = seq![opened@];
            }
        }
        let ghost lead = listed;
        let ghost history = path_views(self.history_items@);
        let ghost other = not_open(self@.currently_opened_path);
        assert(match_views(matches@) =~= recent_matches(listed));
        proof {
            reveal(Seq::filter);
        }
        assert(history.take(0).filter(other) =~= Seq::empty());
        assert(listed =~= lead + history.take(0).filter(other));
        let mut i: usize = 0;
        while i < self.history_items.len()
            invariant
                i <= self.history_items@.len(),
                history == path_views(self.history_items@),
                other == not_open(self@.currently_opened_path),
                listed == lead + history.take(i as int).filter(other),
                match_views(matches@) == recent_matches(listed),
            decreases self.history_items@.len() - i,
        {
            let item: &ProjectPath = &self.history_items[i];
            let is_open: bool = match &self.currently_opened_path {
                Some(opened) => *item == *opened,
                None => false,
            };
            proof {
                assert(history[i as int] == item@);
                assert(history.take(i + 1).drop_last() =~= history.take(i as int));
                assert(history.take(i + 1).last() == item@);
                reveal(Seq::filter);
                assert(other(item@) == !is_open);
            }
            if !is_open {
                let ghost before = match_views(matches@);
                let m: PathMatch = match_of_recent(matches.len(), item);
                matches.push(m);
                proof {
                    assert(listed.len() == before.len());
                    let next = listed.push(item@);
                    assert(match_views(matches@) =~= before.push(m@));
                    assert(recent_matches(next) =~= before.push(m@));
                    assert(next =~= lead + history.take(i + 1).filter(other));
                    listed = next;
                }
            }
            i += 1;
        }
        proof {
            assert(history.take(i as int) =~= history);
            assert(listed =~= recent_paths(self@.currently_opened_path, history));
        }
        matches
    }

    /// Takes in what the user typed. Without text the recent files are listed; with
    /// text a search is started and returned. `path_like` is what the text was found
    /// to say: the part that names a file, and a place in the file.
    pub fn update_matches(
        &mut self,
        raw_query: String,
        path_like: PathLikeWithPosition<String>,
        roots: &Vec<Option<bool>>,
    ) -> (search: Option<Search>)
        requires
            old(self).search_count < usize::MAX,
            raw_query@.len() > 0 ==> query_of(raw_query@, path_like.path_like@).wf(),
        ensures
            raw_query@.len() == 0 ==> search is None && final(self)@ == old(self)@.cleared(),
            raw_query@.len() > 0 ==> {
                &&& final(self)@ == old(self)@.started()
                &&& search matches Some(search)
                &&& search@ == old(self)@.search_for(
                    (PathLikeWithPosition {
                        path_like: query_of(raw_query@, path_like.path_like@),
                        row: path_like.row,
                        column: path_like.column,
                    }),
                    roots@,
                )
            },
            old(self)@.wf() ==> final(self)@.wf(),
    {
        if raw_query.as_str().is_empty() {
            let matches: Vec<PathMatch> = self.list_recent();
            self.latest_search_id = post_inc(&mut self.search_count);
            self.matches = matches;
            None
        } else {
            let query = PathLikeWithPosition {
                path_like: FileSearchQuery::of_path_like(
                    raw_query,
                    path_like.path_like.as_str(),
                ),
                row: path_like.row,
                column: path_like.column,
            };
            Some(self.spawn_search(query, roots))
        }
    }

    /// What confirming opens: the file of the selected match, at the place that the
    /// query of the listed search asks for. Nothing where no match is listed.
    pub fn confirm(&self) -> (confirmed: Option<Confirmed>)
        ensures
            confirmed is Some <==> self@.matches.len() > 0,
            confirmed matches Some(c) ==> {
                let m = self@.matches[self@.selected_index()];
                &&& c.project_path@.worktree_id == m.worktree_id
                &&& c.project_path@.path == m.path
                &&& c.caret == caret_of(self@.latest_search_query)
            },
    {
        let ix: usize = self.selected_index();
        if ix >= self.matches.len() {
            return None;
        }
        let m: &PathMatch = &self.matches[ix];
        assert(self@.matches[ix as int] == m@);
        let path: Vec<u8> = m.path.clone();
        assert(path@ =~= m.path@);
        let project_path = ProjectPath {
            worktree_id: WorktreeId::from_usize(m.worktree_id),
            path,
        };
        let caret: Option<(u32, u32)> = match &self.latest_search_query {
            Some(query) => match query.row {
                Some(row) => {
                    let column: u32 = match query.column {
                        Some(column) => column,
                        None => 0,
                    };
                    Some((row.saturating_sub(1), column.saturating_sub(1)))
                },
                None => None,
            },
            None => None,
        };
        Some(Confirmed { project_path, caret })
    }
}

} // verus!
