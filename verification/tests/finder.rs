use file_finder::{
    candidate_sets, compare_matches, CandidateSet, Confirmed, FileFinderDelegate, FileSearchQuery, Order,
    PathLikeWithPosition, PathMatch, ProjectPath, Score, WorktreeId, MAX_MATCHES,
    MAX_RECENT_SELECTIONS,
};

fn score(value: f64) -> Score {
    Score {
        whole: value.floor() as i128,
        fraction: (value - value.floor()).to_bits(),
    }
}

fn found(value: f64, worktree_id: usize, path: &str) -> PathMatch {
    PathMatch {
        score: score(value),
        positions: Vec::new(),
        worktree_id,
        path: path.as_bytes().to_vec(),
        path_prefix: String::new(),
        distance_to_relative_ancestor: 0,
    }
}

fn file(worktree_id: usize, path: &str) -> ProjectPath {
    ProjectPath {
        worktree_id: WorktreeId::from_usize(worktree_id),
        path: path.as_bytes().to_vec(),
    }
}

fn parsed(path: &str, row: Option<u32>, column: Option<u32>) -> PathLikeWithPosition<String> {
    PathLikeWithPosition {
        path_like: path.to_string(),
        row,
        column,
    }
}

fn test_path_like(text: &str) -> PathLikeWithPosition<FileSearchQuery> {
    PathLikeWithPosition {
        path_like: FileSearchQuery::of_path_like(text.to_string(), text),
        row: None,
        column: None,
    }
}

fn paths(finder: &FileFinderDelegate) -> Vec<String> {
    finder
        .matches
        .iter()
        .map(|m| String::from_utf8(m.path.clone()).unwrap())
        .collect()
}

#[test]
fn test_matching_paths() {
    let mut finder = FileFinderDelegate::new(None, Vec::new());
    let search = finder
        .update_matches("bna".to_string(), parsed("bna", None, None), &vec![Some(false)])
        .unwrap();
    assert_eq!(search.path_query, "bna");
    assert!(!search.smart_case);
    assert!(finder.set_matches(
        search.search_id,
        false,
        search.query,
        vec![found(0.6, 1, "a/banana"), found(0.5, 1, "a/bandana")],
    ));
    assert_eq!(finder.matches.len(), 2);

    finder.set_selected_index(1);
    let confirmed = finder.confirm().unwrap();
    assert_eq!(confirmed.project_path, file(1, "a/bandana"));
    assert_eq!(confirmed.caret, None);
    let labels = finder.labels_for_match(&finder.matches[1]);
    assert_eq!(labels.0, "bandana");
}

fn confirm_at(file_query: &str, row: u32, column: u32) -> (u32, u32) {
    let mut finder = FileFinderDelegate::new(None, Vec::new());
    let query = format!("{file_query}:{row}:{column}");
    let search = finder
        .update_matches(
            query.clone(),
            parsed(file_query, Some(row), Some(column)),
            &vec![Some(false)],
        )
        .unwrap();
    assert_eq!(search.path_query, file_query);
    assert!(finder.set_matches(
        search.search_id,
        false,
        search.query,
        vec![found(0.5, 1, "test/first.rs")],
    ));
    assert_eq!(finder.matches.len(), 1);
    let latest_search_query = finder
        .latest_search_query
        .as_ref()
        .expect("Finder should have a query after the update_matches call");
    assert_eq!(latest_search_query.path_like.raw_query, query);
    assert_eq!(
        latest_search_query.path_like.file_query_end,
        Some(file_query.len())
    );
    assert_eq!(latest_search_query.row, Some(row));
    assert_eq!(latest_search_query.column, Some(column));

    finder.set_selected_index(0);
    let confirmed = finder.confirm().unwrap();
    assert_eq!(confirmed.project_path, file(1, "test/first.rs"));
    confirmed.caret.unwrap()
}

#[test]
fn test_row_column_numbers_query_inside_file() {
    let caret = confirm_at(&"first.rs"[..3], 1, 3);
    assert_eq!(1, caret.0 + 1, "Query inside file should get caret with the same focus row");
    assert_eq!(3, caret.1 + 1, "Query inside file should get caret with the same focus column");
}

#[test]
fn test_row_column_numbers_query_outside_file() {
    let caret = confirm_at(&"first.rs"[..3], 200, 300);
    assert_eq!(caret, (199, 299));
}

#[test]
fn test_matching_cancellation() {
    let mut finder = FileFinderDelegate::new(None, Vec::new());
    let roots = vec![Some(false)];
    let query = test_path_like("hi");
    let matches = vec![
        found(0.9, 1, "hi"),
        found(0.8, 1, "hiccup"),
        found(0.5, 1, "height"),
        found(0.5, 1, "happiness"),
        found(0.2, 1, "halogen-light"),
    ];
    let search = finder.spawn_search(query.clone(), &roots);
    assert!(finder.set_matches(search.search_id, false, search.query, matches.clone()));
    assert_eq!(finder.matches.len(), 5);

    // Simulate a search being cancelled after the time limit,
    // returning only a subset of the matches that would have been found.
    drop(finder.spawn_search(query.clone(), &roots));
    finder.set_matches(
        finder.latest_search_id,
        true, // did-cancel
        query.clone(),
        vec![matches[1].clone(), matches[3].clone()],
    );

    // Simulate another cancellation.
    drop(finder.spawn_search(query.clone(), &roots));
    finder.set_matches(
        finder.latest_search_id,
        true, // did-cancel
        query.clone(),
        vec![matches[0].clone(), matches[2].clone(), matches[3].clone()],
    );

    assert_eq!(finder.matches, matches[0..4]);
}

#[test]
fn test_single_file_worktrees() {
    let mut finder = FileFinderDelegate::new(None, Vec::new());
    let search = finder.spawn_search(test_path_like("thf"), &vec![Some(false)]);
    let mut only = found(0.5, 1, "");
    only.path_prefix = "the-file".to_string();
    only.positions = vec![0, 1, 4];
    finder.set_matches(search.search_id, false, search.query, vec![only]);
    assert_eq!(finder.matches.len(), 1);

    let (file_name, file_name_positions, full_path, full_path_positions) =
        finder.labels_for_match(&finder.matches[0]);
    assert_eq!(file_name, "the-file");
    assert_eq!(file_name_positions, &[0, 1, 4]);
    assert_eq!(full_path, "the-file");
    assert_eq!(full_path_positions, &[0, 1, 4]);

    let search = finder.spawn_search(test_path_like("thf/"), &vec![Some(false)]);
    finder.set_matches(search.search_id, false, search.query, Vec::new());
    assert_eq!(finder.matches.len(), 0);
}

#[test]
fn test_multiple_matches_with_same_relative_path() {
    let mut finder = FileFinderDelegate::new(None, Vec::new());
    let search = finder.spawn_search(test_path_like("a.t"), &vec![Some(false), Some(false)]);
    finder.set_matches(
        search.search_id,
        false,
        search.query,
        vec![found(0.5, 2, "a.txt"), found(0.5, 1, "a.txt")],
    );

    // Can switch between different matches with the same relative path.
    assert_eq!(finder.matches.len(), 2);
    assert_eq!(finder.selected_index(), 0);
    finder.set_selected_index(1);
    assert_eq!(finder.selected_index(), 1);
    finder.set_selected_index(0);
    assert_eq!(finder.selected_index(), 0);
}

#[test]
fn test_path_distance_ordering() {
    let mut near = found(0.5, 1, "dir2/a.txt");
    near.distance_to_relative_ancestor = 1;
    let mut far = found(0.5, 1, "dir1/a.txt");
    far.distance_to_relative_ancestor = 2;

    let mut finder = FileFinderDelegate::new(Some(file(1, "/root/dir2/b.txt")), Vec::new());
    let search = finder.spawn_search(test_path_like("a.txt"), &vec![Some(false)]);
    assert_eq!(search.relative_to, Some(b"/root/dir2/b.txt".to_vec()));
    finder.set_matches(search.search_id, true, search.query, vec![far]);
    let search = finder.spawn_search(test_path_like("a.txt"), &vec![Some(false)]);
    finder.set_matches(search.search_id, false, search.query, vec![near]);
    assert_eq!(paths(&finder), ["dir2/a.txt", "dir1/a.txt"]);
}

#[test]
fn matches_rank_by_score_worktree_distance_and_path() {
    let base = found(0.5, 1, "b");
    assert_eq!(compare_matches(&base, &base.clone()), Order::Equal);
    assert_eq!(compare_matches(&found(0.6, 0, "a"), &base), Order::Greater);
    assert_eq!(compare_matches(&found(0.25, 9, "z"), &base), Order::Less);
    assert_eq!(compare_matches(&found(3.0, 0, "a"), &found(2.75, 0, "a")), Order::Greater);
    assert_eq!(compare_matches(&found(0.5, 2, "a"), &base), Order::Greater);
    let mut farther = found(0.5, 1, "z");
    farther.distance_to_relative_ancestor = 1;
    assert_eq!(compare_matches(&farther, &base), Order::Less);
    assert_eq!(compare_matches(&found(0.5, 1, "c"), &base), Order::Greater);
    assert_eq!(compare_matches(&found(0.5, 1, "a"), &base), Order::Less);
    assert!(found(0.5, 1, "b/") == base);
}

#[test]
fn stale_matches_are_dropped() {
    let mut finder = FileFinderDelegate::new(None, Vec::new());
    let roots = vec![Some(false)];
    let first = finder.spawn_search(test_path_like("a"), &roots);
    let second = finder.spawn_search(test_path_like("ab"), &roots);
    assert_eq!((first.search_id, second.search_id), (0, 1));
    assert!(finder.set_matches(second.search_id, false, second.query, vec![found(0.5, 1, "ab")]));
    assert!(!finder.set_matches(first.search_id, false, first.query, vec![found(0.5, 1, "a")]));
    assert_eq!(paths(&finder), ["ab"]);
    assert_eq!(finder.latest_search_id, 1);
}

#[test]
fn emptied_query_drops_running_searches() {
    let mut finder = FileFinderDelegate::new(None, vec![file(1, "old.rs")]);
    let running = finder.spawn_search(test_path_like("a"), &vec![Some(false)]);
    assert!(finder
        .update_matches(String::new(), parsed("", None, None), &vec![Some(false)])
        .is_none());
    assert_eq!(finder.search_count, 2);
    assert_eq!(finder.latest_search_id, 1);
    assert!(!finder.set_matches(running.search_id, false, running.query, vec![found(0.5, 1, "a")]));
    assert_eq!(paths(&finder), ["old.rs"]);
}

#[test]
fn other_query_replaces_cut_short_matches() {
    let mut finder = FileFinderDelegate::new(None, Vec::new());
    let roots = vec![Some(false)];
    let search = finder.spawn_search(test_path_like("a"), &roots);
    finder.set_matches(search.search_id, true, search.query, vec![found(0.9, 1, "a")]);
    let search = finder.spawn_search(test_path_like("b"), &roots);
    finder.set_matches(search.search_id, false, search.query, vec![found(0.1, 1, "b")]);
    assert_eq!(paths(&finder), ["b"]);
    let search = finder.spawn_search(test_path_like("b"), &roots);
    finder.set_matches(search.search_id, false, search.query, vec![found(0.2, 1, "bb")]);
    assert_eq!(paths(&finder), ["bb"]);
}

#[test]
fn row_and_column_do_not_part_queries() {
    let mut finder = FileFinderDelegate::new(None, Vec::new());
    let roots = vec![Some(false)];
    let search = finder
        .update_matches("a".to_string(), parsed("a", None, None), &roots)
        .unwrap();
    finder.set_matches(search.search_id, true, search.query, vec![found(0.5, 1, "a1")]);
    let search = finder
        .update_matches("a:7".to_string(), parsed("a", Some(7), None), &roots)
        .unwrap();
    finder.set_matches(search.search_id, false, search.query, vec![found(0.75, 1, "a2")]);
    assert_eq!(paths(&finder), ["a2", "a1"]);
    assert_eq!(finder.confirm().unwrap().caret, Some((6, 0)));
}

#[test]
fn zero_row_and_column_are_the_first() {
    let mut finder = FileFinderDelegate::new(None, Vec::new());
    let search = finder
        .update_matches("a:0:0".to_string(), parsed("a", Some(0), Some(0)), &vec![Some(false)])
        .unwrap();
    finder.set_matches(search.search_id, false, search.query, vec![found(0.5, 1, "a")]);
    assert_eq!(finder.confirm().unwrap().caret, Some((0, 0)));
}

#[test]
fn merged_list_stays_within_limit() {
    let mut finder = FileFinderDelegate::new(None, Vec::new());
    let roots = vec![Some(false)];
    let evens: Vec<PathMatch> = (0..80).map(|i| found(1000.0 - 2.0 * i as f64, 1, "f")).collect();
    let odds: Vec<PathMatch> = (0..80).map(|i| found(999.0 - 2.0 * i as f64, 1, "f")).collect();
    let search = finder.spawn_search(test_path_like("f"), &roots);
    assert_eq!(search.max_results, 100);
    finder.set_matches(search.search_id, true, search.query, evens);
    let search = finder.spawn_search(test_path_like("f"), &roots);
    finder.set_matches(search.search_id, true, search.query, odds);
    assert_eq!(finder.match_count(), MAX_MATCHES);
    for (i, m) in finder.matches.iter().enumerate() {
        assert_eq!(m.score, score(1000.0 - i as f64));
    }
}

#[test]
fn recent_files_are_listed_without_a_query() {
    let history = vec![file(1, "a.rs"), file(1, "b.rs"), file(2, "b.rs"), file(1, "c.rs")];
    let mut finder = FileFinderDelegate::new(Some(file(1, "./b.rs/")), history.clone());
    finder.update_matches(String::new(), parsed("", None, None), &Vec::new());
    assert_eq!(paths(&finder), ["./b.rs/", "a.rs", "b.rs", "b.rs", "c.rs"]);

    let mut finder = FileFinderDelegate::new(Some(file(1, "b.rs")), history.clone());
    finder.update_matches(String::new(), parsed("", None, None), &Vec::new());
    assert_eq!(paths(&finder), ["b.rs", "a.rs", "b.rs", "c.rs"]);
    let ids: Vec<usize> = finder.matches.iter().map(|m| m.worktree_id).collect();
    assert_eq!(ids, [1, 1, 2, 1]);
    for (i, m) in finder.matches.iter().enumerate() {
        assert_eq!(m.score, score(i as f64));
        assert_eq!(m.distance_to_relative_ancestor, usize::MAX);
        assert!(m.positions.is_empty() && m.path_prefix.is_empty());
    }

    let mut finder = FileFinderDelegate::new(None, history);
    finder.update_matches(String::new(), parsed("", None, None), &Vec::new());
    assert_eq!(paths(&finder), ["a.rs", "b.rs", "b.rs", "c.rs"]);
}

#[test]
fn selection_follows_the_file() {
    let mut finder = FileFinderDelegate::new(None, Vec::new());
    let roots = vec![Some(false)];
    let search = finder.spawn_search(test_path_like("a"), &roots);
    finder.set_matches(
        search.search_id,
        false,
        search.query,
        vec![found(0.9, 1, "a"), found(0.8, 1, "ab")],
    );
    finder.set_selected_index(1);
    let search = finder.spawn_search(test_path_like("ab"), &roots);
    finder.set_matches(
        search.search_id,
        false,
        search.query,
        vec![found(0.9, 1, "xab"), found(0.8, 2, "ab"), found(0.7, 1, "ab")],
    );
    assert_eq!(finder.selected_index(), 2);
    let search = finder.spawn_search(test_path_like("x"), &roots);
    finder.set_matches(search.search_id, false, search.query, vec![found(0.9, 1, "xab")]);
    assert_eq!(finder.selected_index(), 0);
}

#[test]
fn nothing_to_confirm_without_matches() {
    let finder = FileFinderDelegate::new(Some(file(1, "a")), Vec::new());
    assert!(finder.confirm().is_none());
    assert_eq!(finder.match_count(), 0);
    assert_eq!(finder.selected_index(), 0);
    assert_eq!(finder.placeholder_text(), "Search project files...");
    assert_eq!(MAX_RECENT_SELECTIONS, 20);
}

#[test]
fn ignored_roots_and_several_worktrees() {
    let set = |include_ignored, include_root_name| CandidateSet {
        include_ignored,
        include_root_name,
    };
    assert_eq!(candidate_sets(&vec![Some(false)]), [set(false, false)]);
    assert_eq!(
        candidate_sets(&vec![Some(false), Some(true), None]),
        [set(false, true), set(true, true), set(false, true)]
    );
    assert!(candidate_sets(&Vec::new()).is_empty());
}

#[test]
fn path_query_is_the_part_that_names_the_file() {
    let query = FileSearchQuery::of_path_like("h\u{e9}:1".to_string(), "h\u{e9}");
    assert_eq!(query.file_query_end, Some(3));
    assert!(query.is_well_formed());
    assert_eq!(query.path_query(), "h\u{e9}");
    let whole = FileSearchQuery::of_path_like("abc".to_string(), "abc");
    assert_eq!(whole.file_query_end, None);
    assert_eq!(whole.path_query(), "abc");
    let astray = FileSearchQuery::of_path_like(" \u{e9}".to_string(), "ab");
    assert!(!astray.is_well_formed());
}

#[test]
fn resuming_into_recent_files_keeps_both() {
    let mut finder = FileFinderDelegate::new(None, vec![file(1, "old"), file(1, "older")]);
    let roots = vec![Some(false)];
    let search = finder.spawn_search(test_path_like("n"), &roots);
    finder.set_matches(search.search_id, true, search.query, vec![found(0.5, 1, "new")]);
    finder.update_matches(String::new(), parsed("", None, None), &roots);
    assert_eq!(paths(&finder), ["old", "older"]);
    let search = finder.spawn_search(test_path_like("n"), &roots);
    finder.set_matches(
        search.search_id,
        false,
        search.query,
        vec![found(0.75, 1, "new"), found(0.5, 1, "newer")],
    );
    let listed = paths(&finder);
    assert_eq!(listed.len(), 4);
    let place = |path: &str| listed.iter().position(|listed| listed == path).unwrap();
    assert!(place("old") < place("older"));
    assert!(place("new") < listed.len() && place("newer") < listed.len());
}

#[test]
fn after_opening_places_the_caret_in_editors_only() {
    let confirmed = Confirmed {
        project_path: file(1, "a"),
        caret: Some((4, 2)),
    };
    let after = confirmed.after_opening(true, true);
    assert_eq!((after.caret, after.dismiss), (Some((4, 2)), true));
    let after = confirmed.after_opening(true, false);
    assert_eq!((after.caret, after.dismiss), (None, true));
    let after = confirmed.after_opening(false, true);
    assert_eq!((after.caret, after.dismiss), (None, false));
    let nowhere = Confirmed {
        project_path: file(1, "a"),
        caret: None,
    };
    let after = nowhere.after_opening(true, true);
    assert_eq!((after.caret, after.dismiss), (None, true));
}
