# file_finder

The logic of a fuzzy file finder, verified with Verus.

- `src/finder.rs`: the finder's state and what each event does to it.
- `src/laws.rs`: what holds of the finder over several events.
- `src/merge.rs`: merging the matches of searches that were cut short.
- `src/path_match.rs`, `src/order.rs`: matches and their order.
- `src/labels.rs`, `src/text.rs`: how a match is shown.
- `src/path.rs`, `src/project_path.rs`, `src/query.rs`: paths, files and queries.
- `app/`: the modal view around the library.
