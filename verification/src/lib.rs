//! The logic of a fuzzy file finder: which matches are listed, which one is
//! selected, how a match is labelled, and what confirming it opens.

pub mod finder;
pub mod labels;
pub mod laws;
pub mod merge;
pub mod merge_laws;
pub mod order;
pub mod path;
pub mod path_laws;
pub mod path_match;
pub mod project_path;
pub mod query;
pub mod text;

pub use finder::{AfterOpening, CandidateSet, Confirmed, FileFinderDelegate, MAX_MATCHES,
    MAX_RECENT_SELECTIONS, Search, candidate_sets};
pub use merge::extend_sorted;
pub use order::Order;
pub use path_match::{PathMatch, Score, compare_matches};
pub use project_path::{Event, ProjectPath, WorktreeId};
pub use query::{FileSearchQuery, PathLikeWithPosition};
