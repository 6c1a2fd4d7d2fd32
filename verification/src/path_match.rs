//! One entry of the match list, and the order of the entries.

use vstd::prelude::*;
#[allow(unused_imports)]
use vstd::std_specs::cmp::PartialEqSpec;

use crate::order::Order;
#[allow(unused_imports)]
use crate::order::{composes, int_order};
use crate::path::compare_paths;
#[allow(unused_imports)]
use crate::path::{ComponentView, lemma_components_order_total, lemma_components_order_transitive,
    path_components, path_order};

verus! {

/// How well an entry matches: a number as its whole part, rounded down, and a key
/// for the rest that grows with it.
#[derive(Clone, Copy, Debug, PartialEq, Eq, Structural)]
pub struct Score {
    pub whole: i128,
    pub fraction: u64,
}

/// The order of two scores.
pub open spec fn score_order(a: Score, b: Score) -> Order {
    int_order(a.whole as int, b.whole as int).or_tie(
        int_order(a.fraction as int, b.fraction as int),
    )
}

/// A path that the finder lists.
#[derive(Debug)]
pub struct PathMatch {
    pub score: Score,
    /// The characters of the prefixed path that the query matched.
    pub positions: Vec<usize>,
    pub worktree_id: usize,
    /// The path inside the worktree, as its bytes.
    pub path: Vec<u8>,
    /// What is shown in front of the path: the worktree's name where it is needed.
    pub path_prefix: String,
    pub distance_to_relative_ancestor: usize,
}

/// What a match is.
#[verifier::ext_equal]
pub struct MatchView {
    pub score: Score,
    pub positions: Seq<usize>,
    pub worktree_id: usize,
    pub path: Seq<u8>,
    pub path_prefix: Seq<char>,
    pub distance_to_relative_ancestor: usize,
}

impl View for PathMatch {
    type V = MatchView;

    open spec fn view(&self) -> MatchView {
        MatchView {
            score: self.score,
            positions: self.positions@,
            worktree_id: self.worktree_id,
            path: self.path@,
            path_prefix: self.path_prefix@,
            distance_to_relative_ancestor: self.distance_to_relative_ancestor,
        }
    }
}

impl Clone for PathMatch {
    fn clone(&self) -> (copy: Self)
        ensures
            copy@ == self@,
    {
        let positions: Vec<usize> = self.positions.clone();
        let path: Vec<u8> = self.path.clone();
        assert(positions@ =~= self.positions@);
        assert(path@ =~= self.path@);
        PathMatch {
            score: self.score,
            positions,
            worktree_id: self.worktree_id,
            path,
            path_prefix: self.path_prefix.clone(),
            distance_to_relative_ancestor: self.distance_to_relative_ancestor,
        }
    }
}

/// What the entries of a list are.
pub open spec fn match_views(matches: Seq<PathMatch>) -> Seq<MatchView> {
    matches.map_values(|m: PathMatch| m@)
}

/// The order of two matches: by score, then by worktree, then the one closer to
/// the open file ranks higher, then by path.
#[verifier::opaque]
pub open spec fn match_order(a: MatchView, b: MatchView) -> Order {
    score_order(a.score, b.score).or_tie(
        int_order(a.worktree_id as int, b.worktree_id as int),
    ).or_tie(
        int_order(
            b.distance_to_relative_ancestor as int,
            a.distance_to_relative_ancestor as int,
        ),
    ).or_tie(path_order(a.path, b.path))
}

/// Two matches agree in everything that the order looks at.
pub open spec fn same_rank(a: MatchView, b: MatchView) -> bool {
    &&& a.score == b.score
    &&& a.worktree_id == b.worktree_id
    &&& a.distance_to_relative_ancestor == b.distance_to_relative_ancestor
    &&& path_components(a.path) == path_components(b.path)
}

/// The order of matches is total: looking from the other side flips it, and only
/// matches of the same rank are level.
pub proof fn lemma_match_order_total(a: MatchView, b: MatchView)
    ensures
        match_order(b, a) == match_order(a, b).flipped(),
        match_order(a, b) == Order::Equal <==> same_rank(a, b),
{
    reveal(match_order);
    lemma_components_order_total(path_components(a.path), path_components(b.path));
}

/// The order of matches is transitive.
pub proof fn lemma_match_order_transitive(a: MatchView, b: MatchView, c: MatchView)
    ensures
        composes(match_order(a, b), match_order(b, c), match_order(a, c)),
{
    reveal(match_order);
    lemma_components_order_transitive(
        path_components(a.path),
        path_components(b.path),
        path_components(c.path),
    );
}

/// The better score ranks higher, whatever else the matches are; among equal scores
/// the greater worktree does; among those of one worktree the one closer to the open
/// file does; and the rest is left to the paths.
pub proof fn law_match_order_by_fields(a: MatchView, b: MatchView)
    ensures
        a.score.whole > b.score.whole ==> match_order(a, b) == Order::Greater && match_order(b, a)
            == Order::Less,
        a.score.whole == b.score.whole && a.score.fraction > b.score.fraction ==> match_order(a, b)
            == Order::Greater && match_order(b, a) == Order::Less,
        a.score.whole == b.score.whole && a.score.fraction == b.score.fraction && a.worktree_id
            > b.worktree_id ==> match_order(a, b) == Order::Greater && match_order(b, a)
            == Order::Less,
        a.score.whole == b.score.whole && a.score.fraction == b.score.fraction && a.worktree_id
            == b.worktree_id && a.distance_to_relative_ancestor < b.distance_to_relative_ancestor
            ==> match_order(a, b) == Order::Greater && match_order(b, a) == Order::Less,
        a.score.whole == b.score.whole && a.score.fraction == b.score.fraction && a.worktree_id
            == b.worktree_id && a.distance_to_relative_ancestor == b.distance_to_relative_ancestor
            ==> match_order(a, b) == path_order(a.path, b.path),
{
    reveal(match_order);
}

/// Matches are level exactly where they agree in score, worktree and closeness and
/// their paths have the same components.
pub proof fn law_match_order_level(a: MatchView, b: MatchView)
    ensures
        match_order(a, b) == Order::Equal <==> a.score.whole == b.score.whole && a.score.fraction
            == b.score.fraction && a.worktree_id == b.worktree_id
            && a.distance_to_relative_ancestor == b.distance_to_relative_ancestor
            && path_components(a.path) == path_components(b.path),
{
    lemma_match_order_total(a, b);
}

/// A match is seen with all its fields.
pub proof fn law_match_view(m: PathMatch)
    ensures
        m@.score == m.score,
        m@.positions == m.positions@,
        m@.worktree_id == m.worktree_id,
        m@.path == m.path@,
        m@.path_prefix == m.path_prefix@,
        m@.distance_to_relative_ancestor == m.distance_to_relative_ancestor,
{
}

/// A list of matches is seen match by match.
pub proof fn law_match_views(matches: Seq<PathMatch>)
    ensures
        match_views(matches).len() == matches.len(),
        forall|k: int| 0 <= k < matches.len() ==> #[trigger] match_views(matches)[k] == matches[k]@,
{
}

fn compare_scores(a: &Score, b: &Score) -> (order: Order)
    ensures
        order == score_order(*a, *b),
{
    if a.whole < b.whole || (a.whole == b.whole && a.fraction < b.fraction) {
        Order::Less
    } else if a.whole == b.whole && a.fraction == b.fraction {
        Order::Equal
    } else {
        Order::Greater
    }
}

/// Compares two matches; the greater one is listed first.
pub fn compare_matches(a: &PathMatch, b: &PathMatch) -> (order: Order)
    ensures
        order == match_order(a@, b@),
{
    reveal(match_order);
    match compare_scores(&a.score, &b.score) {
        Order::Less => Order::Less,
        Order::Greater => Order::Greater,
        Order::Equal => {
            if a.worktree_id < b.worktree_id {
                Order::Less
            } else if a.worktree_id > b.worktree_id {
                Order::Greater
            } else if a.distance_to_relative_ancestor > b.distance_to_relative_ancestor {
                Order::Less
            } else if a.distance_to_relative_ancestor < b.distance_to_relative_ancestor {
                Order::Greater
            } else {
                compare_paths(&a.path, &b.path)
            }
        },
    }
}

impl PartialEq for PathMatch {
    fn eq(&self, other: &Self) -> (equal: bool) {
        match compare_matches(self, other) {
            Order::Equal => true,
            _ => false,
        }
    }
}

impl vstd::std_specs::cmp::PartialEqSpecImpl for PathMatch {
    open spec fn obeys_eq_spec() -> bool {
        true
    }

    open spec fn eq_spec(&self, other: &Self) -> bool {
        match_order(self@, other@) == Order::Equal
    }
}

/// Two matches are equal exactly where they agree in score, worktree and closeness and
/// their paths have the same components.
pub proof fn law_match_equality(a: PathMatch, b: PathMatch)
    ensures
        a.eq_spec(&b) <==> a.score == b.score && a.worktree_id == b.worktree_id
            && a.distance_to_relative_ancestor == b.distance_to_relative_ancestor
            && path_components(a.path@) == path_components(b.path@),
{
    law_match_order_level(a@, b@);
}

} // verus!
