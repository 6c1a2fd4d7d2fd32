//! How a match is shown: its file name and its full path, each with the
//! characters that the query matched.

use vstd::prelude::*;
use vstd::string::*;

use crate::path::file_name;
#[allow(unused_imports)]
use crate::path::{DOT, SEPARATOR, is_span, lemma_file_name_piece, lemma_piece_span,
    lemma_pieces_len, path_file_name, pieces};
#[allow(unused_imports)]
use crate::path_laws::{is_unbroken, law_file_name};
use crate::path_match::PathMatch;
#[allow(unused_imports)]
use crate::path_match::MatchView;
use crate::text::to_text;
#[allow(unused_imports)]
use crate::text::{lemma_lossy_ascii_first, lemma_lossy_before_ascii, lossy};

verus! {

/// The shown full path: the prefix, then the path.
pub open spec fn full_label(m: MatchView) -> Seq<char> {
    m.path_prefix + lossy(m.path)
}

/// The shown file name. A match without one is the root of its worktree, and shows
/// its prefix.
pub open spec fn name_label(m: MatchView) -> Seq<char> {
    match path_file_name(m.path) {
        Some(name) => lossy(name),
        None => m.path_prefix,
    }
}

/// Where the file name starts in the full path, counted so that it reaches to the
/// end.
pub open spec fn name_start(m: MatchView) -> int {
    full_label(m).len() - name_label(m).len()
}

/// The positions from `start` on, counted from there.
pub open spec fn shifted(positions: Seq<usize>, start: int) -> Seq<usize> {
    positions.filter_map(
        |p: usize|
            if p >= start {
                Some((p - start) as usize)
            } else {
                None::<usize>
            },
    )
}

/// A stretch between separators is shown as part of the path.
proof fn lemma_lossy_span(path: Seq<u8>, i: int, j: int)
    requires
        is_span(path, i, j),
    ensures
        lossy(path.subrange(i, j)).len() <= lossy(path).len(),
        j == path.len() ==> lossy(path).skip(
            lossy(path).len() - lossy(path.subrange(i, j)).len(),
        ) == lossy(path.subrange(i, j)),
{
    let tail = path.skip(i);
    let span = path.subrange(i, j);
    if i > 0 {
        let head = path.take(i - 1);
        let from = path.skip(i - 1);
        assert(path =~= head + from);
        lemma_lossy_before_ascii(head, from);
        lemma_lossy_ascii_first(from);
        assert(from.skip(1) =~= tail);
        assert(lossy(path) == lossy(head) + (seq![from[0] as char] + lossy(tail)));
    } else {
        assert(tail =~= path);
    }
    if j < path.len() {
        let rest = path.skip(j);
        assert(tail =~= span + rest);
        lemma_lossy_before_ascii(span, rest);
    } else {
        assert(span =~= tail);
        assert(lossy(path).skip(lossy(path).len() - lossy(tail).len()) =~= lossy(tail));
    }
}

/// The file name is no longer than the full path.
pub proof fn lemma_name_fits(m: MatchView)
    ensures
        0 <= name_start(m) <= full_label(m).len(),
{
    if let Some(name) = path_file_name(m.path) {
        lemma_file_name_piece(m.path, name);
        let k = choose|k: int| 0 <= k < pieces(m.path).len() && pieces(m.path)[k] == name;
        lemma_piece_span(m.path, k);
        let (i, j) = choose|i: int, j: int| #[trigger]
            is_span(m.path, i, j) && pieces(m.path)[k] == m.path.subrange(i, j) && (k == pieces(
                m.path,
            ).len() - 1 <==> j == m.path.len());
        lemma_lossy_span(m.path, i, j);
    }
}

/// The full path shows the file name at the place that its positions are counted
/// from. This holds of the root of a worktree, and of a path that nothing follows
/// the file name of.
pub proof fn law_name_is_shown_in_full_path(m: MatchView)
    requires
        m.path.len() == 0 || path_file_name(m.path) == Some(pieces(m.path).last()),
    ensures
        full_label(m).skip(name_start(m)) == name_label(m),
{
    lemma_name_fits(m);
    if m.path.len() == 0 {
        lemma_empty_has_no_name(m.path);
        assert(full_label(m) =~= m.path_prefix);
        assert(full_label(m).skip(name_start(m)) =~= name_label(m));
    } else {
        let k = pieces(m.path).len() - 1;
        lemma_pieces_len(m.path);
        lemma_piece_span(m.path, k);
        let (i, j) = choose|i: int, j: int| #[trigger]
            is_span(m.path, i, j) && pieces(m.path)[k] == m.path.subrange(i, j) && (k == pieces(
                m.path,
            ).len() - 1 <==> j == m.path.len());
        lemma_lossy_span(m.path, i, j);
        let shown = lossy(m.path);
        let name = name_label(m);
        assert(full_label(m).skip(name_start(m)) =~= shown.skip(shown.len() - name.len()));
    }
}

proof fn lemma_empty_has_no_name(path: Seq<u8>)
    requires
        path.len() == 0,
    ensures
        path_file_name(path) is None,
{
    if let Some(name) = path_file_name(path) {
        lemma_file_name_piece(path, name);
        let k = choose|k: int| 0 <= k < pieces(path).len() && pieces(path)[k] == name;
        assert(pieces(path)[0].len() == 0);
    }
}

/// The positions shown in the file name are those of the full path from where the
/// file name starts, and no other.
pub proof fn law_name_positions(m: MatchView, p: usize)
    requires
        p + name_start(m) <= usize::MAX,
    ensures
        shifted(m.positions, name_start(m)).contains(p) <==> m.positions.contains(
            (p + name_start(m)) as usize,
        ),
{
    lemma_name_fits(m);
    lemma_shifted_contains(m.positions, name_start(m), p);
}

proof fn lemma_shifted_contains(positions: Seq<usize>, start: int, p: usize)
    requires
        0 <= start,
        p + start <= usize::MAX,
    ensures
        shifted(positions, start).contains(p) <==> positions.contains((p + start) as usize),
    decreases positions.len(),
{
    let out = shifted(positions, start);
    let q = (p + start) as usize;
    if positions.len() > 0 {
        let front = positions.drop_last();
        let last = positions.last();
        let before = shifted(front, start);
        lemma_shifted_contains(front, start, p);
        assert(positions =~= front.push(last));
        if last >= start {
            assert(out =~= before.push((last - start) as usize));
            if out.contains(p) {
                let k = choose|k: int| 0 <= k < out.len() && out[k] == p;
                if k < before.len() {
                    assert(before[k] == p);
                } else {
                    assert(positions[positions.len() - 1] == q);
                }
            }
            if last == q {
                assert(out[before.len() as int] == p);
            }
            if before.contains(p) {
                let k = choose|k: int| 0 <= k < before.len() && before[k] == p;
                assert(out[k] == p);
            }
        } else {
            assert(out =~= before);
        }
        if front.contains(q) {
            let k = choose|k: int| 0 <= k < front.len() && front[k] == q;
            assert(positions[k] == q);
        }
        if positions.contains(q) && last != q {
            let k = choose|k: int| 0 <= k < positions.len() && positions[k] == q;
            assert(front[k] == q);
        }
    }
}

/// The full path shows the prefix first, then the path, whatever the path is; and
/// the file name is counted from where it reaches to the end of both.
pub proof fn law_full_path_shows_prefix_and_path(m: MatchView)
    ensures
        full_label(m).len() == m.path_prefix.len() + lossy(m.path).len(),
        full_label(m).take(m.path_prefix.len() as int) == m.path_prefix,
        full_label(m).skip(m.path_prefix.len() as int) == lossy(m.path),
        name_start(m) == m.path_prefix.len() + lossy(m.path).len() - name_label(m).len(),
{
    assert(full_label(m).take(m.path_prefix.len() as int) =~= m.path_prefix);
    assert(full_label(m).skip(m.path_prefix.len() as int) =~= lossy(m.path));
}

/// A match shows its file name, and its prefix where it has none.
pub proof fn law_name_or_prefix(m: MatchView)
    ensures
        path_file_name(m.path) matches Some(name) ==> name_label(m) == lossy(name),
        path_file_name(m.path) is None ==> name_label(m) == m.path_prefix,
{
}

/// The file name shown is what stands behind the last separator, or the whole path
/// where there is none; the root of a worktree and a path that ends in two dots show
/// the prefix.
pub proof fn law_name_is_last_part(m: MatchView, parent: Seq<u8>, part: Seq<u8>)
    requires
        is_unbroken(part),
        m.path == part || m.path == parent.push(SEPARATOR) + part,
    ensures
        part.len() > 0 && part != seq![DOT] && part != seq![DOT, DOT] ==> name_label(m) == lossy(
            part,
        ),
        part == seq![DOT, DOT] ==> name_label(m) == m.path_prefix,
        m.path.len() == 0 ==> name_label(m) == m.path_prefix,
{
    law_file_name(parent, part);
    if m.path.len() == 0 {
        lemma_empty_has_no_name(m.path);
    }
}

/// Positions are shifted one by one, in their order: those before the start are left
/// out, and the others count from there.
pub proof fn law_shifted_one_by_one(positions: Seq<usize>, p: usize, start: int)
    requires
        0 <= start,
    ensures
        shifted(Seq::<usize>::empty(), start) == Seq::<usize>::empty(),
        p < start ==> shifted(positions.push(p), start) == shifted(positions, start),
        p >= start ==> shifted(positions.push(p), start) == shifted(positions, start).push(
            (p - start) as usize,
        ),
{
    assert(positions.push(p).drop_last() =~= positions);
    if p >= start {
        assert(shifted(positions.push(p), start) =~= shifted(positions, start).push(
            (p - start) as usize,
        ));
    }
}

/// The labels of a match: its file name and the matched characters in it, then its
/// full path and the matched characters in that.
pub fn labels_of(path_match: &PathMatch) -> (labels: (
    String,
    Vec<usize>,
    String,
    Vec<usize>,
))
    ensures
        labels.0@ == name_label(path_match@),
        labels.1@ == shifted(path_match@.positions, name_start(path_match@)),
        labels.2@ == full_label(path_match@),
        labels.3@ == path_match@.positions,
{
    let path_string: String = to_text(&path_match.path);
    let mut full_path: String = path_match.path_prefix.clone();
    full_path.append(path_string.as_str());
    let path_positions: Vec<usize> = path_match.positions.clone();
    assert(path_positions@ =~= path_match.positions@);
    let name: String = match file_name(&path_match.path) {
        Some(bytes) => to_text(&bytes),
        None => path_match.path_prefix.clone(),
    };
    proof {
        lemma_name_fits(path_match@);
    }
    let start: usize = full_path.as_str().unicode_len() - name.as_str().unicode_len();
    let mut name_positions: Vec<usize> = Vec::new();
    let ghost keep = |p: usize|
        if p >= start as int {
            Some((p - start as int) as usize)
        } else {
            None::<usize>
        };
    let mut i: usize = 0;
    while i < path_positions.len()
        invariant
            i <= path_positions@.len(),
            keep == (|p: usize|
                if p >= start as int {
                    Some((p - start as int) as usize)
                } else {
                    None::<usize>
                }),
            name_positions@ == path_positions@.take(i as int).filter_map(keep),
        decreases path_positions@.len() - i,
    {
        proof {
            path_positions@.lemma_filter_map_take_succ(keep, i as int);
        }
        let p: usize = path_positions[i];
        if p >= start {
            name_positions.push(p - start);
        }
        i += 1;
    }
    assert(path_positions@.take(i as int) =~= path_positions@);
    (name, name_positions, full_path, path_positions)
}

} // verus!
