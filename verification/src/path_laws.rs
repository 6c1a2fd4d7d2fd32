//! What holds of paths, their components and their order, in terms of the bytes.

use vstd::prelude::*;

#[allow(unused_imports)]
use crate::order::{Order, bytes_order, int_order, lemma_bytes_order_total};
#[allow(unused_imports)]
use crate::path::{Component, ComponentView, DOT, SEPARATOR, components_order, component_order,
    leading_component, lemma_components_order_total, lemma_pieces_len, path_components,
    path_file_name, path_order, piece_component, pieces};

verus! {

/// No byte of it is a separator.
pub open spec fn is_unbroken(part: Seq<u8>) -> bool {
    forall|k: int| 0 <= k < part.len() ==> #[trigger] part[k] != SEPARATOR
}

/// A path without separators is one piece.
proof fn lemma_pieces_unbroken(path: Seq<u8>)
    requires
        is_unbroken(path),
    ensures
        pieces(path) == seq![path],
    decreases path.len(),
{
    if path.len() == 0 {
        assert(path =~= Seq::<u8>::empty());
    } else {
        let front = path.drop_last();
        assert forall|k: int| 0 <= k < front.len() implies #[trigger] front[k] != SEPARATOR by {
            assert(front[k] == path[k]);
        }
        lemma_pieces_unbroken(front);
        assert(path[path.len() - 1] != SEPARATOR);
        assert(front.push(path.last()) =~= path);
    }
    assert(pieces(path) =~= seq![path]);
}

/// What stands behind the last separator is one more piece.
proof fn lemma_pieces_behind(parent: Seq<u8>, part: Seq<u8>)
    requires
        is_unbroken(part),
    ensures
        pieces(parent.push(SEPARATOR) + part) == pieces(parent).push(part),
    decreases part.len(),
{
    let path = parent.push(SEPARATOR) + part;
    if part.len() == 0 {
        assert(path =~= parent.push(SEPARATOR));
        assert(path.drop_last() =~= parent);
        assert(part =~= Seq::<u8>::empty());
    } else {
        let front = part.drop_last();
        assert forall|k: int| 0 <= k < front.len() implies #[trigger] front[k] != SEPARATOR by {
            assert(front[k] == part[k]);
        }
        lemma_pieces_behind(parent, front);
        assert(path.drop_last() =~= parent.push(SEPARATOR) + front);
        assert(path.last() == part[part.len() - 1]);
        assert(front.push(path.last()) =~= part);
    }
    assert(pieces(path) =~= pieces(parent).push(part));
}

/// A path without separators is nothing where it is empty, the current directory
/// where it is one dot, the parent directory where it is two, and else a name.
pub proof fn law_components_unbroken(path: Seq<u8>)
    requires
        is_unbroken(path),
    ensures
        path.len() == 0 ==> path_components(path) == Seq::<ComponentView>::empty(),
        path == seq![DOT] ==> path_components(path) == seq![ComponentView::CurDir],
        path == seq![DOT, DOT] ==> path_components(path) == seq![ComponentView::ParentDir],
        path.len() > 0 && path != seq![DOT] && path != seq![DOT, DOT] ==> path_components(path)
            == seq![ComponentView::Normal(path)],
{
    lemma_pieces_unbroken(path);
    let read = |piece: Seq<u8>| piece_component(piece);
    Seq::<Seq<u8>>::lemma_filter_map_singleton::<ComponentView>(path, read);
    let named = pieces(path).filter_map(read);
    assert(seq![DOT].len() == 1 && seq![DOT, DOT].len() == 2);
    if path.len() > 0 {
        assert(path[0] != SEPARATOR);
    }
    assert(path_components(path) == leading_component(path) + named);
    if path.len() == 0 {
        assert(path_components(path) =~= Seq::<ComponentView>::empty());
    } else if path == seq![DOT] {
        assert(path_components(path) =~= seq![ComponentView::CurDir]);
    } else if path == seq![DOT, DOT] {
        assert(path_components(path) =~= seq![ComponentView::ParentDir]);
    } else {
        assert(path_components(path) =~= seq![ComponentView::Normal(path)]);
    }
}

/// What stands behind a separator adds nothing where it is empty or one dot, the
/// parent directory where it is two dots, and else a name. A separator with nothing
/// before it is the root.
pub proof fn law_components_behind_separator(parent: Seq<u8>, part: Seq<u8>)
    requires
        is_unbroken(part),
    ensures
        ({
            let whole = path_components(parent.push(SEPARATOR) + part);
            let before = if parent.len() == 0 {
                seq![ComponentView::RootDir]
            } else {
                path_components(parent)
            };
            &&& part.len() == 0 || part == seq![DOT] ==> whole == before
            &&& part == seq![DOT, DOT] ==> whole == before.push(ComponentView::ParentDir)
            &&& part.len() > 0 && part != seq![DOT] && part != seq![DOT, DOT] ==> whole
                == before.push(ComponentView::Normal(part))
        }),
{
    let path = parent.push(SEPARATOR) + part;
    let read = |piece: Seq<u8>| piece_component(piece);
    lemma_pieces_behind(parent, part);
    lemma_pieces_len(parent);
    let all = pieces(path);
    assert(seq![DOT].len() == 1 && seq![DOT, DOT].len() == 2);
    assert(all.drop_last() =~= pieces(parent));
    assert(all.last() == part);
    assert(path_components(path) == leading_component(path) + all.filter_map(read));
    if parent.len() == 0 {
        lemma_pieces_unbroken(parent);
        Seq::<Seq<u8>>::lemma_filter_map_singleton::<ComponentView>(parent, read);
        assert(pieces(parent).filter_map(read) =~= Seq::<ComponentView>::empty());
        assert(path[0] == SEPARATOR);
        assert(leading_component(path) == seq![ComponentView::RootDir]);
    } else {
        assert(path[0] == parent[0]);
        assert(all[0] == pieces(parent)[0]);
        assert(leading_component(path) == leading_component(parent));
    }
    let before = if parent.len() == 0 {
        seq![ComponentView::RootDir]
    } else {
        path_components(parent)
    };
    assert(before =~= leading_component(path) + pieces(parent).filter_map(read));
    if part.len() == 0 || part == seq![DOT] {
        assert(path_components(path) =~= before);
    } else if part == seq![DOT, DOT] {
        assert(path_components(path) =~= before.push(ComponentView::ParentDir));
    } else {
        assert(path_components(path) =~= before.push(ComponentView::Normal(part)));
    }
}

/// The file name is what stands behind the last separator, or the whole path where
/// there is none. Separators and single dots at the end do not count; two dots are
/// no file name, and neither is nothing.
pub proof fn law_file_name(parent: Seq<u8>, part: Seq<u8>)
    requires
        is_unbroken(part),
    ensures
        part.len() > 0 && part != seq![DOT] && part != seq![DOT, DOT] ==> path_file_name(
            parent.push(SEPARATOR) + part,
        ) == Some(part) && path_file_name(part) == Some(part),
        part == seq![DOT, DOT] ==> path_file_name(parent.push(SEPARATOR) + part) is None
            && path_file_name(part) is None,
        part.len() == 0 || part == seq![DOT] ==> path_file_name(part) is None && path_file_name(
            parent.push(SEPARATOR) + part,
        ) == (if parent.len() == 0 {
            None
        } else {
            path_file_name(parent)
        }),
{
    law_components_unbroken(part);
    law_components_behind_separator(parent, part);
    assert(seq![DOT].len() == 1 && seq![DOT, DOT].len() == 2);
}

/// Byte strings are ordered by the first byte in which they differ.
pub proof fn law_bytes_first_difference(a: Seq<u8>, b: Seq<u8>, k: int)
    requires
        0 <= k < a.len(),
        k < b.len(),
        forall|j: int| 0 <= j < k ==> #[trigger] a[j] == b[j],
        a[k] < b[k],
    ensures
        bytes_order(a, b) == Order::Less,
        bytes_order(b, a) == Order::Greater,
    decreases k,
{
    if k > 0 {
        assert(a[0] == b[0]);
        assert forall|j: int| 0 <= j < k - 1 implies #[trigger] a.drop_first()[j]
            == b.drop_first()[j] by {
            assert(a[j + 1] == b[j + 1]);
        }
        law_bytes_first_difference(a.drop_first(), b.drop_first(), k - 1);
    }
}

/// The start of a byte string comes before it, and only equal strings are level.
pub proof fn law_bytes_start_comes_first(a: Seq<u8>, b: Seq<u8>)
    ensures
        a.is_prefix_of(b) && a.len() < b.len() ==> bytes_order(a, b) == Order::Less
            && bytes_order(b, a) == Order::Greater,
        bytes_order(a, b) == Order::Equal <==> a == b,
    decreases a.len(),
{
    lemma_bytes_order_total(a, b);
    if a.is_prefix_of(b) && a.len() < b.len() && a.len() > 0 {
        assert(a[0] == b[0]) by {
            assert(b.subrange(0, a.len() as int)[0] == b[0]);
        }
        assert(a.drop_first() =~= b.drop_first().subrange(0, a.len() - 1)) by {
            assert forall|j: int| 0 <= j < a.len() - 1 implies a.drop_first()[j]
                == b.drop_first()[j] by {
                assert(a[j + 1] == b.subrange(0, a.len() as int)[j + 1]);
            }
        }
        law_bytes_start_comes_first(a.drop_first(), b.drop_first());
    }
}

/// The component orders of two sequences that agree up to `k` are those of what is
/// left from there.
proof fn lemma_components_order_from(a: Seq<ComponentView>, b: Seq<ComponentView>, k: int)
    requires
        0 <= k <= a.len(),
        k <= b.len(),
        forall|j: int| 0 <= j < k ==> #[trigger] a[j] == b[j],
    ensures
        components_order(a, b) == components_order(a.skip(k), b.skip(k)),
    decreases k,
{
    if k == 0 {
        assert(a.skip(0) =~= a);
        assert(b.skip(0) =~= b);
    } else {
        assert(a[0] == b[0]);
        lemma_components_order_total(seq![a[0]], seq![b[0]]);
        assert(components_order(seq![a[0]], seq![b[0]]) == Order::Equal);
        assert(seq![a[0]].drop_first() =~= Seq::empty());
        assert(component_order(a[0], b[0]) == Order::Equal);
        assert forall|j: int| 0 <= j < k - 1 implies #[trigger] a.drop_first()[j]
            == b.drop_first()[j] by {
            assert(a[j + 1] == b[j + 1]);
        }
        lemma_components_order_from(a.drop_first(), b.drop_first(), k - 1);
        assert(a.drop_first().skip(k - 1) =~= a.skip(k));
        assert(b.drop_first().skip(k - 1) =~= b.skip(k));
    }
}

/// Paths are ordered by the first component in which they differ: names by their
/// bytes, and the root before the current directory before the parent directory
/// before names.
pub proof fn law_paths_first_difference(a: Seq<u8>, b: Seq<u8>, k: int)
    requires
        0 <= k < path_components(a).len(),
        k < path_components(b).len(),
        forall|j: int|
            0 <= j < k ==> #[trigger] path_components(a)[j] == path_components(b)[j],
        path_components(a)[k] != path_components(b)[k],
    ensures
        match (path_components(a)[k], path_components(b)[k]) {
            (ComponentView::Normal(x), ComponentView::Normal(y)) => path_order(a, b)
                == bytes_order(x, y),
            (ComponentView::RootDir, _) => path_order(a, b) == Order::Less,
            (_, ComponentView::RootDir) => path_order(a, b) == Order::Greater,
            (ComponentView::CurDir, _) => path_order(a, b) == Order::Less,
            (_, ComponentView::CurDir) => path_order(a, b) == Order::Greater,
            (ComponentView::ParentDir, _) => path_order(a, b) == Order::Less,
            (_, ComponentView::ParentDir) => path_order(a, b) == Order::Greater,
        },
{
    let ca = path_components(a);
    let cb = path_components(b);
    lemma_components_order_from(ca, cb, k);
    assert(ca.skip(k)[0] == ca[k]);
    assert(cb.skip(k)[0] == cb[k]);
    if let (ComponentView::Normal(x), ComponentView::Normal(y)) = (ca[k], cb[k]) {
        lemma_bytes_order_total(x, y);
    }
}

/// A path whose components another path goes on from comes before that, and only
/// paths with the same components are level.
pub proof fn law_paths_start_comes_first(a: Seq<u8>, b: Seq<u8>)
    ensures
        path_order(a, b) == Order::Equal <==> path_components(a) == path_components(b),
        path_components(a).len() < path_components(b).len() && (forall|j: int|
            0 <= j < path_components(a).len() ==> #[trigger] path_components(a)[j]
                == path_components(b)[j]) ==> path_order(a, b) == Order::Less && path_order(b, a)
            == Order::Greater,
{
    let ca = path_components(a);
    let cb = path_components(b);
    lemma_components_order_total(ca, cb);
    if ca.len() < cb.len() && (forall|j: int| 0 <= j < ca.len() ==> #[trigger] ca[j] == cb[j]) {
        lemma_components_order_from(ca, cb, ca.len() as int);
    }
}

/// A component is seen as what it is.
pub proof fn law_component_view(component: Component)
    ensures
        match component {
            Component::RootDir => component@ == ComponentView::RootDir,
            Component::CurDir => component@ == ComponentView::CurDir,
            Component::ParentDir => component@ == ComponentView::ParentDir,
            Component::Normal(name) => component@ == ComponentView::Normal(name@),
        },
{
}

} // verus!
