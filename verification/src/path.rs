//! Paths as byte strings, read the Unix way: pieces between `/` bytes.

use vstd::prelude::*;

use crate::order::{Order, compare_bytes};
#[allow(unused_imports)]
use crate::order::{bytes_order, composes, int_order, lemma_bytes_order_total,
    lemma_bytes_order_transitive};

verus! {

/// The byte that separates the pieces of a path, `/`.
pub const SEPARATOR: u8 = 47;

/// The byte that the special pieces are made of, `.`.
pub const DOT: u8 = 46;

/// One component of a path.
#[derive(Debug)]
pub enum Component {
    RootDir,
    CurDir,
    ParentDir,
    Normal(Vec<u8>),
}

/// What a component is.
pub enum ComponentView {
    RootDir,
    CurDir,
    ParentDir,
    Normal(Seq<u8>),
}

impl View for Component {
    type V = ComponentView;

    open spec fn view(&self) -> ComponentView {
        match self {
            Component::RootDir => ComponentView::RootDir,
            Component::CurDir => ComponentView::CurDir,
            Component::ParentDir => ComponentView::ParentDir,
            Component::Normal(name) => ComponentView::Normal(name@),
        }
    }
}

/// The pieces between the separators of a path; one piece more than separators.
pub open spec fn pieces(path: Seq<u8>) -> Seq<Seq<u8>>
    decreases path.len(),
{
    if path.len() == 0 {
        seq![Seq::<u8>::empty()]
    } else {
        let before = pieces(path.drop_last());
        if path.last() == SEPARATOR {
            before.push(Seq::<u8>::empty())
        } else {
            before.update(before.len() - 1, before.last().push(path.last()))
        }
    }
}

/// The component that a piece stands for: none for an empty piece and for `.`.
pub open spec fn piece_component(piece: Seq<u8>) -> Option<ComponentView> {
    if piece.len() == 0 || piece == seq![DOT] {
        None
    } else if piece == seq![DOT, DOT] {
        Some(ComponentView::ParentDir)
    } else {
        Some(ComponentView::Normal(piece))
    }
}

/// The component that a path starts with before its pieces are read.
pub open spec fn leading_component(path: Seq<u8>) -> Seq<ComponentView> {
    if path.len() > 0 && path[0] == SEPARATOR {
        seq![ComponentView::RootDir]
    } else if pieces(path)[0] == seq![DOT] {
        seq![ComponentView::CurDir]
    } else {
        Seq::empty()
    }
}

/// The components of a path: `/` at its start is the root, `.` counts only as the
/// first piece, and empty pieces do not count.
pub open spec fn path_components(path: Seq<u8>) -> Seq<ComponentView> {
    leading_component(path) + pieces(path).filter_map(|piece: Seq<u8>| piece_component(piece))
}

/// The last component of a path where it is a name.
pub open spec fn path_file_name(path: Seq<u8>) -> Option<Seq<u8>> {
    let parts = path_components(path);
    if parts.len() == 0 {
        None
    } else {
        match parts.last() {
            ComponentView::Normal(name) => Some(name),
            _ => None,
        }
    }
}

pub proof fn lemma_pieces_len(path: Seq<u8>)
    ensures
        pieces(path).len() >= 1,
    decreases path.len(),
{
    if path.len() > 0 {
        lemma_pieces_len(path.drop_last());
    }
}

/// Splits a path at its separators.
fn split_pieces(path: &Vec<u8>) -> (parts: Vec<Vec<u8>>)
    ensures
        parts@.len() == pieces(path@).len(),
        forall|k: int| 0 <= k < parts@.len() ==> (#[trigger] parts@[k])@ == pieces(path@)[k],
{
    let mut parts: Vec<Vec<u8>> = Vec::new();
    let mut piece: Vec<u8> = Vec::new();
    let mut i: usize = 0;
    assert(piece@ =~= Seq::<u8>::empty());
    while i < path.len()
        invariant
            i <= path@.len(),
            pieces(path@.take(i as int)).len() == parts@.len() + 1,
            forall|k: int|
                0 <= k < parts@.len() ==> (#[trigger] parts@[k])@ == pieces(path@.take(i as int))[k],
            pieces(path@.take(i as int)).last() == piece@,
        decreases path@.len() - i,
    {
        assert(path@.take(i + 1).drop_last() =~= path@.take(i as int));
        if path[i] == SEPARATOR {
            parts.push(piece);
            piece = Vec::new();
            assert(piece@ =~= Seq::<u8>::empty());
        } else {
            piece.push(path[i]);
        }
        i += 1;
    }
    assert(path@.take(i as int) =~= path@);
    parts.push(piece);
    parts
}

/// The component that a piece stands for.
fn component_of_piece(piece: &Vec<u8>) -> (component: Option<Component>)
    ensures
        match component {
            Some(component) => piece_component(piece@) == Some(component@),
            None => piece_component(piece@) is None,
        },
{
    if piece.len() == 0 {
        None
    } else if piece.len() == 1 && piece[0] == DOT {
        assert(piece@ =~= seq![DOT]);
        None
    } else if piece.len() == 2 && piece[0] == DOT && piece[1] == DOT {
        assert(piece@ =~= seq![DOT, DOT]);
        Some(Component::ParentDir)
    } else {
        let name: Vec<u8> = piece.clone();
        assert(name@ =~= piece@);
        Some(Component::Normal(name))
    }
}

/// The components of a path.
pub fn components(path: &Vec<u8>) -> (parts: Vec<Component>)
    ensures
        parts@.len() == path_components(path@).len(),
        forall|k: int| 0 <= k < parts@.len() ==> (#[trigger] parts@[k])@ == path_components(path@)[k],
{
    let split = split_pieces(path);
    proof {
        lemma_pieces_len(path@);
    }
    let mut parts: Vec<Component> = Vec::new();
    if path.len() > 0 && path[0] == SEPARATOR {
        parts.push(Component::RootDir);
    } else if split[0].len() == 1 && split[0][0] == DOT {
        assert(split@[0]@ =~= seq![DOT]);
        parts.push(Component::CurDir);
    }
    let ghost lead = leading_component(path@);
    let ghost read = |piece: Seq<u8>| piece_component(piece);
    let ghost all = pieces(path@);
    assert(parts@.len() == lead.len());
    assert(all.take(0).filter_map(read) =~= Seq::empty());
    let mut i: usize = 0;
    while i < split.len()
        invariant
            i <= split@.len(),
            split@.len() == all.len(),
            forall|k: int| 0 <= k < split@.len() ==> (#[trigger] split@[k])@ == all[k],
            read == (|piece: Seq<u8>| piece_component(piece)),
            parts@.len() == (lead + all.take(i as int).filter_map(read)).len(),
            forall|k: int|
                0 <= k < parts@.len() ==> (#[trigger] parts@[k])@ == (lead + all.take(
                    i as int,
                ).filter_map(read))[k],
        decreases split@.len() - i,
    {
        proof {
            all.lemma_filter_map_take_succ(read, i as int);
        }
        match component_of_piece(&split[i]) {
            Some(component) => parts.push(component),
            None => {},
        }
        i += 1;
    }
    assert(all.take(i as int) =~= all);
    parts
}

/// The last component of a path where it is a name.
pub fn file_name(path: &Vec<u8>) -> (name: Option<Vec<u8>>)
    ensures
        match name {
            Some(name) => path_file_name(path@) == Some(name@),
            None => path_file_name(path@) is None,
        },
{
    let mut parts = components(path);
    match parts.pop() {
        Some(Component::Normal(name)) => Some(name),
        _ => None,
    }
}

/// The bytes from `i` to `j` are what stands between two separators, or between
/// one and an end of the path.
pub open spec fn is_span(path: Seq<u8>, i: int, j: int) -> bool {
    &&& 0 <= i <= j <= path.len()
    &&& i > 0 ==> path[i - 1] == SEPARATOR
    &&& j < path.len() ==> path[j] == SEPARATOR
}

/// Each piece is a span, and only the last one reaches to the end.
pub proof fn lemma_piece_span(path: Seq<u8>, k: int)
    requires
        0 <= k < pieces(path).len(),
    ensures
        exists|i: int, j: int| #[trigger]
            is_span(path, i, j) && pieces(path)[k] == path.subrange(i, j) && (k
                == pieces(path).len() - 1 <==> j == path.len()),
    decreases path.len(),
{
    let n = path.len() as int;
    if n == 0 {
        assert(is_span(path, 0, 0));
        assert(path.subrange(0, 0) =~= Seq::<u8>::empty());
    } else {
        let front = path.drop_last();
        let before = pieces(front);
        lemma_pieces_len(front);
        if path.last() == SEPARATOR && k == before.len() {
            assert(is_span(path, n, n));
            assert(path.subrange(n, n) =~= Seq::<u8>::empty());
        } else {
            lemma_piece_span(front, k);
            let (i, j) = choose|i: int, j: int| #[trigger]
                is_span(front, i, j) && before[k] == front.subrange(i, j) && (k == before.len() - 1
                    <==> j == front.len());
            if path.last() != SEPARATOR && k == before.len() - 1 {
                assert(is_span(path, i, n));
                assert(front.subrange(i, j).push(path.last()) =~= path.subrange(i, n));
            } else {
                assert(is_span(path, i, j));
                assert(front.subrange(i, j) =~= path.subrange(i, j));
            }
        }
    }
}

/// The file name is a piece of the path.
pub proof fn lemma_file_name_piece(path: Seq<u8>, name: Seq<u8>)
    requires
        path_file_name(path) == Some(name),
    ensures
        pieces(path).contains(name),
        name.len() > 0,
{
    let read = |piece: Seq<u8>| piece_component(piece);
    let named = pieces(path).filter_map(read);
    let parts = path_components(path);
    if named.len() == 0 {
        assert(parts =~= leading_component(path));
    }
    assert(named[named.len() - 1] == parts.last());
    pieces(path).lemma_filter_map_contains(read, parts.last());
    let piece = choose|piece: Seq<u8>| #[trigger]
        pieces(path).contains(piece) && read(piece) == Some(parts.last());
    assert(piece == name);
}

/// How a kind of component ranks among the kinds.
pub open spec fn kind_rank(component: ComponentView) -> int {
    match component {
        ComponentView::RootDir => 0,
        ComponentView::CurDir => 1,
        ComponentView::ParentDir => 2,
        ComponentView::Normal(_) => 3,
    }
}

/// The order of two components: by kind, and names by their bytes.
pub open spec fn component_order(a: ComponentView, b: ComponentView) -> Order {
    match (a, b) {
        (ComponentView::Normal(x), ComponentView::Normal(y)) => bytes_order(x, y),
        _ => int_order(kind_rank(a), kind_rank(b)),
    }
}

/// The lexicographic order of two component sequences.
pub open spec fn components_order(a: Seq<ComponentView>, b: Seq<ComponentView>) -> Order
    decreases a.len(),
{
    if a.len() == 0 || b.len() == 0 {
        int_order(a.len() as int, b.len() as int)
    } else {
        component_order(a[0], b[0]).or_tie(components_order(a.drop_first(), b.drop_first()))
    }
}

/// The order of two paths.
pub open spec fn path_order(a: Seq<u8>, b: Seq<u8>) -> Order {
    components_order(path_components(a), path_components(b))
}

proof fn lemma_component_order_total(a: ComponentView, b: ComponentView)
    ensures
        component_order(b, a) == component_order(a, b).flipped(),
        component_order(a, b) == Order::Equal <==> a == b,
{
    if let (ComponentView::Normal(x), ComponentView::Normal(y)) = (a, b) {
        lemma_bytes_order_total(x, y);
    }
}

proof fn lemma_component_order_transitive(a: ComponentView, b: ComponentView, c: ComponentView)
    ensures
        composes(component_order(a, b), component_order(b, c), component_order(a, c)),
{
    lemma_component_order_total(a, b);
    lemma_component_order_total(b, c);
    if let (ComponentView::Normal(x), ComponentView::Normal(y)) = (a, b) {
        if let ComponentView::Normal(z) = c {
            lemma_bytes_order_transitive(x, y, z);
        }
    }
}

/// The order of component sequences is total: looking from the other side flips
/// it, and only equal sequences are level.
pub proof fn lemma_components_order_total(a: Seq<ComponentView>, b: Seq<ComponentView>)
    ensures
        components_order(b, a) == components_order(a, b).flipped(),
        components_order(a, b) == Order::Equal <==> a == b,
    decreases a.len(),
{
    if a.len() > 0 && b.len() > 0 {
        lemma_component_order_total(a[0], b[0]);
        lemma_components_order_total(a.drop_first(), b.drop_first());
        if a[0] == b[0] && a.drop_first() == b.drop_first() {
            assert(a =~= seq![a[0]] + a.drop_first());
            assert(b =~= seq![b[0]] + b.drop_first());
        }
    } else if a.len() == b.len() {
        assert(a =~= b);
    }
}

/// The order of component sequences is transitive.
pub proof fn lemma_components_order_transitive(
    a: Seq<ComponentView>,
    b: Seq<ComponentView>,
    c: Seq<ComponentView>,
)
    ensures
        composes(components_order(a, b), components_order(b, c), components_order(a, c)),
    decreases a.len(),
{
    if a.len() > 0 && b.len() > 0 && c.len() > 0 {
        lemma_component_order_transitive(a[0], b[0], c[0]);
        lemma_components_order_transitive(a.drop_first(), b.drop_first(), c.drop_first());
    }
}

/// Compares two components.
fn compare_component(a: &Component, b: &Component) -> (order: Order)
    ensures
        order == component_order(a@, b@),
{
    match (a, b) {
        (Component::Normal(x), Component::Normal(y)) => compare_bytes(x, y),
        (Component::RootDir, Component::RootDir) => Order::Equal,
        (Component::RootDir, _) => Order::Less,
        (_, Component::RootDir) => Order::Greater,
        (Component::CurDir, Component::CurDir) => Order::Equal,
        (Component::CurDir, _) => Order::Less,
        (_, Component::CurDir) => Order::Greater,
        (Component::ParentDir, Component::ParentDir) => Order::Equal,
        (Component::ParentDir, _) => Order::Less,
        (_, Component::ParentDir) => Order::Greater,
    }
}

/// Compares two paths component by component.
pub fn compare_paths(a: &Vec<u8>, b: &Vec<u8>) -> (order: Order)
    ensures
        order == path_order(a@, b@),
{
    let xs = components(a);
    let ys = components(b);
    let ghost xv = path_components(a@);
    let ghost yv = path_components(b@);
    let mut i: usize = 0;
    assert(xv.skip(0) =~= xv);
    assert(yv.skip(0) =~= yv);
    while i < xs.len() && i < ys.len()
        invariant
            i <= xs@.len(),
            i <= ys@.len(),
            xs@.len() == xv.len(),
            ys@.len() == yv.len(),
            forall|k: int| 0 <= k < xs@.len() ==> (#[trigger] xs@[k])@ == xv[k],
            forall|k: int| 0 <= k < ys@.len() ==> (#[trigger] ys@[k])@ == yv[k],
            xv == path_components(a@),
            yv == path_components(b@),
            path_order(a@, b@) == components_order(xv.skip(i as int), yv.skip(i as int)),
        decreases xs@.len() - i,
    {
        assert(xv.skip(i as int).drop_first() =~= xv.skip(i + 1));
        assert(yv.skip(i as int).drop_first() =~= yv.skip(i + 1));
        match compare_component(&xs[i], &ys[i]) {
            Order::Less => {
                return Order::Less;
            },
            Order::Greater => {
                return Order::Greater;
            },
            Order::Equal => {},
        }
        i += 1;
    }
    if xs.len() < ys.len() {
        Order::Less
    } else if xs.len() == ys.len() {
        Order::Equal
    } else {
        Order::Greater
    }
}

/// Tells whether two paths have the same components.
pub fn same_path(a: &Vec<u8>, b: &Vec<u8>) -> (same: bool)
    ensures
        same == (path_components(a@) == path_components(b@)),
{
    proof {
        lemma_components_order_total(path_components(a@), path_components(b@));
    }
    match compare_paths(a, b) {
        Order::Equal => true,
        _ => false,
    }
}

} // verus!
