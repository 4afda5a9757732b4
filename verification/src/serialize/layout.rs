//! Where each node of a tree lies in its file.
//!
//! Nodes are written in breadth-first order, one after another. A node
//! refers to a child by the offset at which the child begins, so every
//! offset has to be known before the first node is written.

use crate::dataset::joined;
use crate::format::{
    bounds_bytes, header_bytes, lemma_run_bytes_len, payload_bytes, row_bytes, rows_bytes,
    scalar_bytes,
};
use crate::scalar::Scalar;
use crate::tree::NodeModel;
use vstd::prelude::*;

verus! {

/// The children of a node in row-major order.
pub open spec fn flat_children<T, U>(node: NodeModel<T, U>) -> Seq<NodeModel<T, U>> {
    joined(node.children, node.children.len())
}

/// The number of nodes of a tree.
pub open spec fn node_count<T, U>(node: NodeModel<T, U>) -> nat
    decreases node,
{
    1 + grid_count(node.children, node.children.len())
}

/// The number of nodes below and in the first `rows` rows of a grid of
/// nodes.
pub open spec fn grid_count<T, U>(nodes: Seq<Seq<NodeModel<T, U>>>, rows: nat) -> nat
    decreases nodes, rows,
{
    if rows == 0 || rows > nodes.len() {
        0
    } else {
        grid_count(nodes, (rows - 1) as nat) + forest_count(nodes[rows - 1], nodes[rows - 1].len())
    }
}

/// The number of nodes below and in the first `k` of a run of nodes.
pub open spec fn forest_count<T, U>(nodes: Seq<NodeModel<T, U>>, k: nat) -> nat
    decreases nodes, k,
{
    if k == 0 || k > nodes.len() {
        0
    } else {
        forest_count(nodes, (k - 1) as nat) + node_count(nodes[k - 1])
    }
}

/// The order in which a breadth-first walk visits nodes, given the nodes
/// found so far, of which the first `i` have been visited.
pub open spec fn breadth_first_from<T, U>(
    order: Seq<NodeModel<T, U>>,
    i: nat,
    fuel: nat,
) -> Seq<NodeModel<T, U>>
    decreases fuel,
{
    if fuel == 0 || i >= order.len() {
        order
    } else {
        breadth_first_from(order + flat_children(order[i as int]), i + 1, (fuel - 1) as nat)
    }
}

/// The nodes of a tree in breadth-first order.
pub open spec fn breadth_first<T, U>(root: NodeModel<T, U>) -> Seq<NodeModel<T, U>> {
    breadth_first_from(seq![root], 0, node_count(root))
}

/// Offsets of the shape of a node's children, all zero: what stands in for
/// the real offsets while they are not known.
pub open spec fn blank_pointers<T, U>(node: NodeModel<T, U>) -> Seq<Seq<u64>> {
    Seq::new(node.children.len(), |i: int| Seq::new(node.children[i].len(), |j: int| 0u64))
}

/// A node written at `position` with the given offsets of its children.
pub open spec fn node_bytes<T: Scalar, U: Scalar>(
    position: nat,
    node: NodeModel<T, U>,
    pointers: Seq<Seq<u64>>,
) -> Seq<u8> {
    let a = header_bytes(position, node.bounds, pointers);
    a + payload_bytes(position + a.len(), node.aggregate, node.data)
}

/// The offset at which node `k` of `order` begins when the first node is
/// written at `start`.
pub open spec fn offset_of<T: Scalar, U: Scalar>(
    order: Seq<NodeModel<T, U>>,
    start: nat,
    k: nat,
) -> nat
    decreases k,
{
    if k == 0 {
        start
    } else {
        let at = offset_of(order, start, (k - 1) as nat);
        at + node_bytes(at, order[k - 1], blank_pointers(order[k - 1])).len()
    }
}

/// The place in `order` of the first child of node `k`: children follow the
/// root in the order of their parents.
pub open spec fn first_child<T, U>(order: Seq<NodeModel<T, U>>, k: nat) -> nat
    decreases k,
{
    if k == 0 {
        1
    } else {
        first_child(order, (k - 1) as nat) + flat_children(order[k - 1]).len()
    }
}

/// The place of the element in row `i` and column `j` among all elements
/// in row-major order.
pub open spec fn flat_index<A>(rows: Seq<Seq<A>>, i: int, j: int) -> int {
    joined(rows, i as nat).len() + j
}

/// The offsets of the children of node `k`.
pub open spec fn pointers_of<T: Scalar, U: Scalar>(
    order: Seq<NodeModel<T, U>>,
    start: nat,
    k: nat,
) -> Seq<Seq<u64>> {
    let node = order[k as int];
    Seq::new(
        node.children.len(),
        |i: int|
            Seq::new(
                node.children[i].len(),
                |j: int|
                    offset_of(
                        order,
                        start,
                        (first_child(order, k) + flat_index(node.children, i, j)) as nat,
                    ) as u64,
            ),
    )
}

/// The first `k` nodes of `order` as they are written from `start` on.
pub open spec fn emitted<T: Scalar, U: Scalar>(
    order: Seq<NodeModel<T, U>>,
    start: nat,
    k: nat,
) -> Seq<u8>
    decreases k,
{
    if k == 0 {
        Seq::empty()
    } else {
        emitted(order, start, (k - 1) as nat) + node_bytes(
            offset_of(order, start, (k - 1) as nat),
            order[k - 1],
            pointers_of(order, start, (k - 1) as nat),
        )
    }
}

/// A whole tree written from `position` on.
pub open spec fn tree_bytes<T: Scalar, U: Scalar>(position: nat, root: NodeModel<T, U>) -> Seq<
    u8,
> {
    let order = breadth_first(root);
    emitted(order, position, order.len())
}

/// Every place up to `k` holds the same node in both runs.
pub open spec fn agree<A>(a: Seq<A>, b: Seq<A>, k: nat) -> bool {
    &&& k <= a.len()
    &&& k <= b.len()
    &&& forall|m: int| 0 <= m < k ==> a[m] == b[m]
}

pub proof fn lemma_joined_len_grow<A>(rows: Seq<Seq<A>>, j: nat, k: nat)
    requires
        j <= k,
    ensures
        joined(rows, j).len() <= joined(rows, k).len(),
    decreases k,
{
    if j < k {
        lemma_joined_len_grow(rows, j, (k - 1) as nat);
    }
}

/// The element in row `i` and column `j` is found at its flat index.
pub proof fn lemma_joined_index<A>(rows: Seq<Seq<A>>, k: nat, i: int, j: int)
    requires
        0 <= i < k <= rows.len(),
        0 <= j < rows[i].len(),
    ensures
        0 <= flat_index(rows, i, j) < joined(rows, k).len(),
        joined(rows, k)[flat_index(rows, i, j)] == rows[i][j],
    decreases k,
{
    if i == k - 1 {
    } else {
        lemma_joined_index(rows, (k - 1) as nat, i, j);
    }
}

pub proof fn lemma_forest_count_prefix<T, U>(
    a: Seq<NodeModel<T, U>>,
    b: Seq<NodeModel<T, U>>,
    k: nat,
)
    requires
        agree(a, b, k),
    ensures
        forest_count(a, k) == forest_count(b, k),
    decreases k,
{
    if k > 0 {
        lemma_forest_count_prefix(a, b, (k - 1) as nat);
    }
}

pub proof fn lemma_forest_count_append<T, U>(
    a: Seq<NodeModel<T, U>>,
    b: Seq<NodeModel<T, U>>,
    k: nat,
)
    requires
        k <= b.len(),
    ensures
        forest_count(a + b, a.len() + k) == forest_count(a, a.len()) + forest_count(b, k),
    decreases k,
{
    if k == 0 {
        lemma_forest_count_prefix(a + b, a, a.len());
    } else {
        lemma_forest_count_append(a, b, (k - 1) as nat);
        assert((a + b)[a.len() + k - 1] == b[k - 1]);
    }
}

/// A tree has one node more than its children's trees together.
pub proof fn lemma_node_count<T, U>(node: NodeModel<T, U>)
    ensures
        node_count(node) == 1 + forest_count(flat_children(node), flat_children(node).len()),
{
    lemma_grid_count(node.children, node.children.len());
}

proof fn lemma_grid_count<T, U>(nodes: Seq<Seq<NodeModel<T, U>>>, rows: nat)
    requires
        rows <= nodes.len(),
    ensures
        grid_count(nodes, rows) == forest_count(joined(nodes, rows), joined(nodes, rows).len()),
    decreases rows,
{
    if rows > 0 {
        lemma_grid_count(nodes, (rows - 1) as nat);
        lemma_forest_count_append(
            joined(nodes, (rows - 1) as nat),
            nodes[rows - 1],
            nodes[rows - 1].len(),
        );
    }
}

pub proof fn lemma_first_child_prefix<T, U>(
    a: Seq<NodeModel<T, U>>,
    b: Seq<NodeModel<T, U>>,
    k: nat,
)
    requires
        agree(a, b, k),
    ensures
        first_child(a, k) == first_child(b, k),
    decreases k,
{
    if k > 0 {
        lemma_first_child_prefix(a, b, (k - 1) as nat);
    }
}

/// The place in `order` of child `f` of node `m`, children counted in
/// row-major order.
pub open spec fn child_place<T, U>(order: Seq<NodeModel<T, U>>, m: int, f: int) -> int {
    first_child(order, m as nat) + f
}

/// The children of each of the first `i` nodes stand in `order`, in
/// row-major order, from the place that `first_child` gives, and nothing
/// else follows the root.
pub open spec fn linked<T, U>(order: Seq<NodeModel<T, U>>, i: nat) -> bool {
    &&& i <= order.len()
    &&& order.len() == first_child(order, i)
    &&& forall|m: int, f: int|
        0 <= m < i && 0 <= f < flat_children(order[m]).len() ==> {
            &&& #[trigger] child_place(order, m, f) < order.len()
            &&& order[child_place(order, m, f)] == flat_children(order[m])[f]
        }
}

/// The number of nodes still to be visited, with all below them.
pub open spec fn pending<T, U>(order: Seq<NodeModel<T, U>>, i: nat) -> int {
    forest_count(order, order.len()) - forest_count(order, i)
}

/// The nodes still to be visited, with all below them, are no more than
/// `fuel`.
pub open spec fn enough_fuel<T, U>(order: Seq<NodeModel<T, U>>, i: nat, fuel: nat) -> bool {
    pending(order, i) <= fuel
}

pub proof fn lemma_forest_count_step<T, U>(order: Seq<NodeModel<T, U>>, i: nat)
    requires
        i <= order.len(),
    ensures
        forest_count(order, i) <= forest_count(order, order.len()),
        i < order.len() ==> forest_count(order, i) + node_count(order[i as int]) <= forest_count(
            order,
            order.len(),
        ),
    decreases order.len() - i,
{
    if i < order.len() {
        lemma_forest_count_step(order, i + 1);
    }
}

/// One step of the walk keeps the nodes linked and uses one unit of fuel.
pub proof fn lemma_walk_step<T, U>(order: Seq<NodeModel<T, U>>, i: nat, fuel: nat)
    requires
        linked(order, i),
        enough_fuel(order, i, fuel),
        i < order.len(),
    ensures
        fuel > 0,
        linked(order + flat_children(order[i as int]), i + 1),
        enough_fuel(order + flat_children(order[i as int]), i + 1, (fuel - 1) as nat),
        pending(order + flat_children(order[i as int]), i + 1) + 1 == pending(order, i),
{
    let kids = flat_children(order[i as int]);
    let next = order + kids;
    lemma_forest_count_step(order, i);
    lemma_node_count(order[i as int]);
    lemma_forest_count_append(order, kids, kids.len());
    lemma_forest_count_prefix(next, order, i + 1);
    assert(forest_count(order, i + 1) == forest_count(order, i) + node_count(order[i as int]));
    lemma_first_child_prefix(next, order, i + 1);
    assert(first_child(order, i + 1) == first_child(order, i) + kids.len());
    assert forall|m: int, f: int|
        0 <= m < i + 1 && 0 <= f < flat_children(next[m]).len() implies {
        &&& #[trigger] child_place(next, m, f) < next.len()
        &&& next[child_place(next, m, f)] == flat_children(next[m])[f]
    } by {
        lemma_first_child_prefix(next, order, m as nat);
        assert(next[m] == order[m]);
        if m < i {
            assert(child_place(order, m, f) < order.len());
        }
    }
}

/// The walk only adds nodes behind those found already, and ends with every
/// node linked to its children.
pub proof fn lemma_walk<T, U>(order: Seq<NodeModel<T, U>>, i: nat, fuel: nat)
    requires
        linked(order, i),
        enough_fuel(order, i, fuel),
    ensures
        agree(order, breadth_first_from(order, i, fuel), order.len()),
        linked(
            breadth_first_from(order, i, fuel),
            breadth_first_from(order, i, fuel).len(),
        ),
    decreases fuel,
{
    if i < order.len() {
        lemma_walk_step(order, i, fuel);
        lemma_walk(order + flat_children(order[i as int]), i + 1, (fuel - 1) as nat);
    }
}

/// The walk ends when it has visited as many nodes as were there to visit.
pub proof fn lemma_walk_count<T, U>(order: Seq<NodeModel<T, U>>, i: nat, fuel: nat)
    requires
        linked(order, i),
        enough_fuel(order, i, fuel),
    ensures
        breadth_first_from(order, i, fuel).len() == i + pending(order, i),
    decreases fuel,
{
    if i < order.len() {
        lemma_walk_step(order, i, fuel);
        lemma_walk_count(order + flat_children(order[i as int]), i + 1, (fuel - 1) as nat);
    }
}

/// In breadth-first order the root comes first, every node is linked to its
/// children, and every node of the tree is there.
pub proof fn lemma_breadth_first<T, U>(root: NodeModel<T, U>)
    ensures
        breadth_first(root).len() == node_count(root),
        breadth_first(root)[0] == root,
        linked(breadth_first(root), breadth_first(root).len()),
{
    let order = seq![root];
    assert(forest_count(order, 1) == forest_count(order, 0) + node_count(root));
    lemma_walk(order, 0, node_count(root));
    lemma_walk_count(order, 0, node_count(root));
}

/// Two grids have as many rows, of the same lengths.
pub open spec fn same_shape<A, B>(a: Seq<Seq<A>>, b: Seq<Seq<B>>) -> bool {
    &&& a.len() == b.len()
    &&& forall|i: int| 0 <= i < a.len() ==> (#[trigger] a[i]).len() == b[i].len()
}

proof fn lemma_scalar_len<T: Scalar>(position: nat, a: T, b: T)
    ensures
        scalar_bytes(position, a).len() == scalar_bytes(position, b).len(),
{
    T::lemma_bytes(a);
    T::lemma_bytes(b);
}

proof fn lemma_row_len<T: Scalar>(position: nat, a: Seq<T>, b: Seq<T>)
    requires
        a.len() == b.len(),
    ensures
        row_bytes(position, a).len() == row_bytes(position, b).len(),
{
    lemma_scalar_len::<u64>(position, a.len() as u64, b.len() as u64);
    lemma_run_bytes_len(a, a.len());
    lemma_run_bytes_len(b, b.len());
}

proof fn lemma_rows_len<T: Scalar>(position: nat, a: Seq<Seq<T>>, b: Seq<Seq<T>>, k: nat)
    requires
        same_shape(a, b),
        k <= a.len(),
    ensures
        rows_bytes(position, a, k).len() == rows_bytes(position, b, k).len(),
    decreases k,
{
    if k > 0 {
        lemma_rows_len(position, a, b, (k - 1) as nat);
        assert(a[k - 1].len() == b[k - 1].len());
        lemma_row_len(position + rows_bytes(position, a, (k - 1) as nat).len(), a[k - 1], b[k - 1]);
    }
}

/// A node takes the same number of bytes whatever the offsets of its
/// children are.
pub proof fn lemma_node_len<T: Scalar, U: Scalar>(
    position: nat,
    node: NodeModel<T, U>,
    a: Seq<Seq<u64>>,
    b: Seq<Seq<u64>>,
)
    requires
        same_shape(a, b),
    ensures
        node_bytes(position, node, a).len() == node_bytes(position, node, b).len(),
        header_bytes(position, node.bounds, a).len() == header_bytes(
            position,
            node.bounds,
            b,
        ).len(),
{
    let at = position + bounds_bytes(position, node.bounds).len();
    lemma_scalar_len::<u64>(at, a.len() as u64, b.len() as u64);
    lemma_rows_len(at + scalar_bytes::<u64>(at, a.len() as u64).len(), a, b, a.len());
}

pub proof fn lemma_offset_prefix<T: Scalar, U: Scalar>(
    a: Seq<NodeModel<T, U>>,
    b: Seq<NodeModel<T, U>>,
    start: nat,
    k: nat,
)
    requires
        agree(a, b, k),
    ensures
        offset_of(a, start, k) == offset_of(b, start, k),
    decreases k,
{
    if k > 0 {
        lemma_offset_prefix(a, b, start, (k - 1) as nat);
    }
}

pub proof fn lemma_offset_monotone<T: Scalar, U: Scalar>(
    order: Seq<NodeModel<T, U>>,
    start: nat,
    j: nat,
    k: nat,
)
    requires
        j <= k,
    ensures
        offset_of(order, start, j) <= offset_of(order, start, k),
    decreases k,
{
    if j < k {
        lemma_offset_monotone(order, start, j, (k - 1) as nat);
    }
}

/// The first `k` nodes end where node `k` begins.
pub proof fn lemma_emitted_len<T: Scalar, U: Scalar>(
    order: Seq<NodeModel<T, U>>,
    start: nat,
    k: nat,
)
    requires
        k <= order.len(),
    ensures
        start + emitted(order, start, k).len() == offset_of(order, start, k),
    decreases k,
{
    if k > 0 {
        lemma_emitted_len(order, start, (k - 1) as nat);
        let node = order[k - 1];
        assert(same_shape(pointers_of(order, start, (k - 1) as nat), blank_pointers(node)));
        lemma_node_len(
            offset_of(order, start, (k - 1) as nat),
            node,
            pointers_of(order, start, (k - 1) as nat),
            blank_pointers(node),
        );
    }
}

pub proof fn lemma_first_child_monotone<T, U>(order: Seq<NodeModel<T, U>>, j: nat, k: nat)
    requires
        j <= k,
    ensures
        first_child(order, j) <= first_child(order, k),
    decreases k,
{
    if j < k {
        lemma_first_child_monotone(order, j, (k - 1) as nat);
    }
}

/// Writing node `k` behind the first `k` nodes gives the first `k + 1`
/// nodes, and ends where node `k + 1` begins.
pub proof fn lemma_emit_step<T: Scalar, U: Scalar>(
    order: Seq<NodeModel<T, U>>,
    start: nat,
    k: nat,
)
    requires
        k < order.len(),
    ensures
        emitted(order, start, k + 1) == emitted(order, start, k) + node_bytes(
            offset_of(order, start, k),
            order[k as int],
            pointers_of(order, start, k),
        ),
        start + emitted(order, start, k).len() == offset_of(order, start, k),
        offset_of(order, start, k) + node_bytes(
            offset_of(order, start, k),
            order[k as int],
            pointers_of(order, start, k),
        ).len() == offset_of(order, start, k + 1),
        offset_of(order, start, k + 1) <= offset_of(order, start, order.len()),
{
    lemma_emitted_len(order, start, k);
    lemma_emitted_len(order, start, k + 1);
    lemma_offset_monotone(order, start, k + 1, order.len());
}

} // verus!
