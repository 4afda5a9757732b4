//! What a walk over a region yields, told of the tree rather than of its
//! file, and why stopping at covered nodes does not change the aggregate.

use crate::bounds::{Bounds, Region};
use crate::builder::{grid_aggregates, row_aggregates};
use crate::dataset::{joined, Dataset};
use crate::deserialize::iterators::{walk_all, yields};
use crate::deserialize::tree::{
    combine, file_aggregate, folded, header_at, payload_at, PayloadModel,
};
use crate::roundtrip::{lemma_round_trip, reads_as};
use crate::scalar::Scalar;
use crate::serialize::layout::{
    breadth_first, emitted, flat_children, forest_count, lemma_breadth_first, lemma_emit_step,
    lemma_forest_count_append, lemma_forest_count_prefix, lemma_node_count, node_count,
    same_shape, tree_bytes,
};
use crate::tree::NodeModel;
use vstd::prelude::*;

verus! {

/// The payload of a node.
pub open spec fn payload_of<T, U>(node: NodeModel<T, U>) -> PayloadModel<T, U> {
    PayloadModel { aggregate: node.aggregate, tile: node.data }
}

/// Whether a walk yields a node: the query covers its bounds and, if only
/// leaves are asked for, it has no children.
pub open spec fn node_yields<T, U, Q: Region>(
    query: Q,
    node: NodeModel<T, U>,
    leaves_only: bool,
) -> bool {
    query.covers(node.bounds) && (!leaves_only || node.children.len() == 0)
}

/// What a walk yields from a node on: the node itself if it is one to
/// yield; what its children yield if the query only touches it, the last
/// child first; else nothing.
pub open spec fn yielded<T, U, Q: Region>(
    node: NodeModel<T, U>,
    query: Q,
    leaves_only: bool,
) -> Seq<PayloadModel<T, U>>
    decreases node,
{
    if node_yields(query, node, leaves_only) {
        seq![payload_of(node)]
    } else if query.touches(node.bounds) {
        yielded_grid(node.children, query, leaves_only, node.children.len())
    } else {
        Seq::empty()
    }
}

/// What a walk yields from the first `rows` rows of a grid of nodes, the
/// last row first.
pub open spec fn yielded_grid<T, U, Q: Region>(
    nodes: Seq<Seq<NodeModel<T, U>>>,
    query: Q,
    leaves_only: bool,
    rows: nat,
) -> Seq<PayloadModel<T, U>>
    decreases nodes, rows,
{
    if rows == 0 || rows > nodes.len() {
        Seq::empty()
    } else {
        yielded_stack(nodes[rows - 1], query, leaves_only, nodes[rows - 1].len()) + yielded_grid(
            nodes,
            query,
            leaves_only,
            (rows - 1) as nat,
        )
    }
}

/// What a walk yields from the first `k` nodes of a stack, the last of
/// them first.
pub open spec fn yielded_stack<T, U, Q: Region>(
    nodes: Seq<NodeModel<T, U>>,
    query: Q,
    leaves_only: bool,
    k: nat,
) -> Seq<PayloadModel<T, U>>
    decreases nodes, k,
{
    if k == 0 || k > nodes.len() {
        Seq::empty()
    } else {
        yielded(nodes[k - 1], query, leaves_only) + yielded_stack(
            nodes,
            query,
            leaves_only,
            (k - 1) as nat,
        )
    }
}

proof fn lemma_stack_prefix<T, U, Q: Region>(
    a: Seq<NodeModel<T, U>>,
    b: Seq<NodeModel<T, U>>,
    query: Q,
    leaves_only: bool,
    k: nat,
)
    requires
        k <= a.len(),
        k <= b.len(),
        forall|m: int| 0 <= m < k ==> a[m] == b[m],
    ensures
        yielded_stack(a, query, leaves_only, k) == yielded_stack(b, query, leaves_only, k),
    decreases k,
{
    if k > 0 {
        lemma_stack_prefix(a, b, query, leaves_only, (k - 1) as nat);
    }
}

/// A stack put on top of another yields first.
proof fn lemma_stack_append<T, U, Q: Region>(
    a: Seq<NodeModel<T, U>>,
    b: Seq<NodeModel<T, U>>,
    query: Q,
    leaves_only: bool,
    k: nat,
)
    requires
        k <= b.len(),
    ensures
        yielded_stack(a + b, query, leaves_only, a.len() + k) == yielded_stack(
            b,
            query,
            leaves_only,
            k,
        ) + yielded_stack(a, query, leaves_only, a.len()),
    decreases k,
{
    if k == 0 {
        lemma_stack_prefix(a + b, a, query, leaves_only, a.len());
        assert(Seq::<PayloadModel<T, U>>::empty() + yielded_stack(a, query, leaves_only, a.len())
            =~= yielded_stack(a, query, leaves_only, a.len()));
    } else {
        lemma_stack_append(a, b, query, leaves_only, (k - 1) as nat);
        assert((a + b)[a.len() + k - 1] == b[k - 1]);
        let head = yielded(b[k - 1], query, leaves_only);
        let mid = yielded_stack(b, query, leaves_only, (k - 1) as nat);
        let tail = yielded_stack(a, query, leaves_only, a.len());
        assert(head + (mid + tail) =~= (head + mid) + tail);
    }
}

/// The children of a node, put on a stack in row-major order, yield what
/// the grid of them yields.
proof fn lemma_stack_of_grid<T, U, Q: Region>(
    nodes: Seq<Seq<NodeModel<T, U>>>,
    query: Q,
    leaves_only: bool,
    rows: nat,
)
    requires
        rows <= nodes.len(),
    ensures
        yielded_stack(
            joined(nodes, rows),
            query,
            leaves_only,
            joined(nodes, rows).len(),
        ) == yielded_grid(nodes, query, leaves_only, rows),
    decreases rows,
{
    if rows > 0 {
        lemma_stack_of_grid(nodes, query, leaves_only, (rows - 1) as nat);
        lemma_stack_append(
            joined(nodes, (rows - 1) as nat),
            nodes[rows - 1],
            query,
            leaves_only,
            nodes[rows - 1].len(),
        );
    }
}

/// Offsets and nodes in row-major order agree where the grids agree.
pub proof fn lemma_joined_reads<T: Scalar, U: Scalar>(
    bytes: Seq<u8>,
    pointers: Seq<Seq<nat>>,
    nodes: Seq<Seq<NodeModel<T, U>>>,
    rows: nat,
)
    requires
        rows <= nodes.len(),
        same_shape(pointers, nodes),
        forall|i: int, j: int|
            0 <= i < nodes.len() && 0 <= j < nodes[i].len() ==> reads_as(
                bytes,
                pointers[i][j],
                #[trigger] nodes[i][j],
            ),
    ensures
        joined(pointers, rows).len() == joined(nodes, rows).len(),
        forall|f: int|
            0 <= f < joined(nodes, rows).len() ==> reads_as(
                bytes,
                joined(pointers, rows)[f],
                #[trigger] joined(nodes, rows)[f],
            ),
    decreases rows,
{
    if rows > 0 {
        lemma_joined_reads(bytes, pointers, nodes, (rows - 1) as nat);
        let before = joined(nodes, (rows - 1) as nat);
        assert(pointers[rows - 1].len() == nodes[rows - 1].len());
        assert forall|f: int| 0 <= f < joined(nodes, rows).len() implies reads_as(
            bytes,
            joined(pointers, rows)[f],
            #[trigger] joined(nodes, rows)[f],
        ) by {
            if f < before.len() {
                assert(joined(nodes, rows)[f] == before[f]);
            } else {
                assert(joined(nodes, rows)[f] == nodes[rows - 1][f - before.len()]);
            }
        }
    }
}

/// A walk inside a file yields what the walk over the nodes that the file
/// holds yields, as long as the budget covers every node still to visit.
pub proof fn lemma_walk_agrees<T: Scalar, U: Scalar, Q: Region>(
    bytes: Seq<u8>,
    query: Q,
    pointers: Seq<nat>,
    nodes: Seq<NodeModel<T, U>>,
    budget: nat,
    leaves_only: bool,
)
    requires
        pointers.len() == nodes.len(),
        forall|i: int| 0 <= i < nodes.len() ==> reads_as(bytes, pointers[i], #[trigger] nodes[i]),
        forest_count(nodes, nodes.len()) <= budget,
    ensures
        walk_all::<T, U, Q>(bytes, query, pointers, budget, leaves_only) == yielded_stack(
            nodes,
            query,
            leaves_only,
            nodes.len(),
        ),
    decreases budget,
{
    let target = yielded_stack(nodes, query, leaves_only, nodes.len());
    let walked = walk_all::<T, U, Q>(bytes, query, pointers, budget, leaves_only);
    if nodes.len() > 0 {
        let node = nodes.last();
        let rest_nodes = nodes.drop_last();
        let rest = pointers.drop_last();
        let left = (budget - 1) as nat;
        let below = yielded_stack(nodes, query, leaves_only, (nodes.len() - 1) as nat);
        assert(reads_as(bytes, pointers.last(), node));
        let parsed = header_at(bytes, pointers.last()).unwrap();
        let header = parsed.0;
        lemma_forest_count_prefix(rest_nodes, nodes, rest_nodes.len());
        lemma_stack_prefix(rest_nodes, nodes, query, leaves_only, rest_nodes.len());
        assert(below == yielded_stack(rest_nodes, query, leaves_only, rest_nodes.len()));
        assert(forest_count(nodes, nodes.len()) == forest_count(nodes, (nodes.len() - 1) as nat)
            + node_count(node));
        assert(budget > 0);
        assert(target == yielded(node, query, leaves_only) + below);
        assert forall|i: int| 0 <= i < rest_nodes.len() implies reads_as(
            bytes,
            rest[i],
            #[trigger] rest_nodes[i],
        ) by {
            assert(rest_nodes[i] == nodes[i]);
            assert(rest[i] == pointers[i]);
        }
        assert(header.children.len() == node.children.len());
        assert(yields(query, header, leaves_only) == node_yields(query, node, leaves_only));
        if node_yields(query, node, leaves_only) {
            lemma_walk_agrees::<T, U, Q>(bytes, query, rest, rest_nodes, left, leaves_only);
            let data = payload_at::<T, U>(bytes, parsed.1).unwrap().0;
            assert(data == payload_of(node));
            assert(walked == seq![data] + walk_all::<T, U, Q>(
                bytes,
                query,
                rest,
                left,
                leaves_only,
            ));
        } else if query.touches(node.bounds) {
            let kids = flat_children(node);
            let kid_pointers = joined(header.children, header.children.len());
            lemma_joined_reads(bytes, header.children, node.children, node.children.len());
            lemma_node_count(node);
            lemma_forest_count_append(rest_nodes, kids, kids.len());
            assert forall|i: int| 0 <= i < (rest_nodes + kids).len() implies reads_as(
                bytes,
                (rest + kid_pointers)[i],
                #[trigger] (rest_nodes + kids)[i],
            ) by {
                if i < rest_nodes.len() {
                    assert((rest_nodes + kids)[i] == rest_nodes[i]);
                    assert((rest + kid_pointers)[i] == rest[i]);
                } else {
                    assert((rest_nodes + kids)[i] == kids[i - rest_nodes.len()]);
                    assert((rest + kid_pointers)[i] == kid_pointers[i - rest_nodes.len()]);
                }
            }
            lemma_walk_agrees::<T, U, Q>(
                bytes,
                query,
                rest + kid_pointers,
                rest_nodes + kids,
                left,
                leaves_only,
            );
            lemma_stack_append(rest_nodes, kids, query, leaves_only, kids.len());
            lemma_stack_of_grid(node.children, query, leaves_only, node.children.len());
            assert(walked == walk_all::<T, U, Q>(
                bytes,
                query,
                rest + kid_pointers,
                left,
                leaves_only,
            ));
            assert(yielded(node, query, leaves_only) == yielded_grid(
                node.children,
                query,
                leaves_only,
                node.children.len(),
            ));
        } else {
            lemma_walk_agrees::<T, U, Q>(bytes, query, rest, rest_nodes, left, leaves_only);
            assert(walked == walk_all::<T, U, Q>(bytes, query, rest, left, leaves_only));
            assert(Seq::<PayloadModel<T, U>>::empty() + below =~= below);
        }
    }
}

/// The first `k` nodes of a file take at least a byte each.
proof fn lemma_emitted_count<T: Scalar, U: Scalar>(order: Seq<NodeModel<T, U>>, k: nat)
    requires
        k <= order.len(),
    ensures
        emitted(order, 0, k).len() >= k,
    decreases k,
{
    if k > 0 {
        lemma_emitted_count(order, (k - 1) as nat);
        lemma_emit_step(order, 0, (k - 1) as nat);
        i32::lemma_bytes(order[k - 1].bounds.min_x);
    }
}

/// The file of a tree has at least as many bytes as the tree has nodes.
pub proof fn lemma_file_size<T: Scalar, U: Scalar>(root: NodeModel<T, U>)
    ensures
        tree_bytes(0, root).len() >= node_count(root),
{
    lemma_breadth_first(root);
    lemma_emitted_count(breadth_first(root), breadth_first(root).len());
}

/// A walk over the file of a tree yields what the walk over the tree
/// yields.
pub proof fn lemma_file_walk<T: Scalar, U: Scalar, Q: Region>(
    root: NodeModel<T, U>,
    query: Q,
    leaves_only: bool,
)
    requires
        root.wf(),
        tree_bytes(0, root).len() <= usize::MAX,
    ensures
        walk_all::<T, U, Q>(
            tree_bytes(0, root),
            query,
            seq![0nat],
            tree_bytes(0, root).len(),
            leaves_only,
        ) == yielded(root, query, leaves_only),
{
    let bytes = tree_bytes(0, root);
    lemma_round_trip(root);
    lemma_breadth_first(root);
    lemma_emitted_count(breadth_first(root), breadth_first(root).len());
    let nodes = seq![root];
    assert(forest_count(nodes, 1) == forest_count(nodes, 0) + node_count(root));
    lemma_walk_agrees::<T, U, Q>(bytes, query, seq![0nat], nodes, bytes.len(), leaves_only);
    assert(yielded_stack(nodes, query, leaves_only, 1) =~= yielded(root, query, leaves_only)
        + yielded_stack(nodes, query, leaves_only, 0));
    assert(yielded(root, query, leaves_only) + Seq::<PayloadModel<T, U>>::empty() =~= yielded(
        root,
        query,
        leaves_only,
    ));
}

/// What a run of aggregates reduces to: nothing if there is none.
pub open spec fn reduced<D: Dataset>(values: Seq<D::AggregateType>) -> Option<D::AggregateType> {
    if values.len() == 0 {
        None
    } else {
        D::spec_aggregate2(values)
    }
}

/// The reducer of a source works like a sum: two aggregates always reduce
/// to one, in either order and however they are grouped, and a run of
/// aggregates reduces to what its members reduce to one after another.
pub open spec fn reduces_like_a_sum<D: Dataset>() -> bool {
    &&& forall|a: D::AggregateType, b: D::AggregateType|
        (#[trigger] combine::<D>(Some(a), Some(b))) is Some
    &&& forall|a: D::AggregateType, b: D::AggregateType|
        #[trigger] combine::<D>(Some(a), Some(b)) == combine::<D>(Some(b), Some(a))
    &&& forall|a: D::AggregateType, b: D::AggregateType, c: D::AggregateType|
        #[trigger] combine::<D>(combine::<D>(Some(a), Some(b)), Some(c)) == combine::<D>(
            Some(a),
            combine::<D>(Some(b), Some(c)),
        )
    &&& forall|s: Seq<D::AggregateType>, x: D::AggregateType|
        #[trigger] reduced::<D>(s.push(x)) == combine::<D>(reduced::<D>(s), Some(x))
}

/// The query region behaves like a set of points: what it covers it
/// touches, it covers whatever lies within a rectangle that it covers, and
/// it touches whatever encloses a rectangle that it touches.
pub open spec fn region_like<Q: Region>(query: Q) -> bool {
    &&& forall|a: Bounds| a.wf() && query.covers(a) ==> #[trigger] query.touches(a)
    &&& forall|a: Bounds, b: Bounds|
        #![trigger query.covers(a), a.encloses(b)]
        query.covers(a) && a.encloses(b) && b.wf() ==> query.covers(b)
    &&& forall|a: Bounds, b: Bounds|
        #![trigger query.touches(b), a.encloses(b)]
        query.touches(b) && a.encloses(b) && a.wf() ==> query.touches(a)
}

/// A well-formed rectangle behaves like a set of points.
pub proof fn lemma_bounds_region_like(query: Bounds)
    requires
        query.wf(),
    ensures
        region_like(query),
{
}

/// Every parent holds the reduction of the aggregates of its children.
pub open spec fn consistent<D: Dataset>(node: NodeModel<D::Type, D::AggregateType>) -> bool
    decreases node,
{
    node.children.len() > 0 ==> {
        &&& node.aggregate == reduced::<D>(grid_aggregates(node.children, node.children.len()))
        &&& forall|i: int, j: int|
            0 <= i < node.children.len() && 0 <= j < node.children[i].len() ==> consistent::<D>(
                #[trigger] node.children[i][j],
            )
    }
}

/// The bounds of every node are well formed and lie within the bounds of
/// its parent.
pub open spec fn nested<T, U>(node: NodeModel<T, U>) -> bool
    decreases node,
{
    &&& node.bounds.wf()
    &&& forall|i: int, j: int|
        0 <= i < node.children.len() && 0 <= j < node.children[i].len() ==> {
            &&& node.bounds.encloses((#[trigger] node.children[i][j]).bounds)
            &&& nested(node.children[i][j])
        }
}

/// Reducing is associative.
pub proof fn lemma_combine_associative<D: Dataset>(
    a: Option<D::AggregateType>,
    b: Option<D::AggregateType>,
    c: Option<D::AggregateType>,
)
    requires
        reduces_like_a_sum::<D>(),
    ensures
        combine::<D>(combine::<D>(a, b), c) == combine::<D>(a, combine::<D>(b, c)),
{
    if a is Some && b is Some && c is Some {
        let x = a.unwrap();
        let y = b.unwrap();
        let z = c.unwrap();
        assert(combine::<D>(combine::<D>(Some(x), Some(y)), Some(z)) == combine::<D>(
            Some(x),
            combine::<D>(Some(y), Some(z)),
        ));
    }
}

/// Reducing is commutative.
pub proof fn lemma_combine_commutative<D: Dataset>(
    a: Option<D::AggregateType>,
    b: Option<D::AggregateType>,
)
    requires
        reduces_like_a_sum::<D>(),
    ensures
        combine::<D>(a, b) == combine::<D>(b, a),
{
    if a is Some && b is Some {
        let x = a.unwrap();
        let y = b.unwrap();
        assert(combine::<D>(Some(x), Some(y)) == combine::<D>(Some(y), Some(x)));
    }
}

/// Folding a run of payloads into an aggregate is reducing the aggregate
/// with the fold of the run.
pub proof fn lemma_folded_from<D: Dataset>(
    acc: Option<D::AggregateType>,
    items: Seq<PayloadModel<D::Type, D::AggregateType>>,
)
    requires
        reduces_like_a_sum::<D>(),
    ensures
        folded::<D>(acc, items) == combine::<D>(acc, folded::<D>(None, items)),
    decreases items.len(),
{
    if items.len() > 0 {
        let first = items[0].aggregate;
        lemma_folded_from::<D>(combine::<D>(acc, first), items.drop_first());
        lemma_folded_from::<D>(combine::<D>(None, first), items.drop_first());
        lemma_combine_associative::<D>(acc, first, folded::<D>(None, items.drop_first()));
    }
}

/// The fold of two runs one after the other is the reduction of their
/// folds.
pub proof fn lemma_folded_concat<D: Dataset>(
    a: Seq<PayloadModel<D::Type, D::AggregateType>>,
    b: Seq<PayloadModel<D::Type, D::AggregateType>>,
)
    requires
        reduces_like_a_sum::<D>(),
    ensures
        folded::<D>(None, a + b) == combine::<D>(folded::<D>(None, a), folded::<D>(None, b)),
    decreases a.len(),
{
    if a.len() == 0 {
        assert(a + b =~= b);
    } else {
        let first = a[0].aggregate;
        assert((a + b).drop_first() =~= a.drop_first() + b);
        lemma_folded_concat::<D>(a.drop_first(), b);
        lemma_folded_from::<D>(combine::<D>(None, first), (a + b).drop_first());
        lemma_folded_from::<D>(combine::<D>(None, first), a.drop_first());
        lemma_combine_associative::<D>(
            first,
            folded::<D>(None, a.drop_first()),
            folded::<D>(None, b),
        );
    }
}

/// Two runs of aggregates one after the other reduce to the reduction of
/// what each reduces to.
pub proof fn lemma_reduced_concat<D: Dataset>(
    s: Seq<D::AggregateType>,
    t: Seq<D::AggregateType>,
)
    requires
        reduces_like_a_sum::<D>(),
    ensures
        reduced::<D>(s + t) == combine::<D>(reduced::<D>(s), reduced::<D>(t)),
    decreases t.len(),
{
    if t.len() == 0 {
        assert(s + t =~= s);
    } else {
        let front = t.drop_last();
        let x = t.last();
        assert(t =~= front.push(x));
        assert(s + t =~= (s + front).push(x));
        lemma_reduced_concat::<D>(s, front);
        assert(reduced::<D>((s + front).push(x)) == combine::<D>(
            reduced::<D>(s + front),
            Some(x),
        ));
        assert(reduced::<D>(front.push(x)) == combine::<D>(reduced::<D>(front), Some(x)));
        lemma_combine_associative::<D>(reduced::<D>(s), reduced::<D>(front), Some(x));
    }
}

/// Below a node that the query covers, the leaves together hold the
/// aggregate of the node.
pub proof fn lemma_covered<D: Dataset, Q: Region>(
    node: NodeModel<D::Type, D::AggregateType>,
    query: Q,
)
    requires
        reduces_like_a_sum::<D>(),
        region_like(query),
        consistent::<D>(node),
        nested(node),
        query.covers(node.bounds),
    ensures
        folded::<D>(None, yielded(node, query, true)) == node.aggregate,
    decreases node,
{
    if node.children.len() == 0 {
        let only = seq![payload_of(node)];
        assert(only.drop_first() =~= Seq::empty());
        assert(folded::<D>(None, only) == folded::<D>(
            combine::<D>(None, node.aggregate),
            only.drop_first(),
        ));
    } else {
        assert(query.touches(node.bounds));
        lemma_covered_grid::<D, Q>(node, query, node.children.len());
    }
}

proof fn lemma_covered_grid<D: Dataset, Q: Region>(
    node: NodeModel<D::Type, D::AggregateType>,
    query: Q,
    rows: nat,
)
    requires
        reduces_like_a_sum::<D>(),
        region_like(query),
        node.children.len() > 0,
        consistent::<D>(node),
        nested(node),
        query.covers(node.bounds),
        rows <= node.children.len(),
    ensures
        folded::<D>(None, yielded_grid(node.children, query, true, rows)) == reduced::<D>(
            grid_aggregates(node.children, rows),
        ),
    decreases node.children, rows,
{
    if rows > 0 {
        let row = node.children[rows - 1];
        lemma_covered_grid::<D, Q>(node, query, (rows - 1) as nat);
        lemma_covered_stack::<D, Q>(node, query, rows - 1, row.len());
        let here = yielded_stack(row, query, true, row.len());
        let before = yielded_grid(node.children, query, true, (rows - 1) as nat);
        lemma_folded_concat::<D>(here, before);
        lemma_reduced_concat::<D>(
            grid_aggregates(node.children, (rows - 1) as nat),
            row_aggregates(row, row.len()),
        );
        lemma_combine_commutative::<D>(folded::<D>(None, here), folded::<D>(None, before));
    }
}

proof fn lemma_covered_stack<D: Dataset, Q: Region>(
    node: NodeModel<D::Type, D::AggregateType>,
    query: Q,
    i: int,
    k: nat,
)
    requires
        reduces_like_a_sum::<D>(),
        region_like(query),
        consistent::<D>(node),
        nested(node),
        query.covers(node.bounds),
        0 <= i < node.children.len(),
        k <= node.children[i].len(),
    ensures
        folded::<D>(None, yielded_stack(node.children[i], query, true, k)) == reduced::<D>(
            row_aggregates(node.children[i], k),
        ),
    decreases node.children[i], k,
{
    if k > 0 {
        let row = node.children[i];
        let child = row[k - 1];
        assert(child == node.children[i][k - 1]);
        assert(node.bounds.encloses(child.bounds));
        assert(nested(child));
        assert(consistent::<D>(child));
        assert(query.covers(child.bounds));
        lemma_covered::<D, Q>(child, query);
        lemma_covered_stack::<D, Q>(node, query, i, (k - 1) as nat);
        let here = yielded(child, query, true);
        let before = yielded_stack(row, query, true, (k - 1) as nat);
        lemma_folded_concat::<D>(here, before);
        lemma_combine_commutative::<D>(folded::<D>(None, here), folded::<D>(None, before));
        match child.aggregate {
            Some(a) => {
                assert(reduced::<D>(row_aggregates(row, (k - 1) as nat).push(a))
                    == combine::<D>(reduced::<D>(row_aggregates(row, (k - 1) as nat)), Some(a)));
            },
            None => {},
        }
    }
}

/// Stopping at covered nodes does not change the aggregate: what the nodes
/// that a walk yields reduce to is the same whether the walk yields every
/// covered node where it meets it or descends to the covered leaves.
pub proof fn lemma_pruning<D: Dataset, Q: Region>(
    node: NodeModel<D::Type, D::AggregateType>,
    query: Q,
)
    requires
        reduces_like_a_sum::<D>(),
        region_like(query),
        consistent::<D>(node),
        nested(node),
    ensures
        folded::<D>(None, yielded(node, query, false)) == folded::<D>(
            None,
            yielded(node, query, true),
        ),
    decreases node,
{
    if query.covers(node.bounds) {
        lemma_covered::<D, Q>(node, query);
        let only = seq![payload_of(node)];
        assert(only.drop_first() =~= Seq::empty());
        assert(folded::<D>(None, only) == folded::<D>(
            combine::<D>(None, node.aggregate),
            only.drop_first(),
        ));
    } else if query.touches(node.bounds) {
        lemma_pruning_grid::<D, Q>(node, query, node.children.len());
    }
}

proof fn lemma_pruning_grid<D: Dataset, Q: Region>(
    node: NodeModel<D::Type, D::AggregateType>,
    query: Q,
    rows: nat,
)
    requires
        reduces_like_a_sum::<D>(),
        region_like(query),
        consistent::<D>(node),
        nested(node),
        rows <= node.children.len(),
    ensures
        folded::<D>(None, yielded_grid(node.children, query, false, rows)) == folded::<D>(
            None,
            yielded_grid(node.children, query, true, rows),
        ),
    decreases node.children, rows,
{
    if rows > 0 {
        let row = node.children[rows - 1];
        lemma_pruning_grid::<D, Q>(node, query, (rows - 1) as nat);
        lemma_pruning_stack::<D, Q>(node, query, rows - 1, row.len());
        lemma_folded_concat::<D>(
            yielded_stack(row, query, false, row.len()),
            yielded_grid(node.children, query, false, (rows - 1) as nat),
        );
        lemma_folded_concat::<D>(
            yielded_stack(row, query, true, row.len()),
            yielded_grid(node.children, query, true, (rows - 1) as nat),
        );
    }
}

proof fn lemma_pruning_stack<D: Dataset, Q: Region>(
    node: NodeModel<D::Type, D::AggregateType>,
    query: Q,
    i: int,
    k: nat,
)
    requires
        reduces_like_a_sum::<D>(),
        region_like(query),
        consistent::<D>(node),
        nested(node),
        0 <= i < node.children.len(),
        k <= node.children[i].len(),
    ensures
        folded::<D>(None, yielded_stack(node.children[i], query, false, k)) == folded::<D>(
            None,
            yielded_stack(node.children[i], query, true, k),
        ),
    decreases node.children[i], k,
{
    if k > 0 {
        let row = node.children[i];
        let child = row[k - 1];
        assert(child == node.children[i][k - 1]);
        assert(nested(child));
        assert(consistent::<D>(child));
        lemma_pruning::<D, Q>(child, query);
        lemma_pruning_stack::<D, Q>(node, query, i, (k - 1) as nat);
        lemma_folded_concat::<D>(
            yielded(child, query, false),
            yielded_stack(row, query, false, (k - 1) as nat),
        );
        lemma_folded_concat::<D>(
            yielded(child, query, true),
            yielded_stack(row, query, true, (k - 1) as nat),
        );
    }
}

/// Stopping at covered nodes does not change the aggregate of a file: what a
/// query over the file of a tree gives is what the covered leaves of the
/// file reduce to.
pub proof fn lemma_pruning_equivalence<D: Dataset, Q: Region>(
    root: NodeModel<D::Type, D::AggregateType>,
    query: Q,
)
    requires
        root.wf(),
        tree_bytes(0, root).len() <= usize::MAX,
        reduces_like_a_sum::<D>(),
        region_like(query),
        consistent::<D>(root),
        nested(root),
    ensures
        file_aggregate::<D, Q>(tree_bytes(0, root), query) == folded::<D>(
            None,
            walk_all::<D::Type, D::AggregateType, Q>(
                tree_bytes(0, root),
                query,
                seq![0nat],
                tree_bytes(0, root).len(),
                true,
            ),
        ),
        folded::<D>(
            None,
            walk_all::<D::Type, D::AggregateType, Q>(
                tree_bytes(0, root),
                query,
                seq![0nat],
                tree_bytes(0, root).len(),
                false,
            ),
        ) == folded::<D>(
            None,
            walk_all::<D::Type, D::AggregateType, Q>(
                tree_bytes(0, root),
                query,
                seq![0nat],
                tree_bytes(0, root).len(),
                true,
            ),
        ),
{
    lemma_file_walk::<D::Type, D::AggregateType, Q>(root, query, false);
    lemma_file_walk::<D::Type, D::AggregateType, Q>(root, query, true);
    lemma_pruning::<D, Q>(root, query);
}

/// Every parent has a child in its first row.
pub open spec fn branching<T, U>(node: NodeModel<T, U>) -> bool
    decreases node,
{
    node.children.len() > 0 ==> {
        &&& node.children[0].len() > 0
        &&& forall|i: int, j: int|
            0 <= i < node.children.len() && 0 <= j < node.children[i].len() ==> branching(
                #[trigger] node.children[i][j],
            )
    }
}

/// A walk that descends to the leaves yields at least one leaf below a
/// node that the query covers.
proof fn lemma_covered_yields<T, U, Q: Region>(node: NodeModel<T, U>, query: Q)
    requires
        region_like(query),
        nested(node),
        branching(node),
        query.covers(node.bounds),
    ensures
        yielded(node, query, true).len() >= 1,
    decreases node,
{
    if node.children.len() > 0 {
        let first = node.children[0][0];
        assert(node.bounds.encloses(first.bounds));
        assert(nested(first));
        assert(branching(first));
        assert(query.covers(first.bounds));
        assert(query.touches(node.bounds));
        lemma_covered_yields(first, query);
        lemma_stack_holds(node.children[0], query, node.children[0].len(), 0);
        lemma_grid_holds(node.children, query, node.children.len(), 0);
    }
}

/// A stack yields at least what one of its nodes yields.
proof fn lemma_stack_holds<T, U, Q: Region>(
    nodes: Seq<NodeModel<T, U>>,
    query: Q,
    k: nat,
    j: int,
)
    requires
        0 <= j < k <= nodes.len(),
    ensures
        yielded_stack(nodes, query, true, k).len() >= yielded(nodes[j], query, true).len(),
    decreases k,
{
    if j < k - 1 {
        lemma_stack_holds(nodes, query, (k - 1) as nat, j);
    }
}

/// A grid yields at least what one of its rows yields.
proof fn lemma_grid_holds<T, U, Q: Region>(
    nodes: Seq<Seq<NodeModel<T, U>>>,
    query: Q,
    rows: nat,
    i: int,
)
    requires
        0 <= i < rows <= nodes.len(),
    ensures
        yielded_grid(nodes, query, true, rows).len() >= yielded_stack(
            nodes[i],
            query,
            true,
            nodes[i].len(),
        ).len(),
    decreases rows,
{
    if i < rows - 1 {
        lemma_grid_holds(nodes, query, (rows - 1) as nat, i);
    }
}

/// A walk that stops at covered nodes yields no more items than a walk that
/// descends to the covered leaves.
pub proof fn lemma_pruned_yields_no_more<T, U, Q: Region>(node: NodeModel<T, U>, query: Q)
    requires
        region_like(query),
        nested(node),
        branching(node),
    ensures
        yielded(node, query, false).len() <= yielded(node, query, true).len(),
    decreases node,
{
    if query.covers(node.bounds) {
        lemma_covered_yields(node, query);
    } else if query.touches(node.bounds) {
        lemma_pruned_grid_no_more(node, query, node.children.len());
    }
}

proof fn lemma_pruned_grid_no_more<T, U, Q: Region>(node: NodeModel<T, U>, query: Q, rows: nat)
    requires
        region_like(query),
        nested(node),
        branching(node),
        rows <= node.children.len(),
    ensures
        yielded_grid(node.children, query, false, rows).len() <= yielded_grid(
            node.children,
            query,
            true,
            rows,
        ).len(),
    decreases node.children, rows,
{
    if rows > 0 {
        lemma_pruned_grid_no_more(node, query, (rows - 1) as nat);
        lemma_pruned_stack_no_more(node, query, rows - 1, node.children[rows - 1].len());
    }
}

proof fn lemma_pruned_stack_no_more<T, U, Q: Region>(
    node: NodeModel<T, U>,
    query: Q,
    i: int,
    k: nat,
)
    requires
        region_like(query),
        nested(node),
        branching(node),
        0 <= i < node.children.len(),
        k <= node.children[i].len(),
    ensures
        yielded_stack(node.children[i], query, false, k).len() <= yielded_stack(
            node.children[i],
            query,
            true,
            k,
        ).len(),
    decreases node.children[i], k,
{
    if k > 0 {
        let child = node.children[i][k - 1];
        assert(nested(child));
        assert(branching(child));
        lemma_pruned_yields_no_more(child, query);
        lemma_pruned_stack_no_more(node, query, i, (k - 1) as nat);
    }
}

/// The number of nodes that a walk loads from a node on: the node itself,
/// and what it loads below it where it descends.
pub open spec fn loaded<T, U, Q: Region>(node: NodeModel<T, U>, query: Q, leaves_only: bool) -> nat
    decreases node,
{
    if !node_yields(query, node, leaves_only) && query.touches(node.bounds) {
        1 + loaded_grid(node.children, query, leaves_only, node.children.len())
    } else {
        1
    }
}

/// The number of nodes that a walk loads from the first `rows` rows of a
/// grid of nodes on.
pub open spec fn loaded_grid<T, U, Q: Region>(
    nodes: Seq<Seq<NodeModel<T, U>>>,
    query: Q,
    leaves_only: bool,
    rows: nat,
) -> nat
    decreases nodes, rows,
{
    if rows == 0 || rows > nodes.len() {
        0
    } else {
        loaded_stack(nodes[rows - 1], query, leaves_only, nodes[rows - 1].len()) + loaded_grid(
            nodes,
            query,
            leaves_only,
            (rows - 1) as nat,
        )
    }
}

/// The number of nodes that a walk loads from the first `k` nodes of a
/// stack on.
pub open spec fn loaded_stack<T, U, Q: Region>(
    nodes: Seq<NodeModel<T, U>>,
    query: Q,
    leaves_only: bool,
    k: nat,
) -> nat
    decreases nodes, k,
{
    if k == 0 || k > nodes.len() {
        0
    } else {
        loaded(nodes[k - 1], query, leaves_only) + loaded_stack(
            nodes,
            query,
            leaves_only,
            (k - 1) as nat,
        )
    }
}

/// A walk that stops at covered nodes loads no more nodes than a walk that
/// descends to the covered leaves, whatever the tree and the query.
pub proof fn lemma_pruned_loads_no_more<T, U, Q: Region>(node: NodeModel<T, U>, query: Q)
    ensures
        loaded(node, query, false) <= loaded(node, query, true),
    decreases node,
{
    if !node_yields(query, node, false) && query.touches(node.bounds) {
        lemma_pruned_grid_loads(node.children, query, node.children.len());
    }
}

proof fn lemma_pruned_grid_loads<T, U, Q: Region>(
    nodes: Seq<Seq<NodeModel<T, U>>>,
    query: Q,
    rows: nat,
)
    ensures
        loaded_grid(nodes, query, false, rows) <= loaded_grid(nodes, query, true, rows),
    decreases nodes, rows,
{
    if rows > 0 && rows <= nodes.len() {
        lemma_pruned_grid_loads(nodes, query, (rows - 1) as nat);
        lemma_pruned_stack_loads(nodes[rows - 1], query, nodes[rows - 1].len());
    }
}

proof fn lemma_pruned_stack_loads<T, U, Q: Region>(
    nodes: Seq<NodeModel<T, U>>,
    query: Q,
    k: nat,
)
    ensures
        loaded_stack(nodes, query, false, k) <= loaded_stack(nodes, query, true, k),
    decreases nodes, k,
{
    if k > 0 && k <= nodes.len() {
        lemma_pruned_loads_no_more(nodes[k - 1], query);
        lemma_pruned_stack_loads(nodes, query, (k - 1) as nat);
    }
}

} // verus!
