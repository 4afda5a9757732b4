//! How many nodes a walk loads, and how many items it yields, with and
//! without stopping at covered nodes.

use crate::bounds::Region;
use crate::dataset::joined;
use crate::deserialize::iterators::{walk_all, walk_next, yields};
use crate::deserialize::tree::{header_at, payload_at};
use crate::deserialize::tree::PayloadModel;
use crate::pruning::{
    branching, lemma_file_size, lemma_file_walk, lemma_joined_reads, lemma_pruned_loads_no_more,
    lemma_pruned_yields_no_more, loaded, loaded_grid, loaded_stack, nested, node_yields,
    payload_of, region_like, yielded, yielded_grid, yielded_stack,
};
use crate::roundtrip::{lemma_round_trip, reads_as};
use crate::scalar::Scalar;
use crate::serialize::layout::{
    flat_children, forest_count, lemma_forest_count_append, lemma_forest_count_prefix,
    lemma_node_count, node_count, tree_bytes,
};
use crate::tree::NodeModel;
use vstd::prelude::*;

verus! {

/// The budget that is left when a walk has run to its end: every node
/// that the walk loads takes one unit.
pub open spec fn walk_left<T: Scalar, U: Scalar, Q: Region>(
    bytes: Seq<u8>,
    query: Q,
    queue: Seq<nat>,
    budget: nat,
    leaves_only: bool,
) -> nat
    decreases budget,
{
    if queue.len() == 0 || budget == 0 {
        budget
    } else {
        let rest = queue.drop_last();
        let left = (budget - 1) as nat;
        match header_at(bytes, queue.last()) {
            None => walk_left::<T, U, Q>(bytes, query, rest, left, leaves_only),
            Some((header, payload)) => if !yields(query, header, leaves_only) && query.touches(
                header.bounds,
            ) {
                walk_left::<T, U, Q>(
                    bytes,
                    query,
                    rest + joined(header.children, header.children.len()),
                    left,
                    leaves_only,
                )
            } else {
                walk_left::<T, U, Q>(bytes, query, rest, left, leaves_only)
            },
        }
    }
}

/// A step of a walk that finds a node leaves the walk with the same end;
/// a step that finds none is the end.
pub proof fn lemma_walk_left<T: Scalar, U: Scalar, Q: Region>(
    bytes: Seq<u8>,
    query: Q,
    queue: Seq<nat>,
    budget: nat,
    position: nat,
    leaves_only: bool,
)
    ensures
        ({
            let step = walk_next::<T, U, Q>(bytes, query, queue, budget, position, leaves_only);
            walk_left::<T, U, Q>(bytes, query, queue, budget, leaves_only) == if step.found
                is Some {
                walk_left::<T, U, Q>(bytes, query, step.queue, step.budget, leaves_only)
            } else {
                step.budget
            }
        }),
    decreases budget,
{
    if queue.len() == 0 || budget == 0 {
    } else {
        let rest = queue.drop_last();
        let left = (budget - 1) as nat;
        match header_at(bytes, queue.last()) {
            None => {
                lemma_walk_left::<T, U, Q>(bytes, query, rest, left, position, leaves_only);
            },
            Some((header, payload)) => {
                if yields(query, header, leaves_only) {
                    match payload_at::<T, U>(bytes, payload) {
                        Some((data, _)) => {},
                        None => {
                            lemma_walk_left::<T, U, Q>(
                                bytes,
                                query,
                                rest,
                                left,
                                payload,
                                leaves_only,
                            );
                        },
                    }
                } else if query.touches(header.bounds) {
                    lemma_walk_left::<T, U, Q>(
                        bytes,
                        query,
                        rest + joined(header.children, header.children.len()),
                        left,
                        payload,
                        leaves_only,
                    );
                } else {
                    lemma_walk_left::<T, U, Q>(bytes, query, rest, left, payload, leaves_only);
                }
            },
        }
    }
}

proof fn lemma_loaded_prefix<T, U, Q: Region>(
    a: Seq<NodeModel<T, U>>,
    b: Seq<NodeModel<T, U>>,
    query: Q,
    leaves_only: bool,
    k: nat,
)
    requires
        k <= a.len(),
        k <= b.len(),
        forall|m: int| 0 <= m < k ==> a[m] == b[m],
    ensures
        loaded_stack(a, query, leaves_only, k) == loaded_stack(b, query, leaves_only, k),
    decreases k,
{
    if k > 0 {
        lemma_loaded_prefix(a, b, query, leaves_only, (k - 1) as nat);
    }
}

proof fn lemma_loaded_append<T, U, Q: Region>(
    a: Seq<NodeModel<T, U>>,
    b: Seq<NodeModel<T, U>>,
    query: Q,
    leaves_only: bool,
    k: nat,
)
    requires
        k <= b.len(),
    ensures
        loaded_stack(a + b, query, leaves_only, a.len() + k) == loaded_stack(
            b,
            query,
            leaves_only,
            k,
        ) + loaded_stack(a, query, leaves_only, a.len()),
    decreases k,
{
    if k == 0 {
        lemma_loaded_prefix(a + b, a, query, leaves_only, a.len());
    } else {
        lemma_loaded_append(a, b, query, leaves_only, (k - 1) as nat);
        assert((a + b)[a.len() + k - 1] == b[k - 1]);
    }
}

proof fn lemma_loaded_of_grid<T, U, Q: Region>(
    nodes: Seq<Seq<NodeModel<T, U>>>,
    query: Q,
    leaves_only: bool,
    rows: nat,
)
    requires
        rows <= nodes.len(),
    ensures
        loaded_stack(joined(nodes, rows), query, leaves_only, joined(nodes, rows).len())
            == loaded_grid(nodes, query, leaves_only, rows),
    decreases rows,
{
    if rows > 0 {
        lemma_loaded_of_grid(nodes, query, leaves_only, (rows - 1) as nat);
        lemma_loaded_append(
            joined(nodes, (rows - 1) as nat),
            nodes[rows - 1],
            query,
            leaves_only,
            nodes[rows - 1].len(),
        );
    }
}

/// A walk inside a file loads as many nodes as the walk over the nodes that
/// the file holds, as long as the budget covers every node still to visit.
pub proof fn lemma_loads_agree<T: Scalar, U: Scalar, Q: Region>(
    bytes: Seq<u8>,
    query: Q,
    pointers: Seq<nat>,
    nodes: Seq<NodeModel<T, U>>,
    budget: nat,
    leaves_only: bool,
)
    requires
        pointers.len() == nodes.len(),
        forall|i: int| 0 <= i < nodes.len() ==> reads_as(bytes, pointers[i], #[trigger] nodes[i]),
        forest_count(nodes, nodes.len()) <= budget,
    ensures
        walk_left::<T, U, Q>(bytes, query, pointers, budget, leaves_only) + loaded_stack(
            nodes,
            query,
            leaves_only,
            nodes.len(),
        ) == budget,
    decreases budget,
{
    if nodes.len() > 0 {
        let node = nodes.last();
        let rest_nodes = nodes.drop_last();
        let rest = pointers.drop_last();
        let left = (budget - 1) as nat;
        assert(reads_as(bytes, pointers.last(), node));
        let parsed = header_at(bytes, pointers.last()).unwrap();
        let header = parsed.0;
        lemma_forest_count_prefix(rest_nodes, nodes, rest_nodes.len());
        lemma_loaded_prefix(rest_nodes, nodes, query, leaves_only, rest_nodes.len());
        assert(forest_count(nodes, nodes.len()) == forest_count(nodes, (nodes.len() - 1) as nat)
            + node_count(node));
        assert(budget > 0);
        assert forall|i: int| 0 <= i < rest_nodes.len() implies reads_as(
            bytes,
            rest[i],
            #[trigger] rest_nodes[i],
        ) by {
            assert(rest_nodes[i] == nodes[i]);
            assert(rest[i] == pointers[i]);
        }
        assert(header.children.len() == node.children.len());
        assert(yields(query, header, leaves_only) == node_yields(query, node, leaves_only));
        if !node_yields(query, node, leaves_only) && query.touches(node.bounds) {
            let kids = flat_children(node);
            let kid_pointers = joined(header.children, header.children.len());
            lemma_joined_reads(bytes, header.children, node.children, node.children.len());
            lemma_node_count(node);
            lemma_forest_count_append(rest_nodes, kids, kids.len());
            assert forall|i: int| 0 <= i < (rest_nodes + kids).len() implies reads_as(
                bytes,
                (rest + kid_pointers)[i],
                #[trigger] (rest_nodes + kids)[i],
            ) by {
                if i < rest_nodes.len() {
                    assert((rest_nodes + kids)[i] == rest_nodes[i]);
                    assert((rest + kid_pointers)[i] == rest[i]);
                } else {
                    assert((rest_nodes + kids)[i] == kids[i - rest_nodes.len()]);
                    assert((rest + kid_pointers)[i] == kid_pointers[i - rest_nodes.len()]);
                }
            }
            lemma_loads_agree::<T, U, Q>(
                bytes,
                query,
                rest + kid_pointers,
                rest_nodes + kids,
                left,
                leaves_only,
            );
            lemma_loaded_append(rest_nodes, kids, query, leaves_only, kids.len());
            lemma_loaded_of_grid(node.children, query, leaves_only, node.children.len());
            assert(walk_left::<T, U, Q>(bytes, query, pointers, budget, leaves_only)
                == walk_left::<T, U, Q>(bytes, query, rest + kid_pointers, left, leaves_only));
            assert(loaded(node, query, leaves_only) == 1 + loaded_grid(
                node.children,
                query,
                leaves_only,
                node.children.len(),
            ));
        } else {
            lemma_loads_agree::<T, U, Q>(bytes, query, rest, rest_nodes, left, leaves_only);
            assert(walk_left::<T, U, Q>(bytes, query, pointers, budget, leaves_only)
                == walk_left::<T, U, Q>(bytes, query, rest, left, leaves_only));
            assert(loaded(node, query, leaves_only) == 1);
        }
        assert(loaded_stack(nodes, query, leaves_only, nodes.len()) == loaded(
            node,
            query,
            leaves_only,
        ) + loaded_stack(nodes, query, leaves_only, (nodes.len() - 1) as nat));
    } else {
        assert(forest_count(nodes, 0) == 0);
    }
}

/// Over the file of a tree, a walk that stops at covered nodes loads no
/// more nodes than a walk that descends to the covered leaves: it leaves at
/// least as much of the budget.
pub proof fn lemma_file_pruned_loads_no_more<T: Scalar, U: Scalar, Q: Region>(
    root: NodeModel<T, U>,
    query: Q,
)
    requires
        root.wf(),
        tree_bytes(0, root).len() <= usize::MAX,
    ensures
        walk_left::<T, U, Q>(
            tree_bytes(0, root),
            query,
            seq![0nat],
            tree_bytes(0, root).len(),
            false,
        ) >= walk_left::<T, U, Q>(
            tree_bytes(0, root),
            query,
            seq![0nat],
            tree_bytes(0, root).len(),
            true,
        ),
{
    let bytes = tree_bytes(0, root);
    let nodes = seq![root];
    lemma_round_trip(root);
    lemma_file_size(root);
    assert(forest_count(nodes, 1) == forest_count(nodes, 0) + node_count(root));
    lemma_loads_agree::<T, U, Q>(bytes, query, seq![0nat], nodes, bytes.len(), false);
    lemma_loads_agree::<T, U, Q>(bytes, query, seq![0nat], nodes, bytes.len(), true);
    lemma_pruned_loads_no_more(root, query);
    assert(loaded_stack(nodes, query, false, 1) == loaded(root, query, false) + loaded_stack(
        nodes,
        query,
        false,
        0,
    ));
    assert(loaded_stack(nodes, query, true, 1) == loaded(root, query, true) + loaded_stack(
        nodes,
        query,
        true,
        0,
    ));
}

/// Over the file of a tree in which every parent has a child, a walk that
/// stops at covered nodes yields no more items than a walk that descends to
/// the covered leaves.
pub proof fn lemma_file_pruned_yields_no_more<T: Scalar, U: Scalar, Q: Region>(
    root: NodeModel<T, U>,
    query: Q,
)
    requires
        root.wf(),
        tree_bytes(0, root).len() <= usize::MAX,
        region_like(query),
        nested(root),
        branching(root),
    ensures
        walk_all::<T, U, Q>(
            tree_bytes(0, root),
            query,
            seq![0nat],
            tree_bytes(0, root).len(),
            false,
        ).len() <= walk_all::<T, U, Q>(
            tree_bytes(0, root),
            query,
            seq![0nat],
            tree_bytes(0, root).len(),
            true,
        ).len(),
{
    lemma_file_walk::<T, U, Q>(root, query, false);
    lemma_file_walk::<T, U, Q>(root, query, true);
    lemma_pruned_yields_no_more(root, query);
}

/// The nodes at which a walk that stops at covered nodes stops, in the
/// order in which it yields them.
pub open spec fn stops<T, U, Q: Region>(node: NodeModel<T, U>, query: Q) -> Seq<NodeModel<T, U>>
    decreases node,
{
    if query.covers(node.bounds) {
        seq![node]
    } else if query.touches(node.bounds) {
        stops_grid(node.children, query, node.children.len())
    } else {
        Seq::empty()
    }
}

/// The stops below the first `rows` rows of a grid of nodes, the last row
/// first.
pub open spec fn stops_grid<T, U, Q: Region>(
    nodes: Seq<Seq<NodeModel<T, U>>>,
    query: Q,
    rows: nat,
) -> Seq<NodeModel<T, U>>
    decreases nodes, rows,
{
    if rows == 0 || rows > nodes.len() {
        Seq::empty()
    } else {
        stops_stack(nodes[rows - 1], query, nodes[rows - 1].len()) + stops_grid(
            nodes,
            query,
            (rows - 1) as nat,
        )
    }
}

/// The stops below the first `k` nodes of a stack, the last of them first.
pub open spec fn stops_stack<T, U, Q: Region>(
    nodes: Seq<NodeModel<T, U>>,
    query: Q,
    k: nat,
) -> Seq<NodeModel<T, U>>
    decreases nodes, k,
{
    if k == 0 || k > nodes.len() {
        Seq::empty()
    } else {
        stops(nodes[k - 1], query) + stops_stack(nodes, query, (k - 1) as nat)
    }
}

/// The payloads of a run of nodes.
pub open spec fn payloads<T, U>(nodes: Seq<NodeModel<T, U>>) -> Seq<PayloadModel<T, U>> {
    Seq::new(nodes.len(), |k: int| payload_of(nodes[k]))
}

/// What a walk that descends to the leaves yields below each of the first
/// `k` of a run of nodes, one node after the other.
pub open spec fn leaves_under<T, U, Q: Region>(
    nodes: Seq<NodeModel<T, U>>,
    query: Q,
    k: nat,
) -> Seq<PayloadModel<T, U>>
    decreases k,
{
    if k == 0 || k > nodes.len() {
        Seq::empty()
    } else {
        leaves_under(nodes, query, (k - 1) as nat) + yielded(nodes[k - 1], query, true)
    }
}

proof fn lemma_leaves_under_prefix<T, U, Q: Region>(
    a: Seq<NodeModel<T, U>>,
    b: Seq<NodeModel<T, U>>,
    query: Q,
    k: nat,
)
    requires
        k <= a.len(),
        k <= b.len(),
        forall|m: int| 0 <= m < k ==> a[m] == b[m],
    ensures
        leaves_under(a, query, k) == leaves_under(b, query, k),
    decreases k,
{
    if k > 0 {
        lemma_leaves_under_prefix(a, b, query, (k - 1) as nat);
    }
}

proof fn lemma_leaves_under_append<T, U, Q: Region>(
    a: Seq<NodeModel<T, U>>,
    b: Seq<NodeModel<T, U>>,
    query: Q,
    k: nat,
)
    requires
        k <= b.len(),
    ensures
        leaves_under(a + b, query, a.len() + k) == leaves_under(a, query, a.len()) + leaves_under(
            b,
            query,
            k,
        ),
    decreases k,
{
    let front = leaves_under(a, query, a.len());
    if k == 0 {
        lemma_leaves_under_prefix(a + b, a, query, a.len());
        assert(front + Seq::<PayloadModel<T, U>>::empty() =~= front);
    } else {
        lemma_leaves_under_append(a, b, query, (k - 1) as nat);
        assert((a + b)[a.len() + k - 1] == b[k - 1]);
        let mid = leaves_under(b, query, (k - 1) as nat);
        let last = yielded(b[k - 1], query, true);
        assert((front + mid) + last =~= front + (mid + last));
    }
}

/// The two walks yield the same leaves: a walk that descends to the leaves
/// yields, for each node at which the other walk stops and in the same
/// order, what it yields below that node, and nothing else. The other walk
/// yields the payloads of its stops.
pub proof fn lemma_leaves_under_stops<T, U, Q: Region>(node: NodeModel<T, U>, query: Q)
    ensures
        yielded(node, query, false) == payloads(stops(node, query)),
        yielded(node, query, true) == leaves_under(
            stops(node, query),
            query,
            stops(node, query).len(),
        ),
    decreases node,
{
    let none = Seq::<PayloadModel<T, U>>::empty();
    if query.covers(node.bounds) {
        let only = seq![node];
        assert(payloads(only) =~= seq![payload_of(node)]);
        assert(leaves_under(only, query, 1) == leaves_under(only, query, 0) + yielded(
            node,
            query,
            true,
        ));
        assert(none + yielded(node, query, true) =~= yielded(node, query, true));
    } else if query.touches(node.bounds) {
        lemma_leaves_under_grid(node.children, query, node.children.len());
    } else {
        assert(payloads(stops(node, query)) =~= none);
    }
}

proof fn lemma_leaves_under_grid<T, U, Q: Region>(
    nodes: Seq<Seq<NodeModel<T, U>>>,
    query: Q,
    rows: nat,
)
    ensures
        yielded_grid(nodes, query, false, rows) == payloads(stops_grid(nodes, query, rows)),
        yielded_grid(nodes, query, true, rows) == leaves_under(
            stops_grid(nodes, query, rows),
            query,
            stops_grid(nodes, query, rows).len(),
        ),
    decreases nodes, rows,
{
    if rows > 0 && rows <= nodes.len() {
        let row = nodes[rows - 1];
        let here = stops_stack(row, query, row.len());
        let before = stops_grid(nodes, query, (rows - 1) as nat);
        lemma_leaves_under_grid(nodes, query, (rows - 1) as nat);
        lemma_leaves_under_stack(row, query, row.len());
        lemma_leaves_under_append(here, before, query, before.len());
        assert(payloads(here + before) =~= payloads(here) + payloads(before));
    } else {
        assert(payloads(stops_grid(nodes, query, rows)) =~= Seq::empty());
    }
}

proof fn lemma_leaves_under_stack<T, U, Q: Region>(
    nodes: Seq<NodeModel<T, U>>,
    query: Q,
    k: nat,
)
    ensures
        yielded_stack(nodes, query, false, k) == payloads(stops_stack(nodes, query, k)),
        yielded_stack(nodes, query, true, k) == leaves_under(
            stops_stack(nodes, query, k),
            query,
            stops_stack(nodes, query, k).len(),
        ),
    decreases nodes, k,
{
    if k > 0 && k <= nodes.len() {
        let here = stops(nodes[k - 1], query);
        let before = stops_stack(nodes, query, (k - 1) as nat);
        lemma_leaves_under_stops(nodes[k - 1], query);
        lemma_leaves_under_stack(nodes, query, (k - 1) as nat);
        lemma_leaves_under_append(here, before, query, before.len());
        assert(payloads(here + before) =~= payloads(here) + payloads(before));
    } else {
        assert(payloads(stops_stack(nodes, query, k)) =~= Seq::empty());
    }
}

} // verus!
