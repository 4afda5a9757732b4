//! The aggregate over a region that is cut in two is the reduction of the
//! aggregates over the two parts, where no leaf lies across the cut.

use crate::bounds::Region;
use crate::dataset::Dataset;
use crate::deserialize::tree::{combine, file_aggregate, folded, PayloadModel};
use crate::pruning::{
    consistent, lemma_combine_associative, lemma_combine_commutative, lemma_file_walk,
    lemma_folded_concat, lemma_pruning, nested, payload_of, reduces_like_a_sum, region_like,
    yielded, yielded_grid, yielded_stack,
};
use crate::serialize::layout::tree_bytes;
use crate::tree::NodeModel;
use vstd::prelude::*;

verus! {

/// Every leaf below `node` that the whole region covers is covered by
/// exactly one of the two parts, and the parts cover no other leaf.
pub open spec fn splits<T, U, Q: Region, Q1: Region, Q2: Region>(
    node: NodeModel<T, U>,
    whole: Q,
    first: Q1,
    second: Q2,
) -> bool
    decreases node,
{
    if node.children.len() == 0 {
        &&& whole.covers(node.bounds) <==> first.covers(node.bounds) || second.covers(node.bounds)
        &&& !(first.covers(node.bounds) && second.covers(node.bounds))
    } else {
        forall|i: int, j: int|
            0 <= i < node.children.len() && 0 <= j < node.children[i].len() ==> splits(
                #[trigger] node.children[i][j],
                whole,
                first,
                second,
            )
    }
}

/// Four aggregates reduce to the same whichever two are reduced first.
proof fn lemma_combine_interchange<D: Dataset>(
    a: Option<D::AggregateType>,
    b: Option<D::AggregateType>,
    c: Option<D::AggregateType>,
    d: Option<D::AggregateType>,
)
    requires
        reduces_like_a_sum::<D>(),
    ensures
        combine::<D>(combine::<D>(a, b), combine::<D>(c, d)) == combine::<D>(
            combine::<D>(a, c),
            combine::<D>(b, d),
        ),
{
    lemma_combine_associative::<D>(a, b, combine::<D>(c, d));
    lemma_combine_associative::<D>(b, c, d);
    lemma_combine_commutative::<D>(b, c);
    lemma_combine_associative::<D>(c, b, d);
    lemma_combine_associative::<D>(a, c, combine::<D>(b, d));
}

/// Below a node that a region does not touch, a walk yields nothing.
proof fn lemma_untouched_stack<T, U, Q: Region>(
    node: NodeModel<T, U>,
    query: Q,
    i: int,
    k: nat,
)
    requires
        region_like(query),
        nested(node),
        !query.touches(node.bounds),
        0 <= i < node.children.len(),
        k <= node.children[i].len(),
    ensures
        yielded_stack(node.children[i], query, true, k) == Seq::<PayloadModel<T, U>>::empty(),
    decreases k,
{
    if k > 0 {
        let child = node.children[i][k - 1];
        assert(node.bounds.encloses(child.bounds));
        assert(nested(child));
        assert(!query.touches(child.bounds));
        assert(!query.covers(child.bounds));
        lemma_untouched_stack(node, query, i, (k - 1) as nat);
        assert(yielded(child, query, true) + Seq::<PayloadModel<T, U>>::empty() =~= Seq::<
            PayloadModel<T, U>,
        >::empty());
    }
}

proof fn lemma_untouched_grid<T, U, Q: Region>(node: NodeModel<T, U>, query: Q, rows: nat)
    requires
        region_like(query),
        nested(node),
        !query.touches(node.bounds),
        rows <= node.children.len(),
    ensures
        yielded_grid(node.children, query, true, rows) == Seq::<PayloadModel<T, U>>::empty(),
    decreases rows,
{
    if rows > 0 {
        lemma_untouched_grid(node, query, (rows - 1) as nat);
        lemma_untouched_stack(node, query, rows - 1, node.children[rows - 1].len());
        assert(Seq::<PayloadModel<T, U>>::empty() + Seq::<PayloadModel<T, U>>::empty() =~= Seq::<
            PayloadModel<T, U>,
        >::empty());
    }
}

/// What the covered leaves below a parent reduce to, whether or not the
/// region touches the parent.
proof fn lemma_leaves_below<D: Dataset, Q: Region>(
    node: NodeModel<D::Type, D::AggregateType>,
    query: Q,
)
    requires
        region_like(query),
        nested(node),
        node.children.len() > 0,
    ensures
        folded::<D>(None, yielded(node, query, true)) == folded::<D>(
            None,
            yielded_grid(node.children, query, true, node.children.len()),
        ),
{
    if !query.touches(node.bounds) {
        lemma_untouched_grid(node, query, node.children.len());
    }
}

/// The covered leaves below a node reduce, for the whole region, to the
/// reduction of what they reduce to for its two parts.
pub proof fn lemma_leaves_add_up<D: Dataset, Q: Region, Q1: Region, Q2: Region>(
    node: NodeModel<D::Type, D::AggregateType>,
    whole: Q,
    first: Q1,
    second: Q2,
)
    requires
        reduces_like_a_sum::<D>(),
        region_like(whole),
        region_like(first),
        region_like(second),
        nested(node),
        splits(node, whole, first, second),
    ensures
        folded::<D>(None, yielded(node, whole, true)) == combine::<D>(
            folded::<D>(None, yielded(node, first, true)),
            folded::<D>(None, yielded(node, second, true)),
        ),
    decreases node,
{
    if node.children.len() == 0 {
        let only = seq![payload_of(node)];
        let none = Seq::<PayloadModel<D::Type, D::AggregateType>>::empty();
        assert(only.drop_first() =~= none);
        assert(folded::<D>(None, only) == folded::<D>(
            combine::<D>(None, node.aggregate),
            only.drop_first(),
        ));
        assert(yielded_grid(node.children, whole, true, 0) =~= none);
        assert(yielded_grid(node.children, first, true, 0) =~= none);
        assert(yielded_grid(node.children, second, true, 0) =~= none);
    } else {
        lemma_leaves_below::<D, Q>(node, whole);
        lemma_leaves_below::<D, Q1>(node, first);
        lemma_leaves_below::<D, Q2>(node, second);
        lemma_grid_adds_up::<D, Q, Q1, Q2>(node, whole, first, second, node.children.len());
    }
}

proof fn lemma_grid_adds_up<D: Dataset, Q: Region, Q1: Region, Q2: Region>(
    node: NodeModel<D::Type, D::AggregateType>,
    whole: Q,
    first: Q1,
    second: Q2,
    rows: nat,
)
    requires
        reduces_like_a_sum::<D>(),
        region_like(whole),
        region_like(first),
        region_like(second),
        nested(node),
        node.children.len() > 0,
        splits(node, whole, first, second),
        rows <= node.children.len(),
    ensures
        folded::<D>(None, yielded_grid(node.children, whole, true, rows)) == combine::<D>(
            folded::<D>(None, yielded_grid(node.children, first, true, rows)),
            folded::<D>(None, yielded_grid(node.children, second, true, rows)),
        ),
    decreases node.children, rows,
{
    if rows > 0 {
        let row = node.children[rows - 1];
        let before = (rows - 1) as nat;
        lemma_grid_adds_up::<D, Q, Q1, Q2>(node, whole, first, second, before);
        lemma_stack_adds_up::<D, Q, Q1, Q2>(node, whole, first, second, rows - 1, row.len());
        lemma_folded_concat::<D>(
            yielded_stack(row, whole, true, row.len()),
            yielded_grid(node.children, whole, true, before),
        );
        lemma_folded_concat::<D>(
            yielded_stack(row, first, true, row.len()),
            yielded_grid(node.children, first, true, before),
        );
        lemma_folded_concat::<D>(
            yielded_stack(row, second, true, row.len()),
            yielded_grid(node.children, second, true, before),
        );
        lemma_combine_interchange::<D>(
            folded::<D>(None, yielded_stack(row, first, true, row.len())),
            folded::<D>(None, yielded_stack(row, second, true, row.len())),
            folded::<D>(None, yielded_grid(node.children, first, true, before)),
            folded::<D>(None, yielded_grid(node.children, second, true, before)),
        );
    }
}

proof fn lemma_stack_adds_up<D: Dataset, Q: Region, Q1: Region, Q2: Region>(
    node: NodeModel<D::Type, D::AggregateType>,
    whole: Q,
    first: Q1,
    second: Q2,
    i: int,
    k: nat,
)
    requires
        reduces_like_a_sum::<D>(),
        region_like(whole),
        region_like(first),
        region_like(second),
        nested(node),
        node.children.len() > 0,
        splits(node, whole, first, second),
        0 <= i < node.children.len(),
        k <= node.children[i].len(),
    ensures
        folded::<D>(None, yielded_stack(node.children[i], whole, true, k)) == combine::<D>(
            folded::<D>(None, yielded_stack(node.children[i], first, true, k)),
            folded::<D>(None, yielded_stack(node.children[i], second, true, k)),
        ),
    decreases node.children[i], k,
{
    if k > 0 {
        let row = node.children[i];
        let child = row[k - 1];
        let before = (k - 1) as nat;
        assert(child == node.children[i][k - 1]);
        assert(nested(child));
        assert(splits(child, whole, first, second));
        lemma_leaves_add_up::<D, Q, Q1, Q2>(child, whole, first, second);
        lemma_stack_adds_up::<D, Q, Q1, Q2>(node, whole, first, second, i, before);
        lemma_folded_concat::<D>(
            yielded(child, whole, true),
            yielded_stack(row, whole, true, before),
        );
        lemma_folded_concat::<D>(
            yielded(child, first, true),
            yielded_stack(row, first, true, before),
        );
        lemma_folded_concat::<D>(
            yielded(child, second, true),
            yielded_stack(row, second, true, before),
        );
        lemma_combine_interchange::<D>(
            folded::<D>(None, yielded(child, first, true)),
            folded::<D>(None, yielded(child, second, true)),
            folded::<D>(None, yielded_stack(row, first, true, before)),
            folded::<D>(None, yielded_stack(row, second, true, before)),
        );
    }
}

/// Where a region is cut into two parts such that
/// every leaf that the region covers is covered by exactly one part, the
/// aggregate over the region is the reduction of the aggregates over the
/// parts.
pub proof fn lemma_aggregate_additivity<D: Dataset, Q: Region, Q1: Region, Q2: Region>(
    root: NodeModel<D::Type, D::AggregateType>,
    whole: Q,
    first: Q1,
    second: Q2,
)
    requires
        root.wf(),
        tree_bytes(0, root).len() <= usize::MAX,
        reduces_like_a_sum::<D>(),
        consistent::<D>(root),
        nested(root),
        region_like(whole),
        region_like(first),
        region_like(second),
        splits(root, whole, first, second),
    ensures
        file_aggregate::<D, Q>(tree_bytes(0, root), whole) == combine::<D>(
            file_aggregate::<D, Q1>(tree_bytes(0, root), first),
            file_aggregate::<D, Q2>(tree_bytes(0, root), second),
        ),
{
    lemma_file_walk::<D::Type, D::AggregateType, Q>(root, whole, false);
    lemma_file_walk::<D::Type, D::AggregateType, Q1>(root, first, false);
    lemma_file_walk::<D::Type, D::AggregateType, Q2>(root, second, false);
    lemma_pruning::<D, Q>(root, whole);
    lemma_pruning::<D, Q1>(root, first);
    lemma_pruning::<D, Q2>(root, second);
    lemma_leaves_add_up::<D, Q, Q1, Q2>(root, whole, first, second);
}

} // verus!
