//! What holds of every tree that is built from a raster.

use crate::additivity::{lemma_aggregate_additivity, splits};
use crate::bounds::{lemma_cell, Bounds, Region};
use crate::builder::{
    built, child_raster, grid_aggregates, grid_tiles, is_leaf_raster,
    lemma_child_raster_smaller, propagated, raster_width, row_aggregates, row_tiles, sliced,
    sliced_child,
};
use crate::dataset::{valid_dataset, Dataset};
use crate::deserialize::iterators::walk_all;
use crate::deserialize::tree::{combine, file_aggregate, folded};
use crate::levels::{gridded, tiled};
use crate::pruning::{
    branching, consistent, lemma_pruning_equivalence, nested, reduced, reduces_like_a_sum,
    region_like,
};
use crate::roundtrip::{lemma_round_trip, reads_as};
use crate::serialize::layout::tree_bytes;
use crate::stitching::{lemma_stitched_parts, parts, rectangular};
use crate::tree::NodeModel;
use vstd::prelude::*;

verus! {

/// The source has an aggregate for every run of pixels.
pub open spec fn has_aggregates<D: Dataset>() -> bool {
    forall|values: Seq<D::Type>| (#[trigger] D::spec_aggregate(values)) is Some
}

/// Every leaf has an aggregate and every parent has a child.
pub open spec fn aggregated<T, U>(node: NodeModel<T, U>) -> bool
    decreases node,
{
    if node.children.len() == 0 {
        node.aggregate is Some
    } else {
        &&& node.children[0].len() > 0
        &&& forall|i: int, j: int|
            0 <= i < node.children.len() && 0 <= j < node.children[i].len() ==> aggregated(
                #[trigger] node.children[i][j],
            )
    }
}

/// Cutting a raster gives a tree whose bounds are nested.
pub proof fn lemma_sliced_nested<D: Dataset>(bounds: Bounds, data: Seq<Seq<D::Type>>)
    requires
        valid_dataset::<D>(),
        bounds.wf(),
    ensures
        nested(sliced::<D>(bounds, data)),
        sliced::<D>(bounds, data).bounds == bounds,
        sliced::<D>(bounds, data).wf(),
    decreases data.len() + raster_width(data),
{
    let node = sliced::<D>(bounds, data);
    let n = D::CHILDREN_PER_AXIS as int;
    if !is_leaf_raster::<D>(data) {
        assert forall|i: int, j: int|
            0 <= i < node.children.len() && 0 <= j < node.children[i].len() implies {
            &&& node.bounds.encloses((#[trigger] node.children[i][j]).bounds)
            &&& nested(node.children[i][j])
            &&& node.children[i][j].wf()
        } by {
            lemma_child_raster_smaller::<D>(data, i, j);
            lemma_cell(bounds, i, j, n);
            assert(node.children[i][j] == sliced_child::<D>(bounds, data, i, j));
            lemma_sliced_nested::<D>(bounds.cell(i, j, n), child_raster::<D>(data, i, j));
        }
    }
}

/// Cutting a raster of a source that has aggregates gives a tree whose
/// leaves all have one.
pub proof fn lemma_sliced_aggregated<D: Dataset>(bounds: Bounds, data: Seq<Seq<D::Type>>)
    requires
        valid_dataset::<D>(),
        has_aggregates::<D>(),
    ensures
        aggregated(sliced::<D>(bounds, data)),
    decreases data.len() + raster_width(data),
{
    let node = sliced::<D>(bounds, data);
    let n = D::CHILDREN_PER_AXIS as int;
    if !is_leaf_raster::<D>(data) {
        assert forall|i: int, j: int|
            0 <= i < node.children.len() && 0 <= j < node.children[i].len() implies aggregated(
            #[trigger] node.children[i][j],
        ) by {
            lemma_child_raster_smaller::<D>(data, i, j);
            assert(node.children[i][j] == sliced_child::<D>(bounds, data, i, j));
            lemma_sliced_aggregated::<D>(bounds.cell(i, j, n), child_raster::<D>(data, i, j));
        }
    }
}

/// Filling the parents changes neither the shape of a tree nor its bounds.
pub proof fn lemma_propagated_nested<D: Dataset>(node: NodeModel<D::Type, D::AggregateType>)
    requires
        nested(node),
    ensures
        nested(propagated::<D>(node)),
        propagated::<D>(node).bounds == node.bounds,
        propagated::<D>(node).wf(),
    decreases node,
{
    let after = propagated::<D>(node);
    if node.children.len() > 0 {
        assert forall|i: int, j: int|
            0 <= i < after.children.len() && 0 <= j < after.children[i].len() implies {
            &&& after.bounds.encloses((#[trigger] after.children[i][j]).bounds)
            &&& nested(after.children[i][j])
            &&& after.children[i][j].wf()
        } by {
            assert(nested(node.children[i][j]));
            lemma_propagated_nested::<D>(node.children[i][j]);
        }
    }
}

/// A run of aggregates that is not empty reduces to an aggregate.
proof fn lemma_reduced_some<D: Dataset>(values: Seq<D::AggregateType>)
    requires
        reduces_like_a_sum::<D>(),
        values.len() > 0,
    ensures
        reduced::<D>(values) is Some,
    decreases values.len(),
{
    let front = values.drop_last();
    let x = values.last();
    assert(values =~= front.push(x));
    assert(reduced::<D>(front.push(x)) == combine::<D>(reduced::<D>(front), Some(x)));
    if front.len() > 0 {
        lemma_reduced_some::<D>(front);
        let a = reduced::<D>(front).unwrap();
        assert(combine::<D>(Some(a), Some(x)) is Some);
    }
}

/// The aggregates of a row of nodes that all have one.
proof fn lemma_row_aggregates_len<T, U>(row: Seq<NodeModel<T, U>>, k: nat)
    requires
        k <= row.len(),
        forall|j: int| 0 <= j < row.len() ==> (#[trigger] row[j]).aggregate is Some,
    ensures
        row_aggregates(row, k).len() == k,
    decreases k,
{
    if k > 0 {
        lemma_row_aggregates_len(row, (k - 1) as nat);
    }
}

proof fn lemma_grid_aggregates_len<T, U>(nodes: Seq<Seq<NodeModel<T, U>>>, rows: nat)
    requires
        0 < rows <= nodes.len(),
        nodes[0].len() > 0,
        forall|i: int, j: int|
            0 <= i < nodes.len() && 0 <= j < nodes[i].len() ==> (
            #[trigger] nodes[i][j]).aggregate is Some,
    ensures
        grid_aggregates(nodes, rows).len() > 0,
    decreases rows,
{
    if rows == 1 {
        assert forall|j: int| 0 <= j < nodes[0].len() implies (
        #[trigger] nodes[0][j]).aggregate is Some by {}
        lemma_row_aggregates_len(nodes[0], nodes[0].len());
    } else {
        lemma_grid_aggregates_len(nodes, (rows - 1) as nat);
    }
}

/// Filling the parents of a tree whose leaves have aggregates gives every
/// node an aggregate, each parent the reduction of its children's.
pub proof fn lemma_propagated_consistent<D: Dataset>(node: NodeModel<D::Type, D::AggregateType>)
    requires
        reduces_like_a_sum::<D>(),
        aggregated(node),
    ensures
        consistent::<D>(propagated::<D>(node)),
        propagated::<D>(node).aggregate is Some,
    decreases node,
{
    let after = propagated::<D>(node);
    if node.children.len() > 0 {
        assert forall|i: int, j: int|
            0 <= i < after.children.len() && 0 <= j < after.children[i].len() implies {
            &&& consistent::<D>(#[trigger] after.children[i][j])
            &&& after.children[i][j].aggregate is Some
        } by {
            assert(aggregated(node.children[i][j]));
            lemma_propagated_consistent::<D>(node.children[i][j]);
        }
        lemma_grid_aggregates_len(after.children, after.children.len());
        lemma_reduced_some::<D>(grid_aggregates(after.children, after.children.len()));
    }
}

/// Every tree built from the raster of a source whose reducer works like a
/// sum, and which has an aggregate for every run of pixels, has nested
/// bounds and holds in every parent the reduction of its children's
/// aggregates.
pub proof fn lemma_built<D: Dataset>(bounds: Bounds, data: Seq<Seq<D::Type>>)
    requires
        valid_dataset::<D>(),
        bounds.wf(),
        reduces_like_a_sum::<D>(),
        has_aggregates::<D>(),
    ensures
        built::<D>(bounds, data).wf(),
        nested(built::<D>(bounds, data)),
        consistent::<D>(built::<D>(bounds, data)),
{
    lemma_sliced_nested::<D>(bounds, data);
    lemma_sliced_aggregated::<D>(bounds, data);
    lemma_propagated_nested::<D>(sliced::<D>(bounds, data));
    lemma_propagated_consistent::<D>(sliced::<D>(bounds, data));
}

/// The file of a built tree holds every node as it was built.
pub proof fn lemma_built_round_trip<D: Dataset>(bounds: Bounds, data: Seq<Seq<D::Type>>)
    requires
        valid_dataset::<D>(),
        bounds.wf(),
        tree_bytes(0, built::<D>(bounds, data)).len() <= usize::MAX,
    ensures
        reads_as(tree_bytes(0, built::<D>(bounds, data)), 0, built::<D>(bounds, data)),
{
    lemma_sliced_nested::<D>(bounds, data);
    lemma_propagated_nested::<D>(sliced::<D>(bounds, data));
    lemma_round_trip(built::<D>(bounds, data));
}

/// Stopping at covered nodes does not change the aggregate of a built
/// tree: the aggregate over a
/// region is what the covered leaves reduce to.
pub proof fn lemma_built_pruning_equivalence<D: Dataset, Q: Region>(
    bounds: Bounds,
    data: Seq<Seq<D::Type>>,
    query: Q,
)
    requires
        valid_dataset::<D>(),
        bounds.wf(),
        reduces_like_a_sum::<D>(),
        has_aggregates::<D>(),
        region_like(query),
        tree_bytes(0, built::<D>(bounds, data)).len() <= usize::MAX,
    ensures
        file_aggregate::<D, Q>(tree_bytes(0, built::<D>(bounds, data)), query) == folded::<D>(
            None,
            walk_all::<D::Type, D::AggregateType, Q>(
                tree_bytes(0, built::<D>(bounds, data)),
                query,
                seq![0nat],
                tree_bytes(0, built::<D>(bounds, data)).len(),
                true,
            ),
        ),
{
    lemma_built::<D>(bounds, data);
    lemma_pruning_equivalence::<D, Q>(built::<D>(bounds, data), query);
}

/// In a built tree, where no leaf lies across the cut
/// between two parts of a region, the aggregate over the region is the
/// reduction of the aggregates over the parts.
pub proof fn lemma_built_additivity<D: Dataset, Q: Region, Q1: Region, Q2: Region>(
    bounds: Bounds,
    data: Seq<Seq<D::Type>>,
    whole: Q,
    first: Q1,
    second: Q2,
)
    requires
        valid_dataset::<D>(),
        bounds.wf(),
        reduces_like_a_sum::<D>(),
        has_aggregates::<D>(),
        region_like(whole),
        region_like(first),
        region_like(second),
        splits(built::<D>(bounds, data), whole, first, second),
        tree_bytes(0, built::<D>(bounds, data)).len() <= usize::MAX,
    ensures
        file_aggregate::<D, Q>(tree_bytes(0, built::<D>(bounds, data)), whole) == combine::<D>(
            file_aggregate::<D, Q1>(tree_bytes(0, built::<D>(bounds, data)), first),
            file_aggregate::<D, Q2>(tree_bytes(0, built::<D>(bounds, data)), second),
        ),
{
    lemma_built::<D>(bounds, data);
    lemma_aggregate_additivity::<D, Q, Q1, Q2>(built::<D>(bounds, data), whole, first, second);
}

/// Every node of a built tree has a tile.
pub proof fn lemma_built_tiled<D: Dataset>(bounds: Bounds, data: Seq<Seq<D::Type>>)
    requires
        valid_dataset::<D>(),
    ensures
        tiled(built::<D>(bounds, data)),
{
    lemma_sliced_leaves_tiled::<D>(bounds, data);
    lemma_propagated_tiled::<D>(sliced::<D>(bounds, data));
}

/// Every leaf has a tile.
pub open spec fn leaves_tiled<T, U>(node: NodeModel<T, U>) -> bool
    decreases node,
{
    if node.children.len() == 0 {
        node.data is Some
    } else {
        forall|i: int, j: int|
            0 <= i < node.children.len() && 0 <= j < node.children[i].len() ==> leaves_tiled(
                #[trigger] node.children[i][j],
            )
    }
}

proof fn lemma_sliced_leaves_tiled<D: Dataset>(bounds: Bounds, data: Seq<Seq<D::Type>>)
    requires
        valid_dataset::<D>(),
    ensures
        leaves_tiled(sliced::<D>(bounds, data)),
    decreases data.len() + raster_width(data),
{
    let node = sliced::<D>(bounds, data);
    let n = D::CHILDREN_PER_AXIS as int;
    if !is_leaf_raster::<D>(data) {
        assert forall|i: int, j: int|
            0 <= i < node.children.len() && 0 <= j < node.children[i].len() implies leaves_tiled(
            #[trigger] node.children[i][j],
        ) by {
            lemma_child_raster_smaller::<D>(data, i, j);
            assert(node.children[i][j] == sliced_child::<D>(bounds, data, i, j));
            lemma_sliced_leaves_tiled::<D>(bounds.cell(i, j, n), child_raster::<D>(data, i, j));
        }
    }
}

proof fn lemma_propagated_tiled<D: Dataset>(node: NodeModel<D::Type, D::AggregateType>)
    requires
        leaves_tiled(node),
    ensures
        tiled(propagated::<D>(node)),
    decreases node,
{
    let after = propagated::<D>(node);
    if node.children.len() > 0 {
        assert forall|i: int, j: int|
            0 <= i < after.children.len() && 0 <= j < after.children[i].len() implies tiled(
            #[trigger] after.children[i][j],
        ) by {
            assert(leaves_tiled(node.children[i][j]));
            lemma_propagated_tiled::<D>(node.children[i][j]);
        }
    }
}

/// For `levels` levels of cutting, every part of the raster is too large
/// for a leaf.
pub open spec fn deep<D: Dataset>(data: Seq<Seq<D::Type>>, levels: nat) -> bool
    decreases levels,
{
    if levels == 0 {
        true
    } else {
        &&& !is_leaf_raster::<D>(data)
        &&& forall|i: int, j: int|
            0 <= i < D::CHILDREN_PER_AXIS && 0 <= j < D::CHILDREN_PER_AXIS ==> deep::<D>(
                #[trigger] child_raster::<D>(data, i, j),
                (levels - 1) as nat,
            )
    }
}

proof fn lemma_sliced_gridded<D: Dataset>(bounds: Bounds, data: Seq<Seq<D::Type>>, levels: nat)
    requires
        valid_dataset::<D>(),
        bounds.wf(),
        deep::<D>(data, levels),
    ensures
        gridded(sliced::<D>(bounds, data), D::CHILDREN_PER_AXIS as nat, levels),
    decreases levels,
{
    let node = sliced::<D>(bounds, data);
    let n = D::CHILDREN_PER_AXIS as nat;
    if levels > 0 {
        assert forall|i: int, j: int| 0 <= i < n && 0 <= j < n implies {
            &&& (#[trigger] node.children[i][j]).bounds == node.bounds.cell(i, j, n as int)
            &&& gridded(node.children[i][j], n, (levels - 1) as nat)
        } by {
            lemma_cell(bounds, i, j, n as int);
            assert(node.children[i][j] == sliced_child::<D>(bounds, data, i, j));
            assert(deep::<D>(child_raster::<D>(data, i, j), (levels - 1) as nat));
            lemma_sliced_nested::<D>(bounds.cell(i, j, n as int), child_raster::<D>(data, i, j));
            lemma_sliced_gridded::<D>(
                bounds.cell(i, j, n as int),
                child_raster::<D>(data, i, j),
                (levels - 1) as nat,
            );
        }
    }
}

proof fn lemma_propagated_gridded<D: Dataset>(
    node: NodeModel<D::Type, D::AggregateType>,
    n: nat,
    levels: nat,
)
    requires
        gridded(node, n, levels),
    ensures
        gridded(propagated::<D>(node), n, levels),
        propagated::<D>(node).bounds == node.bounds,
    decreases levels,
{
    let after = propagated::<D>(node);
    if levels > 0 {
        assert forall|i: int, j: int| 0 <= i < n && 0 <= j < n implies {
            &&& (#[trigger] after.children[i][j]).bounds == after.bounds.cell(i, j, n as int)
            &&& gridded(after.children[i][j], n, (levels - 1) as nat)
        } by {
            assert(node.children[i].len() == n);
            assert(gridded(node.children[i][j], n, (levels - 1) as nat));
            lemma_propagated_gridded::<D>(node.children[i][j], n, (levels - 1) as nat);
            lemma_propagated_bounds::<D>(node.children[i][j]);
        }
        assert forall|i: int| 0 <= i < n implies (#[trigger] after.children[i]).len() == n by {
            assert(node.children[i].len() == n);
        }
    } else {
        lemma_propagated_bounds::<D>(node);
    }
}

/// Filling the parents leaves the bounds of a node as they are.
proof fn lemma_propagated_bounds<D: Dataset>(node: NodeModel<D::Type, D::AggregateType>)
    ensures
        propagated::<D>(node).bounds == node.bounds,
{
}

/// A tree built from a raster that stays too large for a leaf for `levels`
/// levels of cutting is a full grid for as many levels.
pub proof fn lemma_built_gridded<D: Dataset>(
    bounds: Bounds,
    data: Seq<Seq<D::Type>>,
    levels: nat,
)
    requires
        valid_dataset::<D>(),
        bounds.wf(),
        deep::<D>(data, levels),
    ensures
        gridded(built::<D>(bounds, data), D::CHILDREN_PER_AXIS as nat, levels),
{
    lemma_sliced_gridded::<D>(bounds, data, levels);
    lemma_propagated_gridded::<D>(sliced::<D>(bounds, data), D::CHILDREN_PER_AXIS as nat, levels);
}

/// The tiles of a row of nodes that all have one.
proof fn lemma_row_tiles_all<T, U>(row: Seq<NodeModel<T, U>>, k: nat)
    requires
        k <= row.len(),
        forall|j: int| 0 <= j < row.len() ==> (#[trigger] row[j]).data is Some,
    ensures
        row_tiles(row, k) == Seq::new(k, |j: int| row[j].data.unwrap()),
    decreases k,
{
    if k > 0 {
        lemma_row_tiles_all(row, (k - 1) as nat);
        assert(row[k - 1].data is Some);
        assert(row_tiles(row, k) =~= Seq::new(k, |j: int| row[j].data.unwrap()));
    } else {
        assert(row_tiles(row, 0) =~= Seq::new(0, |j: int| row[j].data.unwrap()));
    }
}

/// A parent whose children are all leaves gets the shrunk image of the
/// whole raster that it was cut from: the children hold the parts, and the
/// parts stitched together are the raster.
pub proof fn lemma_built_parent_of_leaves<D: Dataset>(bounds: Bounds, data: Seq<Seq<D::Type>>)
    requires
        valid_dataset::<D>(),
        rectangular(data),
        !is_leaf_raster::<D>(data),
        forall|i: int, j: int|
            0 <= i < D::CHILDREN_PER_AXIS && 0 <= j < D::CHILDREN_PER_AXIS ==> is_leaf_raster::<D>(
                #[trigger] child_raster::<D>(data, i, j),
            ),
    ensures
        built::<D>(bounds, data).data == Some(D::spec_downsample(data)),
{
    let n = D::CHILDREN_PER_AXIS as nat;
    let cut = sliced::<D>(bounds, data);
    let kids = propagated::<D>(cut).children;
    assert forall|i: int, j: int| 0 <= i < n && 0 <= j < n implies (#[trigger] kids[i][j]).data
        == Some(child_raster::<D>(data, i, j)) by {
        lemma_child_raster_smaller::<D>(data, i, j);
        assert(cut.children[i][j] == sliced_child::<D>(bounds, data, i, j));
        assert(is_leaf_raster::<D>(child_raster::<D>(data, i, j)));
        assert(kids[i][j] == propagated::<D>(cut.children[i][j]));
    }
    assert(grid_tiles(kids).len() == parts::<D>(data).len());
    assert forall|i: int| 0 <= i < n implies grid_tiles(kids)[i] == parts::<D>(data)[i] by {
        assert forall|j: int| 0 <= j < kids[i].len() implies (#[trigger] kids[i][j]).data
            is Some by {}
        lemma_row_tiles_all(kids[i], kids[i].len());
        assert(grid_tiles(kids)[i] =~= parts::<D>(data)[i]);
    }
    assert(grid_tiles(kids) =~= parts::<D>(data));
    lemma_stitched_parts::<D>(data);
}

/// Every parent of a built tree has children.
pub proof fn lemma_built_branching<D: Dataset>(bounds: Bounds, data: Seq<Seq<D::Type>>)
    requires
        valid_dataset::<D>(),
    ensures
        branching(built::<D>(bounds, data)),
{
    lemma_sliced_branching::<D>(bounds, data);
    lemma_propagated_branching::<D>(sliced::<D>(bounds, data));
}

proof fn lemma_sliced_branching<D: Dataset>(bounds: Bounds, data: Seq<Seq<D::Type>>)
    requires
        valid_dataset::<D>(),
    ensures
        branching(sliced::<D>(bounds, data)),
    decreases data.len() + raster_width(data),
{
    let node = sliced::<D>(bounds, data);
    let n = D::CHILDREN_PER_AXIS as int;
    if !is_leaf_raster::<D>(data) {
        assert forall|i: int, j: int|
            0 <= i < node.children.len() && 0 <= j < node.children[i].len() implies branching(
            #[trigger] node.children[i][j],
        ) by {
            lemma_child_raster_smaller::<D>(data, i, j);
            assert(node.children[i][j] == sliced_child::<D>(bounds, data, i, j));
            lemma_sliced_branching::<D>(bounds.cell(i, j, n), child_raster::<D>(data, i, j));
        }
    }
}

proof fn lemma_propagated_branching<D: Dataset>(node: NodeModel<D::Type, D::AggregateType>)
    requires
        branching(node),
    ensures
        branching(propagated::<D>(node)),
    decreases node,
{
    let after = propagated::<D>(node);
    if node.children.len() > 0 {
        assert forall|i: int, j: int|
            0 <= i < after.children.len() && 0 <= j < after.children[i].len() implies branching(
            #[trigger] after.children[i][j],
        ) by {
            assert(branching(node.children[i][j]));
            lemma_propagated_branching::<D>(node.children[i][j]);
        }
    }
}

} // verus!
