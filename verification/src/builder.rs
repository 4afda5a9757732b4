//! Building the pyramid from a raw raster: cutting it into quadrants down to
//! leaf size, then filling each parent from its children.

use crate::bounds::Bounds;
use crate::dataset::{grid, joined, valid_dataset, Dataset, Tile};
use crate::raster::{flatten, slice, spec_flatten, spec_slice, tile_grid};
use crate::tree::{lemma_model_children, models, GeoTree, NodeModel, TileNode};
use vstd::prelude::*;

verus! {

/// The number of columns of a raster: the length of its first row.
pub open spec fn raster_width<T>(data: Seq<Seq<T>>) -> nat {
    if data.len() > 0 {
        data[0].len()
    } else {
        0
    }
}

/// Whether a raster is small enough to be stored in a leaf.
pub open spec fn is_leaf_raster<D: Dataset>(data: Seq<Seq<D::Type>>) -> bool {
    data.len() <= D::TILE_SIZE && raster_width(data) <= D::TILE_SIZE
}

/// The extent of part `k` when `extent` is cut into `n` parts: the `n`-th of
/// it, rounded down, and for the last part all that is left.
pub open spec fn part_len(extent: nat, k: int, n: nat) -> nat {
    if k == n - 1 {
        (extent - (n - 1) * (extent / n)) as nat
    } else {
        extent / n
    }
}

/// The part of a raster that goes to the child in row `i` and column `j`.
pub open spec fn child_raster<D: Dataset>(data: Seq<Seq<D::Type>>, i: int, j: int) -> Seq<
    Seq<D::Type>,
> {
    let n = D::CHILDREN_PER_AXIS as nat;
    let height = data.len();
    let width = raster_width(data);
    spec_slice(
        data,
        (j * (width / n)) as nat,
        (i * (height / n)) as nat,
        part_len(width, j, n),
        part_len(height, i, n),
        D::spec_default(),
    )
}

pub proof fn lemma_part_len(extent: nat, k: int, n: nat)
    requires
        n >= 2,
    ensures
        (n - 1) * (extent / n) <= extent,
        part_len(extent, k, n) <= extent,
        extent >= n ==> part_len(extent, k, n) < extent,
        0 <= k < n ==> k * (extent / n) + part_len(extent, k, n) <= extent,
{
    let q = extent / n;
    assert(n * q <= extent) by (nonlinear_arith)
        requires
            q == extent / n,
            n > 0,
    ;
    assert((n - 1) * q <= n * q) by (nonlinear_arith)
        requires
            q >= 0,
            n >= 1,
    ;
    if extent >= n {
        assert(q >= 1) by (nonlinear_arith)
            requires
                q == extent / n,
                extent >= n,
                n > 0,
        ;
        assert((n - 1) * q >= 1) by (nonlinear_arith)
            requires
                q >= 1,
                n >= 2,
        ;
        assert(q < extent) by (nonlinear_arith)
            requires
                n * q <= extent,
                q >= 1,
                n >= 2,
        ;
    }
    if 0 <= k < n {
        assert(k * q <= (n - 1) * q) by (nonlinear_arith)
            requires
                0 <= k <= n - 1,
                q >= 0,
        ;
        if k != n - 1 {
            assert(k * q + q <= (n - 1) * q) by (nonlinear_arith)
                requires
                    0 <= k < n - 1,
                    q >= 0,
            ;
        }
    }
}

pub proof fn lemma_child_raster_smaller<D: Dataset>(data: Seq<Seq<D::Type>>, i: int, j: int)
    requires
        valid_dataset::<D>(),
        !is_leaf_raster::<D>(data),
    ensures
        child_raster::<D>(data, i, j).len() + raster_width(child_raster::<D>(data, i, j))
            < data.len() + raster_width(data),
{
    let n = D::CHILDREN_PER_AXIS as nat;
    lemma_part_len(data.len(), i, n);
    lemma_part_len(raster_width(data), j, n);
}

/// The tree that a raster is cut into, before parents are filled: a leaf
/// where the raster is small enough, else a grid of children, each cut from
/// its part of the raster.
pub open spec fn sliced<D: Dataset>(bounds: Bounds, data: Seq<Seq<D::Type>>) -> NodeModel<
    D::Type,
    D::AggregateType,
>
    decreases data.len() + raster_width(data), 1nat,
    when valid_dataset::<D>()
{
    if is_leaf_raster::<D>(data) {
        NodeModel {
            bounds,
            data: Some(data),
            aggregate: D::spec_aggregate(joined(data, data.len())),
            children: Seq::empty(),
        }
    } else {
        NodeModel {
            bounds,
            data: None,
            aggregate: None,
            children: Seq::new(
                D::CHILDREN_PER_AXIS as nat,
                |i: int|
                    Seq::new(
                        D::CHILDREN_PER_AXIS as nat,
                        |j: int| sliced_child::<D>(bounds, data, i, j),
                    ),
            ),
        }
    }
}

/// The child in row `i` and column `j` of the tree that a raster too large
/// for a leaf is cut into.
pub open spec fn sliced_child<D: Dataset>(
    bounds: Bounds,
    data: Seq<Seq<D::Type>>,
    i: int,
    j: int,
) -> NodeModel<D::Type, D::AggregateType>
    decreases data.len() + raster_width(data), 0nat,
    when valid_dataset::<D>() && !is_leaf_raster::<D>(data)
{
    proof {
        lemma_child_raster_smaller::<D>(data, i, j);
    }
    sliced::<D>(bounds.cell(i, j, D::CHILDREN_PER_AXIS as int), child_raster::<D>(data, i, j))
}

/// The tiles of the first `k` nodes of a row, nodes without a tile left out.
pub open spec fn row_tiles<T, U>(row: Seq<NodeModel<T, U>>, k: nat) -> Seq<Seq<Seq<T>>>
    decreases k,
{
    if k == 0 {
        Seq::empty()
    } else {
        match row[k - 1].data {
            Some(d) => row_tiles(row, (k - 1) as nat).push(d),
            None => row_tiles(row, (k - 1) as nat),
        }
    }
}

/// The tiles of a grid of nodes, row by row.
pub open spec fn grid_tiles<T, U>(nodes: Seq<Seq<NodeModel<T, U>>>) -> Seq<Seq<Seq<Seq<T>>>> {
    Seq::new(nodes.len(), |i: int| row_tiles(nodes[i], nodes[i].len()))
}

/// The aggregates of the first `k` nodes of a row, nodes without one left
/// out.
pub open spec fn row_aggregates<T, U>(row: Seq<NodeModel<T, U>>, k: nat) -> Seq<U>
    decreases k,
{
    if k == 0 {
        Seq::empty()
    } else {
        match row[k - 1].aggregate {
            Some(a) => row_aggregates(row, (k - 1) as nat).push(a),
            None => row_aggregates(row, (k - 1) as nat),
        }
    }
}

/// The aggregates of the first `rows` rows of a grid of nodes, in row-major
/// order.
pub open spec fn grid_aggregates<T, U>(nodes: Seq<Seq<NodeModel<T, U>>>, rows: nat) -> Seq<U>
    decreases rows,
{
    if rows == 0 {
        Seq::empty()
    } else {
        grid_aggregates(nodes, (rows - 1) as nat) + row_aggregates(
            nodes[rows - 1],
            nodes[rows - 1].len(),
        )
    }
}

/// The tree with every parent filled from its children: its tile is the
/// children's tiles stitched together and shrunk, its aggregate the
/// reduction of the children's aggregates. A node without children is kept
/// as it is.
pub open spec fn propagated<D: Dataset>(node: NodeModel<D::Type, D::AggregateType>) -> NodeModel<
    D::Type,
    D::AggregateType,
>
    decreases node,
{
    if node.children.len() == 0 {
        node
    } else {
        let kids = Seq::new(
            node.children.len(),
            |i: int|
                Seq::new(
                    if 0 <= i < node.children.len() {
                        node.children[i].len()
                    } else {
                        0
                    },
                    |j: int|
                        if 0 <= i < node.children.len() && 0 <= j < node.children[i].len() {
                            propagated::<D>(node.children[i][j])
                        } else {
                            arbitrary()
                        },
                ),
        );
        NodeModel {
            bounds: node.bounds,
            data: Some(D::spec_downsample(spec_flatten(grid_tiles(kids)))),
            aggregate: D::spec_aggregate2(grid_aggregates(kids, kids.len())),
            children: kids,
        }
    }
}

/// The tree that is built from a raster covering `bounds`.
pub open spec fn built<D: Dataset>(bounds: Bounds, data: Seq<Seq<D::Type>>) -> NodeModel<
    D::Type,
    D::AggregateType,
> {
    propagated::<D>(sliced::<D>(bounds, data))
}

/// Every pixel of a raster, row after row.
fn pixels<T: Copy>(data: &Tile<T>) -> (flat: Vec<T>)
    ensures
        flat@ == joined(grid(*data), data.len() as nat),
{
    let mut flat: Vec<T> = Vec::new();
    let mut r: usize = 0;
    while r < data.len()
        invariant
            r <= data.len(),
            flat@ == joined(grid(*data), r as nat),
        decreases data.len() - r,
    {
        let row = &data[r];
        let ghost before = flat@;
        let mut c: usize = 0;
        while c < row.len()
            invariant
                c <= row.len(),
                flat@ == before + row@.subrange(0, c as int),
            decreases row.len() - c,
        {
            flat.push(row[c]);
            c += 1;
            assert(flat@ =~= before + row@.subrange(0, c as int));
        }
        assert(row@.subrange(0, c as int) =~= row@);
        r += 1;
    }
    flat
}

impl<D> GeoTree<D> where D: Dataset {
    /// Builds the pyramid of a data source: the raster is cut into
    /// quadrants down to leaf size, then each parent gets the shrunk image
    /// and the reduced aggregate of its children.
    pub fn build(data: &D) -> (tree: Self)
        requires
            valid_dataset::<D>(),
            data.spec_data().len() >= 1,
            data.spec_data()[0].len() >= 1,
        ensures
            tree.root@ == built::<D>(data.spec_bounds(), data.spec_data()),
            tree.root@.wf(),
    {
        let bounds = data.bounds();
        let root = Self::recursive_slice(bounds, data.data());
        let root = Self::propagate(root);
        GeoTree { root }
    }

    fn propagate(parent: TileNode<D::Type, D::AggregateType>) -> (r: TileNode<
        D::Type,
        D::AggregateType,
    >)
        ensures
            r@ == propagated::<D>(parent@),
            parent@.wf() ==> r@.wf(),
        decreases parent,
    {
        proof {
            lemma_model_children(parent);
        }
        if parent.children.len() == 0 {
            return parent;
        }
        let ghost kids = parent.children;
        let TileNode { bounds, data: _, aggregate: _, children } = parent;
        let mut rows: Vec<Vec<TileNode<D::Type, D::AggregateType>>> = Vec::new();
        for row in outer: children
            invariant
                kids == parent.children,
                outer.seq() == kids@,
                rows.len() == outer.index(),
                forall|i: int| 0 <= i < rows.len() ==> (#[trigger] rows[i]).len() == kids[i].len(),
                forall|i: int, j: int|
                    0 <= i < rows.len() && 0 <= j < kids[i].len() ==> (#[trigger] rows[i][j])@
                        == propagated::<D>(kids[i][j]@),
                forall|i: int, j: int|
                    0 <= i < rows.len() && 0 <= j < kids[i].len() && kids[i][j]@.wf() ==> (
                    #[trigger] rows[i][j])@.wf(),
        {
            let ghost at = outer.index();
            let mut new_row: Vec<TileNode<D::Type, D::AggregateType>> = Vec::new();
            for child in inner: row
                invariant
                    kids == parent.children,
                    0 <= at < kids.len(),
                    kids[at] == row,
                    inner.seq() == row@,
                    new_row.len() == inner.index(),
                    forall|j: int|
                        0 <= j < new_row.len() ==> (#[trigger] new_row[j])@ == propagated::<D>(
                            row[j]@,
                        ),
                    forall|j: int|
                        0 <= j < new_row.len() && row[j]@.wf() ==> (#[trigger] new_row[j])@.wf(),
            {
                proof {
                    broadcast use vstd::std_specs::vec::axiom_vec_index_decreases;

                    let j = inner.index() as int;
                    assert(child == row[j]);
                    assert(decreases_to!(kids => kids[at]));
                    assert(decreases_to!(row => row[j]));
                }
                new_row.push(Self::propagate(child));
            }
            rows.push(new_row);
        }
        let ghost after = models(rows);
        proof {
            let expected = propagated::<D>(parent@).children;
            assert(after.len() == expected.len());
            assert forall|i: int| 0 <= i < after.len() implies after[i] =~= expected[i] by {
                assert forall|j: int| 0 <= j < after[i].len() implies after[i][j] == expected[i][j] by {
                    assert(after[i][j] == rows[i][j]@);
                    assert(parent@.children[i][j] == kids[i][j]@);
                }
            }
            assert(after =~= expected);
        }
        let mut tiles: Vec<Vec<&Tile<D::Type>>> = Vec::new();
        let mut aggregates: Vec<D::AggregateType> = Vec::new();
        let mut i: usize = 0;
        while i < rows.len()
            invariant
                i <= rows.len(),
                after == models(rows),
                tiles.len() == i,
                forall|k: int|
                    0 <= k < i ==> (#[trigger] tile_grid(tiles)[k]) == row_tiles(
                        after[k],
                        after[k].len(),
                    ),
                aggregates@ == grid_aggregates(after, i as nat),
            decreases rows.len() - i,
        {
            let row = &rows[i];
            let mut row_of_tiles: Vec<&Tile<D::Type>> = Vec::new();
            let ghost before = aggregates@;
            let ghost held = tile_grid(tiles);
            let mut j: usize = 0;
            while j < row.len()
                invariant
                    i < rows.len(),
                    j <= row.len(),
                    row == rows[i as int],
                    after == models(rows),
                    Seq::new(row_of_tiles.len() as nat, |k: int| grid(*row_of_tiles[k]))
                        == row_tiles(after[i as int], j as nat),
                    aggregates@ == before + row_aggregates(after[i as int], j as nat),
                decreases row.len() - j,
            {
                let child = &row[j];
                proof {
                    lemma_model_children(*child);
                    assert(after[i as int][j as int] == child@);
                }
                let ghost tiles_before = Seq::new(
                    row_of_tiles.len() as nat,
                    |k: int| grid(*row_of_tiles[k]),
                );
                let ghost aggregates_before = aggregates@;
                match &child.data {
                    Some(d) => {
                        row_of_tiles.push(d);
                        assert(Seq::new(row_of_tiles.len() as nat, |k: int| grid(*row_of_tiles[k]))
                            =~= tiles_before.push(grid(*d)));
                    },
                    None => {},
                }
                match child.aggregate {
                    Some(a) => {
                        aggregates.push(a);
                        assert(aggregates@ =~= before + row_aggregates(
                            after[i as int],
                            j as nat,
                        ).push(a));
                    },
                    None => {},
                }
                j += 1;
            }
            tiles.push(row_of_tiles);
            proof {
                assert(tile_grid(tiles)[i as int] =~= row_tiles(after[i as int], after[i as int].len()));
                assert forall|k: int| 0 <= k < i implies (#[trigger] tile_grid(tiles)[k])
                    == row_tiles(after[k], after[k].len()) by {
                    assert(tile_grid(tiles)[k] =~= held[k]);
                }
            }
            i += 1;
        }
        assert(tile_grid(tiles) =~= grid_tiles(after));
        let stitched = flatten(&tiles);
        let data = D::downsample(&stitched);
        let aggregate = D::aggregate2(aggregates.as_slice());
        let r = TileNode { bounds, data: Some(data), aggregate, children: rows };
        proof {
            lemma_model_children(r);
            if parent@.wf() {
                assert forall|i: int, j: int|
                    0 <= i < r@.children.len() && 0 <= j < r@.children[i].len() implies (
                #[trigger] r@.children[i][j]).wf() by {
                    assert(r@.children[i][j] == rows[i][j]@);
                    assert(parent@.children[i][j] == kids[i][j]@);
                    assert(parent@.children[i][j].wf());
                }
            }
        }
        r
    }

    fn recursive_slice(bounds: Bounds, data: Tile<D::Type>) -> (node: TileNode<
        D::Type,
        D::AggregateType,
    >)
        requires
            valid_dataset::<D>(),
            bounds.wf(),
        ensures
            node@ == sliced::<D>(bounds, grid(data)),
            node@.wf(),
        decreases data.len() + raster_width(grid(data)),
    {
        let height: usize = data.len();
        let width: usize = if height > 0 {
            data[0].len()
        } else {
            0
        };
        if height <= D::TILE_SIZE as usize && width <= D::TILE_SIZE as usize {
            let flat = pixels(&data);
            let aggregate = D::aggregate(flat.as_slice());
            let node = TileNode { bounds, data: Some(data), aggregate, children: Vec::new() };
            proof {
                lemma_model_children(node);
                assert(node@.children =~= Seq::empty());
            }
            return node;
        }
        let n: usize = D::CHILDREN_PER_AXIS;
        let child_width: usize = width / n;
        let child_height: usize = height / n;
        let ghost raster = grid(data);
        let mut children: Vec<Vec<TileNode<D::Type, D::AggregateType>>> = Vec::new();
        let mut i: usize = 0;
        while i < n
            invariant
                i <= n,
                n == D::CHILDREN_PER_AXIS,
                valid_dataset::<D>(),
                !is_leaf_raster::<D>(raster),
                bounds.wf(),
                raster == grid(data),
                height == data.len(),
                width == raster_width(raster),
                child_width == width / n,
                child_height == height / n,
                children.len() == i,
                forall|r: int| 0 <= r < i ==> (#[trigger] children[r]).len() == n,
                forall|r: int, c: int|
                    0 <= r < i && 0 <= c < n ==> (#[trigger] children[r][c])@ == sliced_child::<D>(
                        bounds,
                        raster,
                        r,
                        c,
                    ) && children[r][c]@.wf(),
            decreases n - i,
        {
            let mut row: Vec<TileNode<D::Type, D::AggregateType>> = Vec::new();
            let mut j: usize = 0;
            while j < n
                invariant
                    i < n,
                    j <= n,
                    n == D::CHILDREN_PER_AXIS,
                    valid_dataset::<D>(),
                    !is_leaf_raster::<D>(raster),
                    bounds.wf(),
                    raster == grid(data),
                    height == data.len(),
                    width == raster_width(raster),
                    child_width == width / n,
                    child_height == height / n,
                    row.len() == j,
                    forall|c: int|
                        0 <= c < j ==> (#[trigger] row[c])@ == sliced_child::<D>(
                            bounds,
                            raster,
                            i as int,
                            c,
                        ) && row[c]@.wf(),
                decreases n - j,
            {
                proof {
                    lemma_part_len(width as nat, j as int, n as nat);
                    lemma_part_len(height as nat, i as int, n as nat);
                    lemma_child_raster_smaller::<D>(raster, i as int, j as int);
                    assert(0 <= j * child_width <= width) by (nonlinear_arith)
                        requires
                            j * child_width + part_len(width as nat, j as int, n as nat) <= width,
                            0 <= j,
                            0 <= child_width,
                    ;
                    assert(0 <= i * child_height <= height) by (nonlinear_arith)
                        requires
                            i * child_height + part_len(height as nat, i as int, n as nat)
                                <= height,
                            0 <= i,
                            0 <= child_height,
                    ;
                    assert(0 <= (n - 1) * child_width <= width) by (nonlinear_arith)
                        requires
                            (n - 1) * (width as nat / n as nat) <= width,
                            child_width == width as nat / n as nat,
                            n >= 2,
                    ;
                    assert(0 <= (n - 1) * child_height <= height) by (nonlinear_arith)
                        requires
                            (n - 1) * (height as nat / n as nat) <= height,
                            child_height == height as nat / n as nat,
                            n >= 2,
                    ;
                }
                let x_start: usize = j * child_width;
                let y_start: usize = i * child_height;
                let actual_width: usize = if j == n - 1 {
                    width - x_start
                } else {
                    child_width
                };
                let actual_height: usize = if i == n - 1 {
                    height - y_start
                } else {
                    child_height
                };
                let child_data = slice::<D>(&data, x_start, y_start, actual_width, actual_height);
                let child_bounds = bounds.child(i, j, n);
                proof {
                    assert(grid(child_data) == child_raster::<D>(raster, i as int, j as int));
                }
                let child = Self::recursive_slice(child_bounds, child_data);
                row.push(child);
                j += 1;
            }
            children.push(row);
            i += 1;
        }
        let node = TileNode { bounds, data: None, aggregate: None, children };
        proof {
            lemma_model_children(node);
            let expected = sliced::<D>(bounds, raster);
            assert(node@.children.len() == expected.children.len());
            assert forall|r: int| 0 <= r < node@.children.len() implies node@.children[r]
                =~= expected.children[r] by {
                assert forall|c: int| 0 <= c < node@.children[r].len() implies node@.children[r][c]
                    == expected.children[r][c] by {
                    assert(node@.children[r][c] == children[r][c]@);
                }
            }
            assert(node@.children =~= expected.children);
        }
        node
    }
}

} // verus!
