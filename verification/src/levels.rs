//! How the tiles of one level relate to those of the next.

use crate::bounds::{cut, lemma_cell, lemma_cut_bounds, Bounds, Region};
use crate::common::TileView;
use crate::deserialize::tree::{
    file_tiles_at, file_tiles_in_grid, file_tiles_in_row, header_at, payload_at,
};
use crate::roundtrip::{lemma_round_trip, reads_as};
use crate::scalar::Scalar;
use crate::serialize::layout::tree_bytes;
use crate::tree::{tiles_at, tiles_in_grid, tiles_in_row, NodeModel, TileModel};
use vstd::prelude::*;

verus! {

/// For `levels` levels from `node` down, every node that `area` touches has
/// a child that `area` touches.
pub open spec fn spreads<T, U>(node: NodeModel<T, U>, area: Bounds, levels: nat) -> bool
    decreases levels,
{
    if levels == 0 {
        true
    } else {
        &&& area.touches(node.bounds) ==> exists|i: int, j: int|
            0 <= i < node.children.len() && 0 <= j < node.children[i].len() && area.touches(
                (#[trigger] node.children[i][j]).bounds,
            )
        &&& forall|i: int, j: int|
            0 <= i < node.children.len() && 0 <= j < node.children[i].len() ==> spreads(
                #[trigger] node.children[i][j],
                area,
                (levels - 1) as nat,
            )
    }
}

/// The tile belongs to a node exactly `levels` levels below `node`.
pub open spec fn lies_below<T, U>(node: NodeModel<T, U>, tile: TileModel<T, U>, levels: nat) -> bool
    decreases levels,
{
    if levels == 0 {
        tile == node.tile()
    } else {
        exists|i: int, j: int|
            0 <= i < node.children.len() && 0 <= j < node.children[i].len() && lies_below(
                #[trigger] node.children[i][j],
                tile,
                (levels - 1) as nat,
            )
    }
}

/// Every tile that a query for one level returns belongs to a node at
/// exactly that level.
pub proof fn lemma_tiles_at_level<T, U>(
    node: NodeModel<T, U>,
    area: Bounds,
    level: nat,
    depth: nat,
    k: int,
)
    requires
        0 <= k < tiles_at(node, area, level, depth).len(),
    ensures
        depth <= level,
        lies_below(node, tiles_at(node, area, level, depth)[k], (level - depth) as nat),
    decreases level - depth, 0nat, 0nat,
{
    if depth < level {
        let found = lemma_grid_tiles_at_level(
            node.children,
            area,
            level,
            depth + 1,
            node.children.len(),
            k,
        );
        assert(lies_below(
            node.children[found.0][found.1],
            tiles_at(node, area, level, depth)[k],
            (level - depth - 1) as nat,
        ));
    }
}

proof fn lemma_grid_tiles_at_level<T, U>(
    nodes: Seq<Seq<NodeModel<T, U>>>,
    area: Bounds,
    level: nat,
    depth: nat,
    rows: nat,
    k: int,
) -> (found: (int, int))
    requires
        depth <= level,
        rows <= nodes.len(),
        0 <= k < tiles_in_grid(nodes, area, level, depth, rows).len(),
    ensures
        0 <= found.0 < nodes.len(),
        0 <= found.1 < nodes[found.0].len(),
        lies_below(
            nodes[found.0][found.1],
            tiles_in_grid(nodes, area, level, depth, rows)[k],
            (level - depth) as nat,
        ),
    decreases level - depth, 2nat, rows,
{
    let before = tiles_in_grid(nodes, area, level, depth, (rows - 1) as nat);
    if k < before.len() {
        lemma_grid_tiles_at_level(nodes, area, level, depth, (rows - 1) as nat, k)
    } else {
        let col = lemma_row_tiles_at_level(
            nodes[rows - 1],
            area,
            level,
            depth,
            nodes[rows - 1].len(),
            k - before.len(),
        );
        (rows - 1, col)
    }
}

proof fn lemma_row_tiles_at_level<T, U>(
    nodes: Seq<NodeModel<T, U>>,
    area: Bounds,
    level: nat,
    depth: nat,
    cols: nat,
    k: int,
) -> (found: int)
    requires
        depth <= level,
        cols <= nodes.len(),
        0 <= k < tiles_in_row(nodes, area, level, depth, cols).len(),
    ensures
        0 <= found < nodes.len(),
        lies_below(
            nodes[found],
            tiles_in_row(nodes, area, level, depth, cols)[k],
            (level - depth) as nat,
        ),
    decreases level - depth, 1nat, cols,
{
    let before = tiles_in_row(nodes, area, level, depth, (cols - 1) as nat);
    if k < before.len() {
        lemma_row_tiles_at_level(nodes, area, level, depth, (cols - 1) as nat, k)
    } else {
        lemma_tiles_at_level(nodes[cols - 1], area, level, depth, k - before.len());
        cols - 1
    }
}

/// Every tile that a query for one level returns belongs to a node whose
/// bounds the area touches.
pub proof fn lemma_tiles_touch<T, U>(
    node: NodeModel<T, U>,
    area: Bounds,
    level: nat,
    depth: nat,
    k: int,
)
    requires
        0 <= k < tiles_at(node, area, level, depth).len(),
    ensures
        area.touches(tiles_at(node, area, level, depth)[k].bounds),
        depth <= level,
    decreases level - depth, 0nat, 0nat,
{
    if depth < level {
        lemma_grid_tiles_touch(node.children, area, level, depth + 1, node.children.len(), k);
    }
}

proof fn lemma_grid_tiles_touch<T, U>(
    nodes: Seq<Seq<NodeModel<T, U>>>,
    area: Bounds,
    level: nat,
    depth: nat,
    rows: nat,
    k: int,
)
    requires
        depth <= level,
        0 <= k < tiles_in_grid(nodes, area, level, depth, rows).len(),
    ensures
        area.touches(tiles_in_grid(nodes, area, level, depth, rows)[k].bounds),
    decreases level - depth, 2nat, rows,
{
    if rows > 0 {
        let before = tiles_in_grid(nodes, area, level, depth, (rows - 1) as nat);
        if k < before.len() {
            lemma_grid_tiles_touch(nodes, area, level, depth, (rows - 1) as nat, k);
        } else {
            lemma_row_tiles_touch(
                nodes[rows - 1],
                area,
                level,
                depth,
                nodes[rows - 1].len(),
                k - before.len(),
            );
        }
    }
}

proof fn lemma_row_tiles_touch<T, U>(
    nodes: Seq<NodeModel<T, U>>,
    area: Bounds,
    level: nat,
    depth: nat,
    cols: nat,
    k: int,
)
    requires
        depth <= level,
        0 <= k < tiles_in_row(nodes, area, level, depth, cols).len(),
    ensures
        area.touches(tiles_in_row(nodes, area, level, depth, cols)[k].bounds),
    decreases level - depth, 1nat, cols,
{
    if cols > 0 {
        let before = tiles_in_row(nodes, area, level, depth, (cols - 1) as nat);
        if k < before.len() {
            lemma_row_tiles_touch(nodes, area, level, depth, (cols - 1) as nat, k);
        } else {
            lemma_tiles_touch(nodes[cols - 1], area, level, depth, k - before.len());
        }
    }
}

/// Where every touched node down to `level` has a
/// touched child, a query for the next level returns at least as many tiles
/// as a query for `level`.
pub proof fn lemma_tiles_grow<T, U>(node: NodeModel<T, U>, area: Bounds, level: nat, depth: nat)
    requires
        depth <= level,
        spreads(node, area, (level + 1 - depth) as nat),
    ensures
        tiles_at(node, area, level, depth).len() <= tiles_at(
            node,
            area,
            level + 1,
            depth,
        ).len(),
    decreases level - depth, 0nat, 0nat,
{
    if area.touches(node.bounds) {
        if depth == level {
            let (i, j) = choose|i: int, j: int|
                0 <= i < node.children.len() && 0 <= j < node.children[i].len() && area.touches(
                    (#[trigger] node.children[i][j]).bounds,
                );
            lemma_grid_holds_touched(node.children, area, level + 1, node.children.len(), i, j);
        } else {
            lemma_grid_tiles_grow(node.children, area, level, depth + 1, node.children.len());
        }
    }
}

proof fn lemma_grid_tiles_grow<T, U>(
    nodes: Seq<Seq<NodeModel<T, U>>>,
    area: Bounds,
    level: nat,
    depth: nat,
    rows: nat,
)
    requires
        depth <= level,
        rows <= nodes.len(),
        forall|i: int, j: int|
            0 <= i < nodes.len() && 0 <= j < nodes[i].len() ==> spreads(
                #[trigger] nodes[i][j],
                area,
                (level + 1 - depth) as nat,
            ),
    ensures
        tiles_in_grid(nodes, area, level, depth, rows).len() <= tiles_in_grid(
            nodes,
            area,
            level + 1,
            depth,
            rows,
        ).len(),
    decreases level - depth, 2nat, rows,
{
    if rows > 0 {
        lemma_grid_tiles_grow(nodes, area, level, depth, (rows - 1) as nat);
        lemma_row_tiles_grow(nodes, rows - 1, area, level, depth, nodes[rows - 1].len());
    }
}

proof fn lemma_row_tiles_grow<T, U>(
    nodes: Seq<Seq<NodeModel<T, U>>>,
    row: int,
    area: Bounds,
    level: nat,
    depth: nat,
    cols: nat,
)
    requires
        depth <= level,
        0 <= row < nodes.len(),
        cols <= nodes[row].len(),
        forall|i: int, j: int|
            0 <= i < nodes.len() && 0 <= j < nodes[i].len() ==> spreads(
                #[trigger] nodes[i][j],
                area,
                (level + 1 - depth) as nat,
            ),
    ensures
        tiles_in_row(nodes[row], area, level, depth, cols).len() <= tiles_in_row(
            nodes[row],
            area,
            level + 1,
            depth,
            cols,
        ).len(),
    decreases level - depth, 1nat, cols,
{
    if cols > 0 {
        lemma_row_tiles_grow(nodes, row, area, level, depth, (cols - 1) as nat);
        assert(spreads(nodes[row][cols - 1], area, (level + 1 - depth) as nat));
        lemma_tiles_grow(nodes[row][cols - 1], area, level, depth);
    }
}

/// A grid of nodes at the level asked for gives a tile for each node that
/// the area touches.
proof fn lemma_grid_holds_touched<T, U>(
    nodes: Seq<Seq<NodeModel<T, U>>>,
    area: Bounds,
    level: nat,
    rows: nat,
    i: int,
    j: int,
)
    requires
        0 <= i < rows <= nodes.len(),
        0 <= j < nodes[i].len(),
        area.touches(nodes[i][j].bounds),
    ensures
        tiles_in_grid(nodes, area, level, level, rows).len() >= 1,
    decreases rows,
{
    if i == rows - 1 {
        lemma_row_holds_touched(nodes[i], area, level, nodes[i].len(), j);
    } else {
        lemma_grid_holds_touched(nodes, area, level, (rows - 1) as nat, i, j);
    }
}

proof fn lemma_row_holds_touched<T, U>(
    nodes: Seq<NodeModel<T, U>>,
    area: Bounds,
    level: nat,
    cols: nat,
    j: int,
)
    requires
        0 <= j < cols <= nodes.len(),
        area.touches(nodes[j].bounds),
    ensures
        tiles_in_row(nodes, area, level, level, cols).len() >= 1,
    decreases cols,
{
    if j == cols - 1 {
        assert(tiles_at(nodes[j], area, level, level) =~= seq![nodes[j].tile()]);
    } else {
        lemma_row_holds_touched(nodes, area, level, (cols - 1) as nat, j);
    }
}

/// For `levels` levels from `node` down, every node has `n` by `n` children
/// whose bounds are the cells of its own.
pub open spec fn gridded<T, U>(node: NodeModel<T, U>, n: nat, levels: nat) -> bool
    decreases levels,
{
    if levels == 0 {
        true
    } else {
        &&& n >= 1
        &&& node.bounds.wf()
        &&& node.children.len() == n
        &&& forall|i: int| 0 <= i < n ==> (#[trigger] node.children[i]).len() == n
        &&& forall|i: int, j: int|
            0 <= i < n && 0 <= j < n ==> {
                &&& (#[trigger] node.children[i][j]).bounds == node.bounds.cell(i, j, n as int)
                &&& gridded(node.children[i][j], n, (levels - 1) as nat)
            }
    }
}

/// A point of a span lies in one of the parts that the span is cut into.
proof fn lemma_find_part(lo: int, hi: int, n: int, p: int, from: int) -> (k: int)
    requires
        lo <= p <= hi,
        0 <= from < n,
        cut(lo, hi, from, n) <= p,
    ensures
        0 <= k < n,
        cut(lo, hi, k, n) <= p <= cut(lo, hi, k + 1, n),
    decreases n - from,
{
    lemma_cut_bounds(lo, hi, from + 1, n);
    if p <= cut(lo, hi, from + 1, n) {
        from
    } else {
        lemma_find_part(lo, hi, n, p, from + 1)
    }
}

/// An area that touches a rectangle touches one of its cells.
pub proof fn lemma_touches_cell(bounds: Bounds, area: Bounds, n: int) -> (cell: (int, int))
    requires
        n >= 1,
        area.touches(bounds),
    ensures
        0 <= cell.0 < n,
        0 <= cell.1 < n,
        area.touches(bounds.cell(cell.0, cell.1, n)),
{
    let p = if area.min_x > bounds.min_x {
        area.min_x as int
    } else {
        bounds.min_x as int
    };
    let q = if area.min_y > bounds.min_y {
        area.min_y as int
    } else {
        bounds.min_y as int
    };
    let mirrored = bounds.max_y + bounds.min_y - q;
    lemma_cut_bounds(bounds.min_x as int, bounds.max_x as int, 0, n);
    lemma_cut_bounds(bounds.min_y as int, bounds.max_y as int, 0, n);
    let col = lemma_find_part(bounds.min_x as int, bounds.max_x as int, n, p, 0);
    let row = lemma_find_part(bounds.min_y as int, bounds.max_y as int, n, mirrored, 0);
    lemma_cell(bounds, row, col, n);
    lemma_cut_bounds(bounds.min_x as int, bounds.max_x as int, col, n);
    lemma_cut_bounds(bounds.min_x as int, bounds.max_x as int, col + 1, n);
    lemma_cut_bounds(bounds.min_y as int, bounds.max_y as int, row, n);
    lemma_cut_bounds(bounds.min_y as int, bounds.max_y as int, row + 1, n);
    (row, col)
}

/// In a tree that is a full grid for some levels, every touched node of
/// those levels has a touched child.
pub proof fn lemma_gridded_spreads<T, U>(node: NodeModel<T, U>, n: nat, area: Bounds, levels: nat)
    requires
        gridded(node, n, levels),
    ensures
        spreads(node, area, levels),
    decreases levels,
{
    if levels > 0 {
        if area.touches(node.bounds) {
            let cell = lemma_touches_cell(node.bounds, area, n as int);
            assert(node.children[cell.0][cell.1].bounds == node.bounds.cell(
                cell.0,
                cell.1,
                n as int,
            ));
        }
        assert forall|i: int, j: int|
            0 <= i < node.children.len() && 0 <= j < node.children[i].len() implies spreads(
            #[trigger] node.children[i][j],
            area,
            (levels - 1) as nat,
        ) by {
            lemma_gridded_spreads(node.children[i][j], n, area, (levels - 1) as nat);
        }
    }
}

/// In a tree that is a full grid down to the level
/// below `level`, a query for that lower level returns at least as many
/// tiles as a query for `level`.
pub proof fn lemma_depth_monotone<T, U>(root: NodeModel<T, U>, n: nat, area: Bounds, level: nat)
    requires
        gridded(root, n, level + 1),
    ensures
        tiles_at(root, area, level, 0).len() <= tiles_at(root, area, level + 1, 0).len(),
{
    lemma_gridded_spreads(root, n, area, level + 1);
    lemma_tiles_grow(root, area, level, 0);
}

/// The tiles of a run of nodes, nodes without a tile left out.
pub open spec fn with_data<T, U>(tiles: Seq<TileModel<T, U>>) -> Seq<TileView<T>>
    decreases tiles.len(),
{
    if tiles.len() == 0 {
        Seq::empty()
    } else {
        match tiles.last().data {
            Some(data) => with_data(tiles.drop_last()).push(
                TileView { data, bounds: tiles.last().bounds },
            ),
            None => with_data(tiles.drop_last()),
        }
    }
}

proof fn lemma_with_data_concat<T, U>(a: Seq<TileModel<T, U>>, b: Seq<TileModel<T, U>>)
    ensures
        with_data(a + b) == with_data(a) + with_data(b),
    decreases b.len(),
{
    if b.len() == 0 {
        assert(a + b =~= a);
        assert(with_data(a) + with_data(b) =~= with_data(a));
    } else {
        assert((a + b).drop_last() =~= a + b.drop_last());
        assert((a + b).last() == b.last());
        lemma_with_data_concat(a, b.drop_last());
        match b.last().data {
            Some(data) => {
                let tile = TileView { data, bounds: b.last().bounds };
                assert((with_data(a) + with_data(b.drop_last())).push(tile) =~= with_data(a)
                    + with_data(b.drop_last()).push(tile));
            },
            None => {},
        }
    }
}

/// A query for one level of a file returns the tiles that the same query
/// returns of the tree that the file holds, those without data left out.
pub proof fn lemma_file_tiles<T: Scalar, U: Scalar>(
    bytes: Seq<u8>,
    pointer: nat,
    node: NodeModel<T, U>,
    area: Bounds,
    level: nat,
    depth: nat,
)
    requires
        reads_as(bytes, pointer, node),
    ensures
        file_tiles_at::<T, U>(bytes, pointer, area, level, depth) == with_data(
            tiles_at(node, area, level, depth),
        ),
    decreases level - depth, 0nat, 0nat,
{
    let parsed = header_at(bytes, pointer).unwrap();
    let header = parsed.0;
    let from_file = file_tiles_at::<T, U>(bytes, pointer, area, level, depth);
    let from_tree = tiles_at(node, area, level, depth);
    assert(header.bounds == node.bounds);
    assert(header.children.len() == node.children.len());
    if !area.touches(node.bounds) || depth > level {
        assert(from_tree =~= Seq::empty());
        assert(from_file =~= Seq::empty());
        assert(with_data(from_tree) =~= Seq::empty());
    } else if depth == level {
        let only = seq![node.tile()];
        assert(from_tree == only);
        assert(only.drop_last() =~= Seq::empty());
        assert(only.last() == node.tile());
        let data = payload_at::<T, U>(bytes, parsed.1).unwrap().0;
        assert(data.tile == node.data);
        assert(with_data(only.drop_last()) =~= Seq::empty());
        match node.data {
            Some(tile) => {
                let view = TileView { data: tile, bounds: node.bounds };
                assert(Seq::<TileView<T>>::empty().push(view) =~= seq![view]);
                assert(from_file == seq![view]);
                assert(with_data(only) == with_data(only.drop_last()).push(view));
            },
            None => {
                assert(from_file =~= Seq::empty());
                assert(with_data(only) == with_data(only.drop_last()));
            },
        }
    } else {
        lemma_file_tiles_grid::<T, U>(
            bytes,
            header.children,
            node,
            area,
            level,
            depth + 1,
            node.children.len(),
        );
        assert(from_tree == tiles_in_grid(
            node.children,
            area,
            level,
            depth + 1,
            node.children.len(),
        ));
        assert(from_file == file_tiles_in_grid::<T, U>(
            bytes,
            header.children,
            area,
            level,
            depth + 1,
            header.children.len(),
        ));
    }
}

proof fn lemma_file_tiles_grid<T: Scalar, U: Scalar>(
    bytes: Seq<u8>,
    pointers: Seq<Seq<nat>>,
    node: NodeModel<T, U>,
    area: Bounds,
    level: nat,
    depth: nat,
    rows: nat,
)
    requires
        depth <= level,
        rows <= node.children.len(),
        pointers.len() == node.children.len(),
        forall|i: int| 0 <= i < pointers.len() ==> (#[trigger] pointers[i]).len()
            == node.children[i].len(),
        forall|i: int, j: int|
            0 <= i < node.children.len() && 0 <= j < node.children[i].len() ==> reads_as(
                bytes,
                pointers[i][j],
                #[trigger] node.children[i][j],
            ),
    ensures
        file_tiles_in_grid::<T, U>(bytes, pointers, area, level, depth, rows) == with_data(
            tiles_in_grid(node.children, area, level, depth, rows),
        ),
    decreases level - depth, 2nat, rows,
{
    if rows > 0 {
        lemma_file_tiles_grid::<T, U>(bytes, pointers, node, area, level, depth, (rows - 1) as nat);
        lemma_file_tiles_row::<T, U>(
            bytes,
            pointers,
            node,
            rows - 1,
            area,
            level,
            depth,
            node.children[rows - 1].len(),
        );
        lemma_with_data_concat(
            tiles_in_grid(node.children, area, level, depth, (rows - 1) as nat),
            tiles_in_row(
                node.children[rows - 1],
                area,
                level,
                depth,
                node.children[rows - 1].len(),
            ),
        );
    }
}

proof fn lemma_file_tiles_row<T: Scalar, U: Scalar>(
    bytes: Seq<u8>,
    pointers: Seq<Seq<nat>>,
    node: NodeModel<T, U>,
    row: int,
    area: Bounds,
    level: nat,
    depth: nat,
    cols: nat,
)
    requires
        depth <= level,
        0 <= row < node.children.len(),
        cols <= node.children[row].len(),
        pointers.len() == node.children.len(),
        forall|i: int| 0 <= i < pointers.len() ==> (#[trigger] pointers[i]).len()
            == node.children[i].len(),
        forall|i: int, j: int|
            0 <= i < node.children.len() && 0 <= j < node.children[i].len() ==> reads_as(
                bytes,
                pointers[i][j],
                #[trigger] node.children[i][j],
            ),
    ensures
        file_tiles_in_row::<T, U>(bytes, pointers[row], area, level, depth, cols) == with_data(
            tiles_in_row(node.children[row], area, level, depth, cols),
        ),
    decreases level - depth, 1nat, cols,
{
    if cols > 0 {
        lemma_file_tiles_row::<T, U>(
            bytes,
            pointers,
            node,
            row,
            area,
            level,
            depth,
            (cols - 1) as nat,
        );
        assert(reads_as(bytes, pointers[row][cols - 1], node.children[row][cols - 1]));
        lemma_file_tiles::<T, U>(
            bytes,
            pointers[row][cols - 1],
            node.children[row][cols - 1],
            area,
            level,
            depth,
        );
        lemma_with_data_concat(
            tiles_in_row(node.children[row], area, level, depth, (cols - 1) as nat),
            tiles_at(node.children[row][cols - 1], area, level, depth),
        );
    }
}

/// A query for one level of the file of a tree returns the tiles that the
/// same query returns of the tree, those without data left out.
pub proof fn lemma_file_tiles_of_tree<T: Scalar, U: Scalar>(
    root: NodeModel<T, U>,
    area: Bounds,
    level: nat,
)
    requires
        root.wf(),
        tree_bytes(0, root).len() <= usize::MAX,
    ensures
        file_tiles_at::<T, U>(tree_bytes(0, root), 0, area, level, 0) == with_data(
            tiles_at(root, area, level, 0),
        ),
{
    lemma_round_trip(root);
    lemma_file_tiles::<T, U>(tree_bytes(0, root), 0, root, area, level, 0);
}

/// Every node of the tree has a tile.
pub open spec fn tiled<T, U>(node: NodeModel<T, U>) -> bool
    decreases node,
{
    &&& node.data is Some
    &&& forall|i: int, j: int|
        0 <= i < node.children.len() && 0 <= j < node.children[i].len() ==> tiled(
            #[trigger] node.children[i][j],
        )
}

/// What belongs to a node of a tree whose nodes all have a tile has one.
pub proof fn lemma_below_has_data<T, U>(node: NodeModel<T, U>, tile: TileModel<T, U>, levels: nat)
    requires
        tiled(node),
        lies_below(node, tile, levels),
    ensures
        tile.data is Some,
    decreases levels,
{
    if levels > 0 {
        let (i, j) = choose|i: int, j: int|
            0 <= i < node.children.len() && 0 <= j < node.children[i].len() && lies_below(
                #[trigger] node.children[i][j],
                tile,
                (levels - 1) as nat,
            );
        assert(tiled(node.children[i][j]));
        lemma_below_has_data(node.children[i][j], tile, (levels - 1) as nat);
    }
}

/// A run of tiles that all have data loses none and keeps its order.
pub proof fn lemma_with_data_len<T, U>(tiles: Seq<TileModel<T, U>>)
    requires
        forall|k: int| 0 <= k < tiles.len() ==> (#[trigger] tiles[k]).data is Some,
    ensures
        with_data(tiles).len() == tiles.len(),
        forall|k: int|
            0 <= k < tiles.len() ==> #[trigger] with_data(tiles)[k] == (TileView {
                data: tiles[k].data.unwrap(),
                bounds: tiles[k].bounds,
            }),
    decreases tiles.len(),
{
    if tiles.len() > 0 {
        assert forall|k: int| 0 <= k < tiles.drop_last().len() implies (
        #[trigger] tiles.drop_last()[k]).data is Some by {
            assert(tiles.drop_last()[k] == tiles[k]);
        }
        lemma_with_data_len(tiles.drop_last());
        assert(tiles.last() == tiles[tiles.len() - 1]);
    }
}

/// In the file of a tree that is a full grid down to the level below
/// `level`, and whose nodes all have a tile, a query for that lower level
/// returns at least as many tiles as a query for `level`.
pub proof fn lemma_file_depth_monotone<T: Scalar, U: Scalar>(
    root: NodeModel<T, U>,
    n: nat,
    area: Bounds,
    level: nat,
)
    requires
        root.wf(),
        tree_bytes(0, root).len() <= usize::MAX,
        gridded(root, n, level + 1),
        tiled(root),
    ensures
        file_tiles_at::<T, U>(tree_bytes(0, root), 0, area, level, 0).len() <= file_tiles_at::<
            T,
            U,
        >(tree_bytes(0, root), 0, area, level + 1, 0).len(),
{
    let here = tiles_at(root, area, level, 0);
    let below = tiles_at(root, area, level + 1, 0);
    lemma_file_tiles_of_tree(root, area, level);
    lemma_file_tiles_of_tree(root, area, level + 1);
    lemma_depth_monotone(root, n, area, level);
    assert forall|k: int| 0 <= k < here.len() implies (#[trigger] here[k]).data is Some by {
        lemma_tiles_at_level(root, area, level, 0, k);
        lemma_below_has_data(root, here[k], level);
    }
    assert forall|k: int| 0 <= k < below.len() implies (#[trigger] below[k]).data is Some by {
        lemma_tiles_at_level(root, area, level + 1, 0, k);
        lemma_below_has_data(root, below[k], level + 1);
    }
    lemma_with_data_len(here);
    lemma_with_data_len(below);
}

} // verus!
