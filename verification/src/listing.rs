//! Which nodes a query for one level lists: every node of that level that
//! is reached through touched nodes, each exactly once.

use crate::bounds::{Bounds, Region};
use crate::common::TileView;
use crate::deserialize::tree::file_tiles_at;
use crate::levels::{
    lemma_below_has_data, lemma_file_tiles_of_tree, lemma_tiles_at_level, lemma_with_data_len,
    tiled,
};
use crate::scalar::Scalar;
use crate::serialize::layout::tree_bytes;
use crate::tree::{tiles_at, tiles_in_grid, tiles_in_row, NodeModel, TileModel};
use vstd::prelude::*;

verus! {

/// The way from a node down to one below it: at each level the row and the
/// column of the child taken.
pub type Path = Seq<(int, int)>;

/// The node that a path leads to.
pub open spec fn node_on<T, U>(node: NodeModel<T, U>, path: Path) -> Option<NodeModel<T, U>>
    decreases path.len(),
{
    if path.len() == 0 {
        Some(node)
    } else {
        let (i, j) = path[0];
        if 0 <= i < node.children.len() && 0 <= j < node.children[i].len() {
            node_on(node.children[i][j], path.drop_first())
        } else {
            None
        }
    }
}

/// The path leads to a node, and the area touches every node on it, the
/// first and the last included.
pub open spec fn touched_along<T, U>(node: NodeModel<T, U>, area: Bounds, path: Path) -> bool
    decreases path.len(),
{
    &&& area.touches(node.bounds)
    &&& path.len() > 0 ==> {
        let (i, j) = path[0];
        &&& 0 <= i < node.children.len()
        &&& 0 <= j < node.children[i].len()
        &&& touched_along(node.children[i][j], area, path.drop_first())
    }
}

/// Each of the paths with one step put before it.
pub open spec fn prefixed(step: (int, int), paths: Seq<Path>) -> Seq<Path> {
    Seq::new(paths.len(), |k: int| seq![step] + paths[k])
}

/// The paths of the nodes that a query lists `levels` levels below a node,
/// in the order in which it lists them.
pub open spec fn paths_at<T, U>(node: NodeModel<T, U>, area: Bounds, levels: nat) -> Seq<Path>
    decreases levels, 0nat, 0nat,
{
    if !area.touches(node.bounds) {
        Seq::empty()
    } else if levels == 0 {
        seq![Seq::empty()]
    } else {
        paths_in_grid(node.children, area, (levels - 1) as nat, node.children.len())
    }
}

/// The paths listed below the first `rows` rows of a grid of nodes.
pub open spec fn paths_in_grid<T, U>(
    nodes: Seq<Seq<NodeModel<T, U>>>,
    area: Bounds,
    levels: nat,
    rows: nat,
) -> Seq<Path>
    decreases levels, 2nat, rows,
{
    if rows == 0 {
        Seq::empty()
    } else {
        paths_in_grid(nodes, area, levels, (rows - 1) as nat) + paths_in_row(
            nodes[rows - 1],
            rows - 1,
            area,
            levels,
            nodes[rows - 1].len(),
        )
    }
}

/// The paths listed below the first `cols` nodes of row `i`.
pub open spec fn paths_in_row<T, U>(
    nodes: Seq<NodeModel<T, U>>,
    i: int,
    area: Bounds,
    levels: nat,
    cols: nat,
) -> Seq<Path>
    decreases levels, 1nat, cols,
{
    if cols == 0 {
        Seq::empty()
    } else {
        paths_in_row(nodes, i, area, levels, (cols - 1) as nat) + prefixed(
            (i, cols - 1),
            paths_at(nodes[cols - 1], area, levels),
        )
    }
}

/// Where in a row a listed path comes from: the column of the child and
/// the place among the paths of that child.
proof fn lemma_locate_in_row<T, U>(
    nodes: Seq<NodeModel<T, U>>,
    i: int,
    area: Bounds,
    levels: nat,
    cols: nat,
    k: int,
) -> (found: (int, int))
    requires
        cols <= nodes.len(),
        0 <= k < paths_in_row(nodes, i, area, levels, cols).len(),
    ensures
        0 <= found.0 < cols,
        0 <= found.1 < paths_at(nodes[found.0], area, levels).len(),
        k == paths_in_row(nodes, i, area, levels, found.0 as nat).len() + found.1,
        paths_in_row(nodes, i, area, levels, cols)[k] == seq![(i, found.0)] + paths_at(
            nodes[found.0],
            area,
            levels,
        )[found.1],
    decreases cols,
{
    let before = paths_in_row(nodes, i, area, levels, (cols - 1) as nat);
    if k < before.len() {
        lemma_locate_in_row(nodes, i, area, levels, (cols - 1) as nat, k)
    } else {
        (cols - 1, k - before.len())
    }
}

/// A path of a child is listed in the row of the child.
proof fn lemma_listed_in_row<T, U>(
    nodes: Seq<NodeModel<T, U>>,
    i: int,
    area: Bounds,
    levels: nat,
    cols: nat,
    c: int,
    m: int,
)
    requires
        0 <= c < cols <= nodes.len(),
        0 <= m < paths_at(nodes[c], area, levels).len(),
    ensures
        paths_in_row(nodes, i, area, levels, c as nat).len() + m < paths_in_row(
            nodes,
            i,
            area,
            levels,
            cols,
        ).len(),
        paths_in_row(nodes, i, area, levels, cols)[paths_in_row(
            nodes,
            i,
            area,
            levels,
            c as nat,
        ).len() + m] == seq![(i, c)] + paths_at(nodes[c], area, levels)[m],
    decreases cols,
{
    if c < cols - 1 {
        lemma_listed_in_row(nodes, i, area, levels, (cols - 1) as nat, c, m);
    }
}

/// Where in a grid a listed path comes from: the row and the place among
/// the paths of that row.
proof fn lemma_locate_in_grid<T, U>(
    nodes: Seq<Seq<NodeModel<T, U>>>,
    area: Bounds,
    levels: nat,
    rows: nat,
    k: int,
) -> (found: (int, int))
    requires
        rows <= nodes.len(),
        0 <= k < paths_in_grid(nodes, area, levels, rows).len(),
    ensures
        0 <= found.0 < rows,
        0 <= found.1 < paths_in_row(
            nodes[found.0],
            found.0,
            area,
            levels,
            nodes[found.0].len(),
        ).len(),
        k == paths_in_grid(nodes, area, levels, found.0 as nat).len() + found.1,
        paths_in_grid(nodes, area, levels, rows)[k] == paths_in_row(
            nodes[found.0],
            found.0,
            area,
            levels,
            nodes[found.0].len(),
        )[found.1],
    decreases rows,
{
    let before = paths_in_grid(nodes, area, levels, (rows - 1) as nat);
    if k < before.len() {
        lemma_locate_in_grid(nodes, area, levels, (rows - 1) as nat, k)
    } else {
        (rows - 1, k - before.len())
    }
}

/// A path of a row is listed in the grid of the row.
proof fn lemma_listed_in_grid<T, U>(
    nodes: Seq<Seq<NodeModel<T, U>>>,
    area: Bounds,
    levels: nat,
    rows: nat,
    i: int,
    m: int,
)
    requires
        0 <= i < rows <= nodes.len(),
        0 <= m < paths_in_row(nodes[i], i, area, levels, nodes[i].len()).len(),
    ensures
        paths_in_grid(nodes, area, levels, i as nat).len() + m < paths_in_grid(
            nodes,
            area,
            levels,
            rows,
        ).len(),
        paths_in_grid(nodes, area, levels, rows)[paths_in_grid(
            nodes,
            area,
            levels,
            i as nat,
        ).len() + m] == paths_in_row(nodes[i], i, area, levels, nodes[i].len())[m],
    decreases rows,
{
    if i < rows - 1 {
        lemma_listed_in_grid(nodes, area, levels, (rows - 1) as nat, i, m);
    }
}

/// The first step of a listed path and what is listed of the child that
/// the step leads to.
proof fn lemma_locate<T, U>(node: NodeModel<T, U>, area: Bounds, levels: nat, k: int) -> (found: (
    int,
    int,
    int,
))
    requires
        levels > 0,
        0 <= k < paths_at(node, area, levels).len(),
    ensures
        area.touches(node.bounds),
        0 <= found.0 < node.children.len(),
        0 <= found.1 < node.children[found.0].len(),
        0 <= found.2 < paths_at(
            node.children[found.0][found.1],
            area,
            (levels - 1) as nat,
        ).len(),
        paths_at(node, area, levels)[k] == seq![(found.0, found.1)] + paths_at(
            node.children[found.0][found.1],
            area,
            (levels - 1) as nat,
        )[found.2],
        k == paths_in_grid(node.children, area, (levels - 1) as nat, found.0 as nat).len()
            + paths_in_row(
            node.children[found.0],
            found.0,
            area,
            (levels - 1) as nat,
            found.1 as nat,
        ).len() + found.2,
{
    let below = (levels - 1) as nat;
    let row = lemma_locate_in_grid(node.children, area, below, node.children.len(), k);
    let col = lemma_locate_in_row(
        node.children[row.0],
        row.0,
        area,
        below,
        node.children[row.0].len(),
        row.1,
    );
    (row.0, col.0, col.1)
}

/// Every listed path has as many steps as levels were asked for, and the
/// area touches every node on it.
pub proof fn lemma_listed_is_touched<T, U>(node: NodeModel<T, U>, area: Bounds, levels: nat, k: int)
    requires
        0 <= k < paths_at(node, area, levels).len(),
    ensures
        paths_at(node, area, levels)[k].len() == levels,
        touched_along(node, area, paths_at(node, area, levels)[k]),
        node_on(node, paths_at(node, area, levels)[k]) is Some,
    decreases levels,
{
    let path = paths_at(node, area, levels)[k];
    if levels > 0 {
        let found = lemma_locate(node, area, levels, k);
        let child = node.children[found.0][found.1];
        let tail = paths_at(child, area, (levels - 1) as nat)[found.2];
        lemma_listed_is_touched(child, area, (levels - 1) as nat, found.2);
        assert(path[0] == (found.0, found.1));
        assert(path.drop_first() =~= tail);
    }
}

/// Every node of the level that is reached through touched nodes is
/// listed.
pub proof fn lemma_touched_is_listed<T, U>(
    node: NodeModel<T, U>,
    area: Bounds,
    levels: nat,
    path: Path,
) -> (k: int)
    requires
        path.len() == levels,
        touched_along(node, area, path),
    ensures
        0 <= k < paths_at(node, area, levels).len(),
        paths_at(node, area, levels)[k] == path,
    decreases levels,
{
    if levels == 0 {
        assert(path =~= Seq::empty());
        0
    } else {
        let (i, j) = path[0];
        let below = (levels - 1) as nat;
        let child = node.children[i][j];
        let m = lemma_touched_is_listed(child, area, below, path.drop_first());
        lemma_listed_in_row(node.children[i], i, area, below, node.children[i].len(), j, m);
        let in_row = paths_in_row(node.children[i], i, area, below, j as nat).len() + m;
        lemma_listed_in_grid(node.children, area, below, node.children.len(), i, in_row);
        assert(seq![(i, j)] + path.drop_first() =~= path);
        paths_in_grid(node.children, area, below, i as nat).len() + in_row
    }
}

/// No node is listed twice: listed paths at different places differ.
pub proof fn lemma_listed_once<T, U>(
    node: NodeModel<T, U>,
    area: Bounds,
    levels: nat,
    k1: int,
    k2: int,
)
    requires
        0 <= k1 < paths_at(node, area, levels).len(),
        0 <= k2 < paths_at(node, area, levels).len(),
        paths_at(node, area, levels)[k1] == paths_at(node, area, levels)[k2],
    ensures
        k1 == k2,
    decreases levels,
{
    if levels > 0 {
        let a = lemma_locate(node, area, levels, k1);
        let b = lemma_locate(node, area, levels, k2);
        let below = (levels - 1) as nat;
        let one = paths_at(node, area, levels)[k1];
        let other = paths_at(node, area, levels)[k2];
        let t1 = paths_at(node.children[a.0][a.1], area, below)[a.2];
        let t2 = paths_at(node.children[b.0][b.1], area, below)[b.2];
        assert(one[0] == (a.0, a.1));
        assert(other[0] == (b.0, b.1));
        assert(one.drop_first() =~= t1);
        assert(other.drop_first() =~= t2);
        lemma_listed_once(node.children[a.0][a.1], area, below, a.2, b.2);
    }
}

/// The tile of the node that a path leads to.
pub open spec fn tile_on<T, U>(node: NodeModel<T, U>, path: Path) -> TileModel<T, U> {
    node_on(node, path).unwrap().tile()
}

/// A query for one level returns the tiles of the listed nodes, in the
/// order in which they are listed.
pub proof fn lemma_tiles_of_listed<T, U>(
    node: NodeModel<T, U>,
    area: Bounds,
    level: nat,
    depth: nat,
)
    requires
        depth <= level,
    ensures
        tiles_at(node, area, level, depth).len() == paths_at(
            node,
            area,
            (level - depth) as nat,
        ).len(),
        forall|k: int|
            0 <= k < tiles_at(node, area, level, depth).len() ==> #[trigger] tiles_at(
                node,
                area,
                level,
                depth,
            )[k] == tile_on(node, paths_at(node, area, (level - depth) as nat)[k]),
    decreases level - depth, 0nat, 0nat,
{
    if area.touches(node.bounds) && depth < level {
        lemma_tiles_of_grid(node, area, level, depth, node.children.len());
    }
}

proof fn lemma_tiles_of_grid<T, U>(
    node: NodeModel<T, U>,
    area: Bounds,
    level: nat,
    depth: nat,
    rows: nat,
)
    requires
        depth < level,
        rows <= node.children.len(),
    ensures
        tiles_in_grid(node.children, area, level, depth + 1, rows).len() == paths_in_grid(
            node.children,
            area,
            (level - depth - 1) as nat,
            rows,
        ).len(),
        forall|k: int|
            0 <= k < tiles_in_grid(node.children, area, level, depth + 1, rows).len()
                ==> #[trigger] tiles_in_grid(node.children, area, level, depth + 1, rows)[k]
                == tile_on(
                node,
                paths_in_grid(node.children, area, (level - depth - 1) as nat, rows)[k],
            ),
    decreases level - depth - 1, 2nat, rows,
{
    if rows > 0 {
        lemma_tiles_of_grid(node, area, level, depth, (rows - 1) as nat);
        lemma_tiles_of_row(node, rows - 1, area, level, depth, node.children[rows - 1].len());
    }
}

proof fn lemma_tiles_of_row<T, U>(
    node: NodeModel<T, U>,
    i: int,
    area: Bounds,
    level: nat,
    depth: nat,
    cols: nat,
)
    requires
        depth < level,
        0 <= i < node.children.len(),
        cols <= node.children[i].len(),
    ensures
        tiles_in_row(node.children[i], area, level, depth + 1, cols).len() == paths_in_row(
            node.children[i],
            i,
            area,
            (level - depth - 1) as nat,
            cols,
        ).len(),
        forall|k: int|
            0 <= k < tiles_in_row(node.children[i], area, level, depth + 1, cols).len()
                ==> #[trigger] tiles_in_row(node.children[i], area, level, depth + 1, cols)[k]
                == tile_on(
                node,
                paths_in_row(node.children[i], i, area, (level - depth - 1) as nat, cols)[k],
            ),
    decreases level - depth - 1, 1nat, cols,
{
    if cols > 0 {
        let below = (level - depth - 1) as nat;
        let child = node.children[i][cols - 1];
        lemma_tiles_of_row(node, i, area, level, depth, (cols - 1) as nat);
        lemma_tiles_of_listed(child, area, level, depth + 1);
        let before = tiles_in_row(node.children[i], area, level, depth + 1, (cols - 1) as nat);
        let tiles = tiles_in_row(node.children[i], area, level, depth + 1, cols);
        let paths = paths_in_row(node.children[i], i, area, below, cols);
        assert forall|k: int| 0 <= k < tiles.len() implies #[trigger] tiles[k] == tile_on(
            node,
            paths[k],
        ) by {
            if k >= before.len() {
                let m = k - before.len();
                let tail = paths_at(child, area, below)[m];
                let path = seq![(i, cols - 1)] + tail;
                assert(paths[k] == path);
                assert(path[0] == (i, cols - 1));
                assert(path.drop_first() =~= tail);
                assert(tiles[k] == tiles_at(child, area, level, depth + 1)[m]);
            }
        }
    }
}

/// A query for one level of the file of a tree whose nodes all have a tile
/// returns, for every node of that level that is reached through touched
/// nodes, the tile and the bounds of the node, each node once, and nothing
/// else.
pub proof fn lemma_file_listing<T: Scalar, U: Scalar>(
    root: NodeModel<T, U>,
    area: Bounds,
    level: nat,
)
    requires
        root.wf(),
        tree_bytes(0, root).len() <= usize::MAX,
        tiled(root),
    ensures
        file_tiles_at::<T, U>(tree_bytes(0, root), 0, area, level, 0).len() == paths_at(
            root,
            area,
            level,
        ).len(),
        forall|k: int|
            0 <= k < paths_at(root, area, level).len() ==> #[trigger] file_tiles_at::<T, U>(
                tree_bytes(0, root),
                0,
                area,
                level,
                0,
            )[k] == (TileView {
                data: tile_on(root, paths_at(root, area, level)[k]).data.unwrap(),
                bounds: tile_on(root, paths_at(root, area, level)[k]).bounds,
            }),
{
    let tiles = tiles_at(root, area, level, 0);
    lemma_file_tiles_of_tree(root, area, level);
    lemma_tiles_of_listed(root, area, level, 0);
    assert forall|k: int| 0 <= k < tiles.len() implies (#[trigger] tiles[k]).data is Some by {
        lemma_tiles_at_level(root, area, level, 0, k);
        lemma_below_has_data(root, tiles[k], level);
    }
    lemma_with_data_len(tiles);
}

} // verus!
