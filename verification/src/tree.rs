//! The pyramid as it is built in memory: every node owns its tile, its
//! aggregate and its children.

use crate::bounds::{Bounds, Region};
use crate::dataset::{grid, Dataset, Tile};
use crate::serialize::layout::tree_bytes;
use crate::serialize::{AlignedWriter, Serialize, SerializeError};
use vstd::prelude::*;

verus! {

/// A node of the pyramid during construction.
pub struct TileNode<T, U> {
    pub bounds: Bounds,
    pub data: Option<Tile<T>>,
    pub aggregate: Option<U>,
    pub children: Vec<Vec<TileNode<T, U>>>,
}

/// What a node holds, as a mathematical value.
pub ghost struct NodeModel<T, U> {
    pub bounds: Bounds,
    pub data: Option<Seq<Seq<T>>>,
    pub aggregate: Option<U>,
    pub children: Seq<Seq<NodeModel<T, U>>>,
}

/// What a query returns of a node: everything but its children.
pub ghost struct TileModel<T, U> {
    pub bounds: Bounds,
    pub data: Option<Seq<Seq<T>>>,
    pub aggregate: Option<U>,
}

impl<T, U> NodeModel<T, U> {
    /// The node without its children.
    pub open spec fn tile(self) -> TileModel<T, U> {
        TileModel { bounds: self.bounds, data: self.data, aggregate: self.aggregate }
    }

    /// The bounds of the node and of every node below it are well formed.
    pub open spec fn wf(self) -> bool
        decreases self,
    {
        &&& self.bounds.wf()
        &&& forall|i: int, j: int|
            0 <= i < self.children.len() && 0 <= j < self.children[i].len()
                ==> (#[trigger] self.children[i][j]).wf()
    }
}

impl<T, U> TileNode<T, U> {
    pub open spec fn model(self) -> NodeModel<T, U>
        decreases self,
    {
        NodeModel {
            bounds: self.bounds,
            data: match self.data {
                Some(d) => Some(grid(d)),
                None => None,
            },
            aggregate: self.aggregate,
            children: Seq::new(
                self.children.len() as nat,
                |i: int|
                    Seq::new(
                        if 0 <= i < self.children.len() {
                            self.children[i].len() as nat
                        } else {
                            0
                        },
                        |j: int|
                            if 0 <= i < self.children.len() && 0 <= j < self.children[i].len() {
                                self.children[i][j].model()
                            } else {
                                arbitrary()
                            },
                    ),
            ),
        }
    }
}

impl<T, U> View for TileNode<T, U> {
    type V = NodeModel<T, U>;

    open spec fn view(&self) -> NodeModel<T, U> {
        self.model()
    }
}

/// The models of a grid of nodes.
pub open spec fn models<T, U>(nodes: Vec<Vec<TileNode<T, U>>>) -> Seq<Seq<NodeModel<T, U>>> {
    Seq::new(nodes.len() as nat, |i: int| Seq::new(nodes[i].len() as nat, |j: int| nodes[i][j]@))
}

pub proof fn lemma_model_children<T, U>(node: TileNode<T, U>)
    ensures
        node@.children == models(node.children),
        node@.bounds == node.bounds,
        node@.aggregate == node.aggregate,
        node@.data == match node.data {
            Some(d) => Some(grid(d)),
            None => None,
        },
{
    assert(node@.children.len() == models(node.children).len());
    assert forall|i: int| 0 <= i < node@.children.len() implies node@.children[i] == models(
        node.children,
    )[i] by {
        assert(node@.children[i] =~= models(node.children)[i]);
    }
    assert(node@.children =~= models(node.children));
}

/// The pyramid of one data source.
pub struct GeoTree<D> where D: Dataset {
    pub root: TileNode<D::Type, D::AggregateType>,
}

/// A node as a query hands it out: references to its bounds, its tile and
/// its aggregate.
pub struct TileRef<'a, T, U> {
    pub bounds: &'a Bounds,
    pub data: Option<&'a Tile<T>>,
    pub aggregate: Option<&'a U>,
}

impl<'a, T, U> View for TileRef<'a, T, U> {
    type V = TileModel<T, U>;

    open spec fn view(&self) -> TileModel<T, U> {
        TileModel {
            bounds: *self.bounds,
            data: match self.data {
                Some(d) => Some(grid(*d)),
                None => None,
            },
            aggregate: match self.aggregate {
                Some(a) => Some(*a),
                None => None,
            },
        }
    }
}

impl<'a, T, U> TileRef<'a, T, U> {
    pub fn from(tile: &'a TileNode<T, U>) -> (r: Self)
        ensures
            r@ == tile@.tile(),
    {
        proof {
            lemma_model_children(*tile);
        }
        TileRef {
            bounds: &tile.bounds,
            data: tile.data.as_ref(),
            aggregate: tile.aggregate.as_ref(),
        }
    }
}

/// The nodes at depth `level` below `node`, itself at depth `depth`, that are
/// reached through nodes whose bounds `area` touches, in row-major order.
pub open spec fn tiles_at<T, U>(node: NodeModel<T, U>, area: Bounds, level: nat, depth: nat) -> Seq<
    TileModel<T, U>,
>
    decreases level - depth, 0nat, 0nat,
{
    if !area.touches(node.bounds) || depth > level {
        Seq::empty()
    } else if depth == level {
        seq![node.tile()]
    } else {
        tiles_in_grid(node.children, area, level, depth + 1, node.children.len())
    }
}

/// The tiles found below the first `rows` rows of a grid of nodes.
pub open spec fn tiles_in_grid<T, U>(
    nodes: Seq<Seq<NodeModel<T, U>>>,
    area: Bounds,
    level: nat,
    depth: nat,
    rows: nat,
) -> Seq<TileModel<T, U>>
    decreases level - depth, 2nat, rows,
{
    if rows == 0 {
        Seq::empty()
    } else {
        tiles_in_grid(nodes, area, level, depth, (rows - 1) as nat) + tiles_in_row(
            nodes[rows - 1],
            area,
            level,
            depth,
            nodes[rows - 1].len(),
        )
    }
}

/// The tiles found below the first `cols` nodes of a row of nodes.
pub open spec fn tiles_in_row<T, U>(
    nodes: Seq<NodeModel<T, U>>,
    area: Bounds,
    level: nat,
    depth: nat,
    cols: nat,
) -> Seq<TileModel<T, U>>
    decreases level - depth, 1nat, cols,
{
    if cols == 0 {
        Seq::empty()
    } else {
        tiles_in_row(nodes, area, level, depth, (cols - 1) as nat) + tiles_at(
            nodes[cols - 1],
            area,
            level,
            depth,
        )
    }
}

/// The views of a run of tile references.
pub open spec fn tile_views<T, U>(tiles: Seq<TileRef<'_, T, U>>) -> Seq<TileModel<T, U>> {
    Seq::new(tiles.len(), |i: int| tiles[i]@)
}

fn tiles_below<'a, T, U>(
    level: u32,
    current_level: u32,
    node: &'a TileNode<T, U>,
    area: Bounds,
    found: &mut Vec<TileRef<'a, T, U>>,
)
    requires
        current_level <= level,
    ensures
        tile_views(final(found)@) == tile_views(old(found)@) + tiles_at(
            node@,
            area,
            level as nat,
            current_level as nat,
        ),
    decreases level - current_level,
{
    proof {
        lemma_model_children(*node);
    }
    if !area.intersects(&node.bounds) {
        assert(tile_views(found@) =~= tile_views(found@) + Seq::empty());
        return ;
    }
    if current_level == level {
        let ghost before = tile_views(found@);
        found.push(TileRef::from(node));
        assert(tile_views(found@) =~= before + seq![node@.tile()]);
        return ;
    }
    let ghost before = tile_views(found@);
    let ghost kids = node@.children;
    let mut i: usize = 0;
    assert(tile_views(found@) =~= before + tiles_in_grid(
        kids,
        area,
        level as nat,
        current_level as nat + 1,
        0,
    ));
    while i < node.children.len()
        invariant
            i <= node.children.len(),
            current_level < level,
            kids == models(node.children),
            tile_views(found@) == before + tiles_in_grid(
                kids,
                area,
                level as nat,
                current_level as nat + 1,
                i as nat,
            ),
        decreases node.children.len() - i,
    {
        let row = &node.children[i];
        let ghost row_before = tile_views(found@);
        let mut j: usize = 0;
        assert(tile_views(found@) =~= row_before + tiles_in_row(
            kids[i as int],
            area,
            level as nat,
            current_level as nat + 1,
            0,
        ));
        while j < row.len()
            invariant
                i < node.children.len(),
                j <= row.len(),
                current_level < level,
                row == node.children[i as int],
                kids == models(node.children),
                tile_views(found@) == row_before + tiles_in_row(
                    kids[i as int],
                    area,
                    level as nat,
                    current_level as nat + 1,
                    j as nat,
                ),
            decreases row.len() - j,
        {
            let ghost child_before = tile_views(found@);
            tiles_below(level, current_level + 1, &row[j], area, found);
            assert(kids[i as int][j as int] == row[j as int]@);
            assert(tile_views(found@) =~= row_before + tiles_in_row(
                kids[i as int],
                area,
                level as nat,
                current_level as nat + 1,
                (j + 1) as nat,
            ));
            j += 1;
        }
        assert(tile_views(found@) =~= before + tiles_in_grid(
            kids,
            area,
            level as nat,
            current_level as nat + 1,
            (i + 1) as nat,
        ));
        i += 1;
    }
}

impl<D> GeoTree<D> where D: Dataset {
    /// The tiles at depth `level` whose region, like that of every node
    /// above them, touches `area`: from north to south and from west to east
    /// within each parent. A tree whose root `area` does not touch gives none.
    pub fn get_tiles(&self, area: Bounds, level: u32) -> (tiles: Vec<
        TileRef<'_, D::Type, D::AggregateType>,
    >)
        ensures
            tile_views(tiles@) == tiles_at(self.root@, area, level as nat, 0),
    {
        let mut tiles: Vec<TileRef<'_, D::Type, D::AggregateType>> = Vec::new();
        assert(tile_views(tiles@) =~= Seq::empty());
        tiles_below(level, 0, &self.root, area, &mut tiles);
        tiles
    }
}

impl<D> GeoTree<D> where D: Dataset {
    /// The bytes of the file of this tree: its nodes in breadth-first
    /// order, the root at offset 0. It fails exactly if the file would be
    /// too long for its length to be counted.
    pub fn to_bytes(&self) -> (r: Result<Vec<u8>, SerializeError>)
        ensures
            r is Ok <==> tree_bytes(0, self.root@).len() <= usize::MAX,
            r is Ok ==> r->Ok_0@ == tree_bytes(0, self.root@),
    {
        let mut writer: AlignedWriter<Vec<u8>> = AlignedWriter::new(Vec::new());
        match self.root.serialize(&mut writer) {
            Ok(()) => {
                let bytes = writer.into_inner();
                assert(bytes@ =~= tree_bytes(0, self.root@));
                Ok(bytes)
            },
            Err(e) => Err(e),
        }
    }
}

} // verus!
