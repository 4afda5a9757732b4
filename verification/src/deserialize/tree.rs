//! The pyramid as it is read: nodes that refer to their children by offset,
//! and the queries that walk them inside the bytes of the file.

use crate::bounds::{Bounds, Region};
use crate::common::{response_views, TileRefResponse, TileView};
use crate::dataset::{grid, Dataset};
use crate::deserialize::iterators::{lemma_walk_all, pointer_positions, walk_all, ContainsIterator};
use crate::deserialize::reader::Reader;
use crate::deserialize::{AlignedReader, Deserialize};
use crate::format::{bounds_at, grid_at, option_grid_at, option_scalar_at};
use crate::scalar::Scalar;
use std::marker::PhantomData;
use vstd::prelude::*;

verus! {

/// The offset at which a node begins. The root begins at offset 0.
pub struct Pointer<T> {
    pub position: usize,
    pub _type: PhantomData<T>,
}

impl<T> Pointer<T> {
    pub fn new(position: usize) -> (r: Self)
        ensures
            r.position == position,
    {
        Pointer { position, _type: PhantomData }
    }
}

impl<T> Clone for Pointer<T> {
    fn clone(&self) -> (r: Self)
        ensures
            r == *self,
    {
        Pointer { position: self.position, _type: PhantomData }
    }
}

impl<T> Copy for Pointer<T> {

}

impl<T> Default for Pointer<T> {
    fn default() -> (r: Self)
        ensures
            r.position == 0,
    {
        Pointer { position: 0, _type: PhantomData }
    }
}

/// The header of a node: its bounds and where its children begin.
pub struct TileNode<T> {
    pub bounds: Bounds,
    pub children: Vec<Vec<Pointer<T>>>,
}

/// The payload of a node: its aggregate and its tile.
pub struct TileData<T, U> {
    pub aggregate: Option<U>,
    pub tile: Option<Vec<Vec<T>>>,
}

/// A header as a mathematical value.
pub ghost struct HeaderModel {
    pub bounds: Bounds,
    pub children: Seq<Seq<nat>>,
}

/// A payload as a mathematical value.
pub ghost struct PayloadModel<T, U> {
    pub aggregate: Option<U>,
    pub tile: Option<Seq<Seq<T>>>,
}

/// The offsets of a grid of pointers.
pub open spec fn positions<T>(pointers: Vec<Vec<Pointer<T>>>) -> Seq<Seq<nat>> {
    Seq::new(
        pointers.len() as nat,
        |i: int| Seq::new(pointers[i].len() as nat, |j: int| pointers[i][j].position as nat),
    )
}

/// The offsets of a grid as numbers.
pub open spec fn as_positions(pointers: Seq<Seq<u64>>) -> Seq<Seq<nat>> {
    Seq::new(pointers.len(), |i: int| Seq::new(pointers[i].len(), |j: int| pointers[i][j] as nat))
}

/// Every offset of the grid can be a position in memory.
pub open spec fn addressable(pointers: Seq<Seq<u64>>) -> bool {
    forall|i: int, j: int|
        0 <= i < pointers.len() && 0 <= j < pointers[i].len() ==> #[trigger] pointers[i][j]
            <= usize::MAX
}

/// The header that lies at `position`, and the position behind it, where
/// the payload begins.
pub open spec fn header_at(bytes: Seq<u8>, position: nat) -> Option<(HeaderModel, nat)> {
    match bounds_at(bytes, position) {
        Some((bounds, next)) => match grid_at::<u64>(bytes, next) {
            Some((pointers, end)) => if addressable(pointers) {
                Some((HeaderModel { bounds, children: as_positions(pointers) }, end))
            } else {
                None
            },
            None => None,
        },
        None => None,
    }
}

/// The payload that lies at `position`, and the position behind it.
pub open spec fn payload_at<T: Scalar, U: Scalar>(bytes: Seq<u8>, position: nat) -> Option<
    (PayloadModel<T, U>, nat),
> {
    match option_scalar_at::<U>(bytes, position) {
        Some((aggregate, next)) => match option_grid_at::<T>(bytes, next) {
            Some((tile, end)) => Some((PayloadModel { aggregate, tile }, end)),
            None => None,
        },
        None => None,
    }
}

impl<T> View for TileNode<T> {
    type V = HeaderModel;

    open spec fn view(&self) -> HeaderModel {
        HeaderModel { bounds: self.bounds, children: positions(self.children) }
    }
}

impl<T, U> View for TileData<T, U> {
    type V = PayloadModel<T, U>;

    open spec fn view(&self) -> PayloadModel<T, U> {
        PayloadModel {
            aggregate: self.aggregate,
            tile: match self.tile {
                Some(t) => Some(grid(t)),
                None => None,
            },
        }
    }
}

impl<T, U> Deserialize for TileData<T, U> where T: Scalar, U: Scalar {
    type Model = PayloadModel<T, U>;

    open spec fn model(&self) -> PayloadModel<T, U> {
        self@
    }

    open spec fn decoding(bytes: Seq<u8>, position: nat) -> Option<(PayloadModel<T, U>, nat)> {
        payload_at::<T, U>(bytes, position)
    }

    fn deserialize(reader: &mut AlignedReader<'_>) -> (r: Option<Self>) {
        let aggregate = <Option<U> as Deserialize>::deserialize(reader)?;
        let tile = <Option<Vec<Vec<T>>> as Deserialize>::deserialize(reader)?;
        Some(TileData { aggregate, tile })
    }
}

impl<T> Deserialize for TileNode<T> where T: Scalar {
    type Model = HeaderModel;

    open spec fn model(&self) -> HeaderModel {
        self@
    }

    open spec fn decoding(bytes: Seq<u8>, position: nat) -> Option<(HeaderModel, nat)> {
        header_at(bytes, position)
    }

    fn deserialize(reader: &mut AlignedReader<'_>) -> (r: Option<Self>) {
        let ghost start = reader@;
        let bounds = <Bounds as Deserialize>::deserialize(reader)?;
        let ghost mid = reader@.position;
        let offsets = <Vec<Vec<u64>> as Deserialize>::deserialize(reader)?;
        let ghost end = reader@;
        let mut children: Vec<Vec<Pointer<T>>> = Vec::new();
        let mut i: usize = 0;
        while i < offsets.len()
            invariant
                i <= offsets.len(),
                start == old(reader)@,
                reader@ == end,
                end.bytes == start.bytes,
                bounds_at(start.bytes, start.position) == Some((bounds, mid)),
                grid_at::<u64>(start.bytes, mid) == Some((grid(offsets), end.position)),
                children.len() == i,
                forall|r: int, c: int|
                    0 <= r < i && 0 <= c < offsets[r].len() ==> #[trigger] offsets[r][c]
                        <= usize::MAX,
                forall|r: int|
                    0 <= r < i ==> (#[trigger] children[r]).len() == offsets[r].len(),
                forall|r: int, c: int|
                    0 <= r < i && 0 <= c < offsets[r].len() ==> (#[trigger] children[r][c]).position
                        == offsets[r][c],
            decreases offsets.len() - i,
        {
            let mut row: Vec<Pointer<T>> = Vec::new();
            let mut j: usize = 0;
            while j < offsets[i].len()
                invariant
                    i < offsets.len(),
                    j <= offsets[i as int].len(),
                    start == old(reader)@,
                    reader@ == end,
                    end.bytes == start.bytes,
                    bounds_at(start.bytes, start.position) == Some((bounds, mid)),
                    grid_at::<u64>(start.bytes, mid) == Some((grid(offsets), end.position)),
                    row.len() == j,
                    forall|c: int| 0 <= c < j ==> #[trigger] offsets[i as int][c] <= usize::MAX,
                    forall|c: int|
                        0 <= c < j ==> (#[trigger] row[c]).position == offsets[i as int][c],
                decreases offsets[i as int].len() - j,
            {
                let offset: u64 = offsets[i][j];
                if offset > usize::MAX as u64 {
                    assert(grid(offsets)[i as int][j as int] == offset);
                    return None;
                }
                row.push(Pointer::new(offset as usize));
                j += 1;
            }
            children.push(row);
            i += 1;
        }
        let node = TileNode { bounds, children };
        proof {
            assert forall|r: int, c: int|
                0 <= r < grid(offsets).len() && 0 <= c < grid(offsets)[r].len() implies #[trigger] grid(
                offsets,
            )[r][c] <= usize::MAX by {
                assert(offsets[r][c] <= usize::MAX);
            }
            assert(node@.children.len() == as_positions(grid(offsets)).len());
            assert forall|r: int| 0 <= r < node@.children.len() implies node@.children[r]
                == as_positions(grid(offsets))[r] by {
                assert(node@.children[r] =~= as_positions(grid(offsets))[r]);
            }
            assert(node@.children =~= as_positions(grid(offsets)));
        }
        Some(node)
    }
}

/// The tiles at depth `level` below the node at `pointer`, itself at depth
/// `depth`, that are reached through nodes whose bounds `area` touches. A
/// node that cannot be read, or that has no tile, gives none.
pub open spec fn file_tiles_at<T: Scalar, U: Scalar>(
    bytes: Seq<u8>,
    pointer: nat,
    area: Bounds,
    level: nat,
    depth: nat,
) -> Seq<TileView<T>>
    decreases level - depth, 0nat, 0nat,
{
    match header_at(bytes, pointer) {
        None => Seq::empty(),
        Some((header, payload)) => if !area.touches(header.bounds) || depth > level {
            Seq::empty()
        } else if depth == level {
            match payload_at::<T, U>(bytes, payload) {
                Some((data, _)) => match data.tile {
                    Some(tile) => seq![TileView { data: tile, bounds: header.bounds }],
                    None => Seq::empty(),
                },
                None => Seq::empty(),
            }
        } else {
            file_tiles_in_grid::<T, U>(
                bytes,
                header.children,
                area,
                level,
                depth + 1,
                header.children.len(),
            )
        },
    }
}

/// The tiles found below the first `rows` rows of a grid of offsets.
pub open spec fn file_tiles_in_grid<T: Scalar, U: Scalar>(
    bytes: Seq<u8>,
    pointers: Seq<Seq<nat>>,
    area: Bounds,
    level: nat,
    depth: nat,
    rows: nat,
) -> Seq<TileView<T>>
    decreases level - depth, 2nat, rows,
{
    if rows == 0 {
        Seq::empty()
    } else {
        file_tiles_in_grid::<T, U>(bytes, pointers, area, level, depth, (rows - 1) as nat)
            + file_tiles_in_row::<T, U>(
            bytes,
            pointers[rows - 1],
            area,
            level,
            depth,
            pointers[rows - 1].len(),
        )
    }
}

/// The tiles found below the first `cols` offsets of a row.
pub open spec fn file_tiles_in_row<T: Scalar, U: Scalar>(
    bytes: Seq<u8>,
    pointers: Seq<nat>,
    area: Bounds,
    level: nat,
    depth: nat,
    cols: nat,
) -> Seq<TileView<T>>
    decreases level - depth, 1nat, cols,
{
    if cols == 0 {
        Seq::empty()
    } else {
        file_tiles_in_row::<T, U>(bytes, pointers, area, level, depth, (cols - 1) as nat)
            + file_tiles_at::<T, U>(bytes, pointers[cols - 1], area, level, depth)
    }
}

/// Bit `bit` of an address: which of two children to take at one level.
pub open spec fn address_bit(value: usize, bit: nat) -> nat {
    if bit < usize::BITS {
        ((value >> (bit as usize)) & 1) as nat
    } else {
        0
    }
}

/// The node reached from the node at `pointer` by descending `levels`
/// levels, at each level taking the row that the next lower bit of `y`
/// names and the column that the same bit of `x` names: its header and the
/// position of its payload. Nothing where a node on the way cannot be read
/// or has no such child.
pub open spec fn descend(bytes: Seq<u8>, pointer: nat, x: usize, y: usize, levels: nat) -> Option<
    (HeaderModel, nat),
>
    decreases levels,
{
    match header_at(bytes, pointer) {
        None => None,
        Some((header, payload)) => if levels == 0 {
            Some((header, payload))
        } else {
            let row = address_bit(y, (levels - 1) as nat) as int;
            let col = address_bit(x, (levels - 1) as nat) as int;
            if row < header.children.len() && col < header.children[row].len() {
                descend(bytes, header.children[row][col], x, y, (levels - 1) as nat)
            } else {
                None
            }
        },
    }
}

/// The number of tiles along each axis at depth `z` when every node has `n`
/// children along each axis.
pub open spec fn tiles_per_axis(n: nat, z: nat) -> nat
    decreases z,
{
    if z == 0 {
        1
    } else {
        n * tiles_per_axis(n, (z - 1) as nat)
    }
}

/// The tile with address `(x, y)` at depth `z`: nothing where the address
/// is out of range, where the node is not there, or where it has no tile.
pub open spec fn file_tile<T: Scalar, U: Scalar>(
    bytes: Seq<u8>,
    n: nat,
    x: usize,
    y: usize,
    z: nat,
) -> Option<TileView<T>> {
    if x >= tiles_per_axis(n, z) || y >= tiles_per_axis(n, z) {
        None
    } else {
        match descend(bytes, 0, x, y, z) {
            Some((header, payload)) => match payload_at::<T, U>(bytes, payload) {
                Some((data, _)) => match data.tile {
                    Some(tile) => Some(TileView { data: tile, bounds: header.bounds }),
                    None => None,
                },
                None => None,
            },
            None => None,
        }
    }
}

/// The pyramid of one data source, read inside the bytes of its file.
pub struct GeoTree<'a, D> where D: Dataset {
    pub data: &'a [u8],
    pub _dataset: PhantomData<D>,
}

proof fn lemma_tiles_per_axis_grows(n: nat, j: nat, k: nat)
    requires
        n >= 1,
        j <= k,
    ensures
        tiles_per_axis(n, j) <= tiles_per_axis(n, k),
        tiles_per_axis(n, j) >= 1,
    decreases k,
{
    if j < k {
        lemma_tiles_per_axis_grows(n, j, (k - 1) as nat);
        assert(tiles_per_axis(n, (k - 1) as nat) <= n * tiles_per_axis(n, (k - 1) as nat))
            by (nonlinear_arith)
            requires
                n >= 1,
        ;
    } else if j > 0 {
        lemma_tiles_per_axis_grows(n, (j - 1) as nat, (j - 1) as nat);
        assert(n * tiles_per_axis(n, (j - 1) as nat) >= 1) by (nonlinear_arith)
            requires
                n >= 1,
                tiles_per_axis(n, (j - 1) as nat) >= 1,
        ;
    }
}

/// Whether `value` is an address at depth `z`.
fn in_range(value: usize, n: usize, z: usize) -> (r: bool)
    ensures
        r == (value < tiles_per_axis(n as nat, z as nat)),
{
    if n == 0 {
        proof {
            if z > 0 {
                assert(0 * tiles_per_axis(0, (z - 1) as nat) == 0) by (nonlinear_arith);
            }
        }
        return z == 0 && value == 0;
    }
    let mut reach: usize = 1;
    let mut k: usize = 0;
    while k < z && reach <= value
        invariant
            k <= z,
            n >= 1,
            reach == tiles_per_axis(n as nat, k as nat),
        decreases z - k,
    {
        proof {
            assert(reach * n == n * reach) by (nonlinear_arith);
        }
        match reach.checked_mul(n) {
            Some(next) => {
                reach = next;
            },
            None => {
                proof {
                    lemma_tiles_per_axis_grows(n as nat, (k + 1) as nat, z as nat);
                }
                return true;
            },
        }
        k += 1;
    }
    proof {
        lemma_tiles_per_axis_grows(n as nat, k as nat, z as nat);
    }
    reach > value
}

/// Bit `bit` of an address.
fn bit_of(value: usize, bit: usize) -> (r: usize)
    ensures
        r == address_bit(value, bit as nat),
        r <= 1,
{
    if bit < usize::BITS as usize {
        let r: usize = (value >> bit) & 1;
        assert(((value >> bit) & 1) <= 1) by (bit_vector);
        r
    } else {
        0
    }
}

fn file_tiles_below<'a, T, U>(
    level: u32,
    current_level: u32,
    pointer: &Pointer<T>,
    area: Bounds,
    reader: &mut Reader<'a>,
    found: &mut Vec<TileRefResponse<T>>,
) where T: Scalar, U: Scalar
    requires
        current_level <= level,
    ensures
        final(reader).data@ == old(reader).data@,
        response_views(final(found)@) == response_views(old(found)@) + file_tiles_at::<T, U>(
            old(reader).data@,
            pointer.position as nat,
            area,
            level as nat,
            current_level as nat,
        ),
    decreases level - current_level,
{
    let ghost bytes = reader.data@;
    let ghost before = response_views(found@);
    let node = match reader.load(pointer) {
        Some(node) => node,
        None => {
            assert(before =~= before + Seq::empty());
            return ;
        },
    };
    if !area.intersects(&node.bounds) {
        assert(before =~= before + Seq::empty());
        return ;
    }
    if current_level == level {
        match reader.read::<TileData<T, U>>() {
            Some(data) => match data.tile {
                Some(tile) => {
                    let response = TileRefResponse { data: tile, bounds: node.bounds };
                    found.push(response);
                    assert(response_views(found@) =~= before + seq![response@]);
                },
                None => {
                    assert(before =~= before + Seq::empty());
                },
            },
            None => {
                assert(before =~= before + Seq::empty());
            },
        }
        return ;
    }
    let ghost kids = node@.children;
    let mut i: usize = 0;
    assert(before =~= before + file_tiles_in_grid::<T, U>(
        bytes,
        kids,
        area,
        level as nat,
        current_level as nat + 1,
        0,
    ));
    while i < node.children.len()
        invariant
            i <= node.children.len(),
            current_level < level,
            reader.data@ == bytes,
            kids == positions(node.children),
            response_views(found@) == before + file_tiles_in_grid::<T, U>(
                bytes,
                kids,
                area,
                level as nat,
                current_level as nat + 1,
                i as nat,
            ),
        decreases node.children.len() - i,
    {
        let row = &node.children[i];
        let ghost row_before = response_views(found@);
        let mut j: usize = 0;
        assert(row_before =~= row_before + file_tiles_in_row::<T, U>(
            bytes,
            kids[i as int],
            area,
            level as nat,
            current_level as nat + 1,
            0,
        ));
        while j < row.len()
            invariant
                i < node.children.len(),
                j <= row.len(),
                current_level < level,
                reader.data@ == bytes,
                row == node.children[i as int],
                kids == positions(node.children),
                response_views(found@) == row_before + file_tiles_in_row::<T, U>(
                    bytes,
                    kids[i as int],
                    area,
                    level as nat,
                    current_level as nat + 1,
                    j as nat,
                ),
            decreases row.len() - j,
        {
            file_tiles_below::<T, U>(level, current_level + 1, &row[j], area, reader, found);
            assert(kids[i as int][j as int] == row[j as int].position);
            assert(response_views(found@) =~= row_before + file_tiles_in_row::<T, U>(
                bytes,
                kids[i as int],
                area,
                level as nat,
                current_level as nat + 1,
                (j + 1) as nat,
            ));
            j += 1;
        }
        assert(response_views(found@) =~= before + file_tiles_in_grid::<T, U>(
            bytes,
            kids,
            area,
            level as nat,
            current_level as nat + 1,
            (i + 1) as nat,
        ));
        i += 1;
    }
}

impl<'a, D> GeoTree<'a, D> where D: Dataset {
    /// The tree that lies in `data`, the root at offset 0.
    pub fn new(data: &'a [u8]) -> (r: Self)
        ensures
            r.data@ == data@,
    {
        GeoTree { data, _dataset: PhantomData }
    }

    /// The tiles at depth `level` whose region, like that of every node
    /// above them, touches `area`, from north to south and from west to
    /// east within each parent.
    pub fn get_tiles(&self, area: Bounds, level: u32) -> (tiles: Vec<TileRefResponse<D::Type>>)
        ensures
            response_views(tiles@) == file_tiles_at::<D::Type, D::AggregateType>(
                self.data@,
                0,
                area,
                level as nat,
                0,
            ),
    {
        let mut reader = Reader::new(self.data);
        let mut tiles: Vec<TileRefResponse<D::Type>> = Vec::new();
        assert(response_views(tiles@) =~= Seq::empty());
        file_tiles_below::<D::Type, D::AggregateType>(
            level,
            0,
            &Pointer::default(),
            area,
            &mut reader,
            &mut tiles,
        );
        tiles
    }

    /// The tile with address `(x, y)` at depth `z`, with its bounds: from
    /// the root, each level takes the child that the next lower bit of `y`
    /// (the row) and of `x` (the column) name.
    pub fn get_tile(&self, x: usize, y: usize, z: usize) -> (tile: Option<
        TileRefResponse<D::Type>,
    >)
        ensures
            match file_tile::<D::Type, D::AggregateType>(
                self.data@,
                D::CHILDREN_PER_AXIS as nat,
                x,
                y,
                z as nat,
            ) {
                Some(view) => tile is Some && tile->0@ == view,
                None => tile is None,
            },
    {
        let ghost bytes = self.data@;
        if !in_range(x, D::CHILDREN_PER_AXIS, z) || !in_range(y, D::CHILDREN_PER_AXIS, z) {
            return None;
        }
        let mut reader = Reader::new(self.data);
        let mut current = match reader.load(&Pointer::<D::Type>::default()) {
            Some(node) => node,
            None => {
                return None;
            },
        };
        let mut level: usize = 0;
        let ghost mut at: nat = 0;
        while level < z
            invariant
                level <= z,
                reader.data@ == bytes,
                bytes == self.data@,
                header_at(bytes, at) == Some((current@, reader.position as nat)),
                descend(bytes, 0, x, y, z as nat) == descend(bytes, at, x, y, (z - level) as nat),
            decreases z - level,
        {
            let bit_position: usize = z - level - 1;
            let row: usize = bit_of(y, bit_position);
            let col: usize = bit_of(x, bit_position);
            if row >= current.children.len() {
                return None;
            }
            if col >= current.children[row].len() {
                return None;
            }
            let child = current.children[row][col];
            proof {
                assert(current@.children[row as int][col as int] == child.position);
                assert(descend(bytes, at, x, y, (z - level) as nat) == descend(
                    bytes,
                    child.position as nat,
                    x,
                    y,
                    (z - level - 1) as nat,
                ));
            }
            current = match reader.load(&child) {
                Some(node) => node,
                None => {
                    return None;
                },
            };
            proof {
                at = child.position as nat;
            }
            level += 1;
        }
        match reader.read::<TileData<D::Type, D::AggregateType>>() {
            Some(data) => match data.tile {
                Some(tile) => Some(TileRefResponse { data: tile, bounds: current.bounds }),
                None => None,
            },
            None => None,
        }
    }
}

/// What an aggregate and the next one reduce to: the reduction of the two
/// where both are there, else the one that is there.
pub open spec fn combine<D: Dataset>(
    acc: Option<D::AggregateType>,
    next: Option<D::AggregateType>,
) -> Option<D::AggregateType> {
    match (acc, next) {
        (Some(a), Some(b)) => D::spec_aggregate2(seq![a, b]),
        (Some(a), None) => Some(a),
        (None, Some(b)) => Some(b),
        (None, None) => None,
    }
}

/// The aggregates of a run of payloads reduced one after another into
/// `acc`, from the first on.
pub open spec fn folded<D: Dataset>(
    acc: Option<D::AggregateType>,
    items: Seq<PayloadModel<D::Type, D::AggregateType>>,
) -> Option<D::AggregateType>
    decreases items.len(),
{
    if items.len() == 0 {
        acc
    } else {
        folded::<D>(combine::<D>(acc, items[0].aggregate), items.drop_first())
    }
}

/// The aggregate over a query region: the aggregates of the nodes that the
/// query covers, each taken at the highest level at which it is covered,
/// reduced into one.
pub open spec fn file_aggregate<D: Dataset, Q: Region>(bytes: Seq<u8>, query: Q) -> Option<
    D::AggregateType,
> {
    folded::<D>(
        None,
        walk_all::<D::Type, D::AggregateType, Q>(bytes, query, seq![0nat], bytes.len(), false),
    )
}

impl<'a, D> GeoTree<'a, D> where D: Dataset {
    /// The aggregate over a query region, or nothing if no node that the
    /// query covers has one.
    pub fn get_aggregate<Query>(&self, query: Query) -> (r: Option<D::AggregateType>) where
        Query: Region,

        ensures
            r == file_aggregate::<D, Query>(self.data@, query),
    {
        let ghost bytes = self.data@;
        let reader = Reader::new(self.data);
        let mut iter = ContainsIterator::<D::Type, D::AggregateType, Query>::new(reader, query);
        let mut acc: Option<D::AggregateType> = None;
        loop
            invariant_except_break
                file_aggregate::<D, Query>(bytes, query) == folded::<D>(
                    acc,
                    walk_all::<D::Type, D::AggregateType, Query>(
                        bytes,
                        query,
                        pointer_positions(iter.queue@),
                        iter.budget as nat,
                        false,
                    ),
                ),
            invariant
                iter.wf(),
                iter.reader.data@ == bytes,
                bytes == self.data@,
                iter.query == query,
            ensures
                acc == file_aggregate::<D, Query>(bytes, query),
            decreases iter.budget,
        {
            proof {
                lemma_walk_all::<D::Type, D::AggregateType, Query>(
                    bytes,
                    query,
                    pointer_positions(iter.queue@),
                    iter.budget as nat,
                    iter.reader.position as nat,
                    false,
                );
            }
            let ghost pending = walk_all::<D::Type, D::AggregateType, Query>(
                bytes,
                query,
                pointer_positions(iter.queue@),
                iter.budget as nat,
                false,
            );
            match iter.next() {
                Some(data) => {
                    assert(pending[0] == data@);
                    assert(pending.drop_first() =~= walk_all::<D::Type, D::AggregateType, Query>(
                        bytes,
                        query,
                        pointer_positions(iter.queue@),
                        iter.budget as nat,
                        false,
                    ));
                    acc = match (acc, data.aggregate) {
                        (Some(a), Some(b)) => {
                            let mut pair: Vec<D::AggregateType> = Vec::new();
                            pair.push(a);
                            pair.push(b);
                            assert(pair@ =~= seq![a, b]);
                            D::aggregate2(pair.as_slice())
                        },
                        (Some(a), None) => Some(a),
                        (None, Some(b)) => Some(b),
                        (None, None) => None,
                    };
                },
                None => {
                    break ;
                },
            }
        }
        acc
    }
}

} // verus!
