//! What a query hands to its caller.

use crate::bounds::Bounds;
use crate::dataset::{grid, Tile};
use vstd::prelude::*;

verus! {

/// A tile with the region it covers.
pub struct TileResponse<T> {
    pub data: Tile<T>,
    pub bounds: Bounds,
}

/// A tile read out of a file, with the region it covers.
pub struct TileRefResponse<T> {
    pub data: Tile<T>,
    pub bounds: Bounds,
}

/// A tile and its region as a mathematical value.
pub ghost struct TileView<T> {
    pub data: Seq<Seq<T>>,
    pub bounds: Bounds,
}

impl<T> View for TileResponse<T> {
    type V = TileView<T>;

    open spec fn view(&self) -> TileView<T> {
        TileView { data: grid(self.data), bounds: self.bounds }
    }
}

impl<T> View for TileRefResponse<T> {
    type V = TileView<T>;

    open spec fn view(&self) -> TileView<T> {
        TileView { data: grid(self.data), bounds: self.bounds }
    }
}

/// The views of a run of tiles.
pub open spec fn response_views<T>(tiles: Seq<TileRefResponse<T>>) -> Seq<TileView<T>> {
    Seq::new(tiles.len(), |i: int| tiles[i]@)
}

/// A raster cut or filled up to `width` by `height` pixels: the pixel at
/// a place where the raster has one, else `zero`.
pub open spec fn padded<T>(data: Seq<Seq<T>>, width: nat, height: nat, zero: T) -> Seq<Seq<T>> {
    Seq::new(
        height,
        |r: int|
            Seq::new(
                width,
                |c: int|
                    if r < data.len() && c < data[r].len() {
                        data[r][c]
                    } else {
                        zero
                    },
            ),
    )
}

impl<T: Copy> TileResponse<T> {
    /// The tile cut or filled up to the size asked for. Pixels that the
    /// tile does not have are `zero`.
    pub fn get_padded_tile(&self, desired_width: u32, desired_height: u32, zero: T) -> (tile: Vec<
        Vec<T>,
    >)
        ensures
            grid(tile) == padded(
                grid(self.data),
                desired_width as nat,
                desired_height as nat,
                zero,
            ),
    {
        let width: usize = desired_width as usize;
        let height: usize = desired_height as usize;
        let mut tile: Vec<Vec<T>> = Vec::new();
        while tile.len() < height
            invariant
                tile.len() <= height,
                width == desired_width,
                forall|r: int|
                    0 <= r < tile.len() ==> (#[trigger] tile[r])@ == padded(
                        grid(self.data),
                        width as nat,
                        height as nat,
                        zero,
                    )[r],
            decreases height - tile.len(),
        {
            let r: usize = tile.len();
            let mut row: Vec<T> = Vec::new();
            while row.len() < width
                invariant
                    row.len() <= width,
                    r < height,
                    forall|c: int|
                        0 <= c < row.len() ==> (#[trigger] row[c]) == padded(
                            grid(self.data),
                            width as nat,
                            height as nat,
                            zero,
                        )[r as int][c],
                decreases width - row.len(),
            {
                let c: usize = row.len();
                let pixel = if r < self.data.len() && c < self.data[r].len() {
                    self.data[r][c]
                } else {
                    zero
                };
                row.push(pixel);
            }
            assert(row@ =~= padded(grid(self.data), width as nat, height as nat, zero)[r as int]);
            tile.push(row);
        }
        assert(grid(tile) =~= padded(
            grid(self.data),
            desired_width as nat,
            desired_height as nat,
            zero,
        ));
        tile
    }
}

} // verus!
