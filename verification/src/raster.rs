//! Cutting a window out of a raster and stitching a grid of rasters into one.

use crate::dataset::{grid, joined, Dataset, Tile};
use vstd::prelude::*;

verus! {

/// The window of `width` pixels that starts at column `x` of one row. Where
/// the row ends early, its last pixel is repeated; an empty row gives `fill`.
pub open spec fn spec_slice_row<T>(row: Seq<T>, x: nat, width: nat, fill: T) -> Seq<T> {
    Seq::new(
        width,
        |c: int|
            if x + c < row.len() {
                row[x + c]
            } else if row.len() > 0 {
                row[row.len() - 1]
            } else {
                fill
            },
    )
}

/// The window of `width` by `height` pixels whose top left corner is at
/// column `x` and row `y`. Where the raster ends early, its last row is
/// repeated; a window that starts below the raster is filled with `fill`.
pub open spec fn spec_slice<T>(
    data: Seq<Seq<T>>,
    x: nat,
    y: nat,
    width: nat,
    height: nat,
    fill: T,
) -> Seq<Seq<T>> {
    Seq::new(
        height,
        |r: int|
            if y + r < data.len() {
                spec_slice_row(data[y + r], x, width, fill)
            } else if y < data.len() {
                spec_slice_row(data[data.len() - 1], x, width, fill)
            } else {
                Seq::new(width, |c: int| fill)
            },
    )
}

/// Row `inner_row` of the tile in column `col`, or nothing where the tile or
/// the row is missing.
pub open spec fn tile_row<T>(tiles: Seq<Seq<Seq<T>>>, col: int, inner_row: int) -> Seq<T> {
    if 0 <= col < tiles.len() && 0 <= inner_row < tiles[col].len() {
        tiles[col][inner_row]
    } else {
        Seq::empty()
    }
}

/// Row `inner_row` of the first `cols` tiles of one row of tiles, laid end
/// to end.
pub open spec fn stitched_row<T>(tiles: Seq<Seq<Seq<T>>>, inner_row: int, cols: nat) -> Seq<T>
    decreases cols,
{
    if cols == 0 {
        Seq::empty()
    } else {
        stitched_row(tiles, inner_row, (cols - 1) as nat) + tile_row(tiles, cols - 1, inner_row)
    }
}

/// The number of pixel rows that a row of tiles contributes: that of its
/// first tile.
pub open spec fn band_height<T>(tiles: Seq<Seq<Seq<T>>>) -> nat {
    if tiles.len() > 0 {
        tiles[0].len()
    } else {
        0
    }
}

/// One row of tiles stitched into a band of pixel rows: pixel row `r` of
/// the band is pixel row `r` of every tile of the row, laid end to end.
pub open spec fn band<T>(tiles: Seq<Seq<Seq<T>>>) -> Seq<Seq<T>> {
    Seq::new(band_height(tiles), |r: int| stitched_row(tiles, r, tiles.len()))
}

/// The bands of a grid of tiles, one for each row of tiles.
pub open spec fn bands<T>(tiles: Seq<Seq<Seq<Seq<T>>>>) -> Seq<Seq<Seq<T>>> {
    Seq::new(tiles.len(), |i: int| band(tiles[i]))
}

/// A grid of tiles stitched into one raster: the band of each row of tiles,
/// one below the other.
pub open spec fn spec_flatten<T>(tiles: Seq<Seq<Seq<Seq<T>>>>) -> Seq<Seq<T>> {
    joined(bands(tiles), tiles.len())
}

/// The rasters behind a grid of references.
pub open spec fn tile_grid<T>(data: Vec<Vec<&Tile<T>>>) -> Seq<Seq<Seq<Seq<T>>>> {
    Seq::new(data.len() as nat, |i: int| Seq::new(data[i].len() as nat, |j: int| grid(*data[i][j])))
}

/// A row of `width` copies of one pixel.
pub fn filled<T: Copy>(value: T, width: usize) -> (row: Vec<T>)
    ensures
        row@ == Seq::new(width as nat, |c: int| value),
{
    let mut row: Vec<T> = Vec::new();
    while row.len() < width
        invariant
            row.len() <= width,
            forall|c: int| 0 <= c < row.len() ==> row[c] == value,
        decreases width - row.len(),
    {
        row.push(value);
    }
    assert(row@ =~= Seq::new(width as nat, |c: int| value));
    row
}

/// A copy of a row.
pub fn copied<T: Copy>(source: &Vec<T>) -> (row: Vec<T>)
    ensures
        row@ == source@,
{
    let mut row: Vec<T> = Vec::new();
    while row.len() < source.len()
        invariant
            row.len() <= source.len(),
            forall|c: int| 0 <= c < row.len() ==> row[c] == source[c],
        decreases source.len() - row.len(),
    {
        row.push(source[row.len()]);
    }
    assert(row@ =~= source@);
    row
}

fn slice_row<T: Copy>(source: &Vec<T>, x: usize, width: usize, fill: T) -> (row: Vec<T>)
    ensures
        row@ == spec_slice_row(source@, x as nat, width as nat, fill),
{
    let mut row: Vec<T> = Vec::new();
    let available: usize = if x < source.len() {
        let rest: usize = source.len() - x;
        if rest < width {
            rest
        } else {
            width
        }
    } else {
        0
    };
    while row.len() < available
        invariant
            row.len() <= available <= width,
            x + available <= source.len() || available == 0,
            forall|c: int| 0 <= c < row.len() ==> row[c] == source[x + c],
        decreases available - row.len(),
    {
        row.push(source[x + row.len()]);
    }
    let pad: T = if source.len() > 0 {
        source[source.len() - 1]
    } else {
        fill
    };
    while row.len() < width
        invariant
            available <= row.len() <= width,
            x + available <= source.len() || available == 0,
            available < width ==> x + available >= source.len(),
            forall|c: int| 0 <= c < available ==> row[c] == source[x + c],
            forall|c: int| available <= c < row.len() ==> row[c] == pad,
        decreases width - row.len(),
    {
        row.push(pad);
    }
    assert(row@ =~= spec_slice_row(source@, x as nat, width as nat, fill));
    row
}

/// Cuts the window of `width` by `height` pixels at column `x` and row `y`
/// out of a raster.
pub fn slice<D>(data: &Tile<D::Type>, x: usize, y: usize, width: usize, height: usize) -> (result:
    Tile<D::Type>) where D: Dataset
    ensures
        grid(result) == spec_slice(
            grid(*data),
            x as nat,
            y as nat,
            width as nat,
            height as nat,
            D::spec_default(),
        ),
{
    let fill = D::default();
    let mut result: Vec<Vec<D::Type>> = Vec::new();
    let available: usize = if y < data.len() {
        let rest: usize = data.len() - y;
        if rest < height {
            rest
        } else {
            height
        }
    } else {
        0
    };
    while result.len() < available
        invariant
            result.len() <= available <= height,
            y + available <= data.len() || available == 0,
            fill == D::spec_default(),
            forall|r: int|
                0 <= r < result.len() ==> (#[trigger] result[r])@ == spec_slice_row(
                    data[y + r]@,
                    x as nat,
                    width as nat,
                    fill,
                ),
        decreases available - result.len(),
    {
        let row = slice_row(&data[y + result.len()], x, width, fill);
        result.push(row);
    }
    while result.len() < height
        invariant
            available <= result.len() <= height,
            y + available <= data.len() || available == 0,
            available < height ==> y + available >= data.len(),
            fill == D::spec_default(),
            forall|r: int|
                0 <= r < available ==> (#[trigger] result[r])@ == spec_slice_row(
                    data[y + r]@,
                    x as nat,
                    width as nat,
                    fill,
                ),
            forall|r: int|
                available <= r < result.len() ==> (#[trigger] result[r])@ == (if y < data.len() {
                    spec_slice_row(data[data.len() - 1]@, x as nat, width as nat, fill)
                } else {
                    Seq::new(width as nat, |c: int| fill)
                }),
        decreases height - result.len(),
    {
        if result.len() > 0 {
            let last = copied(&result[result.len() - 1]);
            result.push(last);
        } else {
            result.push(filled(fill, width));
        }
    }
    assert(grid(result) =~= spec_slice(
        grid(*data),
        x as nat,
        y as nat,
        width as nat,
        height as nat,
        D::spec_default(),
    ));
    result
}

/// Stitches a grid of tiles into one raster: for each row of tiles, each
/// pixel row of its tiles laid end to end. The first tile of a row of tiles
/// decides how many pixel rows that row contributes.
pub fn flatten<T>(data: &Vec<Vec<&Tile<T>>>) -> (result: Tile<T>) where T: Copy
    ensures
        grid(result) == spec_flatten(tile_grid(*data)),
{
    let ghost tiles = tile_grid(*data);
    let mut result: Vec<Vec<T>> = Vec::new();
    let mut outer_row: usize = 0;
    assert(grid(result) =~= joined(bands(tiles), 0));
    while outer_row < data.len()
        invariant
            outer_row <= data.len(),
            tiles == tile_grid(*data),
            grid(result) == joined(bands(tiles), outer_row as nat),
        decreases data.len() - outer_row,
    {
        let tiles_of_row = &data[outer_row];
        let cols: usize = tiles_of_row.len();
        let rows: usize = if cols > 0 {
            tiles_of_row[0].len()
        } else {
            0
        };
        let ghost above = grid(result);
        let ghost here = tiles[outer_row as int];
        let mut inner_row: usize = 0;
        assert(above =~= above + band(here).subrange(0, 0));
        while inner_row < rows
            invariant
                outer_row < data.len(),
                inner_row <= rows,
                tiles == tile_grid(*data),
                tiles_of_row == data[outer_row as int],
                here == tiles[outer_row as int],
                cols == here.len(),
                rows == band_height(here),
                grid(result) == above + band(here).subrange(0, inner_row as int),
            decreases rows - inner_row,
        {
            let mut row: Vec<T> = Vec::new();
            let mut outer_col: usize = 0;
            while outer_col < cols
                invariant
                    outer_row < data.len(),
                    outer_col <= cols,
                    tiles == tile_grid(*data),
                    tiles_of_row == data[outer_row as int],
                    here == tiles[outer_row as int],
                    cols == here.len(),
                    row@ == stitched_row(here, inner_row as int, outer_col as nat),
                decreases cols - outer_col,
            {
                let tile = tiles_of_row[outer_col];
                if inner_row < tile.len() {
                    let piece = &tile[inner_row];
                    let mut k: usize = 0;
                    let ghost before = row@;
                    while k < piece.len()
                        invariant
                            k <= piece.len(),
                            row@ == before + piece@.subrange(0, k as int),
                        decreases piece.len() - k,
                    {
                        row.push(piece[k]);
                        k += 1;
                        assert(row@ =~= before + piece@.subrange(0, k as int));
                    }
                    assert(piece@.subrange(0, k as int) =~= piece@);
                    assert(tile_row(here, outer_col as int, inner_row as int) == piece@);
                }
                assert(row@ =~= stitched_row(here, inner_row as int, outer_col as nat) + tile_row(
                    here,
                    outer_col as int,
                    inner_row as int,
                ));
                outer_col += 1;
            }
            let ghost previous = grid(result);
            result.push(row);
            assert(grid(result) =~= previous.push(row@));
            inner_row += 1;
            assert(grid(result) =~= above + band(here).subrange(0, inner_row as int));
        }
        assert(band(here).subrange(0, inner_row as int) =~= band(here));
        assert(bands(tiles)[outer_row as int] == band(here));
        outer_row += 1;
    }
    result
}

} // verus!
