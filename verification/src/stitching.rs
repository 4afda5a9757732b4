//! Cutting a raster into the parts of its children and stitching the parts
//! together again gives the raster back.

use crate::builder::{child_raster, lemma_part_len, part_len, raster_width};
use crate::dataset::{joined, valid_dataset, Dataset};
use crate::raster::{band, band_height, bands, spec_flatten, stitched_row, tile_row};
use vstd::prelude::*;

verus! {

/// Every row of the raster has the same width.
pub open spec fn rectangular<T>(data: Seq<Seq<T>>) -> bool {
    forall|r: int| 0 <= r < data.len() ==> (#[trigger] data[r]).len() == raster_width(data)
}

/// Where part `k` begins when `extent` is cut into `n` parts; for `k == n`,
/// where the last part ends.
pub open spec fn part_start(extent: nat, k: int, n: nat) -> int {
    if k >= n {
        extent as int
    } else {
        k * (extent / n)
    }
}

/// The parts that a raster is cut into, as a grid of rasters.
pub open spec fn parts<D: Dataset>(data: Seq<Seq<D::Type>>) -> Seq<Seq<Seq<Seq<D::Type>>>> {
    Seq::new(
        D::CHILDREN_PER_AXIS as nat,
        |i: int| Seq::new(D::CHILDREN_PER_AXIS as nat, |j: int| child_raster::<D>(data, i, j)),
    )
}

/// Each part ends where the next begins, the first begins at 0 and the last
/// ends with the extent.
proof fn lemma_part_start(extent: nat, k: int, n: nat)
    requires
        n >= 2,
        0 <= k < n,
    ensures
        0 <= part_start(extent, k, n),
        part_start(extent, k, n) == k * (extent / n),
        part_start(extent, k, n) + part_len(extent, k, n) == part_start(extent, k + 1, n),
        part_start(extent, k + 1, n) <= extent,
        part_start(extent, 0, n) == 0,
{
    let q = extent / n;
    lemma_part_len(extent, k, n);
    assert(0 <= k * q) by (nonlinear_arith)
        requires
            0 <= k,
            0 <= q,
    ;
    assert(0 * q == 0) by (nonlinear_arith);
    if k + 1 < n {
        assert((k + 1) * q == k * q + q) by (nonlinear_arith);
    } else {
        assert(k == n - 1);
    }
}

/// A pixel row of a part is a stretch of a row of the raster.
proof fn lemma_part_row<D: Dataset>(data: Seq<Seq<D::Type>>, i: int, j: int, r: int)
    requires
        valid_dataset::<D>(),
        rectangular(data),
        0 <= i < D::CHILDREN_PER_AXIS,
        0 <= j < D::CHILDREN_PER_AXIS,
        0 <= r < part_len(data.len(), i, D::CHILDREN_PER_AXIS as nat),
    ensures
        child_raster::<D>(data, i, j).len() == part_len(data.len(), i, D::CHILDREN_PER_AXIS as nat),
        0 <= part_start(data.len(), i, D::CHILDREN_PER_AXIS as nat) + r < data.len(),
        child_raster::<D>(data, i, j)[r] == data[part_start(
            data.len(),
            i,
            D::CHILDREN_PER_AXIS as nat,
        ) + r].subrange(
            part_start(raster_width(data), j, D::CHILDREN_PER_AXIS as nat),
            part_start(raster_width(data), j + 1, D::CHILDREN_PER_AXIS as nat),
        ),
{
    let n = D::CHILDREN_PER_AXIS as nat;
    let width = raster_width(data);
    lemma_part_start(data.len(), i, n);
    lemma_part_start(width, j, n);
    let y = part_start(data.len(), i, n) + r;
    let x = part_start(width, j, n);
    let row = data[y];
    assert(row.len() == width);
    assert(child_raster::<D>(data, i, j)[r] =~= row.subrange(x, part_start(width, j + 1, n)));
}

/// The first `k` parts of a pixel row, laid end to end, are the row up to
/// where part `k` begins.
proof fn lemma_parts_row<D: Dataset>(data: Seq<Seq<D::Type>>, i: int, r: int, k: nat)
    requires
        valid_dataset::<D>(),
        rectangular(data),
        0 <= i < D::CHILDREN_PER_AXIS,
        0 <= r < part_len(data.len(), i, D::CHILDREN_PER_AXIS as nat),
        k <= D::CHILDREN_PER_AXIS,
    ensures
        0 <= part_start(data.len(), i, D::CHILDREN_PER_AXIS as nat) + r < data.len(),
        0 <= part_start(raster_width(data), k as int, D::CHILDREN_PER_AXIS as nat)
            <= raster_width(data),
        stitched_row(parts::<D>(data)[i], r, k) == data[part_start(
            data.len(),
            i,
            D::CHILDREN_PER_AXIS as nat,
        ) + r].subrange(
            0,
            part_start(raster_width(data), k as int, D::CHILDREN_PER_AXIS as nat),
        ),
    decreases k,
{
    let n = D::CHILDREN_PER_AXIS as nat;
    let width = raster_width(data);
    lemma_part_start(data.len(), i, n);
    lemma_part_start(width, 0, n);
    let row = data[part_start(data.len(), i, n) + r];
    assert(row.len() == width);
    if k == 0 {
        assert(stitched_row(parts::<D>(data)[i], r, 0) =~= row.subrange(0, 0));
    } else {
        let j = k - 1;
        lemma_parts_row::<D>(data, i, r, j as nat);
        lemma_part_start(width, j, n);
        lemma_part_row::<D>(data, i, j, r);
        assert(parts::<D>(data)[i][j] == child_raster::<D>(data, i, j));
        assert(tile_row(parts::<D>(data)[i], j, r) == child_raster::<D>(data, i, j)[r]);
        assert(row.subrange(0, part_start(width, j, n)) + row.subrange(
            part_start(width, j, n),
            part_start(width, j + 1, n),
        ) =~= row.subrange(0, part_start(width, j + 1, n)));
    }
}

/// The band of a row of parts is the stretch of the raster that the row was
/// cut from.
proof fn lemma_parts_band<D: Dataset>(data: Seq<Seq<D::Type>>, i: int)
    requires
        valid_dataset::<D>(),
        rectangular(data),
        0 <= i < D::CHILDREN_PER_AXIS,
    ensures
        0 <= part_start(data.len(), i, D::CHILDREN_PER_AXIS as nat) <= part_start(
            data.len(),
            i + 1,
            D::CHILDREN_PER_AXIS as nat,
        ) <= data.len(),
        band(parts::<D>(data)[i]) == data.subrange(
            part_start(data.len(), i, D::CHILDREN_PER_AXIS as nat),
            part_start(data.len(), i + 1, D::CHILDREN_PER_AXIS as nat),
        ),
{
    let n = D::CHILDREN_PER_AXIS as nat;
    let tiles = parts::<D>(data)[i];
    let from = part_start(data.len(), i, n);
    let to = part_start(data.len(), i + 1, n);
    lemma_part_start(data.len(), i, n);
    assert(tiles[0] == child_raster::<D>(data, i, 0));
    assert(band_height(tiles) == part_len(data.len(), i, n));
    assert forall|r: int| 0 <= r < band_height(tiles) implies band(tiles)[r] == data.subrange(
        from,
        to,
    )[r] by {
        lemma_parts_row::<D>(data, i, r, n);
        assert(data[from + r].len() == raster_width(data));
        assert(data[from + r].subrange(0, raster_width(data) as int) =~= data[from + r]);
    }
    assert(band(tiles) =~= data.subrange(from, to));
}

/// The bands of the first `k` rows of parts, one below the other, are the
/// raster down to where row `k` begins.
proof fn lemma_parts_bands<D: Dataset>(data: Seq<Seq<D::Type>>, k: nat)
    requires
        valid_dataset::<D>(),
        rectangular(data),
        k <= D::CHILDREN_PER_AXIS,
    ensures
        0 <= part_start(data.len(), k as int, D::CHILDREN_PER_AXIS as nat) <= data.len(),
        joined(bands(parts::<D>(data)), k) == data.subrange(
            0,
            part_start(data.len(), k as int, D::CHILDREN_PER_AXIS as nat),
        ),
    decreases k,
{
    let n = D::CHILDREN_PER_AXIS as nat;
    lemma_part_start(data.len(), 0, n);
    if k == 0 {
        assert(joined(bands(parts::<D>(data)), 0) =~= data.subrange(0, 0));
    } else {
        let i = k - 1;
        lemma_parts_bands::<D>(data, i as nat);
        lemma_parts_band::<D>(data, i);
        assert(bands(parts::<D>(data))[i] == band(parts::<D>(data)[i]));
        assert(data.subrange(0, part_start(data.len(), i, n)) + data.subrange(
            part_start(data.len(), i, n),
            part_start(data.len(), i + 1, n),
        ) =~= data.subrange(0, part_start(data.len(), i + 1, n)));
    }
}

/// The parts that a raster with rows of one width is cut into, stitched
/// together, are the raster: no pixel row and no pixel is lost or moved.
pub proof fn lemma_stitched_parts<D: Dataset>(data: Seq<Seq<D::Type>>)
    requires
        valid_dataset::<D>(),
        rectangular(data),
    ensures
        spec_flatten(parts::<D>(data)) == data,
{
    lemma_parts_bands::<D>(data, D::CHILDREN_PER_AXIS as nat);
    assert(data.subrange(0, data.len() as int) =~= data);
}

} // verus!
