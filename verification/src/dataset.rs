//! What a data source has to supply for a pyramid to be built from it and
//! queried.

use crate::bounds::Bounds;
use crate::scalar::Scalar;
use vstd::prelude::*;

verus! {

/// A raster: rows of pixels, the first row northernmost.
pub type Tile<T> = Vec<Vec<T>>;

/// The pixels of a raster as nested sequences.
pub open spec fn grid<T>(tile: Vec<Vec<T>>) -> Seq<Seq<T>> {
    Seq::new(tile.len() as nat, |i: int| tile[i]@)
}

/// The first `k` rows laid end to end.
pub open spec fn joined<T>(rows: Seq<Seq<T>>, k: nat) -> Seq<T>
    decreases k,
{
    if k == 0 {
        Seq::empty()
    } else {
        joined(rows, (k - 1) as nat) + rows[k - 1]
    }
}

/// A source of raster data together with the policy by which its pixels are
/// shrunk and summarised.
pub trait Dataset {
    /// The type of a pixel.
    type Type: Scalar;

    /// The type of a summary over a region.
    type AggregateType: Scalar;

    /// The largest width and height that a leaf stores directly.
    const TILE_SIZE: u32;

    /// The number of children of a node along each axis.
    const CHILDREN_PER_AXIS: usize;

    /// The deepest level that the source is meant to be queried at.
    const MAX_LEVEL: u32;

    /// The summary of a run of pixels, if the source has one. A source
    /// that does not say has none.
    open spec fn spec_aggregate(values: Seq<Self::Type>) -> Option<Self::AggregateType> {
        None
    }

    /// The summary that several summaries reduce to, if the source has one.
    /// A source that does not say has none.
    open spec fn spec_aggregate2(values: Seq<Self::AggregateType>) -> Option<
        Self::AggregateType,
    > {
        None
    }

    /// The raster that a larger raster shrinks to. A source that does not
    /// say leaves this open.
    open spec fn spec_downsample(data: Seq<Seq<Self::Type>>) -> Seq<Seq<Self::Type>> {
        arbitrary()
    }

    /// The pixel that stands for "no data". A source that does not say
    /// leaves this open.
    open spec fn spec_default() -> Self::Type {
        arbitrary()
    }

    /// The source raster. A source that does not say leaves this open.
    open spec fn spec_data(&self) -> Seq<Seq<Self::Type>> {
        arbitrary()
    }

    /// The region that the source raster covers. A source that does not say
    /// leaves this open.
    open spec fn spec_bounds(&self) -> Bounds {
        arbitrary()
    }

    /// Summarises the pixels of a leaf.
    fn aggregate(values: &[Self::Type]) -> (r: Option<Self::AggregateType>)
        ensures
            r == Self::spec_aggregate(values@),
    ;

    /// Reduces several summaries to one.
    fn aggregate2(values: &[Self::AggregateType]) -> (r: Option<Self::AggregateType>)
        ensures
            r == Self::spec_aggregate2(values@),
    ;

    /// Shrinks a raster to the size of a leaf tile.
    fn downsample(data: &Tile<Self::Type>) -> (r: Tile<Self::Type>)
        ensures
            grid(r) == Self::spec_downsample(grid(*data)),
            r.len() == Self::TILE_SIZE,
            forall|i: int| 0 <= i < r.len() ==> (#[trigger] r[i]).len() == Self::TILE_SIZE,
    ;

    /// The pixel that stands for "no data".
    fn default() -> (r: Self::Type)
        ensures
            r == Self::spec_default(),
    ;

    /// The source raster.
    fn data(&self) -> (r: Tile<Self::Type>)
        ensures
            grid(r) == self.spec_data(),
    ;

    /// The region that the source raster covers.
    fn bounds(&self) -> (r: Bounds)
        ensures
            r == self.spec_bounds(),
            r.wf(),
    ;
}

/// The constants of a source allow a pyramid to be built: a node has at
/// least two children along each axis, and a raster too large for a leaf has
/// at least one row or column for each of them.
pub open spec fn valid_dataset<D: Dataset>() -> bool {
    2 <= D::CHILDREN_PER_AXIS <= D::TILE_SIZE + 1
}

} // verus!
