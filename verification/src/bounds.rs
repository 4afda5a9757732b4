//! Axis-aligned rectangles in longitude/latitude space and the regions a
//! query can be made with.
//!
//! Coordinates are fixed-point integers (for instance degrees times 10^7), so
//! that every comparison and every interpolation is exact.

use geo::{Contains, Intersects};
use vstd::prelude::*;

verus! {

/// An axis-aligned rectangle, given by its minimum and its maximum corner.
#[derive(Clone, Copy, Debug, PartialEq, Eq, Structural)]
pub struct Bounds {
    pub min_x: i32,
    pub min_y: i32,
    pub max_x: i32,
    pub max_y: i32,
}

/// A shape that a query can be made with: anything that can say whether it
/// fully covers a rectangle and whether it touches one.
pub trait Region {
    /// Whether the region covers all of `bounds`. A region that does not
    /// say leaves this open.
    open spec fn covers(&self, bounds: Bounds) -> bool {
        arbitrary()
    }

    /// Whether the region and `bounds` have a point in common. A region
    /// that does not say leaves this open.
    open spec fn touches(&self, bounds: Bounds) -> bool {
        arbitrary()
    }

    fn contains(&self, bounds: &Bounds) -> (r: bool)
        ensures
            r == self.covers(*bounds),
    ;

    fn intersects(&self, bounds: &Bounds) -> (r: bool)
        ensures
            r == self.touches(*bounds),
    ;
}

/// The cut between part `k` and part `k + 1` when the span from `lo` to `hi`
/// is divided into `n` parts: `lo` for `k == 0`, `hi` for `k == n`.
pub open spec fn cut(lo: int, hi: int, k: int, n: int) -> int {
    lo + (k * (hi - lo)) / n
}

pub proof fn lemma_cut_bounds(lo: int, hi: int, k: int, n: int)
    requires
        lo <= hi,
        0 <= k <= n,
        0 < n,
    ensures
        lo <= cut(lo, hi, k, n) <= hi,
        k == 0 ==> cut(lo, hi, k, n) == lo,
        k == n ==> cut(lo, hi, k, n) == hi,
{
    let w = hi - lo;
    assert(0 <= k * w <= n * w) by (nonlinear_arith)
        requires
            0 <= k <= n,
            0 <= w,
    ;
    assert(0 <= (k * w) / n <= w) by (nonlinear_arith)
        requires
            0 <= k * w <= n * w,
            0 < n,
    ;
    if k == 0 {
        assert(k * w == 0) by (nonlinear_arith)
            requires
                k == 0,
        ;
    }
    if k == n {
        assert((n * w) / n == w) by (nonlinear_arith)
            requires
                0 < n,
        ;
    }
}

/// The cuts grow with `k`: parts never overlap by more than their shared edge.
pub proof fn lemma_cut_monotone(lo: int, hi: int, j: int, k: int, n: int)
    requires
        lo <= hi,
        0 <= j <= k,
        0 < n,
    ensures
        cut(lo, hi, j, n) <= cut(lo, hi, k, n),
{
    let w = hi - lo;
    assert(j * w <= k * w) by (nonlinear_arith)
        requires
            0 <= j <= k,
            0 <= w,
    ;
    assert((j * w) / n <= (k * w) / n) by (nonlinear_arith)
        requires
            j * w <= k * w,
            0 < n,
    ;
}

/// A cell of a well-formed rectangle is well formed and lies within it.
pub proof fn lemma_cell(bounds: Bounds, row: int, col: int, n: int)
    requires
        bounds.wf(),
        0 <= row < n,
        0 <= col < n,
    ensures
        bounds.cell(row, col, n).wf(),
        bounds.encloses(bounds.cell(row, col, n)),
        bounds.cell(row, col, n).min_x == cut(bounds.min_x as int, bounds.max_x as int, col, n),
        bounds.cell(row, col, n).max_x == cut(
            bounds.min_x as int,
            bounds.max_x as int,
            col + 1,
            n,
        ),
        bounds.cell(row, col, n).min_y == bounds.max_y + bounds.min_y - cut(
            bounds.min_y as int,
            bounds.max_y as int,
            row + 1,
            n,
        ),
        bounds.cell(row, col, n).max_y == bounds.max_y + bounds.min_y - cut(
            bounds.min_y as int,
            bounds.max_y as int,
            row,
            n,
        ),
{
    lemma_cut_bounds(bounds.min_x as int, bounds.max_x as int, col, n);
    lemma_cut_bounds(bounds.min_x as int, bounds.max_x as int, col + 1, n);
    lemma_cut_bounds(bounds.min_y as int, bounds.max_y as int, row, n);
    lemma_cut_bounds(bounds.min_y as int, bounds.max_y as int, row + 1, n);
    lemma_cut_monotone(bounds.min_x as int, bounds.max_x as int, col, col + 1, n);
    lemma_cut_monotone(bounds.min_y as int, bounds.max_y as int, row, row + 1, n);
}

fn cut_exec(lo: i32, hi: i32, k: usize, n: usize) -> (r: i32)
    requires
        lo <= hi,
        k <= n,
        0 < n,
    ensures
        r == cut(lo as int, hi as int, k as int, n as int),
{
    proof {
        lemma_cut_bounds(lo as int, hi as int, k as int, n as int);
    }
    let width: i128 = hi as i128 - lo as i128;
    assert(0 <= (k as int) * (width as int) <= 0xffff_ffff_ffff_ffff * 0xffff_ffff)
        by (nonlinear_arith)
        requires
            0 <= k <= 0xffff_ffff_ffff_ffff,
            0 <= width <= 0xffff_ffff,
    ;
    let scaled: i128 = (k as i128) * width;
    let step: i128 = scaled / (n as i128);
    (lo as i128 + step) as i32
}

impl Bounds {
    /// The minimum corner is not beyond the maximum corner.
    pub open spec fn wf(self) -> bool {
        self.min_x <= self.max_x && self.min_y <= self.max_y
    }

    /// The rectangle spanned by two opposite corners, given in any order.
    pub open spec fn spanning(x1: i32, y1: i32, x2: i32, y2: i32) -> Bounds {
        Bounds {
            min_x: if x1 < x2 { x1 } else { x2 },
            min_y: if y1 < y2 { y1 } else { y2 },
            max_x: if x1 < x2 { x2 } else { x1 },
            max_y: if y1 < y2 { y2 } else { y1 },
        }
    }

    /// Whether the two rectangles share at least one point (edges count).
    pub open spec fn overlaps(self, other: Bounds) -> bool {
        &&& self.max_x >= other.min_x
        &&& self.max_y >= other.min_y
        &&& self.min_x <= other.max_x
        &&& self.min_y <= other.max_y
    }

    /// Whether `other` lies within this rectangle (edges may coincide).
    pub open spec fn encloses(self, other: Bounds) -> bool {
        &&& self.min_x <= other.min_x
        &&& self.max_x >= other.max_x
        &&& self.min_y <= other.min_y
        &&& self.max_y >= other.max_y
    }

    /// The part of this rectangle that belongs to the child in row `row` and
    /// column `col` of an `n` by `n` grid. Row 0 is the northernmost (highest
    /// `y`), column 0 the westernmost (lowest `x`).
    pub open spec fn cell(self, row: int, col: int, n: int) -> Bounds {
        Bounds {
            min_x: cut(self.min_x as int, self.max_x as int, col, n) as i32,
            max_x: cut(self.min_x as int, self.max_x as int, col + 1, n) as i32,
            min_y: (self.max_y + self.min_y - cut(
                self.min_y as int,
                self.max_y as int,
                row + 1,
                n,
            )) as i32,
            max_y: (self.max_y + self.min_y - cut(
                self.min_y as int,
                self.max_y as int,
                row,
                n,
            )) as i32,
        }
    }

    pub fn is_wf(&self) -> (r: bool)
        ensures
            r == self.wf(),
    {
        self.min_x <= self.max_x && self.min_y <= self.max_y
    }

    pub fn new(x1: i32, y1: i32, x2: i32, y2: i32) -> (r: Bounds)
        ensures
            r == Bounds::spanning(x1, y1, x2, y2),
            r.wf(),
    {
        Bounds {
            min_x: if x1 < x2 { x1 } else { x2 },
            min_y: if y1 < y2 { y1 } else { y2 },
            max_x: if x1 < x2 { x2 } else { x1 },
            max_y: if y1 < y2 { y2 } else { y1 },
        }
    }

    /// The bounds of the child in row `row` and column `col` of an `n` by `n`
    /// grid laid over this rectangle.
    pub fn child(&self, row: usize, col: usize, n: usize) -> (r: Bounds)
        requires
            self.wf(),
            row < n,
            col < n,
        ensures
            r == self.cell(row as int, col as int, n as int),
            r.wf(),
            self.encloses(r),
    {
        proof {
            lemma_cut_bounds(self.min_x as int, self.max_x as int, col as int, n as int);
            lemma_cut_bounds(self.min_x as int, self.max_x as int, col + 1, n as int);
            lemma_cut_bounds(self.min_y as int, self.max_y as int, row as int, n as int);
            lemma_cut_bounds(self.min_y as int, self.max_y as int, row + 1, n as int);
            lemma_cell(*self, row as int, col as int, n as int);
        }
        let west: i32 = cut_exec(self.min_x, self.max_x, col, n);
        let east: i32 = cut_exec(self.min_x, self.max_x, col + 1, n);
        let upper: i32 = cut_exec(self.min_y, self.max_y, row, n);
        let lower: i32 = cut_exec(self.min_y, self.max_y, row + 1, n);
        let span: i64 = self.max_y as i64 + self.min_y as i64;
        Bounds {
            min_x: west,
            max_x: east,
            min_y: (span - lower as i64) as i32,
            max_y: (span - upper as i64) as i32,
        }
    }
}

/// Calls `Rect::intersects` of geo on the two rectangles: true unless one
/// lies wholly to one side of the other.
#[verifier::external_body]
fn rect_intersects(a: &Bounds, b: &Bounds) -> (r: bool)
    requires
        a.wf(),
        b.wf(),
    ensures
        r == a.overlaps(*b),
{
    let a = geo::Rect::new(
        geo::Coord { x: a.min_x, y: a.min_y },
        geo::Coord { x: a.max_x, y: a.max_y },
    );
    let b = geo::Rect::new(
        geo::Coord { x: b.min_x, y: b.min_y },
        geo::Coord { x: b.max_x, y: b.max_y },
    );
    a.intersects(&b)
}

/// Calls `Rect::contains` of geo on the two rectangles: true when no edge of
/// the second lies outside the first.
#[verifier::external_body]
fn rect_contains(a: &Bounds, b: &Bounds) -> (r: bool)
    requires
        a.wf(),
        b.wf(),
    ensures
        r == a.encloses(*b),
{
    let a = geo::Rect::new(
        geo::Coord { x: a.min_x, y: a.min_y },
        geo::Coord { x: a.max_x, y: a.max_y },
    );
    let b = geo::Rect::new(
        geo::Coord { x: b.min_x, y: b.min_y },
        geo::Coord { x: b.max_x, y: b.max_y },
    );
    a.contains(&b)
}

/// A rectangle used as a query region. A rectangle that is not well formed
/// neither covers nor touches anything, nor is it covered or touched.
impl Region for Bounds {
    open spec fn covers(&self, bounds: Bounds) -> bool {
        self.wf() && bounds.wf() && self.encloses(bounds)
    }

    open spec fn touches(&self, bounds: Bounds) -> bool {
        self.wf() && bounds.wf() && self.overlaps(bounds)
    }

    fn contains(&self, bounds: &Bounds) -> (r: bool) {
        if self.is_wf() && bounds.is_wf() {
            rect_contains(self, bounds)
        } else {
            false
        }
    }

    fn intersects(&self, bounds: &Bounds) -> (r: bool) {
        if self.is_wf() && bounds.is_wf() {
            rect_intersects(self, bounds)
        } else {
            false
        }
    }
}

} // verus!
