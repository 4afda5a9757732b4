//! The bytes of a tile file.
//!
//! Every value starts at a multiple of its type's alignment, counted from
//! the start of the file; the gap before it is filled with zero bytes. A
//! sequence is stored as its length, a 64-bit number, followed by its
//! elements. An optional value is stored as one byte, 1 or 0, followed by the
//! value where there is one.

use crate::bounds::Bounds;
use crate::scalar::Scalar;
use vstd::layout::{align_of, size_of};
use vstd::prelude::*;

verus! {

/// The number of bytes to skip at `position` to reach a multiple of `align`.
pub open spec fn padding_for(position: nat, align: nat) -> nat {
    if position % align == 0 {
        0
    } else {
        (align - position % align) as nat
    }
}

/// A run of `n` zero bytes.
pub open spec fn zeros(n: nat) -> Seq<u8> {
    Seq::new(n, |i: int| 0u8)
}

/// One value written at `position`: padding, then its bytes.
pub open spec fn scalar_bytes<T: Scalar>(position: nat, value: T) -> Seq<u8> {
    zeros(padding_for(position, align_of::<T>())) + value.bytes()
}

/// The bytes of the first `k` values, with nothing between them.
pub open spec fn run_bytes<T: Scalar>(values: Seq<T>, k: nat) -> Seq<u8>
    decreases k,
{
    if k == 0 {
        Seq::empty()
    } else {
        run_bytes(values, (k - 1) as nat) + values[k - 1].bytes()
    }
}

/// A run of values written at `position`: padding, then their bytes.
pub open spec fn slice_bytes<T: Scalar>(position: nat, values: Seq<T>) -> Seq<u8> {
    zeros(padding_for(position, align_of::<T>())) + run_bytes(values, values.len())
}

/// A sequence of values written at `position`: its length, then the values.
pub open spec fn row_bytes<T: Scalar>(position: nat, values: Seq<T>) -> Seq<u8> {
    let head = scalar_bytes::<u64>(position, values.len() as u64);
    head + slice_bytes(position + head.len(), values)
}

/// The first `k` rows written one after another from `position` on.
pub open spec fn rows_bytes<T: Scalar>(position: nat, rows: Seq<Seq<T>>, k: nat) -> Seq<u8>
    decreases k,
{
    if k == 0 {
        Seq::empty()
    } else {
        let before = rows_bytes(position, rows, (k - 1) as nat);
        before + row_bytes(position + before.len(), rows[k - 1])
    }
}

/// A grid of values written at `position`: the number of rows, then each
/// row.
pub open spec fn grid_bytes<T: Scalar>(position: nat, rows: Seq<Seq<T>>) -> Seq<u8> {
    let head = scalar_bytes::<u64>(position, rows.len() as u64);
    head + rows_bytes(position + head.len(), rows, rows.len())
}

/// An optional value written at `position`.
pub open spec fn option_scalar_bytes<T: Scalar>(position: nat, value: Option<T>) -> Seq<u8> {
    match value {
        Some(v) => {
            let head = scalar_bytes::<u8>(position, 1u8);
            head + scalar_bytes(position + head.len(), v)
        },
        None => scalar_bytes::<u8>(position, 0u8),
    }
}

/// An optional grid written at `position`.
pub open spec fn option_grid_bytes<T: Scalar>(position: nat, value: Option<Seq<Seq<T>>>) -> Seq<
    u8,
> {
    match value {
        Some(v) => {
            let head = scalar_bytes::<u8>(position, 1u8);
            head + grid_bytes(position + head.len(), v)
        },
        None => scalar_bytes::<u8>(position, 0u8),
    }
}

/// A rectangle written at `position`: the minimum corner, then the maximum
/// corner, each as `x` and `y`.
pub open spec fn bounds_bytes(position: nat, bounds: Bounds) -> Seq<u8> {
    let a = scalar_bytes(position, bounds.min_x);
    let b = scalar_bytes(position + a.len(), bounds.min_y);
    let c = scalar_bytes(position + a.len() + b.len(), bounds.max_x);
    let d = scalar_bytes(position + a.len() + b.len() + c.len(), bounds.max_y);
    a + b + c + d
}

/// The header of a node written at `position`: its bounds, then the offsets
/// of its children.
pub open spec fn header_bytes(position: nat, bounds: Bounds, pointers: Seq<Seq<u64>>) -> Seq<u8> {
    let a = bounds_bytes(position, bounds);
    a + grid_bytes(position + a.len(), pointers)
}

/// The payload of a node written at `position`: its aggregate, then its
/// tile.
pub open spec fn payload_bytes<T: Scalar, U: Scalar>(
    position: nat,
    aggregate: Option<U>,
    data: Option<Seq<Seq<T>>>,
) -> Seq<u8> {
    let a = option_scalar_bytes(position, aggregate);
    a + option_grid_bytes(position + a.len(), data)
}

/// A run of values takes the size of one value for each.
pub proof fn lemma_run_bytes_len<T: Scalar>(values: Seq<T>, k: nat)
    requires
        k <= values.len(),
    ensures
        run_bytes(values, k).len() == k * size_of::<T>(),
    decreases k,
{
    if k > 0 {
        lemma_run_bytes_len(values, (k - 1) as nat);
        T::lemma_bytes(values[k - 1]);
        assert((k - 1) * size_of::<T>() + size_of::<T>() == k * size_of::<T>())
            by (nonlinear_arith);
    } else {
        assert(0 * size_of::<T>() == 0) by (nonlinear_arith);
    }
}

/// The value of type `T` that is read at `position`, behind its padding,
/// and the position behind it; nothing where the bytes end before it does.
pub open spec fn scalar_at<T: Scalar>(bytes: Seq<u8>, position: nat) -> Option<(T, nat)> {
    let at = position + padding_for(position, align_of::<T>());
    if at + size_of::<T>() <= bytes.len() {
        Some(
            (
                T::from_bytes(bytes.subrange(at as int, (at + size_of::<T>()) as int)),
                at + size_of::<T>(),
            ),
        )
    } else {
        None
    }
}

/// The `count` values that lie one after another from `at` on.
pub open spec fn run_at<T: Scalar>(bytes: Seq<u8>, at: nat, count: nat) -> Seq<T> {
    Seq::new(
        count,
        |i: int|
            T::from_bytes(bytes.subrange(at + i * size_of::<T>(), at + (i + 1) * size_of::<T>())),
    )
}

/// The `count` values that are read at `position`, behind their padding.
pub open spec fn slice_at<T: Scalar>(bytes: Seq<u8>, position: nat, count: nat) -> Option<
    (Seq<T>, nat),
> {
    let at = position + padding_for(position, align_of::<T>());
    if at + count * size_of::<T>() <= bytes.len() {
        Some((run_at(bytes, at, count), at + count * size_of::<T>()))
    } else {
        None
    }
}

/// The sequence that is read at `position`: its length, then its values.
pub open spec fn row_at<T: Scalar>(bytes: Seq<u8>, position: nat) -> Option<(Seq<T>, nat)> {
    match scalar_at::<u64>(bytes, position) {
        Some((count, next)) => slice_at::<T>(bytes, next, count as nat),
        None => None,
    }
}

/// The `count` sequences that are read one after another at `position`.
pub open spec fn rows_at<T: Scalar>(bytes: Seq<u8>, position: nat, count: nat) -> Option<
    (Seq<Seq<T>>, nat),
>
    decreases count,
{
    if count == 0 {
        Some((Seq::empty(), position))
    } else {
        match rows_at::<T>(bytes, position, (count - 1) as nat) {
            Some((rows, next)) => match row_at::<T>(bytes, next) {
                Some((row, end)) => Some((rows.push(row), end)),
                None => None,
            },
            None => None,
        }
    }
}

/// The grid that is read at `position`: the number of rows, then each row.
pub open spec fn grid_at<T: Scalar>(bytes: Seq<u8>, position: nat) -> Option<(Seq<Seq<T>>, nat)> {
    match scalar_at::<u64>(bytes, position) {
        Some((count, next)) => rows_at::<T>(bytes, next, count as nat),
        None => None,
    }
}

/// The flag of an optional value that is read at `position`: whether a
/// value follows (the byte is 1), and the position behind the flag.
pub open spec fn flag_at(bytes: Seq<u8>, position: nat) -> Option<(bool, nat)> {
    match scalar_at::<u8>(bytes, position) {
        Some((flag, next)) => Some((flag == 1u8, next)),
        None => None,
    }
}

/// The optional value that is read at `position`.
pub open spec fn option_scalar_at<T: Scalar>(bytes: Seq<u8>, position: nat) -> Option<
    (Option<T>, nat),
> {
    match flag_at(bytes, position) {
        Some((true, next)) => match scalar_at::<T>(bytes, next) {
            Some((v, end)) => Some((Some(v), end)),
            None => None,
        },
        Some((false, next)) => Some((None, next)),
        None => None,
    }
}

/// The optional grid that is read at `position`.
pub open spec fn option_grid_at<T: Scalar>(bytes: Seq<u8>, position: nat) -> Option<
    (Option<Seq<Seq<T>>>, nat),
> {
    match flag_at(bytes, position) {
        Some((true, next)) => match grid_at::<T>(bytes, next) {
            Some((v, end)) => Some((Some(v), end)),
            None => None,
        },
        Some((false, next)) => Some((None, next)),
        None => None,
    }
}

/// The rectangle that is read at `position`. Its corners are put in order.
pub open spec fn bounds_at(bytes: Seq<u8>, position: nat) -> Option<(Bounds, nat)> {
    match scalar_at::<i32>(bytes, position) {
        Some((x1, a)) => match scalar_at::<i32>(bytes, a) {
            Some((y1, b)) => match scalar_at::<i32>(bytes, b) {
                Some((x2, c)) => match scalar_at::<i32>(bytes, c) {
                    Some((y2, d)) => Some((Bounds::spanning(x1, y1, x2, y2), d)),
                    None => None,
                },
                None => None,
            },
            None => None,
        },
        None => None,
    }
}

} // verus!
