//! Reading values out of the bytes of a tile file.

pub mod iterators;
pub mod reader;
pub mod tree;

use crate::bounds::Bounds;
use crate::dataset::grid;
use crate::format::{
    bounds_at, flag_at, grid_at, padding_for, row_at, rows_at, run_at, scalar_at, slice_at,
};
use crate::scalar::Scalar;
use vstd::layout::{align_nonzero, align_of, size_of};
use vstd::prelude::*;
use vstd::slice::slice_subrange;

verus! {

/// The bytes of a file together with the position of the next byte to read.
#[derive(Clone, Copy)]
pub struct AlignedReader<'a> {
    inner: &'a [u8],
    position: usize,
}

/// The state of a reader.
pub ghost struct ReaderState {
    pub bytes: Seq<u8>,
    pub position: nat,
}

impl<'a> View for AlignedReader<'a> {
    type V = ReaderState;

    closed spec fn view(&self) -> ReaderState {
        ReaderState { bytes: self.inner@, position: self.position as nat }
    }
}

/// What reading does: the bytes stay, and where a value lies at the old
/// position the reader hands it out and stands behind it. Where none lies
/// there, nothing is handed out.
pub open spec fn decoded<M>(
    before: ReaderState,
    now: ReaderState,
    expected: Option<(M, nat)>,
    got: Option<M>,
) -> bool {
    &&& now.bytes == before.bytes
    &&& match expected {
        Some((value, next)) => got == Some(value) && now.position == next,
        None => got is None,
    }
}

/// A value that can be read out of a tile file.
pub trait Deserialize: Sized {
    /// What the value is, as a mathematical value.
    type Model;

    spec fn model(&self) -> Self::Model;

    /// The value that lies at `position` in `bytes`, and the position
    /// behind it.
    spec fn decoding(bytes: Seq<u8>, position: nat) -> Option<(Self::Model, nat)>;

    fn deserialize(reader: &mut AlignedReader<'_>) -> (r: Option<Self>)
        ensures
            decoded(
                old(reader)@,
                final(reader)@,
                Self::decoding(old(reader)@.bytes, old(reader)@.position),
                match r {
                    Some(v) => Some(v.model()),
                    None => None,
                },
            ),
    ;
}

impl<'a> AlignedReader<'a> {
    /// A reader at the start of `inner`.
    pub fn new(inner: &'a [u8]) -> (r: Self)
        ensures
            r@.bytes == inner@,
            r@.position == 0,
    {
        AlignedReader { inner, position: 0 }
    }

    /// A reader over the same bytes that stands at `position`.
    pub fn at(inner: &'a [u8], position: usize) -> (r: Self)
        ensures
            r@.bytes == inner@,
            r@.position == position,
    {
        AlignedReader { inner, position }
    }

    /// The position of the next byte to read.
    pub fn position(&self) -> (r: usize)
        ensures
            r == self@.position,
    {
        self.position
    }

    /// A reader never holds more bytes than can be counted.
    pub proof fn lemma_bounded(&self)
        ensures
            self@.bytes.len() <= usize::MAX,
    {
        vstd::slice::axiom_spec_len(self.inner);
    }

    /// The number of bytes to skip so that a `T` starts at a multiple of
    /// its alignment.
    pub fn padding<T>(&self) -> (r: usize)
        ensures
            r == padding_for(self@.position, align_of::<T>()),
            r < align_of::<T>(),
    {
        proof {
            broadcast use align_nonzero;

        }
        let alignment: usize = std::mem::align_of::<T>();
        let remainder: usize = self.position % alignment;
        if remainder == 0 {
            0
        } else {
            alignment - remainder
        }
    }

    /// Reads one value behind its padding. Where the bytes end before the
    /// value does, the reader stays where it is.
    pub fn read<T>(&mut self) -> (r: Option<T>) where T: Scalar
        ensures
            decoded(
                old(self)@,
                final(self)@,
                scalar_at::<T>(old(self)@.bytes, old(self)@.position),
                r,
            ),
            r is None ==> final(self)@ == old(self)@,
    {
        let padding: usize = self.padding::<T>();
        let size: usize = std::mem::size_of::<T>();
        let len: usize = self.inner.len();
        if self.position > len || padding > len - self.position {
            return None;
        }
        let at: usize = self.position + padding;
        if size > len - at {
            return None;
        }
        let value = T::read(slice_subrange(self.inner, at, at + size));
        self.position = at + size;
        Some(value)
    }

    /// Reads `count` values that lie one after another behind their
    /// padding. Where the bytes end before the values do, the reader stays
    /// where it is.
    pub fn read_slice<T>(&mut self, count: usize) -> (r: Option<Vec<T>>) where T: Scalar
        ensures
            decoded(
                old(self)@,
                final(self)@,
                slice_at::<T>(old(self)@.bytes, old(self)@.position, count as nat),
                match r {
                    Some(v) => Some(v@),
                    None => None,
                },
            ),
            r is None ==> final(self)@ == old(self)@,
    {
        let padding: usize = self.padding::<T>();
        let size: usize = std::mem::size_of::<T>();
        let len: usize = self.inner.len();
        if self.position > len || padding > len - self.position {
            return None;
        }
        let at: usize = self.position + padding;
        let total = match count.checked_mul(size) {
            Some(n) => n,
            None => {
                return None;
            },
        };
        if total > len - at {
            return None;
        }
        let mut values: Vec<T> = Vec::new();
        let mut i: usize = 0;
        while i < count
            invariant
                i <= count,
                size == size_of::<T>(),
                total == count * size,
                at + total <= len,
                len == self.inner@.len(),
                values@ == run_at::<T>(self.inner@, at as nat, i as nat),
            decreases count - i,
        {
            proof {
                assert(i * size + size <= count * size) by (nonlinear_arith)
                    requires
                        i + 1 <= count,
                        size >= 0,
                ;
                assert((i + 1) * size == i * size + size) by (nonlinear_arith);
            }
            let from: usize = at + i * size;
            let value = T::read(slice_subrange(self.inner, from, from + size));
            values.push(value);
            i += 1;
            assert(values@ =~= run_at::<T>(self.inner@, at as nat, i as nat));
        }
        self.position = at + total;
        Some(values)
    }
}

impl<T: Scalar> Deserialize for T {
    type Model = T;

    open spec fn model(&self) -> T {
        *self
    }

    open spec fn decoding(bytes: Seq<u8>, position: nat) -> Option<(T, nat)> {
        scalar_at::<T>(bytes, position)
    }

    fn deserialize(reader: &mut AlignedReader<'_>) -> (r: Option<Self>) {
        reader.read::<T>()
    }
}

impl Deserialize for Bounds {
    type Model = Bounds;

    open spec fn model(&self) -> Bounds {
        *self
    }

    open spec fn decoding(bytes: Seq<u8>, position: nat) -> Option<(Bounds, nat)> {
        bounds_at(bytes, position)
    }

    fn deserialize(reader: &mut AlignedReader<'_>) -> (r: Option<Self>) {
        let x1 = reader.read::<i32>()?;
        let y1 = reader.read::<i32>()?;
        let x2 = reader.read::<i32>()?;
        let y2 = reader.read::<i32>()?;
        Some(Bounds::new(x1, y1, x2, y2))
    }
}

impl<T: Scalar> Deserialize for Vec<T> {
    type Model = Seq<T>;

    open spec fn model(&self) -> Seq<T> {
        self@
    }

    open spec fn decoding(bytes: Seq<u8>, position: nat) -> Option<(Seq<T>, nat)> {
        row_at::<T>(bytes, position)
    }

    fn deserialize(reader: &mut AlignedReader<'_>) -> (r: Option<Self>) {
        let count = reader.read::<u64>()?;
        if count > usize::MAX as u64 {
            proof {
                T::lemma_bytes(arbitrary());
                reader.lemma_bounded();
                assert(count * size_of::<T>() >= count) by (nonlinear_arith)
                    requires
                        size_of::<T>() >= 1,
                        count >= 0,
                ;
            }
            return None;
        }
        reader.read_slice::<T>(count as usize)
    }
}

impl<T: Scalar> Deserialize for Vec<Vec<T>> {
    type Model = Seq<Seq<T>>;

    open spec fn model(&self) -> Seq<Seq<T>> {
        grid(*self)
    }

    open spec fn decoding(bytes: Seq<u8>, position: nat) -> Option<(Seq<Seq<T>>, nat)> {
        grid_at::<T>(bytes, position)
    }

    fn deserialize(reader: &mut AlignedReader<'_>) -> (r: Option<Self>) {
        let ghost bytes = reader@.bytes;
        let count = reader.read::<u64>()?;
        let ghost base = reader@.position;
        let mut rows: Vec<Vec<T>> = Vec::new();
        let mut i: u64 = 0;
        assert(grid(rows) =~= Seq::empty());
        while i < count
            invariant
                i <= count,
                bytes == old(reader)@.bytes,
                reader@.bytes == bytes,
                scalar_at::<u64>(bytes, old(reader)@.position) == Some((count, base)),
                rows_at::<T>(bytes, base, i as nat) == Some((grid(rows), reader@.position)),
            decreases count - i,
        {
            let ghost before = grid(rows);
            let row = match <Vec<T> as Deserialize>::deserialize(reader) {
                Some(row) => row,
                None => {
                    proof {
                        lemma_rows_at_fail::<T>(bytes, base, (i + 1) as nat, count as nat);
                    }
                    return None;
                },
            };
            rows.push(row);
            assert(grid(rows) =~= before.push(row@));
            i += 1;
        }
        Some(rows)
    }
}

/// Where fewer rows cannot be read, more cannot either.
pub proof fn lemma_rows_at_fail<T: Scalar>(bytes: Seq<u8>, position: nat, j: nat, k: nat)
    requires
        j <= k,
        rows_at::<T>(bytes, position, j) is None,
    ensures
        rows_at::<T>(bytes, position, k) is None,
    decreases k,
{
    if j < k {
        lemma_rows_at_fail::<T>(bytes, position, j, (k - 1) as nat);
    }
}

impl<D: Deserialize> Deserialize for Option<D> {
    type Model = Option<D::Model>;

    open spec fn model(&self) -> Option<D::Model> {
        match self {
            Some(v) => Some(v.model()),
            None => None,
        }
    }

    open spec fn decoding(bytes: Seq<u8>, position: nat) -> Option<(Option<D::Model>, nat)> {
        match flag_at(bytes, position) {
            Some((true, next)) => match D::decoding(bytes, next) {
                Some((v, end)) => Some((Some(v), end)),
                None => None,
            },
            Some((false, next)) => Some((None, next)),
            None => None,
        }
    }

    fn deserialize(reader: &mut AlignedReader<'_>) -> (r: Option<Self>) {
        let option = reader.read::<u8>()?;
        if option != 1 {
            return Some(None);
        }
        match D::deserialize(reader) {
            Some(v) => Some(Some(v)),
            None => None,
        }
    }
}

/// A tile with its bounds, the tile possibly missing.
pub struct TileRef<T> {
    pub data: Option<Vec<Vec<T>>>,
    pub bounds: Bounds,
}

} // verus!
