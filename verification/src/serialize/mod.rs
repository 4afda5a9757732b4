//! Writing values into a byte sink at their natural alignment.

pub mod layout;
pub mod node;

use crate::bounds::Bounds;
use crate::dataset::grid;
use crate::format::{
    bounds_bytes, grid_bytes, lemma_run_bytes_len, padding_for, row_bytes, rows_bytes, run_bytes,
    scalar_bytes, slice_bytes, zeros,
};
use crate::raster::filled;
use crate::scalar::Scalar;
use vstd::layout::{align_nonzero, align_of, size_of};
use vstd::prelude::*;

verus! {

/// Something that takes bytes. It either keeps all of them or none.
pub trait Sink {
    /// The bytes that the sink holds.
    spec fn written(&self) -> Seq<u8>;

    /// Whether the sink keeps what it is given.
    spec fn keeps() -> bool;

    fn write_all(&mut self, bytes: &[u8])
        ensures
            final(self).written() == if Self::keeps() {
                old(self).written() + bytes@
            } else {
                old(self).written()
            },
    ;
}

impl Sink for Vec<u8> {
    open spec fn written(&self) -> Seq<u8> {
        self@
    }

    open spec fn keeps() -> bool {
        true
    }

    fn write_all(&mut self, bytes: &[u8]) {
        let mut i: usize = 0;
        while i < bytes.len()
            invariant
                i <= bytes.len(),
                self@ == old(self)@ + bytes@.subrange(0, i as int),
            decreases bytes.len() - i,
        {
            self.push(bytes[i]);
            i += 1;
            assert(self@ =~= old(self)@ + bytes@.subrange(0, i as int));
        }
        assert(bytes@.subrange(0, i as int) =~= bytes@);
    }
}

/// A sink that drops every byte: with it a writer only counts.
pub struct Discard;

impl Sink for Discard {
    open spec fn written(&self) -> Seq<u8> {
        Seq::empty()
    }

    open spec fn keeps() -> bool {
        false
    }

    fn write_all(&mut self, bytes: &[u8]) {
    }
}

/// Why a value could not be written.
#[derive(Clone, Copy, Debug, PartialEq, Eq, Structural)]
pub enum SerializeError {
    /// The end of the value would lie beyond the largest position.
    TooLarge,
}

impl SerializeError {
    /// What went wrong, in words.
    pub fn message(&self) -> (r: &'static str)
        ensures
            r@ == "the tree is too large for one file"@,
    {
        "the tree is too large for one file"
    }
}

/// A sink together with the position that the next byte would have in the
/// file.
pub struct AlignedWriter<W> {
    inner: W,
    position: usize,
}

/// The state of a writer: its position and the bytes in its sink.
pub ghost struct WriterState {
    pub position: nat,
    pub written: Seq<u8>,
}

impl WriterState {
    /// The state after `bytes` have been written; the sink holds them if
    /// `keeps`.
    pub open spec fn after(self, bytes: Seq<u8>, keeps: bool) -> WriterState {
        WriterState {
            position: self.position + bytes.len(),
            written: if keeps {
                self.written + bytes
            } else {
                self.written
            },
        }
    }
}

/// What writing `bytes` does: it succeeds exactly if the position after them
/// fits, and then the writer has moved past them.
pub open spec fn wrote(
    before: WriterState,
    now: WriterState,
    bytes: Seq<u8>,
    keeps: bool,
    r: Result<(), SerializeError>,
) -> bool {
    &&& r is Ok <==> before.position + bytes.len() <= usize::MAX
    &&& r is Ok ==> now == before.after(bytes, keeps)
}

impl<W: Sink> View for AlignedWriter<W> {
    type V = WriterState;

    closed spec fn view(&self) -> WriterState {
        WriterState { position: self.position as nat, written: self.inner.written() }
    }
}

/// A value that can be written into a tile file.
pub trait Serialize {
    /// The bytes that the value takes when it is written at `position`,
    /// padding included.
    spec fn encoding(&self, position: nat) -> Seq<u8>;

    fn serialize<W: Sink>(&self, writer: &mut AlignedWriter<W>) -> (r: Result<(), SerializeError>)
        ensures
            wrote(
                old(writer)@,
                final(writer)@,
                self.encoding(old(writer)@.position),
                W::keeps(),
                r,
            ),
    ;
}

impl<W: Sink> AlignedWriter<W> {
    /// A writer over `inner` at the start of a file.
    pub fn new(inner: W) -> (r: Self)
        ensures
            r@.position == 0,
            r@.written == inner.written(),
    {
        AlignedWriter { inner, position: 0 }
    }

    /// A writer over `inner` whose next byte has position `position` in the
    /// file.
    pub fn at(inner: W, position: usize) -> (r: Self)
        ensures
            r@.position == position,
            r@.written == inner.written(),
    {
        AlignedWriter { inner, position }
    }

    /// A writer at the same position over another sink.
    pub fn with<W2: Sink>(&self, inner: W2) -> (r: AlignedWriter<W2>)
        ensures
            r@.position == self@.position,
            r@.written == inner.written(),
    {
        AlignedWriter { inner, position: self.position }
    }

    /// The position that the next byte would have in the file.
    pub fn position(&self) -> (r: usize)
        ensures
            r == self@.position,
    {
        self.position
    }

    /// Gives the sink back.
    pub fn into_inner(self) -> (r: W)
        ensures
            r.written() == self@.written,
    {
        self.inner
    }

    /// The number of bytes to skip so that a `T` starts at a multiple of
    /// its alignment.
    pub fn padding<T>(&self) -> (r: usize)
        ensures
            r == padding_for(self@.position, align_of::<T>()),
            r < align_of::<T>(),
    {
        proof {
            broadcast use align_nonzero;

        }
        let alignment: usize = std::mem::align_of::<T>();
        let remainder: usize = self.position % alignment;
        if remainder == 0 {
            0
        } else {
            alignment - remainder
        }
    }

    fn put(&mut self, bytes: &[u8])
        requires
            old(self)@.position + bytes@.len() <= usize::MAX,
        ensures
            final(self)@ == old(self)@.after(bytes@, W::keeps()),
    {
        self.inner.write_all(bytes);
        self.position = self.position + bytes.len();
    }

    /// Writes one value behind its padding. A value that does not fit
    /// leaves the writer as it is.
    pub fn write<T>(&mut self, value: &T) -> (r: Result<(), SerializeError>) where T: Scalar
        ensures
            wrote(
                old(self)@,
                final(self)@,
                scalar_bytes(old(self)@.position, *value),
                W::keeps(),
                r,
            ),
            r is Err ==> final(self)@ == old(self)@,
    {
        let padding: usize = self.padding::<T>();
        let bytes = value.to_bytes();
        let fits = match self.position.checked_add(padding) {
            Some(start) => start.checked_add(bytes.len()).is_some(),
            None => false,
        };
        if !fits {
            return Err(SerializeError::TooLarge);
        }
        let gap = filled(0u8, padding);
        assert(gap@ =~= zeros(padding as nat));
        self.put(gap.as_slice());
        self.put(bytes.as_slice());
        assert(old(self)@.written + gap@ + bytes@ =~= old(self)@.written + (gap@ + bytes@));
        Ok(())
    }

    /// Writes a run of values behind their padding, with nothing between
    /// them. A run that does not fit leaves the writer as it is.
    pub fn write_slice<T>(&mut self, slice: &[T]) -> (r: Result<(), SerializeError>) where
        T: Scalar,

        ensures
            wrote(
                old(self)@,
                final(self)@,
                slice_bytes(old(self)@.position, slice@),
                W::keeps(),
                r,
            ),
            r is Err ==> final(self)@ == old(self)@,
    {
        let padding: usize = self.padding::<T>();
        let size: usize = std::mem::size_of::<T>();
        proof {
            lemma_run_bytes_len(slice@, slice@.len());
        }
        let total = match slice.len().checked_mul(size) {
            Some(n) => n,
            None => {
                return Err(SerializeError::TooLarge);
            },
        };
        let fits = match self.position.checked_add(padding) {
            Some(start) => start.checked_add(total).is_some(),
            None => false,
        };
        if !fits {
            return Err(SerializeError::TooLarge);
        }
        let gap = filled(0u8, padding);
        assert(gap@ =~= zeros(padding as nat));
        self.put(gap.as_slice());
        let ghost start = self@;
        let mut i: usize = 0;
        while i < slice.len()
            invariant
                i <= slice.len(),
                size == size_of::<T>(),
                total == slice@.len() * size,
                start.position + total <= usize::MAX,
                self@ == start.after(run_bytes(slice@, i as nat), W::keeps()),
            decreases slice.len() - i,
        {
            proof {
                lemma_run_bytes_len(slice@, i as nat);
                lemma_run_bytes_len(slice@, (i + 1) as nat);
                assert((i + 1) * size <= slice@.len() * size) by (nonlinear_arith)
                    requires
                        i + 1 <= slice@.len(),
                        size >= 0,
                ;
            }
            let bytes = slice[i].to_bytes();
            self.put(bytes.as_slice());
            i += 1;
            assert(start.written + run_bytes(slice@, (i - 1) as nat) + bytes@ =~= start.written
                + run_bytes(slice@, i as nat));
        }
        assert(old(self)@.written + gap@ + run_bytes(slice@, slice@.len()) =~= old(self)@.written
            + (gap@ + run_bytes(slice@, slice@.len())));
        Ok(())
    }
}

impl<T: Scalar> Serialize for T {
    open spec fn encoding(&self, position: nat) -> Seq<u8> {
        scalar_bytes(position, *self)
    }

    fn serialize<W: Sink>(&self, writer: &mut AlignedWriter<W>) -> (r: Result<(), SerializeError>) {
        writer.write(self)
    }
}

impl Serialize for Bounds {
    open spec fn encoding(&self, position: nat) -> Seq<u8> {
        bounds_bytes(position, *self)
    }

    fn serialize<W: Sink>(&self, writer: &mut AlignedWriter<W>) -> (r: Result<(), SerializeError>) {
        let ghost start = writer@;
        let ghost a = scalar_bytes(start.position, self.min_x);
        let ghost b = scalar_bytes(start.position + a.len(), self.min_y);
        let ghost c = scalar_bytes(start.position + a.len() + b.len(), self.max_x);
        let ghost d = scalar_bytes(start.position + a.len() + b.len() + c.len(), self.max_y);
        writer.write(&self.min_x)?;
        writer.write(&self.min_y)?;
        writer.write(&self.max_x)?;
        writer.write(&self.max_y)?;
        assert(start.written + a + b + c + d =~= start.written + (a + b + c + d));
        Ok(())
    }
}

impl<T: Scalar> Serialize for Vec<T> {
    open spec fn encoding(&self, position: nat) -> Seq<u8> {
        row_bytes(position, self@)
    }

    fn serialize<W: Sink>(&self, writer: &mut AlignedWriter<W>) -> (r: Result<(), SerializeError>) {
        let ghost start = writer@;
        let ghost head = scalar_bytes::<u64>(start.position, self@.len() as u64);
        let ghost body = slice_bytes(start.position + head.len(), self@);
        let len: u64 = self.len() as u64;
        writer.write(&len)?;
        writer.write_slice(self.as_slice())?;
        assert(start.written + head + body =~= start.written + (head + body));
        Ok(())
    }
}

impl<T: Scalar> Serialize for Vec<Vec<T>> {
    open spec fn encoding(&self, position: nat) -> Seq<u8> {
        grid_bytes(position, grid(*self))
    }

    fn serialize<W: Sink>(&self, writer: &mut AlignedWriter<W>) -> (r: Result<(), SerializeError>) {
        let ghost start = writer@;
        let ghost rows = grid(*self);
        let ghost head = scalar_bytes::<u64>(start.position, rows.len() as u64);
        let len: u64 = self.len() as u64;
        writer.write(&len)?;
        let ghost base = writer@;
        let mut i: usize = 0;
        assert(base.written + rows_bytes(base.position, rows, 0) =~= base.written);
        while i < self.len()
            invariant
                i <= self.len(),
                rows == grid(*self),
                start == old(writer)@,
                head == scalar_bytes::<u64>(start.position, rows.len() as u64),
                base == start.after(head, W::keeps()),
                start.position + head.len() <= usize::MAX,
                writer@ == base.after(rows_bytes(base.position, rows, i as nat), W::keeps()),
                writer@.position <= usize::MAX,
            decreases self.len() - i,
        {
            let ghost before = rows_bytes(base.position, rows, i as nat);
            let ghost next = row_bytes(base.position + before.len(), rows[i as int]);
            let ghost all = rows_bytes(base.position, rows, rows.len());
            proof {
                lemma_rows_bytes_grow(base.position, rows, (i + 1) as nat, rows.len());
                assert(rows_bytes(base.position, rows, (i + 1) as nat) == before + next);
                assert(rows[i as int] == self[i as int]@);
            }
            match self[i].serialize(writer) {
                Ok(()) => {},
                Err(e) => {
                    return Err(e);
                },
            }
            assert(base.written + before + next =~= base.written + (before + next));
            i += 1;
        }
        assert(start.written + head + rows_bytes(base.position, rows, rows.len()) =~= start.written
            + (head + rows_bytes(base.position, rows, rows.len())));
        Ok(())
    }
}

/// More rows take at least as many bytes.
pub proof fn lemma_rows_bytes_grow<T: Scalar>(position: nat, rows: Seq<Seq<T>>, j: nat, k: nat)
    requires
        j <= k,
    ensures
        rows_bytes(position, rows, j).len() <= rows_bytes(position, rows, k).len(),
    decreases k,
{
    if j < k {
        lemma_rows_bytes_grow(position, rows, j, (k - 1) as nat);
    }
}

impl<S: Serialize> Serialize for Option<S> {
    open spec fn encoding(&self, position: nat) -> Seq<u8> {
        match self {
            Some(inner) => {
                let head = scalar_bytes::<u8>(position, 1u8);
                head + inner.encoding(position + head.len())
            },
            None => scalar_bytes::<u8>(position, 0u8),
        }
    }

    fn serialize<W: Sink>(&self, writer: &mut AlignedWriter<W>) -> (r: Result<(), SerializeError>) {
        let ghost start = writer@;
        match self {
            Some(inner) => {
                let ghost head = scalar_bytes::<u8>(start.position, 1u8);
                let ghost body = inner.encoding(start.position + head.len());
                writer.write(&1u8)?;
                inner.serialize(writer)?;
                assert(start.written + head + body =~= start.written + (head + body));
            },
            None => {
                writer.write(&0u8)?;
            },
        }
        Ok(())
    }
}

} // verus!
