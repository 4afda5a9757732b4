//! A cursor over the bytes of a tile file.

use crate::deserialize::tree::{header_at, Pointer, TileNode};
use crate::deserialize::{AlignedReader, Deserialize};
use crate::scalar::Scalar;
use vstd::prelude::*;

verus! {

/// The bytes of a file and a position in them. Loading a node leaves the
/// position behind its header, where its payload begins.
pub struct Reader<'a> {
    pub data: &'a [u8],
    pub position: usize,
}

impl<'a> Reader<'a> {
    pub fn new(data: &'a [u8]) -> (r: Self)
        ensures
            r.data@ == data@,
            r.position == 0,
    {
        Reader { data, position: 0 }
    }

    /// Reads the value that lies at the position, and moves behind it. Where
    /// none lies there, the position stays.
    pub fn read<T>(&mut self) -> (r: Option<T>) where T: Deserialize
        ensures
            final(self).data@ == old(self).data@,
            match T::decoding(old(self).data@, old(self).position as nat) {
                Some((value, next)) => r is Some && r->0.model() == value && final(self).position
                    == next,
                None => r is None && final(self).position == old(self).position,
            },
    {
        let mut reader = AlignedReader::at(self.data, self.position);
        let out = T::deserialize(&mut reader);
        if out.is_some() {
            self.position = reader.position();
        }
        out
    }

    /// Reads the header of the node that begins at `pointer`, and moves
    /// behind it. Where none lies there, the position stays.
    pub fn load<T>(&mut self, pointer: &Pointer<T>) -> (r: Option<TileNode<T>>) where T: Scalar
        ensures
            final(self).data@ == old(self).data@,
            match header_at(old(self).data@, pointer.position as nat) {
                Some((header, next)) => r is Some && r->0@ == header && final(self).position
                    == next,
                None => r is None && final(self).position == old(self).position,
            },
    {
        let mut reader = AlignedReader::at(self.data, pointer.position);
        let out = <TileNode<T> as Deserialize>::deserialize(&mut reader);
        if out.is_some() {
            self.position = reader.position();
        }
        out
    }
}

} // verus!
