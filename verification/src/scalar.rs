//! Fixed-width values that can be stored in a tile file: pixels, aggregates,
//! lengths, offsets and coordinates.
//!
//! Every value is stored in little-endian byte order, whatever the machine.

use vstd::bytes::{
    lemma_auto_spec_u128_to_from_le_bytes, lemma_auto_spec_u16_to_from_le_bytes,
    lemma_auto_spec_u32_to_from_le_bytes, lemma_auto_spec_u64_to_from_le_bytes,
    spec_u128_from_le_bytes, spec_u128_to_le_bytes, spec_u16_from_le_bytes, spec_u16_to_le_bytes,
    spec_u32_from_le_bytes, spec_u32_to_le_bytes, spec_u64_from_le_bytes, spec_u64_to_le_bytes,
};
use vstd::layout::{layout_of_primitives, size_of};
use vstd::prelude::*;

verus! {

/// A value with a fixed number of bytes in a file.
pub trait Scalar: Copy + Sized {
    /// The bytes that stand for the value.
    spec fn bytes(self) -> Seq<u8>;

    /// The value that a run of bytes stands for.
    spec fn from_bytes(bytes: Seq<u8>) -> Self;

    /// A value takes as many bytes as its type has in memory, at least one,
    /// and is read back from them unchanged.
    proof fn lemma_bytes(x: Self)
        ensures
            x.bytes().len() == size_of::<Self>(),
            size_of::<Self>() >= 1,
            Self::from_bytes(x.bytes()) == x,
    ;

    fn to_bytes(&self) -> (r: Vec<u8>)
        ensures
            r@ == self.bytes(),
    ;

    fn read(bytes: &[u8]) -> (r: Self)
        requires
            bytes@.len() == size_of::<Self>(),
        ensures
            r == Self::from_bytes(bytes@),
    ;
}

/// Calls `bytemuck::bytes_of` on the value in little-endian order: its two
/// bytes, lowest first.
#[verifier::external_body]
fn u16_bytes(x: u16) -> (r: Vec<u8>)
    ensures
        r@ == spec_u16_to_le_bytes(x),
{
    bytemuck::bytes_of(&x.to_le()).to_vec()
}

/// Calls `bytemuck::pod_read_unaligned` on two bytes and takes them as a
/// little-endian number. The call panics on any other length.
#[verifier::external_body]
fn u16_read(bytes: &[u8]) -> (r: u16)
    requires
        bytes@.len() == 2,
    ensures
        r == spec_u16_from_le_bytes(bytes@),
{
    u16::from_le(bytemuck::pod_read_unaligned::<u16>(bytes))
}

/// Calls `bytemuck::bytes_of` on the value in little-endian order: its four
/// bytes, lowest first.
#[verifier::external_body]
fn u32_bytes(x: u32) -> (r: Vec<u8>)
    ensures
        r@ == spec_u32_to_le_bytes(x),
{
    bytemuck::bytes_of(&x.to_le()).to_vec()
}

/// Calls `bytemuck::pod_read_unaligned` on four bytes and takes them as a
/// little-endian number. The call panics on any other length.
#[verifier::external_body]
fn u32_read(bytes: &[u8]) -> (r: u32)
    requires
        bytes@.len() == 4,
    ensures
        r == spec_u32_from_le_bytes(bytes@),
{
    u32::from_le(bytemuck::pod_read_unaligned::<u32>(bytes))
}

/// Calls `bytemuck::bytes_of` on the value in little-endian order: its eight
/// bytes, lowest first.
#[verifier::external_body]
fn u64_bytes(x: u64) -> (r: Vec<u8>)
    ensures
        r@ == spec_u64_to_le_bytes(x),
{
    bytemuck::bytes_of(&x.to_le()).to_vec()
}

/// Calls `bytemuck::pod_read_unaligned` on eight bytes and takes them as a
/// little-endian number. The call panics on any other length.
#[verifier::external_body]
fn u64_read(bytes: &[u8]) -> (r: u64)
    requires
        bytes@.len() == 8,
    ensures
        r == spec_u64_from_le_bytes(bytes@),
{
    u64::from_le(bytemuck::pod_read_unaligned::<u64>(bytes))
}

/// Calls `bytemuck::bytes_of` on the value in little-endian order: its
/// sixteen bytes, lowest first.
#[verifier::external_body]
fn u128_bytes(x: u128) -> (r: Vec<u8>)
    ensures
        r@ == spec_u128_to_le_bytes(x),
{
    bytemuck::bytes_of(&x.to_le()).to_vec()
}

/// Calls `bytemuck::pod_read_unaligned` on sixteen bytes and takes them as
/// a little-endian number. The call panics on any other length.
#[verifier::external_body]
fn u128_read(bytes: &[u8]) -> (r: u128)
    requires
        bytes@.len() == 16,
    ensures
        r == spec_u128_from_le_bytes(bytes@),
{
    u128::from_le(bytemuck::pod_read_unaligned::<u128>(bytes))
}

impl Scalar for u8 {
    open spec fn bytes(self) -> Seq<u8> {
        seq![self]
    }

    open spec fn from_bytes(bytes: Seq<u8>) -> u8 {
        bytes[0]
    }

    proof fn lemma_bytes(x: u8) {
        broadcast use layout_of_primitives;

    }

    fn to_bytes(&self) -> (r: Vec<u8>) {
        let mut r: Vec<u8> = Vec::new();
        r.push(*self);
        assert(r@ =~= seq![*self]);
        r
    }

    fn read(bytes: &[u8]) -> (r: u8) {
        proof {
            broadcast use layout_of_primitives;

        }
        bytes[0]
    }
}

impl Scalar for u16 {
    open spec fn bytes(self) -> Seq<u8> {
        spec_u16_to_le_bytes(self)
    }

    open spec fn from_bytes(bytes: Seq<u8>) -> u16 {
        spec_u16_from_le_bytes(bytes)
    }

    proof fn lemma_bytes(x: u16) {
        broadcast use layout_of_primitives;

        lemma_auto_spec_u16_to_from_le_bytes();
    }

    fn to_bytes(&self) -> (r: Vec<u8>) {
        u16_bytes(*self)
    }

    fn read(bytes: &[u8]) -> (r: u16) {
        proof {
            broadcast use layout_of_primitives;

        }
        u16_read(bytes)
    }
}

impl Scalar for u32 {
    open spec fn bytes(self) -> Seq<u8> {
        spec_u32_to_le_bytes(self)
    }

    open spec fn from_bytes(bytes: Seq<u8>) -> u32 {
        spec_u32_from_le_bytes(bytes)
    }

    proof fn lemma_bytes(x: u32) {
        broadcast use layout_of_primitives;

        lemma_auto_spec_u32_to_from_le_bytes();
    }

    fn to_bytes(&self) -> (r: Vec<u8>) {
        u32_bytes(*self)
    }

    fn read(bytes: &[u8]) -> (r: u32) {
        proof {
            broadcast use layout_of_primitives;

        }
        u32_read(bytes)
    }
}

impl Scalar for u64 {
    open spec fn bytes(self) -> Seq<u8> {
        spec_u64_to_le_bytes(self)
    }

    open spec fn from_bytes(bytes: Seq<u8>) -> u64 {
        spec_u64_from_le_bytes(bytes)
    }

    proof fn lemma_bytes(x: u64) {
        broadcast use layout_of_primitives;

        lemma_auto_spec_u64_to_from_le_bytes();
    }

    fn to_bytes(&self) -> (r: Vec<u8>) {
        u64_bytes(*self)
    }

    fn read(bytes: &[u8]) -> (r: u64) {
        proof {
            broadcast use layout_of_primitives;

        }
        u64_read(bytes)
    }
}

impl Scalar for u128 {
    open spec fn bytes(self) -> Seq<u8> {
        spec_u128_to_le_bytes(self)
    }

    open spec fn from_bytes(bytes: Seq<u8>) -> u128 {
        spec_u128_from_le_bytes(bytes)
    }

    proof fn lemma_bytes(x: u128) {
        broadcast use layout_of_primitives;

        lemma_auto_spec_u128_to_from_le_bytes();
    }

    fn to_bytes(&self) -> (r: Vec<u8>) {
        u128_bytes(*self)
    }

    fn read(bytes: &[u8]) -> (r: u128) {
        proof {
            broadcast use layout_of_primitives;

        }
        u128_read(bytes)
    }
}

/// A signed coordinate is stored as the unsigned number with the same bits.
impl Scalar for i32 {
    open spec fn bytes(self) -> Seq<u8> {
        spec_u32_to_le_bytes(self as u32)
    }

    open spec fn from_bytes(bytes: Seq<u8>) -> i32 {
        spec_u32_from_le_bytes(bytes) as i32
    }

    proof fn lemma_bytes(x: i32) {
        broadcast use layout_of_primitives;

        lemma_auto_spec_u32_to_from_le_bytes();
        assert((x as u32) as i32 == x) by (bit_vector);
    }

    fn to_bytes(&self) -> (r: Vec<u8>) {
        u32_bytes(*self as u32)
    }

    fn read(bytes: &[u8]) -> (r: i32) {
        proof {
            broadcast use layout_of_primitives;

        }
        u32_read(bytes) as i32
    }
}

} // verus!
