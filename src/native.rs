//! Fixed-width scalars that a page can hold.
use vstd::prelude::*;

use crate::bitmap::le_u32_bytes;

verus! {

/// Physical type of a column, as recorded in its descriptor and its statistics.
#[derive(Debug, Clone, Copy, PartialEq, Eq, Structural)]
pub enum PhysicalType {
    Int32,
    Int64,
}

/// Little-endian bytes of a 64-bit value.
pub open spec fn le_u64_bytes(v: u64) -> Seq<u8> {
    seq![
        (v & 0xff) as u8,
        ((v >> 8u64) & 0xff) as u8,
        ((v >> 16u64) & 0xff) as u8,
        ((v >> 24u64) & 0xff) as u8,
        ((v >> 32u64) & 0xff) as u8,
        ((v >> 40u64) & 0xff) as u8,
        ((v >> 48u64) & 0xff) as u8,
        ((v >> 56u64) & 0xff) as u8,
    ]
}

/// A fixed-width scalar: its little-endian bytes, and a total order in which
/// statistics take minimum and maximum.
pub trait NativeType: Sized + Copy {
    /// The value's fixed-width little-endian bytes.
    spec fn le_bytes(self) -> Seq<u8>;

    /// Number of bytes that every value of the type takes.
    spec fn width() -> nat;

    /// Every value's bytes are `width()` long.
    proof fn lemma_le_bytes_width(self)
        ensures
            self.le_bytes().len() == Self::width(),
    ;

    /// The value's place in the order that statistics use.
    spec fn rank(self) -> int;

    /// The physical type that columns of this scalar have.
    spec fn spec_physical_type() -> PhysicalType;

    fn physical_type() -> (r: PhysicalType)
        ensures
            r == Self::spec_physical_type(),
    ;

    /// Appends the value's little-endian bytes to `out`.
    fn extend_le_bytes(&self, out: &mut Vec<u8>)
        ensures
            final(out)@ == old(out)@ + self.le_bytes(),
    ;

    /// Whether `self` comes strictly before `other` in the order.
    fn ord_lt(&self, other: &Self) -> (r: bool)
        ensures
            r == (self.rank() < other.rank()),
    ;
}

impl NativeType for i32 {
    open spec fn le_bytes(self) -> Seq<u8> {
        le_u32_bytes(self as u32)
    }

    open spec fn width() -> nat {
        4
    }

    proof fn lemma_le_bytes_width(self) {
    }

    open spec fn rank(self) -> int {
        self as int
    }

    open spec fn spec_physical_type() -> PhysicalType {
        PhysicalType::Int32
    }

    fn physical_type() -> (r: PhysicalType) {
        PhysicalType::Int32
    }

    fn extend_le_bytes(&self, out: &mut Vec<u8>) {
        let u = *self as u32;
        out.push((u & 0xff) as u8);
        out.push(((u >> 8u32) & 0xff) as u8);
        out.push(((u >> 16u32) & 0xff) as u8);
        out.push(((u >> 24u32) & 0xff) as u8);
        assert(final(out)@ =~= old(out)@ + le_u32_bytes(u));
    }

    fn ord_lt(&self, other: &Self) -> (r: bool) {
        *self < *other
    }
}

impl NativeType for i64 {
    open spec fn le_bytes(self) -> Seq<u8> {
        le_u64_bytes(self as u64)
    }

    open spec fn width() -> nat {
        8
    }

    proof fn lemma_le_bytes_width(self) {
    }

    open spec fn rank(self) -> int {
        self as int
    }

    open spec fn spec_physical_type() -> PhysicalType {
        PhysicalType::Int64
    }

    fn physical_type() -> (r: PhysicalType) {
        PhysicalType::Int64
    }

    fn extend_le_bytes(&self, out: &mut Vec<u8>) {
        let u = *self as u64;
        out.push((u & 0xff) as u8);
        out.push(((u >> 8u64) & 0xff) as u8);
        out.push(((u >> 16u64) & 0xff) as u8);
        out.push(((u >> 24u64) & 0xff) as u8);
        out.push(((u >> 32u64) & 0xff) as u8);
        out.push(((u >> 40u64) & 0xff) as u8);
        out.push(((u >> 48u64) & 0xff) as u8);
        out.push(((u >> 56u64) & 0xff) as u8);
        assert(final(out)@ =~= old(out)@ + le_u64_bytes(u));
    }

    fn ord_lt(&self, other: &Self) -> (r: bool) {
        *self < *other
    }
}

} // verus!
