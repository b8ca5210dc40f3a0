//! Serialization parameters: ordering, endianness and length encoders.
use vstd::prelude::*;

verus! {

/// Lexicographical ordering for serialization
///
/// There are no ordering marks in the serialized data: reading with another ordering than the
/// one used for writing gives meaningless values.
#[derive(Debug, Copy, Clone, PartialEq, Eq, Structural)]
pub enum Order {
    Ascending,
    Descending,
    /// For use by other crates; behaves as `Ascending`.
    Unordered,
}

/// Endianness of serialized integers.
#[derive(Debug, Copy, Clone, PartialEq, Eq, Structural)]
pub enum Endianness {
    Little,
    Big,
    Native,
}

/// Encoding parameters of primitive types: lexicographical order and endianness.
pub trait EncodingParams: Copy {
    spec fn spec_order() -> Order;

    spec fn spec_endianness() -> Endianness;

    /// Serialization ordering of primitive types
    fn order() -> (r: Order)
        ensures
            r == Self::spec_order(),
    ;

    /// Endianness of integer and float values; order-preserving encodings use `Big`.
    fn endianness() -> (r: Endianness)
        ensures
            r == Self::spec_endianness(),
    ;
}

/// Parameters of the structured serializer and deserializer.
pub trait SerializerParams: EncodingParams {
    /// Whether sequence lengths and discriminants go to the tail of a double-ended buffer.
    spec fn spec_lengths_at_tail() -> bool;

    fn lengths_at_tail() -> (r: bool)
        ensures
            r == Self::spec_lengths_at_tail(),
    ;
}

/// Parameters for order-preserving serialization in ascending order
#[derive(Debug, Copy, Clone, Default)]
pub struct AscendingOrder;

/// Parameters for order-preserving serialization of primitives in descending order
///
/// Deliberately implements only `EncodingParams`: structured values are written in descending
/// order by inverting their ascending encoding.
#[derive(Debug, Copy, Clone, Default)]
pub struct DescendingOrder;

/// Parameters for a portable binary format that does not need a double-ended buffer.
#[derive(Debug, Copy, Clone, Default)]
pub struct PortableBinary;

/// Parameters for a platform-specific binary format: fast, but not portable.
#[derive(Debug, Copy, Clone, Default)]
pub struct NativeBinary;

impl EncodingParams for AscendingOrder {
    open spec fn spec_order() -> Order {
        Order::Ascending
    }

    open spec fn spec_endianness() -> Endianness {
        Endianness::Big
    }

    fn order() -> (r: Order) {
        Order::Ascending
    }

    fn endianness() -> (r: Endianness) {
        Endianness::Big
    }
}

impl SerializerParams for AscendingOrder {
    open spec fn spec_lengths_at_tail() -> bool {
        true
    }

    fn lengths_at_tail() -> (r: bool) {
        true
    }
}

impl EncodingParams for DescendingOrder {
    open spec fn spec_order() -> Order {
        Order::Descending
    }

    open spec fn spec_endianness() -> Endianness {
        Endianness::Big
    }

    fn order() -> (r: Order) {
        Order::Descending
    }

    fn endianness() -> (r: Endianness) {
        Endianness::Big
    }
}

impl EncodingParams for PortableBinary {
    open spec fn spec_order() -> Order {
        Order::Ascending
    }

    open spec fn spec_endianness() -> Endianness {
        Endianness::Big
    }

    fn order() -> (r: Order) {
        Order::Ascending
    }

    fn endianness() -> (r: Endianness) {
        Endianness::Big
    }
}

impl SerializerParams for PortableBinary {
    open spec fn spec_lengths_at_tail() -> bool {
        false
    }

    fn lengths_at_tail() -> (r: bool) {
        false
    }
}

impl EncodingParams for NativeBinary {
    open spec fn spec_order() -> Order {
        Order::Unordered
    }

    open spec fn spec_endianness() -> Endianness {
        Endianness::Native
    }

    fn order() -> (r: Order) {
        Order::Unordered
    }

    fn endianness() -> (r: Endianness) {
        Endianness::Native
    }
}

impl SerializerParams for NativeBinary {
    open spec fn spec_lengths_at_tail() -> bool {
        false
    }

    fn lengths_at_tail() -> (r: bool) {
        false
    }
}

} // verus!
