use vstd::prelude::*;

verus! {

/// A plain-data value that can be attached to an entity.
///
/// Each component type carries a stable tag, distinct from every other
/// component type's, and a fixed byte size; `to_bytes` gives the value's
/// encoding and `from_bytes` rebuilds a value from bytes. Every
/// implementation defines `tag`, `byte_size`, `encode` and `decode`, proves
/// that decoding undoes encoding, and holds its executable methods to them.
pub trait Component: Sized {
    /// The tag that stands for this type in archetypes.
    spec fn tag() -> u64;

    /// Byte size of the encoded value.
    spec fn byte_size() -> usize;

    /// The value's bytes.
    spec fn encode(&self) -> Seq<u8>;

    /// The value rebuilt from `bytes`.
    spec fn decode(bytes: Seq<u8>) -> Self;

    /// Decoding undoes encoding.
    proof fn lemma_decode_encode(v: Self)
        ensures
            Self::decode(v.encode()) == v,
    ;

    fn type_tag() -> (r: u64)
        ensures
            r == Self::tag(),
    ;

    fn size() -> (r: usize)
        ensures
            r == Self::byte_size(),
    ;

    fn to_bytes(&self) -> (r: Vec<u8>)
        ensures
            r@ == self.encode(),
    ;

    fn from_bytes(bytes: &Vec<u8>) -> (r: Self)
        ensures
            r == Self::decode(bytes@),
    ;
}

/// A component shared between entities.
pub trait SharedComponent: Sized {
}

/// A component owned by a system.
pub trait SystemComponent: Sized {
}

} // verus!
