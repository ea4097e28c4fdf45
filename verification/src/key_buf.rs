//! Short byte strings kept inline.
use vstd::prelude::*;

use smallvec::SmallVec;

verus! {

/// The bytes of a scan's prefix or marker, in a `smallvec::SmallVec`: up to
/// 64 of them stand in the buffer itself.
#[verifier::external_body]
pub struct KeyBuf {
    bytes: SmallVec<[u8; 64]>,
}

/// The bytes that a buffer holds, in order.
pub uninterp spec fn buf_bytes(buf: KeyBuf) -> Seq<u8>;

impl View for KeyBuf {
    type V = Seq<u8>;

    open spec fn view(&self) -> Seq<u8> {
        buf_bytes(*self)
    }
}

impl KeyBuf {
    /// A buffer without bytes. `SmallVec::new` is claimed to hold no
    /// elements.
    #[verifier::external_body]
    pub(crate) fn new() -> (r: KeyBuf)
        ensures
            buf_bytes(r) == Seq::<u8>::empty(),
    {
        KeyBuf { bytes: SmallVec::new() }
    }

    /// A buffer with a copy of `slice`. `SmallVec::from_slice` is claimed to
    /// hold the elements of the slice, in their order.
    #[verifier::external_body]
    pub(crate) fn from_slice(slice: &[u8]) -> (r: KeyBuf)
        ensures
            buf_bytes(r) == slice@,
    {
        KeyBuf { bytes: SmallVec::from_slice(slice) }
    }

    /// All bytes. `SmallVec::as_slice` is claimed to give the elements that
    /// the buffer holds, in their order.
    #[verifier::external_body]
    pub(crate) fn as_slice(&self) -> (r: &[u8])
        ensures
            r@ == buf_bytes(*self),
    {
        self.bytes.as_slice()
    }
}

} // verus!
