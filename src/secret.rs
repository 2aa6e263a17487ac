//! Secret material: shares and the reconstructed rack secret.
//!
//! Both are erased from memory when dropped and carry no printable form.

use vstd::prelude::*;

verus! {

/// Relies on zeroize's `Zeroize` for `Vec<u8>`: overwrites every byte and the
/// spare capacity, then clears the vector.
#[verifier::external_body]
fn wipe(bytes: &mut Vec<u8>)
    ensures
        final(bytes)@.len() == 0,
    opens_invariants none
    no_unwind
{
    zeroize::Zeroize::zeroize(bytes)
}

/// One peer's fragment of the rack secret.
pub struct Share {
    bytes: Vec<u8>,
}

impl View for Share {
    type V = Seq<u8>;

    closed spec fn view(&self) -> Seq<u8> {
        self.bytes@
    }
}

impl Share {
    pub fn new(bytes: Vec<u8>) -> (r: Share)
        ensures
            r@ == bytes@,
    {
        Share { bytes }
    }

    /// A second copy of the same share.
    pub fn duplicate(&self) -> (r: Share)
        ensures
            r@ == self@,
    {
        Share { bytes: self.bytes.clone() }
    }

    pub fn as_bytes(&self) -> (r: &[u8])
        ensures
            r@ == self@,
    {
        self.bytes.as_slice()
    }
}

impl Drop for Share {
    fn drop(&mut self)
        opens_invariants none
        no_unwind
    {
        wipe(&mut self.bytes);
    }
}

/// The reconstructed rack secret.
pub struct RackSecret {
    bytes: Vec<u8>,
}

impl View for RackSecret {
    type V = Seq<u8>;

    closed spec fn view(&self) -> Seq<u8> {
        self.bytes@
    }
}

impl RackSecret {
    pub fn new(bytes: Vec<u8>) -> (r: RackSecret)
        ensures
            r@ == bytes@,
    {
        RackSecret { bytes }
    }

    /// A second copy of the same secret.
    pub fn duplicate(&self) -> (r: RackSecret)
        ensures
            r@ == self@,
    {
        RackSecret { bytes: self.bytes.clone() }
    }

    pub fn as_bytes(&self) -> (r: &[u8])
        ensures
            r@ == self@,
    {
        self.bytes.as_slice()
    }
}

impl Drop for RackSecret {
    fn drop(&mut self)
        opens_invariants none
        no_unwind
    {
        wipe(&mut self.bytes);
    }
}

} // verus!
