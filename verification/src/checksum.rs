//! The 32-bit checksum that guards every log record and every hint file.

use vstd::prelude::*;

verus! {

/// The digest that the 32-bit xxHash algorithm, seeded with 0, assigns to a
/// byte sequence. The algorithm itself lives in an outside crate; the library
/// only relies on the digest being a function of the bytes.
pub uninterp spec fn xxhash32_of(bytes: Seq<u8>) -> u32;

/// Relies on `twox_hash::XxHash32` (seed 0): the digest depends on the hashed
/// bytes alone.
#[verifier::external_body]
pub fn xxhash32(buf: &[u8]) -> (r: u32)
    ensures
        r == xxhash32_of(buf@),
{
    let mut hasher = twox_hash::XxHash32::with_seed(0);
    std::hash::Hasher::write(&mut hasher, buf);
    std::hash::Hasher::finish(&hasher) as u32
}

/// A streaming view of the one-shot digest: bytes are collected as they are
/// fed in, and the digest of the whole collection is computed on demand.
pub struct XxHash32 {
    buf: Vec<u8>,
}

impl View for XxHash32 {
    type V = Seq<u8>;

    closed spec fn view(&self) -> Seq<u8> {
        self.buf@
    }
}

impl XxHash32 {
    /// An empty hasher: nothing has been fed in yet.
    pub fn new() -> (r: XxHash32)
        ensures
            r@ == Seq::<u8>::empty(),
    {
        XxHash32 { buf: Vec::new() }
    }

    /// Feed more bytes into the hasher.
    pub fn update(&mut self, bytes: &[u8])
        ensures
            final(self)@ == old(self)@ + bytes@,
    {
        self.buf.extend_from_slice(bytes);
    }

    /// The digest of everything fed in so far.
    pub fn get(&self) -> (r: u32)
        ensures
            r == xxhash32_of(self@),
    {
        xxhash32(self.buf.as_slice())
    }
}

} // verus!
