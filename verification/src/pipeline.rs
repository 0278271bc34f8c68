//! The verify half of the decrypt-and-verify pass.
//!
//! The downloaded ciphertext is read once, in chunks; each chunk feeds a
//! running CRC-32 while the caller decrypts it and writes the plaintext.
//! The checksum covers the ciphertext, which is what the remote commits to.
//! `Checksum::finish` decides the outcome: it succeeds exactly when the
//! accumulated CRC-32 over everything absorbed equals the expected value.

use vstd::prelude::*;

verus! {

/// A failure of the verify pass, carrying both sides of the comparison for
/// the user to see.
#[derive(Clone, Copy, Debug, PartialEq, Eq, Structural)]
pub enum PipelineError {
    ChecksumMismatch { expected: u32, computed: u32 },
}

#[verifier::external_type_specification]
#[verifier::external_body]
pub struct ExHasher(crc32fast::Hasher);

/// The bytes a hasher has absorbed so far.
pub uninterp spec fn hasher_fed(h: crc32fast::Hasher) -> Seq<u8>;

/// The CRC-32 of a byte string: a function of the bytes alone.
pub uninterp spec fn crc32_of(b: Seq<u8>) -> u32;

/// Relies on crc32fast::Hasher::new: a fresh hasher has absorbed nothing.
#[verifier::external_body]
fn hasher_new() -> (h: crc32fast::Hasher)
    ensures
        hasher_fed(h) == Seq::<u8>::empty(),
{
    crc32fast::Hasher::new()
}

/// Relies on crc32fast::Hasher::update: it appends the buffer to the bytes
/// absorbed (its internal byte count would overflow past `u64::MAX` bytes,
/// hence the bound).
#[verifier::external_body]
fn hasher_update(h: &mut crc32fast::Hasher, data: &Vec<u8>)
    requires
        hasher_fed(*old(h)).len() + data@.len() <= u64::MAX,
    ensures
        hasher_fed(*final(h)) == hasher_fed(*old(h)) + data@,
{
    h.update(data.as_slice())
}

/// Relies on crc32fast::Hasher::finalize: the CRC-32 of exactly the bytes
/// absorbed, in order.
#[verifier::external_body]
fn hasher_finalize(h: crc32fast::Hasher) -> (r: u32)
    ensures
        r == crc32_of(hasher_fed(h)),
{
    h.finalize()
}

/// A running CRC-32 over the ciphertext chunks seen so far.
pub struct Checksum {
    hasher: crc32fast::Hasher,
    count: u64,
    fed: Ghost<Seq<u8>>,
}

impl Checksum {
    /// The bytes absorbed so far.
    pub closed spec fn bytes(self) -> Seq<u8> {
        self.fed@
    }

    pub closed spec fn wf(self) -> bool {
        &&& self.fed@ == hasher_fed(self.hasher)
        &&& self.count == self.fed@.len()
    }

    pub fn new() -> (c: Checksum)
        ensures
            c.wf(),
            c.bytes() == Seq::<u8>::empty(),
    {
        Checksum { hasher: hasher_new(), count: 0, fed: Ghost(Seq::empty()) }
    }

    /// How many bytes have been absorbed.
    pub fn absorbed(&self) -> (n: u64)
        requires
            self.wf(),
        ensures
            n == self.bytes().len(),
    {
        self.count
    }

    /// Feed one ciphertext chunk.
    pub fn absorb(&mut self, chunk: &Vec<u8>)
        requires
            old(self).wf(),
            old(self).bytes().len() + chunk@.len() <= u64::MAX,
        ensures
            final(self).wf(),
            final(self).bytes() == old(self).bytes() + chunk@,
    {
        let clen = chunk.len();
        hasher_update(&mut self.hasher, chunk);
        self.count = self.count + clen as u64;
        self.fed = Ghost(self.fed@ + chunk@);
    }

    /// The final comparison: succeeds exactly when the CRC-32 over
    /// everything absorbed equals the expected value, and reports both
    /// values when it does not.
    pub fn finish(self, expected: u32) -> (r: Result<u32, PipelineError>)
        requires
            self.wf(),
        ensures
            r is Ok <==> crc32_of(self.bytes()) == expected,
            r matches Ok(c) ==> c == expected,
            r matches Err(e) ==> e == (PipelineError::ChecksumMismatch {
                expected,
                computed: crc32_of(self.bytes()),
            }),
    {
        let computed = hasher_finalize(self.hasher);
        if computed == expected {
            Ok(computed)
        } else {
            Err(PipelineError::ChecksumMismatch { expected, computed })
        }
    }
}

} // verus!
