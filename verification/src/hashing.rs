//! Content fingerprinting.
//!
//! A file's content is fingerprinted by streaming its bytes in chunks
//! through a SHA-256 digest and rendering the digest as uppercase hex.  The
//! digest itself comes from an outside cryptographic library and is only
//! named here, not restated: `sha256_of` stands for the digest of a byte
//! sequence, a function of those bytes alone.

use vstd::prelude::*;

verus! {

#[verifier::external_type_specification]
#[verifier::external_body]
pub struct ExDigestContext(ring::digest::Context);

/// The bytes fed to a digest context so far.
pub uninterp spec fn digested(ctx: ring::digest::Context) -> Seq<u8>;

/// The SHA-256 digest (32 bytes) of a byte sequence; a function of the
/// bytes alone, the same in every process and on every machine.
pub uninterp spec fn sha256_of(bytes: Seq<u8>) -> Seq<u8>;

/// SHA-256 is defined for messages of fewer than 2^64 bits; longer input
/// makes the outside library refuse to finish the digest.
pub const MAX_HASH_INPUT_BYTES: u64 = 0x1fff_ffff_ffff_ffff;

/// Relies on ring::digest::Context::new: a fresh SHA-256 context has
/// digested nothing.
#[verifier::external_body]
fn sha256_context_new() -> (ctx: ring::digest::Context)
    ensures
        digested(ctx) == Seq::<u8>::empty(),
{
    ring::digest::Context::new(&ring::digest::SHA256)
}

/// Relies on ring::digest::Context::update: it appends `data` to what the
/// context has digested.
#[verifier::external_body]
fn sha256_context_update(ctx: &mut ring::digest::Context, data: &[u8])
    ensures
        digested(*final(ctx)) == digested(*old(ctx)) + data@,
{
    ctx.update(data);
}

/// Relies on ring::digest::Context::finish and Digest::as_ref: the 32-byte
/// SHA-256 digest of everything the context was fed.  `finish` panics on
/// input beyond SHA-256's length limit, which the bound excludes.
#[verifier::external_body]
fn sha256_context_finish(ctx: ring::digest::Context) -> (r: Vec<u8>)
    requires
        digested(ctx).len() <= MAX_HASH_INPUT_BYTES,
    ensures
        r@ == sha256_of(digested(ctx)),
        r@.len() == 32,
{
    ctx.finish().as_ref().to_vec()
}

/// Uppercase hex digit of a nibble.
pub open spec fn hex_upper_digit(n: u8) -> char
    recommends
        n < 16,
{
    if n < 10 {
        ((n + 48) as char)
    } else {
        ((n + 55) as char)
    }
}

/// Uppercase hex rendering: two digits per byte, high nibble first.
pub open spec fn spec_hex_upper(bytes: Seq<u8>) -> Seq<char>
    decreases bytes.len(),
{
    if bytes.len() == 0 {
        Seq::empty()
    } else {
        seq![hex_upper_digit(bytes[0] / 16), hex_upper_digit(bytes[0] % 16)] + spec_hex_upper(
            bytes.drop_first(),
        )
    }
}

/// Relies on data_encoding::HEXUPPER.encode: symbols "0123456789ABCDEF",
/// most significant nibble of each byte first.
#[verifier::external_body]
fn hex_upper_encode(bytes: &[u8]) -> (r: String)
    ensures
        r@ == spec_hex_upper(bytes@),
{
    data_encoding::HEXUPPER.encode(bytes)
}

/// Streams bytes through a SHA-256 digest without holding the whole input
/// in memory.
pub struct ContentHasher {
    ctx: ring::digest::Context,
    total: u64,
}

impl ContentHasher {
    /// The bytes this hasher has been fed so far.
    pub closed spec fn fed(self) -> Seq<u8> {
        digested(self.ctx)
    }

    pub closed spec fn wf(self) -> bool {
        self.total == self.fed().len() && self.fed().len() <= MAX_HASH_INPUT_BYTES
    }

    pub fn new() -> (h: ContentHasher)
        ensures
            h.wf(),
            h.fed() == Seq::<u8>::empty(),
    {
        ContentHasher { ctx: sha256_context_new(), total: 0 }
    }

    /// Feeds one chunk.  Refused (and the hasher left unchanged) only when
    /// the chunk would push the input past SHA-256's length limit.
    pub fn update(&mut self, chunk: &[u8]) -> (ok: bool)
        requires
            old(self).wf(),
        ensures
            final(self).wf(),
            ok == (old(self).fed().len() + chunk@.len() <= MAX_HASH_INPUT_BYTES),
            ok ==> final(self).fed() == old(self).fed() + chunk@,
            !ok ==> *final(self) == *old(self),
    {
        if chunk.len() as u64 <= MAX_HASH_INPUT_BYTES - self.total {
            sha256_context_update(&mut self.ctx, chunk);
            self.total = self.total + chunk.len() as u64;
            true
        } else {
            false
        }
    }

    /// The uppercase hex fingerprint of everything fed.
    pub fn finish(self) -> (hex: String)
        requires
            self.wf(),
        ensures
            hex@ == spec_hex_upper(sha256_of(self.fed())),
    {
        let digest = sha256_context_finish(self.ctx);
        hex_upper_encode(digest.as_slice())
    }
}

/// Hex fingerprint of a byte string held in memory; `None` only for input
/// past SHA-256's length limit.
pub fn hash_bytes(data: &[u8]) -> (r: Option<String>)
    ensures
        data@.len() <= MAX_HASH_INPUT_BYTES ==> (r matches Some(hex) && hex@ == spec_hex_upper(
            sha256_of(data@),
        )),
        data@.len() > MAX_HASH_INPUT_BYTES ==> r is None,
{
    let mut h = ContentHasher::new();
    if h.update(data) {
        Some(h.finish())
    } else {
        None
    }
}

/// Fingerprinting is deterministic: equal byte sequences have equal
/// digests and equal hex fingerprints, in every process and run.
pub proof fn lemma_hash_deterministic(a: Seq<u8>, b: Seq<u8>)
    requires
        a == b,
    ensures
        sha256_of(a) == sha256_of(b),
        spec_hex_upper(sha256_of(a)) == spec_hex_upper(sha256_of(b)),
{
}

} // verus!
