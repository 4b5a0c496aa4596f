//! Deterministic, non-cryptographic content hashing.
//!
//! Cairn uses the 64-bit FNV-1a hash to produce content addresses. FNV-1a is
//! fast, dependency-free, and fully deterministic across platforms and
//! languages, which makes it fit for a build cache where the only
//! requirement is that identical bytes map to identical addresses.
//!
//! # Security note
//!
//! FNV-1a is **NOT** a cryptographic hash. It provides no collision or
//! pre-image resistance against a malicious adversary. Cairn is a build
//! cache, not a security boundary: do not rely on these digests to detect
//! deliberate tampering.

use vstd::prelude::*;
use crate::text::{hex_char, hex_fixed, push_hex_fixed};

verus! {

/// FNV-1a 64-bit offset basis.
pub const FNV_OFFSET_BASIS: u64 = 0xcbf2_9ce4_8422_2325;

/// FNV-1a 64-bit prime.
pub const FNV_PRIME: u64 = 0x0000_0100_0000_01b3;

/// Number of hexadecimal characters in a canonical digest.
pub const DIGEST_HEX_LEN: u32 = 16;

/// One FNV-1a round: xor the byte in, then multiply by the prime modulo 2^64.
pub open spec fn fnv_step(state: u64, b: u8) -> u64 {
    ((((state ^ (b as u64)) as nat) * (FNV_PRIME as nat)) % 0x1_0000_0000_0000_0000) as u64
}

/// The FNV-1a state after feeding `bytes`, in order, to a hasher in `state`.
pub open spec fn fnv_fold(state: u64, bytes: Seq<u8>) -> u64
    decreases bytes.len(),
{
    if bytes.len() == 0 {
        state
    } else {
        fnv_step(fnv_fold(state, bytes.drop_last()), bytes.last())
    }
}

/// The 64-bit FNV-1a hash of `bytes`.
pub open spec fn fnv1a(bytes: Seq<u8>) -> u64 {
    fnv_fold(FNV_OFFSET_BASIS, bytes)
}

/// The canonical digest of `bytes`: the FNV-1a hash as a zero-padded,
/// lowercase, 16-character hexadecimal string (`%016x`).
pub open spec fn canonical_digest(bytes: Seq<u8>) -> Seq<char> {
    hex_fixed(fnv1a(bytes) as nat, 16)
}

/// A lowercase hexadecimal digit character.
pub open spec fn is_hex_char(c: char) -> bool {
    ('0' <= c <= '9') || ('a' <= c <= 'f')
}

/// The shape of every canonical digest: 16 lowercase hexadecimal characters.
pub open spec fn is_canonical_digest(s: Seq<char>) -> bool {
    &&& s.len() == 16
    &&& forall|i: int| 0 <= i < s.len() ==> is_hex_char(#[trigger] s[i])
}

/// Streaming FNV-1a 64-bit hasher.
///
/// Feed bytes with [`Hasher::update`] and read the final digest with
/// [`Hasher::finalize`] (numeric) or [`Hasher::finalize_hex`] (canonical
/// 16-character lowercase hex string).
#[derive(Clone, Copy, Debug)]
pub struct Hasher {
    state: u64,
}

impl View for Hasher {
    type V = u64;

    /// The running FNV-1a state.
    closed spec fn view(&self) -> u64 {
        self.state
    }
}

impl Hasher {
    /// A hasher that has seen no bytes yet.
    pub fn new() -> (h: Hasher)
        ensures
            h@ == FNV_OFFSET_BASIS,
    {
        Hasher { state: FNV_OFFSET_BASIS }
    }

    /// Feeds `data` to the hasher.
    pub fn update(&mut self, data: &[u8])
        ensures
            final(self)@ == fnv_fold(old(self)@, data@),
    {
        let ghost start = self.state;
        let n = data.len();
        let mut i: usize = 0;
        while i < n
            invariant
                n == data@.len(),
                i <= n,
                self@ == fnv_fold(start, data@.take(i as int)),
            decreases n - i,
        {
            proof {
                assert(data@.take(i + 1).drop_last() =~= data@.take(i as int));
            }
            self.state = (self.state ^ (data[i] as u64)).wrapping_mul(FNV_PRIME);
            i = i + 1;
        }
        proof {
            assert(data@.take(n as int) =~= data@);
        }
    }

    /// The FNV-1a hash of everything fed so far.
    pub fn finalize(&self) -> (d: u64)
        ensures
            d == self@,
    {
        self.state
    }

    /// The canonical digest of everything fed so far.
    pub fn finalize_hex(&self) -> (s: String)
        ensures
            s@ == hex_fixed(self@ as nat, 16),
    {
        let mut s = String::new();
        push_hex_fixed(&mut s, self.state, DIGEST_HEX_LEN);
        proof {
            assert(s@ =~= hex_fixed(self@ as nat, 16));
        }
        s
    }
}

/// Hashes one byte sequence and returns its canonical digest.
pub fn digest_of(data: &[u8]) -> (s: String)
    ensures
        s@ == canonical_digest(data@),
{
    let mut h = Hasher::new();
    h.update(data);
    h.finalize_hex()
}

/// Feeding two byte sequences one after the other leaves the hasher in the
/// same state as feeding their concatenation at once: streaming a file in
/// chunks gives the same digest as hashing it whole.
pub proof fn lemma_fnv_fold_append(state: u64, a: Seq<u8>, b: Seq<u8>)
    ensures
        fnv_fold(state, a + b) == fnv_fold(fnv_fold(state, a), b),
    decreases b.len(),
{
    if b.len() == 0 {
        assert(a + b =~= a);
    } else {
        lemma_fnv_fold_append(state, a, b.drop_last());
        assert((a + b).drop_last() =~= a + b.drop_last());
    }
}

/// The state after feeding `chunks` one after the other, each with one
/// `update`.
pub open spec fn fnv_fold_chunks(state: u64, chunks: Seq<Seq<u8>>) -> u64
    decreases chunks.len(),
{
    if chunks.len() == 0 {
        state
    } else {
        fnv_fold_chunks(fnv_fold(state, chunks[0]), chunks.drop_first())
    }
}

/// However a byte sequence is cut into chunks, feeding the chunks in order
/// leaves the hasher where feeding the whole sequence at once does: a file
/// read in pieces of any size has the digest of its whole content.
pub proof fn lemma_fnv_fold_chunks(state: u64, chunks: Seq<Seq<u8>>)
    ensures
        fnv_fold_chunks(state, chunks) == fnv_fold(state, chunks.flatten()),
    decreases chunks.len(),
{
    if chunks.len() > 0 {
        lemma_fnv_fold_chunks(fnv_fold(state, chunks[0]), chunks.drop_first());
        lemma_fnv_fold_append(state, chunks[0], chunks.drop_first().flatten());
    }
}

/// Every hex rendering of width `w` has `w` lowercase hexadecimal characters.
pub proof fn lemma_hex_fixed_shape(n: nat, w: nat)
    ensures
        hex_fixed(n, w).len() == w,
        forall|i: int| 0 <= i < w ==> is_hex_char(#[trigger] hex_fixed(n, w)[i]),
    decreases w,
{
    if w > 0 {
        lemma_hex_fixed_shape(n / 16, (w - 1) as nat);
        let d = n % 16;
        assert(is_hex_char(hex_char(d))) by {
            if d < 10 {
                assert(((d + 48) as u8) as char == ((d + 48) as u8) as char);
            }
        }
    }
}

/// Every canonical digest is 16 lowercase hexadecimal characters.
pub proof fn lemma_canonical_digest_shape(bytes: Seq<u8>)
    ensures
        is_canonical_digest(canonical_digest(bytes)),
{
    lemma_hex_fixed_shape(fnv1a(bytes) as nat, 16);
}

} // verus!
