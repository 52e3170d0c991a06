//! Digests and value encodings: the two outside computations that the trie rests on.
use crypto::digest::Digest;
use crypto::sha2::Sha256;
use vstd::prelude::*;

verus! {

/// The SHA-256 digest of a byte sequence.
pub uninterp spec fn sha256_of(data: Seq<u8>) -> Seq<u8>;

/// The `count` low bytes of `n`, least significant first.
pub open spec fn le_bytes(n: nat, count: nat) -> Seq<u8>
    decreases count,
{
    if count == 0 {
        seq![]
    } else {
        seq![(n % 256) as u8] + le_bytes(n / 256, (count - 1) as nat)
    }
}

/// How a present value is encoded before it is hashed: the `Some` tag, the
/// length as a little-endian `u64`, then the bytes.
pub open spec fn value_encoding(v: Seq<u8>) -> Seq<u8> {
    seq![1u8] + le_bytes(v.len(), 8) + v
}

/// The digest that commits to a stored value.
pub open spec fn value_digest(v: Seq<u8>) -> Seq<u8> {
    sha256_of(value_encoding(v))
}

/// Relies on `crypto::sha2::Sha256` (`input`, then `result`): the 32-byte
/// SHA-256 digest of the bytes fed in.
#[verifier::external_body]
pub(crate) fn sha256(data: &[u8]) -> (r: [u8; 32])
    ensures
        r@ == sha256_of(data@),
{
    let mut hasher = Sha256::new();
    hasher.input(data);
    let mut out = [0u8; 32];
    hasher.result(&mut out);
    out
}

/// Relies on `bincode::serialize` of `Some(v)` under bincode's default options:
/// the tag byte 1, the length as a fixed-width little-endian `u64`, then each
/// byte of `v`. With no size limit, writing into a `Vec` and a sequence of
/// known length, bincode reports no error here.
#[verifier::external_body]
fn bincode_encode(v: &Vec<u8>) -> (r: Option<Vec<u8>>)
    ensures
        r is Some,
        r matches Some(e) ==> e@ == value_encoding(v@),
{
    bincode::serialize(&Some(v)).ok()
}

/// The digest of a value's encoding; `None` where the encoder fails, which
/// it does not for a byte vector.
pub fn hash_value(v: &Vec<u8>) -> (r: Option<[u8; 32]>)
    ensures
        r is Some,
        r matches Some(h) ==> h@ == value_digest(v@),
{
    match bincode_encode(v) {
        Some(e) => Some(sha256(e.as_slice())),
        None => None,
    }
}

/// Appends the bytes of a digest to a buffer.
pub(crate) fn append_digest(buf: &mut Vec<u8>, d: &[u8; 32])
    ensures
        final(buf)@ == old(buf)@ + d@,
{
    let mut i: usize = 0;
    while i < 32
        invariant
            i <= 32,
            d@.len() == 32,
            buf@ == old(buf)@ + d@.subrange(0, i as int),
        decreases 32 - i,
    {
        buf.push(d[i]);
        i = i + 1;
        assert(buf@ =~= old(buf)@ + d@.subrange(0, i as int));
    }
    assert(d@.subrange(0, 32) =~= d@);
}

/// The digest of an empty node: 32 zero bytes.
pub open spec fn empty_digest() -> Seq<u8> {
    Seq::new(32, |i: int| 0u8)
}

/// A fresh digest of 32 zero bytes.
pub fn zero_digest() -> (r: [u8; 32])
    ensures
        r@ == empty_digest(),
{
    let mut r = [0u8; 32];
    let mut i: usize = 0;
    while i < 32
        invariant
            i <= 32,
            r@.len() == 32,
            forall|j: int| 0 <= j < i ==> r@[j] == 0u8,
        decreases 32 - i,
    {
        r[i] = 0u8;
        i = i + 1;
    }
    assert(r@ =~= empty_digest());
    r
}

} // verus!
