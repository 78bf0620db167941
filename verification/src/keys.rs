//! The keys under which the primary and the workers keep data in the store: certificates by
//! digest, batches by digest and worker, and embedded payloads by author and digest.
//! Every identifier is written little-endian with a fixed width, so keys of one kind never
//! collide and keys of different kinds differ in length.

use crate::types::{Digest, PublicKey, WorkerId};
use vstd::prelude::*;

verus! {

/// The `n` little-endian bytes of `x` (its lowest `8 * n` bits).
pub open spec fn le_bytes(x: nat, n: nat) -> Seq<u8>
    decreases n,
{
    if n == 0 {
        Seq::empty()
    } else {
        seq![(x % 256) as u8] + le_bytes(x / 256, (n - 1) as nat)
    }
}

/// 256 to the power `n`.
pub open spec fn pow256(n: nat) -> nat
    decreases n,
{
    if n == 0 {
        1
    } else {
        256 * pow256((n - 1) as nat)
    }
}

proof fn lemma_le_bytes_len(x: nat, n: nat)
    ensures
        le_bytes(x, n).len() == n,
    decreases n,
{
    if n > 0 {
        lemma_le_bytes_len(x / 256, (n - 1) as nat);
    }
}

/// Values below `256^n` have distinct `n`-byte encodings.
pub proof fn lemma_le_bytes_injective(x: nat, y: nat, n: nat)
    requires
        x < pow256(n),
        y < pow256(n),
        le_bytes(x, n) == le_bytes(y, n),
    ensures
        x == y,
    decreases n,
{
    if n > 0 {
        let m = (n - 1) as nat;
        lemma_le_bytes_len(x / 256, m);
        lemma_le_bytes_len(y / 256, m);
        assert(le_bytes(x, n) == seq![(x % 256) as u8] + le_bytes(x / 256, m));
        assert(le_bytes(y, n) == seq![(y % 256) as u8] + le_bytes(y / 256, m));
        assert(le_bytes(x, n)[0] == (x % 256) as u8);
        assert(le_bytes(y, n)[0] == (y % 256) as u8);
        assert(le_bytes(x / 256, m) =~= le_bytes(x, n).subrange(1, n as int));
        assert(le_bytes(y / 256, m) =~= le_bytes(y, n).subrange(1, n as int));
        assert(x / 256 < pow256(m));
        assert(y / 256 < pow256(m));
        lemma_le_bytes_injective(x / 256, y / 256, m);
        assert((x % 256) as u8 == (y % 256) as u8);
        assert(x % 256 == y % 256);
        assert(x == 256 * (x / 256) + x % 256);
        assert(y == 256 * (y / 256) + y % 256);
    }
}

/// Writes the `n` lowest bytes of `x`, little-endian, at the end of `out`.
fn push_le_bytes(out: &mut Vec<u8>, x: u64, n: usize)
    requires
        n <= 8,
    ensures
        final(out)@ == old(out)@ + le_bytes(x as nat, n as nat),
{
    let mut v: u64 = x;
    let mut i: usize = 0;
    while i < n
        invariant
            i <= n,
            out@ + le_bytes(v as nat, (n - i) as nat) == old(out)@ + le_bytes(x as nat, n as nat),
        decreases n - i,
    {
        let ghost before = out@;
        let ghost rest = le_bytes(v as nat, (n - i) as nat);
        out.push((v % 256) as u8);
        proof {
            let tail = le_bytes((v / 256) as nat, (n - i - 1) as nat);
            assert(rest =~= seq![(v % 256) as u8] + tail);
            assert(out@ + tail =~= before + rest);
        }
        v = v / 256;
        i = i + 1;
    }
    assert(le_bytes(v as nat, 0) =~= Seq::<u8>::empty());
    assert(out@ + Seq::<u8>::empty() =~= out@);
}

/// The store key of a certificate: its digest.
pub open spec fn spec_certificate_key(digest: Digest) -> Seq<u8> {
    le_bytes(digest as nat, 8)
}

/// The store key of a batch held by a worker: the batch digest, then the worker id.
pub open spec fn spec_batch_key(digest: Digest, worker_id: WorkerId) -> Seq<u8> {
    le_bytes(digest as nat, 8) + le_bytes(worker_id as nat, 4)
}

/// The store key of a payload embedded in a header: the author, then the batch digest.
pub open spec fn spec_payload_key(author: PublicKey, digest: Digest) -> Seq<u8> {
    le_bytes(author as nat, 8) + le_bytes(digest as nat, 8)
}

/// The store key of a certificate.
pub fn certificate_key(digest: Digest) -> (r: Vec<u8>)
    ensures
        r@ == spec_certificate_key(digest),
{
    let mut r: Vec<u8> = Vec::new();
    push_le_bytes(&mut r, digest, 8);
    assert(Seq::<u8>::empty() + le_bytes(digest as nat, 8) =~= le_bytes(digest as nat, 8));
    r
}

/// The store key of a batch held by a worker.
pub fn batch_key(digest: Digest, worker_id: WorkerId) -> (r: Vec<u8>)
    ensures
        r@ == spec_batch_key(digest, worker_id),
{
    let mut r: Vec<u8> = Vec::new();
    push_le_bytes(&mut r, digest, 8);
    push_le_bytes(&mut r, worker_id as u64, 4);
    assert(Seq::<u8>::empty() + le_bytes(digest as nat, 8) =~= le_bytes(digest as nat, 8));
    r
}

/// The store key of a payload embedded in a header.
pub fn payload_storage_key(author: PublicKey, digest: Digest) -> (r: Vec<u8>)
    ensures
        r@ == spec_payload_key(author, digest),
{
    let mut r: Vec<u8> = Vec::new();
    push_le_bytes(&mut r, author, 8);
    push_le_bytes(&mut r, digest, 8);
    assert(Seq::<u8>::empty() + le_bytes(author as nat, 8) =~= le_bytes(author as nat, 8));
    r
}

proof fn lemma_pow256_widths()
    ensures
        pow256(4) == 0x1_0000_0000,
        pow256(8) == 0x1_0000_0000_0000_0000,
{
    reveal_with_fuel(pow256, 9);
}

/// Keys of one kind are equal only for equal identifiers, and keys of different kinds never
/// coincide: a certificate key has 8 bytes, a batch key 12 and a payload key 16.
pub proof fn lemma_store_keys_distinct(
    d1: Digest,
    w1: WorkerId,
    d2: Digest,
    w2: WorkerId,
    a1: PublicKey,
    a2: PublicKey,
)
    ensures
        spec_certificate_key(d1) == spec_certificate_key(d2) ==> d1 == d2,
        spec_batch_key(d1, w1) == spec_batch_key(d2, w2) ==> d1 == d2 && w1 == w2,
        spec_payload_key(a1, d1) == spec_payload_key(a2, d2) ==> a1 == a2 && d1 == d2,
        spec_certificate_key(d1).len() == 8,
        spec_batch_key(d1, w1).len() == 12,
        spec_payload_key(a1, d1).len() == 16,
{
    lemma_pow256_widths();
    lemma_le_bytes_len(d1 as nat, 8);
    lemma_le_bytes_len(d2 as nat, 8);
    lemma_le_bytes_len(a1 as nat, 8);
    lemma_le_bytes_len(a2 as nat, 8);
    lemma_le_bytes_len(w1 as nat, 4);
    lemma_le_bytes_len(w2 as nat, 4);
    if spec_certificate_key(d1) == spec_certificate_key(d2) {
        lemma_le_bytes_injective(d1 as nat, d2 as nat, 8);
    }
    if spec_batch_key(d1, w1) == spec_batch_key(d2, w2) {
        let k1 = spec_batch_key(d1, w1);
        let k2 = spec_batch_key(d2, w2);
        assert(k1.subrange(0, 8) =~= le_bytes(d1 as nat, 8));
        assert(k2.subrange(0, 8) =~= le_bytes(d2 as nat, 8));
        assert(k1.subrange(8, 12) =~= le_bytes(w1 as nat, 4));
        assert(k2.subrange(8, 12) =~= le_bytes(w2 as nat, 4));
        lemma_le_bytes_injective(d1 as nat, d2 as nat, 8);
        lemma_le_bytes_injective(w1 as nat, w2 as nat, 4);
    }
    if spec_payload_key(a1, d1) == spec_payload_key(a2, d2) {
        let k1 = spec_payload_key(a1, d1);
        let k2 = spec_payload_key(a2, d2);
        assert(k1.subrange(0, 8) =~= le_bytes(a1 as nat, 8));
        assert(k2.subrange(0, 8) =~= le_bytes(a2 as nat, 8));
        assert(k1.subrange(8, 16) =~= le_bytes(d1 as nat, 8));
        assert(k2.subrange(8, 16) =~= le_bytes(d2 as nat, 8));
        lemma_le_bytes_injective(a1 as nat, a2 as nat, 8);
        lemma_le_bytes_injective(d1 as nat, d2 as nat, 8);
    }
}

} // verus!
