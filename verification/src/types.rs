//! The values that flow through the protocol: rounds, stakes, digests, headers and certificates.
//!
//! Digests and public keys are carried as 64-bit identifiers: the logic only compares them,
//! orders them and looks them up.

use vstd::prelude::*;

verus! {

/// A round of the DAG.
pub type Round = u64;

/// The voting power of an authority.
pub type Stake = u32;

/// The identifier of a hashed value (a header, a certificate or a batch).
pub type Digest = u64;

/// The identifier of an authority.
pub type PublicKey = u64;

/// The identifier of a worker of an authority.
pub type WorkerId = u32;

/// A signature over a digest.
#[derive(Clone, Copy, Debug, PartialEq, Eq)]
pub struct Signature {
    pub part1: [u8; 32],
    pub part2: [u8; 32],
}

/// A block proposal of one authority for one round.
#[derive(Clone, Debug)]
pub struct Header {
    pub author: PublicKey,
    pub round: Round,
    /// The digest of the header.
    pub id: Digest,
    /// The digests of the batches that the header carries.
    pub payload: Vec<Digest>,
    /// The digests of the parent certificates.
    pub parents: Vec<Digest>,
    pub solid_step_vertices: Vec<Digest>,
    pub solid_step_vertices_merged: Vec<Digest>,
    pub solid_wave_vertices: Vec<Digest>,
    pub solid_wave_vertices_merged: Vec<Digest>,
    pub wave_back_link_target_round: Round,
    pub wave_back_link_author_bitmap: Vec<u8>,
}

/// The mathematical value of a header.
#[verifier::ext_equal]
pub struct HeaderView {
    pub author: PublicKey,
    pub round: Round,
    pub id: Digest,
    pub payload: Seq<Digest>,
    pub parents: Seq<Digest>,
    pub solid_step_vertices: Seq<Digest>,
    pub solid_step_vertices_merged: Seq<Digest>,
    pub solid_wave_vertices: Seq<Digest>,
    pub solid_wave_vertices_merged: Seq<Digest>,
    pub wave_back_link_target_round: Round,
    pub wave_back_link_author_bitmap: Seq<u8>,
}

impl View for Header {
    type V = HeaderView;

    open spec fn view(&self) -> HeaderView {
        HeaderView {
            author: self.author,
            round: self.round,
            id: self.id,
            payload: self.payload@,
            parents: self.parents@,
            solid_step_vertices: self.solid_step_vertices@,
            solid_step_vertices_merged: self.solid_step_vertices_merged@,
            solid_wave_vertices: self.solid_wave_vertices@,
            solid_wave_vertices_merged: self.solid_wave_vertices_merged@,
            wave_back_link_target_round: self.wave_back_link_target_round,
            wave_back_link_author_bitmap: self.wave_back_link_author_bitmap@,
        }
    }
}

/// The digests strictly increase along `s`: a set of digests kept in order.
pub open spec fn ordered_set(s: Seq<Digest>) -> bool {
    forall|i: int, j: int| 0 <= i < j < s.len() ==> s[i] < s[j]
}

impl HeaderView {
    /// The solid-vertex summaries of the header are sets: each in increasing order, without
    /// repeats.
    pub open spec fn summaries_wf(self) -> bool {
        &&& ordered_set(self.solid_step_vertices)
        &&& ordered_set(self.solid_step_vertices_merged)
        &&& ordered_set(self.solid_wave_vertices)
        &&& ordered_set(self.solid_wave_vertices_merged)
    }
}

/// A header together with the votes of a quorum.
#[derive(Clone, Debug)]
pub struct Certificate {
    pub header: Header,
    /// The digest of the certificate.
    pub digest: Digest,
    pub votes: Vec<(PublicKey, Signature)>,
}

/// The mathematical value of a certificate.
#[verifier::ext_equal]
pub struct CertificateView {
    pub header: HeaderView,
    pub digest: Digest,
    pub votes: Seq<(PublicKey, Signature)>,
}

impl View for Certificate {
    type V = CertificateView;

    open spec fn view(&self) -> CertificateView {
        CertificateView { header: self.header@, digest: self.digest, votes: self.votes@ }
    }
}

impl CertificateView {
    pub open spec fn round(self) -> Round {
        self.header.round
    }

    pub open spec fn origin(self) -> PublicKey {
        self.header.author
    }
}

/// Copies a vector of plain values.
pub fn copy_vec<T: Copy>(v: &Vec<T>) -> (r: Vec<T>)
    ensures
        r@ == v@,
{
    let mut r: Vec<T> = Vec::new();
    let mut i: usize = 0;
    while i < v.len()
        invariant
            i <= v.len(),
            r@ == v@.subrange(0, i as int),
        decreases v.len() - i,
    {
        r.push(v[i]);
        i = i + 1;
    }
    assert(r@ =~= v@);
    r
}

/// Whether a digest occurs in a vector of digests.
pub fn contains_digest(v: &Vec<Digest>, d: Digest) -> (r: bool)
    ensures
        r == v@.contains(d),
{
    let mut i: usize = 0;
    while i < v.len()
        invariant
            i <= v.len(),
            forall|j: int| 0 <= j < i ==> v@[j] != d,
        decreases v.len() - i,
    {
        if v[i] == d {
            return true;
        }
        i = i + 1;
    }
    false
}

impl Header {
    /// A copy of the header with the same value.
    pub fn copy(&self) -> (r: Header)
        ensures
            r@ == self@,
    {
        Header {
            author: self.author,
            round: self.round,
            id: self.id,
            payload: copy_vec(&self.payload),
            parents: copy_vec(&self.parents),
            solid_step_vertices: copy_vec(&self.solid_step_vertices),
            solid_step_vertices_merged: copy_vec(&self.solid_step_vertices_merged),
            solid_wave_vertices: copy_vec(&self.solid_wave_vertices),
            solid_wave_vertices_merged: copy_vec(&self.solid_wave_vertices_merged),
            wave_back_link_target_round: self.wave_back_link_target_round,
            wave_back_link_author_bitmap: copy_vec(&self.wave_back_link_author_bitmap),
        }
    }
}

impl Certificate {
    /// A copy of the certificate with the same value.
    pub fn copy(&self) -> (r: Certificate)
        ensures
            r@ == self@,
    {
        Certificate { header: self.header.copy(), digest: self.digest, votes: copy_vec(&self.votes) }
    }

    pub fn round(&self) -> (r: Round)
        ensures
            r == self@.round(),
    {
        self.header.round
    }

    pub fn origin(&self) -> (r: PublicKey)
        ensures
            r == self@.origin(),
    {
        self.header.author
    }
}

} // verus!
