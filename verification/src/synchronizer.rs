//! The synchronizer's decisions: whether a header has all its parents (and which are
//! missing), and whether a certificate can be delivered. The genesis certificates are always
//! known; every other parent is looked up in the store by the task around it.

use crate::types::{Certificate, CertificateView, Digest, Header, WorkerId};
use vstd::prelude::*;

verus! {

/// The genesis certificate with digest `d` in `genesis` (the first one, if several match).
pub open spec fn genesis_of(genesis: Seq<(Digest, CertificateView)>, d: Digest) -> Option<CertificateView>
    decreases genesis.len(),
{
    if genesis.len() == 0 {
        None
    } else {
        match genesis_of(genesis.drop_last(), d) {
            Some(c) => Some(c),
            None => if genesis.last().0 == d {
                Some(genesis.last().1)
            } else {
                None
            },
        }
    }
}

/// The parents found and the digests missing, in the order of `parents`: a genesis parent
/// is always found, any other one is found exactly when the store returned it.
pub open spec fn resolve_parents(
    genesis: Seq<(Digest, CertificateView)>,
    parents: Seq<Digest>,
    stored: Seq<Option<CertificateView>>,
) -> (Seq<CertificateView>, Seq<Digest>)
    decreases parents.len(),
{
    if parents.len() == 0 {
        (Seq::empty(), Seq::empty())
    } else {
        let n = parents.len() - 1;
        let (found, missing) = resolve_parents(genesis, parents.drop_last(), stored.subrange(0, n as int));
        match genesis_of(genesis, parents.last()) {
            Some(c) => (found.push(c), missing),
            None => match stored[n as int] {
                Some(c) => (found.push(c), missing),
                None => (found, missing.push(parents.last())),
            },
        }
    }
}

/// The outcome of looking up the parents of a header.
#[derive(Debug)]
pub enum ParentsLookup {
    /// Every parent is available, in the order of the header.
    Complete(Vec<Certificate>),
    /// These parents are missing; the header must wait for them.
    Missing(Vec<Digest>),
}

/// The value of a list of certificates.
pub open spec fn cert_views(v: Seq<Certificate>) -> Seq<CertificateView> {
    v.map_values(|c: Certificate| c@)
}

/// The batches of `payload` (each with the worker that holds it) that the store lacks, in
/// order: `stored[i]` tells whether the `i`-th batch is in the store.
pub open spec fn missing_batches(payload: Seq<(Digest, WorkerId)>, stored: Seq<bool>) -> Seq<(Digest, WorkerId)>
    decreases payload.len(),
{
    if payload.len() == 0 {
        Seq::empty()
    } else {
        let n = payload.len() - 1;
        let prev = missing_batches(payload.drop_last(), stored.subrange(0, n as int));
        if stored[n as int] {
            prev
        } else {
            prev.push(payload.last())
        }
    }
}

/// What the payload of a header asks for.
#[derive(Debug)]
pub struct PayloadSync {
    /// The batches to synchronise, in the order of the payload.
    pub missing: Vec<(Digest, WorkerId)>,
    /// Whether the header must wait for them: some missing batch has no proof of availability.
    pub wait: bool,
}

/// Checks that the parents of headers and certificates are available.
pub struct Synchronizer {
    /// The genesis certificates, with their digests.
    genesis: Vec<(Digest, Certificate)>,
}

impl Synchronizer {
    /// The genesis certificates with their digests.
    pub closed spec fn genesis_view(&self) -> Seq<(Digest, CertificateView)> {
        self.genesis@.map_values(|p: (Digest, Certificate)| (p.0, p.1@))
    }

    /// A synchronizer that knows the genesis certificates `genesis`.
    pub fn new(genesis: &Vec<Certificate>) -> (r: Self)
        ensures
            r.genesis_view() == genesis@.map_values(|c: Certificate| (c.digest, c@)),
    {
        let mut pairs: Vec<(Digest, Certificate)> = Vec::new();
        let mut i: usize = 0;
        while i < genesis.len()
            invariant
                i <= genesis.len(),
                pairs@.map_values(|p: (Digest, Certificate)| (p.0, p.1@)) == genesis@.subrange(0, i as int).map_values(
                    |c: Certificate| (c.digest, c@),
                ),
            decreases genesis.len() - i,
        {
            let ghost before = pairs@;
            let c = genesis[i].copy();
            pairs.push((c.digest, c));
            proof {
                assert(pairs@.map_values(|p: (Digest, Certificate)| (p.0, p.1@)) =~= before.map_values(
                    |p: (Digest, Certificate)| (p.0, p.1@),
                ).push((genesis@[i as int].digest, genesis@[i as int]@)));
                assert(genesis@.subrange(0, i as int + 1).map_values(|c: Certificate| (c.digest, c@)) =~= genesis@.subrange(
                    0,
                    i as int,
                ).map_values(|c: Certificate| (c.digest, c@)).push((genesis@[i as int].digest, genesis@[i as int]@)));
            }
            i = i + 1;
        }
        assert(genesis@.subrange(0, genesis.len() as int) =~= genesis@);
        Synchronizer { genesis: pairs }
    }

    /// The genesis certificate with digest `digest`, if there is one.
    pub fn genesis_certificate(&self, digest: Digest) -> (r: Option<Certificate>)
        ensures
            match genesis_of(self.genesis_view(), digest) {
                Some(c) => r matches Some(x) && x@ == c,
                None => r is None,
            },
    {
        let mut i: usize = 0;
        while i < self.genesis.len()
            invariant
                i <= self.genesis.len(),
                genesis_of(self.genesis_view().subrange(0, i as int), digest) is None,
            decreases self.genesis.len() - i,
        {
            proof {
                let g = self.genesis_view();
                assert(g.subrange(0, i as int + 1).drop_last() =~= g.subrange(0, i as int));
                assert(g.subrange(0, i as int + 1).last() == g[i as int]);
            }
            if self.genesis[i].0 == digest {
                proof {
                    lemma_genesis_of_prefix(self.genesis_view(), digest, i as int + 1);
                }
                return Some(self.genesis[i].1.copy());
            }
            i = i + 1;
        }
        assert(self.genesis_view().subrange(0, self.genesis.len() as int) =~= self.genesis_view());
        None
    }

    /// Whether `digest` is the digest of a genesis certificate.
    pub fn is_genesis(&self, digest: Digest) -> (r: bool)
        ensures
            r == genesis_of(self.genesis_view(), digest) is Some,
    {
        self.genesis_certificate(digest).is_some()
    }

    /// The parents of `header`, when all are available: `stored[i]` is what the store holds
    /// under the digest of the `i`-th parent (its value is not read for a genesis parent).
    /// When some are missing, their digests are returned instead, in order.
    pub fn get_parents(&self, header: &Header, stored: &Vec<Option<Certificate>>) -> (r: ParentsLookup)
        requires
            stored.len() == header.parents.len(),
        ensures
            ({
                let (found, missing) = resolve_parents(
                    self.genesis_view(),
                    header.parents@,
                    stored@.map_values(|o: Option<Certificate>| match o {
                        Some(c) => Some(c@),
                        None => None,
                    }),
                );
                if missing.len() == 0 {
                    r matches ParentsLookup::Complete(v) && cert_views(v@) == found
                } else {
                    r matches ParentsLookup::Missing(v) && v@ == missing
                }
            }),
    {
        let ghost sv = stored@.map_values(|o: Option<Certificate>| match o {
            Some(c) => Some(c@),
            None => None,
        });
        let mut found: Vec<Certificate> = Vec::new();
        let mut missing: Vec<Digest> = Vec::new();
        let mut i: usize = 0;
        while i < header.parents.len()
            invariant
                i <= header.parents.len(),
                stored.len() == header.parents.len(),
                sv == stored@.map_values(|o: Option<Certificate>| match o {
                    Some(c) => Some(c@),
                    None => None,
                }),
                (cert_views(found@), missing@) == resolve_parents(
                    self.genesis_view(),
                    header.parents@.subrange(0, i as int),
                    sv.subrange(0, i as int),
                ),
            decreases header.parents.len() - i,
        {
            let d = header.parents[i];
            let ghost found0 = found@;
            proof {
                let next = header.parents@.subrange(0, i as int + 1);
                assert(next.drop_last() =~= header.parents@.subrange(0, i as int));
                assert(next.last() == d);
                assert(sv.subrange(0, i as int + 1).subrange(0, i as int) =~= sv.subrange(0, i as int));
                assert(sv.subrange(0, i as int + 1)[i as int] == sv[i as int]);
            }
            match self.genesis_certificate(d) {
                Some(c) => {
                    found.push(c);
                    assert(cert_views(found@) =~= cert_views(found0).push(found@.last()@));
                },
                None => {
                    match &stored[i] {
                        Some(c) => {
                            found.push(c.copy());
                            assert(cert_views(found@) =~= cert_views(found0).push(found@.last()@));
                        },
                        None => {
                            missing.push(d);
                        },
                    }
                },
            }
            i = i + 1;
        }
        proof {
            assert(header.parents@.subrange(0, header.parents.len() as int) =~= header.parents@);
            assert(sv.subrange(0, header.parents.len() as int) =~= sv);
        }
        if missing.len() == 0 {
            ParentsLookup::Complete(found)
        } else {
            ParentsLookup::Missing(missing)
        }
    }

    /// The payload decision for a header: the batches the store lacks are synchronised, and
    /// the header waits for them exactly when one of them carries no proof of availability
    /// (`has_poa[i]` tells whether the `i`-th batch has one).
    pub fn missing_payload(&self, payload: &Vec<(Digest, WorkerId)>, stored: &Vec<bool>, has_poa: &Vec<bool>) -> (r: PayloadSync)
        requires
            stored.len() == payload.len(),
            has_poa.len() == payload.len(),
        ensures
            r.missing@ == missing_batches(payload@, stored@),
            r.wait == exists|i: int| 0 <= i < payload.len() && !#[trigger] stored@[i] && !has_poa@[i],
    {
        let mut missing: Vec<(Digest, WorkerId)> = Vec::new();
        let mut wait = false;
        let mut i: usize = 0;
        while i < payload.len()
            invariant
                i <= payload.len(),
                stored.len() == payload.len(),
                has_poa.len() == payload.len(),
                missing@ == missing_batches(payload@.subrange(0, i as int), stored@.subrange(0, i as int)),
                wait == exists|k: int| 0 <= k < i && !#[trigger] stored@[k] && !has_poa@[k],
            decreases payload.len() - i,
        {
            proof {
                assert(payload@.subrange(0, i as int + 1).drop_last() =~= payload@.subrange(0, i as int));
                assert(stored@.subrange(0, i as int + 1).subrange(0, i as int) =~= stored@.subrange(0, i as int));
            }
            if !stored[i] {
                missing.push(payload[i]);
                if !has_poa[i] {
                    wait = true;
                }
            }
            i = i + 1;
        }
        proof {
            assert(payload@.subrange(0, payload.len() as int) =~= payload@);
            assert(stored@.subrange(0, payload.len() as int) =~= stored@);
        }
        PayloadSync { missing, wait }
    }

    /// Whether a certificate can be delivered: every parent is a genesis certificate or is in
    /// the store (`stored[i]` tells whether the `i`-th parent is there).
    pub fn deliver_certificate(&self, certificate: &Certificate, stored: &Vec<bool>) -> (r: bool)
        requires
            stored.len() == certificate.header.parents.len(),
        ensures
            r == forall|i: int|
                0 <= i < stored.len() ==> (genesis_of(self.genesis_view(), #[trigger] certificate.header.parents@[i]) is Some
                    || stored@[i]),
    {
        let mut i: usize = 0;
        while i < certificate.header.parents.len()
            invariant
                i <= certificate.header.parents.len(),
                stored.len() == certificate.header.parents.len(),
                forall|j: int|
                    0 <= j < i ==> (genesis_of(self.genesis_view(), #[trigger] certificate.header.parents@[j]) is Some
                        || stored@[j]),
            decreases certificate.header.parents.len() - i,
        {
            if !self.is_genesis(certificate.header.parents[i]) && !stored[i] {
                return false;
            }
            i = i + 1;
        }
        true
    }
}

proof fn lemma_genesis_of_prefix(g: Seq<(Digest, CertificateView)>, d: Digest, n: int)
    requires
        0 < n <= g.len(),
        genesis_of(g.subrange(0, n - 1), d) is None,
        g[n - 1].0 == d,
    ensures
        genesis_of(g, d) == Some(g[n - 1].1),
    decreases g.len(),
{
    if n < g.len() {
        assert(g.drop_last().subrange(0, n - 1) =~= g.subrange(0, n - 1));
        lemma_genesis_of_prefix(g.drop_last(), d, n);
    } else {
        assert(g.drop_last() =~= g.subrange(0, n - 1));
    }
}

} // verus!
