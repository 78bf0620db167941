//! The worker's availability quorum: signed acknowledgements of a batch are gathered until
//! their authors hold the validity threshold of stake, and then form a proof of availability.

use crate::committee::{stake_in, Authority, Committee};
use crate::types::{copy_vec, Digest, PublicKey, Signature, Stake};
use vstd::prelude::*;

verus! {

/// An acknowledgement that an authority holds a batch.
#[derive(Clone, Copy, Debug)]
pub struct SignedBatchAck {
    pub author: PublicKey,
    pub digest: Digest,
    pub signature: Signature,
}

/// A proof of availability of a batch: acknowledgements whose authors hold the validity
/// threshold of stake.
#[derive(Debug)]
pub struct PoaCertificate {
    pub digest: Digest,
    pub acknowledgements: Vec<(PublicKey, Signature)>,
}

/// The mathematical value of a proof of availability.
#[verifier::ext_equal]
pub struct PoaCertificateView {
    pub digest: Digest,
    pub acknowledgements: Seq<(PublicKey, Signature)>,
}

impl View for PoaCertificate {
    type V = PoaCertificateView;

    open spec fn view(&self) -> PoaCertificateView {
        PoaCertificateView { digest: self.digest, acknowledgements: self.acknowledgements@ }
    }
}

/// The summed stake of the authors of `acks`, counted once per acknowledgement.
pub open spec fn acks_stake(auths: Seq<Authority>, acks: Seq<(PublicKey, Signature)>) -> nat
    decreases acks.len(),
{
    if acks.len() == 0 {
        0
    } else {
        acks_stake(auths, acks.drop_last()) + stake_in(auths, acks.last().0)
    }
}

/// The acknowledgements gathered so far for one batch.
pub struct AckQuorum {
    digest: Digest,
    total_stake: Stake,
    acknowledgements: Vec<(PublicKey, Signature)>,
}

/// The mathematical value of the acknowledgements gathered for one batch.
#[verifier::ext_equal]
pub struct AckQuorumView {
    pub digest: Digest,
    pub total_stake: nat,
    pub acknowledgements: Seq<(PublicKey, Signature)>,
}

impl View for AckQuorum {
    type V = AckQuorumView;

    closed spec fn view(&self) -> AckQuorumView {
        AckQuorumView {
            digest: self.digest,
            total_stake: self.total_stake as nat,
            acknowledgements: self.acknowledgements@,
        }
    }
}

impl AckQuorum {
    /// The total stake is the summed stake of the authors of the acknowledgements.
    pub open spec fn wf(&self, c: &Committee) -> bool {
        self@.total_stake == acks_stake(c.authorities@, self@.acknowledgements)
    }

    /// No acknowledgement yet for the batch `digest`.
    pub fn new(digest: Digest) -> (r: Self)
        ensures
            r@ == (AckQuorumView { digest, total_stake: 0, acknowledgements: Seq::empty() }),
            forall|c: Committee| #[trigger] r.wf(&c),
    {
        AckQuorum { digest, total_stake: 0, acknowledgements: Vec::new() }
    }
}

/// What the quorum waiter does after the next reply to a broadcast.
#[derive(Debug)]
pub enum AckStep {
    /// Wait for the next reply.
    Wait,
    /// A reply failed: stop waiting for this batch.
    GiveUp,
    /// The acknowledgements form the proof of availability of the batch.
    Available(PoaCertificate),
}

/// Waits for an availability quorum of signed acknowledgements.
pub struct QuorumWaiter {
    pub committee: Committee,
}

impl QuorumWaiter {
    /// Whether an acknowledgement comes from the authority it was awaited from and is about
    /// the batch that was sent.
    pub fn acknowledgement_matches(ack: &SignedBatchAck, expected_author: PublicKey, expected_digest: Digest) -> (r: bool)
        ensures
            r == (ack.author == expected_author && ack.digest == expected_digest),
    {
        ack.author == expected_author && ack.digest == expected_digest
    }

    /// Adds the acknowledgement of `author`, with its stake. Once the acknowledgements hold
    /// the validity threshold of stake, they form the proof of availability of the batch.
    pub fn add_acknowledgement(
        &self,
        quorum: &mut AckQuorum,
        author: PublicKey,
        signature: Signature,
    ) -> (r: Option<PoaCertificate>)
        requires
            old(quorum).wf(&self.committee),
            old(quorum)@.total_stake + self.committee.spec_stake(author) <= Stake::MAX,
        ensures
            final(quorum).wf(&self.committee),
            final(quorum)@.digest == old(quorum)@.digest,
            final(quorum)@.acknowledgements == old(quorum)@.acknowledgements.push((author, signature)),
            final(quorum)@.total_stake == old(quorum)@.total_stake + self.committee.spec_stake(author),
            final(quorum)@.total_stake >= self.committee.validity_threshold ==> (r matches Some(poa)
                && poa@ == (PoaCertificateView {
                    digest: final(quorum)@.digest,
                    acknowledgements: final(quorum)@.acknowledgements,
                })),
            final(quorum)@.total_stake < self.committee.validity_threshold ==> r is None,
            r matches Some(poa) ==> acks_stake(self.committee.authorities@, poa@.acknowledgements)
                >= self.committee.validity_threshold,
    {
        let stake = self.committee.stake(author);
        quorum.total_stake = quorum.total_stake + stake;
        let ghost before = quorum.acknowledgements@;
        quorum.acknowledgements.push((author, signature));
        assert(quorum.acknowledgements@.drop_last() =~= before);
        if quorum.total_stake >= self.committee.validity_threshold {
            Some(PoaCertificate { digest: quorum.digest, acknowledgements: copy_vec(&quorum.acknowledgements) })
        } else {
            None
        }
    }

    /// Takes the next reply to the broadcast of the batch: a reply that failed (no valid
    /// acknowledgement) ends the wait; a valid acknowledgement is added, and once the
    /// acknowledgements hold the validity threshold they form the proof of availability.
    pub fn on_reply(&self, quorum: &mut AckQuorum, reply: Option<(PublicKey, Signature)>) -> (r: AckStep)
        requires
            old(quorum).wf(&self.committee),
            reply matches Some(p) ==> old(quorum)@.total_stake + self.committee.spec_stake(p.0) <= Stake::MAX,
        ensures
            final(quorum).wf(&self.committee),
            match reply {
                None => r is GiveUp && final(quorum)@ == old(quorum)@,
                Some(p) => {
                    let total = old(quorum)@.total_stake + self.committee.spec_stake(p.0);
                    &&& final(quorum)@ == (AckQuorumView {
                        total_stake: total,
                        acknowledgements: old(quorum)@.acknowledgements.push(p),
                        ..old(quorum)@
                    })
                    &&& total >= self.committee.validity_threshold ==> (r matches AckStep::Available(poa)
                        && poa@ == (PoaCertificateView {
                            digest: old(quorum)@.digest,
                            acknowledgements: old(quorum)@.acknowledgements.push(p),
                        }))
                    &&& total < self.committee.validity_threshold ==> r is Wait
                },
            },
    {
        match reply {
            None => AckStep::GiveUp,
            Some((author, signature)) => match self.add_acknowledgement(quorum, author, signature) {
                Some(poa) => AckStep::Available(poa),
                None => AckStep::Wait,
            },
        }
    }
}

} // verus!
