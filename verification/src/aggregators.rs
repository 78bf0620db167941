//! The aggregators of the primary: the votes for one header become a certificate, and the
//! certificates of the previous rounds become the parents of the next proposal.

use crate::committee::{
    lemma_position_of, lemma_stake_where_insert, lemma_stake_where_le_total, position_of, stake_in, stake_where, total_stake,
    Authority, Committee,
};
use crate::messages::{
    bitmap_popcount, extend_union, has_author_bit, lemma_merged_bitmap, lemma_seq_union,
    lemma_with_author_bit, merge_author_bitmaps, merged_bitmap, popcount, seq_union, set_author_bit,
    with_author_bit, zero_bitmap, ProposalParents, ProposalParentsView,
};
use crate::types::{Certificate, CertificateView, Digest, Header, HeaderView, PublicKey, Round, Signature, Stake, copy_vec};
use std::collections::HashSet;
use vstd::prelude::*;

verus! {

broadcast use vstd::std_specs::hash::group_hash_axioms;

/// The errors that the aggregators report.
#[derive(Clone, Copy, Debug, PartialEq, Eq, Structural)]
pub enum DagError {
    /// The authority has already voted for this header.
    AuthorityReuse(PublicKey),
}

/// The vote of one authority for one header.
#[derive(Clone, Copy, Debug)]
pub struct Vote {
    /// The digest of the header voted for.
    pub id: Digest,
    pub round: Round,
    /// The author of the header voted for.
    pub origin: PublicKey,
    /// The authority that votes.
    pub author: PublicKey,
    pub signature: Signature,
}

/// The authors of a list of votes, in order.
pub open spec fn voters(votes: Seq<(PublicKey, Signature)>) -> Seq<PublicKey> {
    votes.map_values(|v: (PublicKey, Signature)| v.0)
}

/// The stake of a set of authorities in the committee order `auths`.
pub open spec fn set_stake(auths: Seq<Authority>, s: Set<PublicKey>) -> nat {
    stake_where(auths, |k: PublicKey| s.contains(k))
}

/// The sum of the stakes of the distinct authors of `votes`.
pub open spec fn votes_stake(auths: Seq<Authority>, votes: Seq<(PublicKey, Signature)>) -> nat {
    set_stake(auths, voters(votes).to_set())
}

/// The empty selection has no stake.
pub proof fn lemma_set_stake_empty(auths: Seq<Authority>)
    ensures
        set_stake(auths, Set::empty()) == 0,
    decreases auths.len(),
{
    if auths.len() > 0 {
        lemma_set_stake_empty(auths.drop_last());
    }
}

/// One more vote of an authority that has not voted adds exactly its stake.
proof fn lemma_votes_stake_push(
    auths: Seq<Authority>,
    votes: Seq<(PublicKey, Signature)>,
    vote: (PublicKey, Signature),
)
    requires
        crate::committee::names_increasing(auths),
        !voters(votes).to_set().contains(vote.0),
    ensures
        voters(votes.push(vote)) == voters(votes).push(vote.0),
        voters(votes.push(vote)).to_set() == voters(votes).to_set().insert(vote.0),
        votes_stake(auths, votes.push(vote)) == votes_stake(auths, votes)
            + crate::committee::stake_in(auths, vote.0),
{
    assert(voters(votes.push(vote)) =~= voters(votes).push(vote.0));
    assert(voters(votes).push(vote.0).to_set() =~= voters(votes).to_set().insert(vote.0)) by {
        broadcast use vstd::seq_lib::group_seq_properties;
    }
    let p = |k: PublicKey| voters(votes).to_set().contains(k);
    let q = |k: PublicKey| voters(votes.push(vote)).to_set().contains(k);
    lemma_stake_where_insert(auths, p, q, vote.0);
}

/// Collects the votes for one header until their authors hold a quorum of stake.
pub struct VotesAggregator {
    weight: Stake,
    votes: Vec<(PublicKey, Signature)>,
    used: HashSet<PublicKey>,
    /// How many of the votes were counted towards an earlier certificate.
    counted: Ghost<nat>,
}

/// The mathematical value of a votes aggregator.
#[verifier::ext_equal]
pub struct VotesAggregatorView {
    /// The stake gathered since the last certificate was formed.
    pub weight: nat,
    /// The votes received, in order.
    pub votes: Seq<(PublicKey, Signature)>,
    /// The authorities that have voted.
    pub used: Set<PublicKey>,
}

impl View for VotesAggregator {
    type V = VotesAggregatorView;

    closed spec fn view(&self) -> VotesAggregatorView {
        VotesAggregatorView { weight: self.weight as nat, votes: self.votes@, used: self.used@ }
    }
}

impl VotesAggregator {
    /// Whether a certificate has already been formed from these votes.
    pub closed spec fn formed(&self) -> bool {
        self.counted@ > 0
    }

    /// The aggregator's invariant for the committee `c`: every authority has voted at most
    /// once, and the weight is the stake of the authors of the votes received since the last
    /// certificate was formed.
    pub closed spec fn wf(&self, c: &Committee) -> bool {
        let all = self.votes@;
        let recent = all.subrange(self.counted@ as int, all.len() as int);
        let earlier = all.subrange(0, self.counted@ as int);
        &&& c.wf()
        &&& self.used@ == voters(all).to_set()
        &&& voters(all).no_duplicates()
        &&& self.counted@ <= all.len()
        &&& self.weight == votes_stake(c.authorities@, recent)
        &&& votes_stake(c.authorities@, all) == votes_stake(c.authorities@, earlier) + self.weight
        &&& self.counted@ > 0 ==> votes_stake(c.authorities@, earlier) >= c.quorum_threshold
    }

    /// An aggregator without votes.
    pub fn new() -> (r: Self)
        ensures
            r@.weight == 0,
            r@.votes == Seq::<(PublicKey, Signature)>::empty(),
            r@.used == Set::<PublicKey>::empty(),
            !r.formed(),
            forall|c: Committee| c.wf() ==> #[trigger] r.wf(&c),
    {
        let r = VotesAggregator { weight: 0, votes: Vec::new(), used: HashSet::new(), counted: Ghost(0) };
        proof {
            assert forall|c: Committee| c.wf() implies #[trigger] r.wf(&c) by {
                let e = Seq::<(PublicKey, Signature)>::empty();
                assert(r.votes@ =~= e);
                assert(e.subrange(0, 0) =~= e);
                assert(voters(e) =~= Seq::<PublicKey>::empty());
                assert(voters(e).to_set() =~= Set::<PublicKey>::empty());
                lemma_set_stake_empty(c.authorities@);
            }
        }
        r
    }

    /// Adds a vote for `header`. A second vote of the same authority is refused. When the
    /// authors of the votes gathered since the last certificate hold a quorum of stake, the
    /// certificate of `header` with all votes received so far is returned (its digest is
    /// `certificate_digest`), and the weight starts again from zero.
    pub fn append(
        &mut self,
        vote: Vote,
        committee: &Committee,
        header: &Header,
        certificate_digest: Digest,
    ) -> (r: Result<Option<Certificate>, DagError>)
        requires
            committee.wf(),
            old(self).wf(committee),
        ensures
            final(self).wf(committee),
            old(self)@.used.contains(vote.author) ==> {
                &&& r == Err::<Option<Certificate>, DagError>(DagError::AuthorityReuse(vote.author))
                &&& final(self)@ == old(self)@
                &&& final(self).formed() == old(self).formed()
            },
            !old(self)@.used.contains(vote.author) ==> {
                let votes = old(self)@.votes.push((vote.author, vote.signature));
                let w = old(self)@.weight + committee.spec_stake(vote.author);
                &&& final(self)@.votes == votes
                &&& final(self)@.used == old(self)@.used.insert(vote.author)
                &&& w >= committee.quorum_threshold ==> {
                    &&& final(self)@.weight == 0
                    &&& final(self).formed()
                    &&& r matches Ok(Some(cert)) && cert@ == (CertificateView {
                        header: header@,
                        digest: certificate_digest,
                        votes,
                    })
                }
                &&& w < committee.quorum_threshold ==> {
                    &&& final(self)@.weight == w
                    &&& final(self).formed() == old(self).formed()
                    &&& r == Ok::<Option<Certificate>, DagError>(None)
                }
            },
            r matches Ok(Some(cert)) ==> votes_stake(committee.authorities@, cert@.votes)
                >= committee.quorum_threshold,
    {
        let author = vote.author;
        if !self.used.insert(author) {
            assert(self.used@ =~= old(self).used@);
            return Err(DagError::AuthorityReuse(author));
        }
        let ghost auths = committee.authorities@;
        let ghost old_votes = self.votes@;
        let ghost counted = self.counted@;
        proof {
            let recent = old_votes.subrange(counted as int, old_votes.len() as int);
            let earlier = old_votes.subrange(0, counted as int);
            let entry = (author, vote.signature);
            assert(!voters(old_votes).to_set().contains(author));
            lemma_votes_stake_push(auths, old_votes, entry);
            assert(old_votes.push(entry).subrange(counted as int, old_votes.len() as int + 1) =~= recent.push(entry));
            assert(old_votes.push(entry).subrange(0, counted as int) =~= earlier);
            assert forall|i: int| 0 <= i < recent.len() implies voters(recent)[i] != author by {
                assert(voters(recent)[i] == voters(old_votes)[counted + i]);
                assert(voters(old_votes).to_set().contains(voters(old_votes)[counted + i]));
            }
            assert(!voters(recent).to_set().contains(author));
            lemma_votes_stake_push(auths, recent, entry);
            lemma_stake_where_le_total(auths, |k: PublicKey| voters(old_votes.push(entry)).to_set().contains(k));
            assert(voters(old_votes.push(entry)).no_duplicates());
        }
        self.votes.push((author, vote.signature));
        self.weight = self.weight + committee.stake(author);
        if self.weight >= committee.quorum_threshold {
            self.weight = 0;
            proof {
                let all = self.votes@;
                assert(all.subrange(0, all.len() as int) =~= all);
                assert(all.subrange(all.len() as int, all.len() as int) =~= Seq::<(PublicKey, Signature)>::empty());
                assert(voters(Seq::<(PublicKey, Signature)>::empty()).to_set() =~= Set::<PublicKey>::empty());
                lemma_set_stake_empty(auths);
                assert(votes_stake(auths, Seq::<(PublicKey, Signature)>::empty()) == 0);
                self.counted@ = all.len();
            }
            let cert = Certificate { header: header.copy(), digest: certificate_digest, votes: copy_vec(&self.votes) };
            return Ok(Some(cert));
        }
        Ok(None)
    }
}

/// Until a certificate is formed, the weight is the stake of the distinct authors of all votes
/// received, and a new authority's vote raises it by exactly its stake. So, with `append`'s
/// contract, the first certificate comes with the first vote that brings the distinct voters'
/// stake to the quorum threshold, and it carries every vote received so far.
pub proof fn lemma_votes_weight_until_formed(
    agg: &VotesAggregator,
    c: &Committee,
    author: PublicKey,
    signature: Signature,
)
    requires
        agg.wf(c),
        !agg.formed(),
        !agg@.used.contains(author),
    ensures
        agg@.weight == votes_stake(c.authorities@, agg@.votes),
        agg@.weight + c.spec_stake(author) == votes_stake(c.authorities@, agg@.votes.push((author, signature))),
{
    let all = agg.votes@;
    assert(all.subrange(0, all.len() as int) =~= all);
    lemma_votes_stake_push(c.authorities@, all, (author, signature));
}

/// Once a certificate has been formed, and when the whole committee holds less than twice the
/// quorum threshold, the vote of an authority that has not voted yet cannot complete a second
/// quorum: the next certificate never comes.
pub proof fn lemma_votes_quorum_reached_once(agg: &VotesAggregator, c: &Committee, author: PublicKey)
    requires
        agg.wf(c),
        agg.formed(),
        total_stake(c.authorities@) < 2 * c.quorum_threshold,
        !agg@.used.contains(author),
    ensures
        agg@.weight + c.spec_stake(author) < c.quorum_threshold,
{
    let auths = c.authorities@;
    let all = agg.votes@;
    let recent = all.subrange(agg.counted@ as int, all.len() as int);
    let earlier = all.subrange(0, agg.counted@ as int);
    let sig: Signature = vstd::pervasive::arbitrary();
    let entry = (author, sig);
    lemma_votes_stake_push(auths, all, entry);
    lemma_stake_where_le_total(auths, |k: PublicKey| voters(all.push(entry)).to_set().contains(k));
}

/// Whether cross-step weak parent `a` comes no later than `b` when parents are prioritised:
/// higher ancestry score first, then the later round, then the smaller digest.
pub open spec fn priority_le(a: CrossStepWeakParent, b: CrossStepWeakParent) -> bool {
    ||| a.ancestry_score > b.ancestry_score
    ||| (a.ancestry_score == b.ancestry_score && a.round > b.round)
    ||| (a.ancestry_score == b.ancestry_score && a.round == b.round && a.digest <= b.digest)
}

/// The priority order as a relation.
pub open spec fn priority_order() -> spec_fn(CrossStepWeakParent, CrossStepWeakParent) -> bool {
    |a: CrossStepWeakParent, b: CrossStepWeakParent| priority_le(a, b)
}

/// The priority order is a total order.
pub proof fn lemma_priority_total()
    ensures
        vstd::relations::total_ordering(priority_order()),
{
    let leq = priority_order();
    assert forall|x: CrossStepWeakParent, y: CrossStepWeakParent| #[trigger] leq(x, y) && #[trigger] leq(y, x) implies x == y by {
        assert(priority_le(x, y) && priority_le(y, x));
    }
    assert forall|x: CrossStepWeakParent, y: CrossStepWeakParent, z: CrossStepWeakParent|
        #[trigger] leq(x, y) && #[trigger] leq(y, z) implies leq(x, z) by {
        assert(priority_le(x, y) && priority_le(y, z));
    }
    assert forall|x: CrossStepWeakParent, y: CrossStepWeakParent| #[trigger] leq(x, y) || #[trigger] leq(y, x) by {
        assert(priority_le(x, y) || priority_le(y, x));
    }
    assert forall|x: CrossStepWeakParent| #[trigger] leq(x, x) by {
        assert(priority_le(x, x));
    }
}

/// Whether `a` comes no later than `b` in the priority order.
fn priority_le_exec(a: &CrossStepWeakParent, b: &CrossStepWeakParent) -> (r: bool)
    ensures
        r == priority_le(*a, *b),
{
    a.ancestry_score > b.ancestry_score || (a.ancestry_score == b.ancestry_score && a.round > b.round)
        || (a.ancestry_score == b.ancestry_score && a.round == b.round && a.digest <= b.digest)
}

/// Sorts cross-step weak parents by priority; equal ones keep their order.
fn sort_by_priority(v: &Vec<CrossStepWeakParent>) -> (r: Vec<CrossStepWeakParent>)
    ensures
        r@ == v@.sort_by(priority_order()),
{
    let ghost leq = priority_order();
    proof {
        lemma_priority_total();
    }
    let mut out: Vec<CrossStepWeakParent> = Vec::new();
    let mut i: usize = 0;
    proof {
        broadcast use vstd::seq_lib::group_to_multiset_ensures;
        assert(out@ =~= v@.subrange(0, 0));
    }
    while i < v.len()
        invariant
            i <= v.len(),
            leq == priority_order(),
            vstd::relations::total_ordering(leq),
            vstd::relations::sorted_by(out@, leq),
            out@.to_multiset() == v@.subrange(0, i as int).to_multiset(),
        decreases v.len() - i,
    {
        let x = v[i];
        let mut p: usize = 0;
        while p < out.len() && priority_le_exec(&out[p], &x)
            invariant
                p <= out@.len(),
                leq == priority_order(),
                forall|a: int| 0 <= a < p ==> priority_le(#[trigger] out@[a], x),
            decreases out@.len() - p,
        {
            p = p + 1;
        }
        let ghost out0 = out@;
        out.insert(p, x);
        proof {
            broadcast use vstd::seq_lib::group_to_multiset_ensures;
            vstd::seq_lib::to_multiset_insert(out0, p as int, x);
            assert(v@.subrange(0, i as int + 1) =~= v@.subrange(0, i as int).push(x));
            assert forall|a: int, b: int| 0 <= a < b < out@.len() implies #[trigger] leq(out@[a], out@[b]) by {
                if p < out0.len() {
                    assert(!priority_le(out0[p as int], x));
                    assert(leq(x, out0[p as int]));
                }
                if a < p as int && b > p as int {
                    assert(leq(out0[a], out0[b - 1]));
                } else if a == p as int {
                    assert(leq(out0[p as int], out0[b - 1]));
                } else if b == p as int {
                    assert(priority_le(out0[a], x));
                } else if a > p as int {
                    assert(leq(out0[a - 1], out0[b - 1]));
                } else {
                    assert(leq(out0[a], out0[b]));
                }
            }
        }
        i = i + 1;
    }
    proof {
        assert(v@.subrange(0, v.len() as int) =~= v@);
        v@.lemma_sort_by_ensures(leq);
        vstd::seq_lib::lemma_sorted_unique(out@, v@.sort_by(leq), leq);
    }
    out
}

/// The size of the cross-step weak parent budget: twice the largest of the validity
/// threshold, the two candidate thresholds and 1.
pub open spec fn weak_budget(c: &Committee) -> int {
    let validity = c.validity_threshold as int;
    let gate: int = if c.fast_coin_candidate_threshold >= c.solid_candidate_threshold {
        c.fast_coin_candidate_threshold as int
    } else {
        c.solid_candidate_threshold as int
    };
    let m: int = if validity >= gate {
        validity
    } else {
        gate
    };
    2 * if m >= 1 {
        m
    } else {
        1
    }
}

/// The values of the committee's round schedule that the certificates aggregator reads for
/// the round it gathers parents for (the round after the one it expects certificates of).
#[derive(Clone, Copy, Debug)]
pub struct RoundRules {
    /// The first round whose certificates are regular weak parents.
    pub regular_weak_start: Round,
    /// The first round whose certificates are cross-step weak parents.
    pub cross_step_weak_start: Round,
    /// The round whose authors the back-link bitmap tracks; 0 when none is tracked.
    pub back_link_target_round: Round,
    /// The stake (or, on a solid step, the number of solid-step vertices) needed to advance.
    pub processing_threshold: Stake,
    /// Whether the round is a solid step.
    pub is_solid_step: bool,
}

/// A weak parent from an earlier solid step, kept with its ancestry score.
#[derive(Clone, Copy, Debug, PartialEq, Eq)]
pub struct CrossStepWeakParent {
    pub digest: Digest,
    pub round: Round,
    pub ancestry_score: usize,
}

/// How a certificate stands to the round whose parents are gathered.
pub enum ParentKind {
    /// A certificate of the expected round.
    Strong,
    /// A certificate of an earlier round inside the current solid step.
    RegularWeak,
    /// A certificate of an earlier solid step inside the current solid wave.
    CrossStepWeak,
    /// A certificate that cannot be a parent.
    Outside,
}

/// The kind of a certificate of `round` for an aggregator that expects `expected`.
pub open spec fn parent_kind(expected: Round, rules: RoundRules, round: Round) -> ParentKind {
    if round == expected {
        ParentKind::Strong
    } else if rules.regular_weak_start <= round && round < expected {
        ParentKind::RegularWeak
    } else if rules.cross_step_weak_start <= round && round < rules.regular_weak_start {
        ParentKind::CrossStepWeak
    } else {
        ParentKind::Outside
    }
}

/// The solid-step summary a header contributes: the merged one when it has one.
pub open spec fn step_cover(h: HeaderView) -> Seq<Digest> {
    if h.solid_step_vertices_merged.len() == 0 {
        h.solid_step_vertices
    } else {
        h.solid_step_vertices_merged
    }
}

/// The solid-wave summary a header contributes: the merged one when it has one.
pub open spec fn wave_cover(h: HeaderView) -> Seq<Digest> {
    if h.solid_wave_vertices_merged.len() == 0 {
        h.solid_wave_vertices
    } else {
        h.solid_wave_vertices_merged
    }
}

/// The ancestry score of a cross-step weak parent for the tracked round `target`: a direct
/// hit on the tracked round first, then the tracked authors it reaches, then the sizes of its
/// wave and step summaries.
pub open spec fn ancestry_score(cert: CertificateView, target: Round) -> int {
    let direct: int = if target > 0 && cert.round() == target {
        1
    } else {
        0
    };
    let back_links: int = if target > 0 && cert.header.wave_back_link_target_round == target {
        popcount(cert.header.wave_back_link_author_bitmap) as int
    } else {
        0
    };
    direct * 1_000_000 + back_links * 10_000 + wave_cover(cert.header).len() * 100 + step_cover(
        cert.header,
    ).len()
}

/// The number of bytes of a bitmap with one bit per authority of `auths`.
pub open spec fn bitmap_len(auths: Seq<Authority>) -> nat {
    ((auths.len() + 7) / 8) as nat
}

/// The back-link bitmap after a certificate is taken in: on the first certificate it is
/// sized to the committee; a certificate of the tracked round adds its author's bit, and one
/// that tracks the same round adds the bits it carries.
pub open spec fn back_link_update(
    bitmap: Seq<u8>,
    cert: CertificateView,
    auths: Seq<Authority>,
    target: Round,
) -> Seq<u8> {
    if target == 0 {
        bitmap
    } else {
        let b0 = if bitmap.len() == 0 {
            Seq::new(bitmap_len(auths), |i: int| 0u8)
        } else {
            bitmap
        };
        let b1 = if cert.round() == target {
            match position_of(auths, cert.origin()) {
                Some(i) => with_author_bit(b0, i),
                None => b0,
            }
        } else {
            b0
        };
        if cert.header.wave_back_link_target_round == target {
            merged_bitmap(b1, cert.header.wave_back_link_author_bitmap)
        } else {
            b1
        }
    }
}

/// The mathematical value of a certificates aggregator.
#[verifier::ext_equal]
pub struct CertificatesAggregatorView {
    pub expected_round: Round,
    /// The stake of the authors of the accepted certificates of the expected round.
    pub weight: nat,
    /// Every accepted parent, in order.
    pub certificates: Seq<Digest>,
    /// The strong and regular weak parents.
    pub preserved_parents: Seq<Digest>,
    pub cross_step_weak_candidates: Seq<CrossStepWeakParent>,
    /// The regular and cross-step weak parents.
    pub weak_certificates: Seq<Digest>,
    /// The authors of the accepted certificates of the expected round.
    pub used: Set<PublicKey>,
    pub has_quorum: bool,
    pub solid_step_union: Seq<Digest>,
    pub solid_wave_union: Seq<Digest>,
    /// The solid-step union as it stood when it was last checked on a solid step.
    pub last_union_set: Option<Seq<Digest>>,
    pub back_link_target_round: Round,
    pub back_link_author_bitmap: Seq<u8>,
}

/// The aggregator after it takes in an accepted certificate of kind `kind`.
pub open spec fn absorb(
    v: CertificatesAggregatorView,
    cert: CertificateView,
    auths: Seq<Authority>,
    rules: RoundRules,
    kind: ParentKind,
) -> CertificatesAggregatorView {
    let d = cert.digest;
    let t = rules.back_link_target_round;
    let base = CertificatesAggregatorView {
        certificates: v.certificates.push(d),
        solid_wave_union: seq_union(v.solid_wave_union, wave_cover(cert.header)),
        back_link_target_round: t,
        back_link_author_bitmap: back_link_update(v.back_link_author_bitmap, cert, auths, t),
        ..v
    };
    match kind {
        ParentKind::Strong => CertificatesAggregatorView {
            preserved_parents: v.preserved_parents.push(d),
            solid_step_union: seq_union(v.solid_step_union, step_cover(cert.header)),
            used: v.used.insert(cert.origin()),
            weight: v.weight + stake_in(auths, cert.origin()),
            ..base
        },
        ParentKind::RegularWeak => CertificatesAggregatorView {
            weak_certificates: v.weak_certificates.push(d),
            preserved_parents: v.preserved_parents.push(d),
            solid_step_union: seq_union(v.solid_step_union, step_cover(cert.header)),
            ..base
        },
        ParentKind::CrossStepWeak => CertificatesAggregatorView {
            weak_certificates: v.weak_certificates.push(d),
            cross_step_weak_candidates: v.cross_step_weak_candidates.push(
                CrossStepWeakParent {
                    digest: d,
                    round: cert.round(),
                    ancestry_score: ancestry_score(cert, t) as usize,
                },
            ),
            ..base
        },
        ParentKind::Outside => v,
    }
}

/// The aggregator after it checks whether it can advance: on a solid step by the number of
/// solid-step vertices its parents summarise, otherwise by the stake of its strong parents.
pub open spec fn settle(v: CertificatesAggregatorView, rules: RoundRules) -> CertificatesAggregatorView {
    if rules.is_solid_step {
        CertificatesAggregatorView {
            last_union_set: Some(v.solid_step_union),
            has_quorum: v.solid_step_union.len() >= rules.processing_threshold,
            ..v
        }
    } else {
        CertificatesAggregatorView { has_quorum: v.weight >= rules.processing_threshold, ..v }
    }
}

/// The parents a proposal keeps under a weak budget of `budget`: every strong and regular
/// weak parent, then the best-prioritised cross-step weak parents, as many as the budget allows.
pub open spec fn prioritized_parents(v: CertificatesAggregatorView, budget: int) -> Seq<Digest> {
    let sorted = v.cross_step_weak_candidates.sort_by(priority_order());
    let k = if budget < sorted.len() {
        budget
    } else {
        sorted.len() as int
    };
    v.preserved_parents + sorted.take(k).map_values(|c: CrossStepWeakParent| c.digest)
}

/// The parents of the next proposal, when the aggregator can advance, with a weak budget of
/// `budget`.
pub open spec fn proposal(v: CertificatesAggregatorView, budget: int) -> Option<ProposalParentsView> {
    if v.has_quorum {
        Some(
            ProposalParentsView {
                parents: prioritized_parents(v, budget),
                solid_step_union: v.solid_step_union,
                solid_wave_union: v.solid_wave_union,
                wave_back_link_target_round: v.back_link_target_round,
                wave_back_link_author_bitmap: v.back_link_author_bitmap,
            },
        )
    } else {
        None
    }
}

/// Whether `append` ignores the certificate: it cannot be a parent, or it is a second
/// certificate of the expected round from the same author.
pub open spec fn ignored(v: CertificatesAggregatorView, cert: CertificateView, rules: RoundRules) -> bool {
    let kind = parent_kind(v.expected_round, rules, cert.round());
    ||| kind is Outside
    ||| (kind is Strong && v.used.contains(cert.origin()))
}

/// The aggregator after `append` and what `append` returns.
pub open spec fn append_outcome(
    v: CertificatesAggregatorView,
    cert: CertificateView,
    auths: Seq<Authority>,
    rules: RoundRules,
    budget: int,
) -> (CertificatesAggregatorView, Option<ProposalParentsView>) {
    if ignored(v, cert, rules) {
        (v, None)
    } else {
        let n = settle(
            absorb(v, cert, auths, rules, parent_kind(v.expected_round, rules, cert.round())),
            rules,
        );
        (n, proposal(n, budget))
    }
}

/// Collects the certificates of the previous rounds until they are enough to propose on.
pub struct CertificatesAggregator {
    expected_round: Round,
    weight: Stake,
    certificates: Vec<Digest>,
    /// The parents of the strong and regular-weak windows, which are always kept.
    preserved_parents: Vec<Digest>,
    /// The cross-step weak parents, of which only the best-scoring are kept when parents are
    /// prioritised.
    cross_step_weak_candidates: Vec<CrossStepWeakParent>,
    weak_certificates: Vec<Digest>,
    used: HashSet<PublicKey>,
    has_quorum: bool,
    /// The union of the parents' solid-step summaries, each digest once. It is kept as a
    /// vector rather than a hash set so that the union handed out, and the one recorded on a
    /// solid step, come in a stated order (first appearance) instead of the set's walk order.
    solid_step_union: Vec<Digest>,
    /// The union of the parents' solid-wave summaries.
    solid_wave_union: Vec<Digest>,
    /// The solid-step union as it stood when it was last checked on a solid step.
    last_union_set: Option<Vec<Digest>>,
    /// The round whose reachable authors are tracked.
    back_link_target_round: Round,
    /// One bit per authority of the committee order: reached through the parents.
    back_link_author_bitmap: Vec<u8>,
}

impl View for CertificatesAggregator {
    type V = CertificatesAggregatorView;

    closed spec fn view(&self) -> CertificatesAggregatorView {
        CertificatesAggregatorView {
            expected_round: self.expected_round,
            weight: self.weight as nat,
            certificates: self.certificates@,
            preserved_parents: self.preserved_parents@,
            cross_step_weak_candidates: self.cross_step_weak_candidates@,
            weak_certificates: self.weak_certificates@,
            used: self.used@,
            has_quorum: self.has_quorum,
            solid_step_union: self.solid_step_union@,
            solid_wave_union: self.solid_wave_union@,
            last_union_set: match self.last_union_set {
                Some(u) => Some(u@),
                None => None,
            },
            back_link_target_round: self.back_link_target_round,
            back_link_author_bitmap: self.back_link_author_bitmap@,
        }
    }
}

/// The invariant of a certificates aggregator for the committee `c`: its weight is the stake
/// of the distinct authors of its strong parents, and its unions repeat no digest.
pub open spec fn certificates_wf(v: CertificatesAggregatorView, c: &Committee) -> bool {
    &&& c.wf()
    &&& v.weight == set_stake(c.authorities@, v.used)
    &&& v.solid_step_union.no_duplicates()
    &&& v.solid_wave_union.no_duplicates()
    &&& v.last_union_set matches Some(u) ==> u.no_duplicates()
    &&& v.back_link_author_bitmap.len() == 0 || v.back_link_author_bitmap.len() == bitmap_len(c.authorities@)
}

impl CertificatesAggregator {
    pub open spec fn wf(&self, c: &Committee) -> bool {
        certificates_wf(self@, c)
    }

    /// An aggregator for the certificates of `expected_round`, with nothing gathered yet.
    pub fn new(expected_round: Round) -> (r: Self)
        ensures
            r@ == (CertificatesAggregatorView {
                expected_round,
                weight: 0,
                certificates: Seq::empty(),
                preserved_parents: Seq::empty(),
                cross_step_weak_candidates: Seq::empty(),
                weak_certificates: Seq::empty(),
                used: Set::empty(),
                has_quorum: false,
                solid_step_union: Seq::empty(),
                solid_wave_union: Seq::empty(),
                last_union_set: None,
                back_link_target_round: 0,
                back_link_author_bitmap: Seq::empty(),
            }),
            forall|c: Committee| c.wf() ==> #[trigger] r.wf(&c),
    {
        proof {
            assert forall|c: Committee| c.wf() implies set_stake(c.authorities@, Set::<PublicKey>::empty()) == 0 by {
                lemma_set_stake_empty(c.authorities@);
            }
        }
        CertificatesAggregator {
            expected_round,
            weight: 0,
            certificates: Vec::new(),
            preserved_parents: Vec::new(),
            cross_step_weak_candidates: Vec::new(),
            weak_certificates: Vec::new(),
            used: HashSet::new(),
            has_quorum: false,
            solid_step_union: Vec::new(),
            solid_wave_union: Vec::new(),
            last_union_set: None,
            back_link_target_round: 0,
            back_link_author_bitmap: Vec::new(),
        }
    }

    /// The ancestry score of a cross-step weak parent for the tracked round `target_round`.
    pub fn cross_step_weak_parent_score(certificate: &Certificate, target_round: Round) -> (r: usize)
        requires
            certificate@.header.summaries_wf(),
            ancestry_score(certificate@, target_round) <= usize::MAX,
        ensures
            r == ancestry_score(certificate@, target_round),
    {
        let direct: usize = if target_round > 0 && certificate.round() == target_round {
            1
        } else {
            0
        };
        let back_links: usize = if target_round > 0
            && certificate.header.wave_back_link_target_round == target_round {
            bitmap_popcount(&certificate.header.wave_back_link_author_bitmap)
        } else {
            0
        };
        let wave: usize = if certificate.header.solid_wave_vertices_merged.len() == 0 {
            certificate.header.solid_wave_vertices.len()
        } else {
            certificate.header.solid_wave_vertices_merged.len()
        };
        let step: usize = if certificate.header.solid_step_vertices_merged.len() == 0 {
            certificate.header.solid_step_vertices.len()
        } else {
            certificate.header.solid_step_vertices_merged.len()
        };
        direct * 1_000_000 + back_links * 10_000 + wave * 100 + step
    }

    /// How many cross-step weak parents a proposal keeps.
    pub fn cross_step_weak_budget(&self, committee: &Committee) -> (r: usize)
        requires
            weak_budget(committee) <= usize::MAX,
        ensures
            r == weak_budget(committee),
    {
        let validity = committee.validity_threshold as usize;
        let gate = if committee.fast_coin_candidate_threshold >= committee.solid_candidate_threshold {
            committee.fast_coin_candidate_threshold
        } else {
            committee.solid_candidate_threshold
        };
        let m = if validity >= gate {
            validity
        } else {
            gate
        };
        let m = if m >= 1 {
            m
        } else {
            1
        };
        m * 2
    }

    /// The parents a proposal would keep under the weak budget: all strong and regular weak
    /// parents, then the best-prioritised cross-step weak parents, as many as the budget allows.
    pub fn prioritized_parent_set(&self, committee: &Committee) -> (r: Vec<Digest>)
        requires
            weak_budget(committee) <= usize::MAX,
        ensures
            r@ == prioritized_parents(self@, weak_budget(committee)),
    {
        let mut parents = copy_vec(&self.preserved_parents);
        let budget = self.cross_step_weak_budget(committee);
        proof {
            lemma_priority_total();
            self@.cross_step_weak_candidates.lemma_sort_by_ensures(priority_order());
            broadcast use vstd::seq_lib::group_to_multiset_ensures;
        }
        if budget == 0 || self.cross_step_weak_candidates.len() == 0 {
            proof {
                let sorted = self@.cross_step_weak_candidates.sort_by(priority_order());
                assert(sorted.len() == 0) by {
                    if sorted.len() > 0 {
                        assert(sorted.to_multiset().contains(sorted[0]));
                        assert(self@.cross_step_weak_candidates.to_multiset().count(sorted[0]) > 0);
                    }
                }
                assert(parents@ =~= self@.preserved_parents + sorted.take(0).map_values(|c: CrossStepWeakParent| c.digest));
            }
            return parents;
        }
        let candidates = sort_by_priority(&self.cross_step_weak_candidates);
        let ghost base = parents@;
        let mut i: usize = 0;
        while i < candidates.len() && i < budget
            invariant
                i <= candidates.len(),
                i <= budget,
                budget == weak_budget(committee),
                candidates@ == self@.cross_step_weak_candidates.sort_by(priority_order()),
                parents@ == base + candidates@.take(i as int).map_values(|c: CrossStepWeakParent| c.digest),
            decreases candidates.len() - i,
        {
            parents.push(candidates[i].digest);
            assert(candidates@.take(i as int + 1) =~= candidates@.take(i as int).push(candidates@[i as int]));
            assert(parents@ =~= base + candidates@.take(i as int + 1).map_values(|c: CrossStepWeakParent| c.digest));
            i = i + 1;
        }
        proof {
            assert(candidates@.len() == self@.cross_step_weak_candidates.len()) by {
                vstd::seq_lib::to_multiset_len(candidates@);
                vstd::seq_lib::to_multiset_len(self@.cross_step_weak_candidates);
            }
        }
        parents
    }

    /// The last solid-step union checked on a solid step, if any.
    pub fn last_solid_step_union_digests(&self) -> (r: Option<&[Digest]>)
        ensures
            match self@.last_union_set {
                Some(u) => r matches Some(s) && s@ == u,
                None => r is None,
            },
    {
        match &self.last_union_set {
            Some(u) => Some(u.as_slice()),
            None => None,
        }
    }

    fn extend_step_union(&mut self, certificate: &Certificate)
        ensures
            final(self)@ == (CertificatesAggregatorView {
                solid_step_union: seq_union(old(self)@.solid_step_union, step_cover(certificate@.header)),
                ..old(self)@
            }),
    {
        if certificate.header.solid_step_vertices_merged.len() == 0 {
            extend_union(&mut self.solid_step_union, &certificate.header.solid_step_vertices);
        } else {
            extend_union(&mut self.solid_step_union, &certificate.header.solid_step_vertices_merged);
        }
    }

    fn extend_wave_union(&mut self, certificate: &Certificate)
        ensures
            final(self)@ == (CertificatesAggregatorView {
                solid_wave_union: seq_union(old(self)@.solid_wave_union, wave_cover(certificate@.header)),
                ..old(self)@
            }),
    {
        if certificate.header.solid_wave_vertices_merged.len() == 0 {
            extend_union(&mut self.solid_wave_union, &certificate.header.solid_wave_vertices);
        } else {
            extend_union(&mut self.solid_wave_union, &certificate.header.solid_wave_vertices_merged);
        }
    }

    fn extend_back_link_bitmap(&mut self, certificate: &Certificate, committee: &Committee, target_round: Round)
        ensures
            final(self)@ == (CertificatesAggregatorView {
                back_link_author_bitmap: back_link_update(
                    old(self)@.back_link_author_bitmap,
                    certificate@,
                    committee.authorities@,
                    target_round,
                ),
                ..old(self)@
            }),
    {
        if target_round == 0 {
            return;
        }
        if self.back_link_author_bitmap.len() == 0 {
            self.back_link_author_bitmap = zero_bitmap(committee.authority_bitmap_len());
        }
        if certificate.round() == target_round {
            if let Some(index) = committee.authority_index(certificate.origin()) {
                set_author_bit(&mut self.back_link_author_bitmap, index);
            }
        }
        if certificate.header.wave_back_link_target_round == target_round {
            merge_author_bitmaps(
                &mut self.back_link_author_bitmap,
                &certificate.header.wave_back_link_author_bitmap,
            );
        }
    }

    /// Takes in a certificate. A certificate of the expected round counts once per author;
    /// certificates of the regular-weak and cross-step-weak windows are weak parents; any
    /// other certificate is ignored. Whenever a certificate is taken in, the aggregator checks
    /// whether it can advance, and if so returns the prioritised parents (every strong and
    /// regular weak parent, and the best-scoring cross-step weak parents within the budget)
    /// with the summaries of their solid vertices and the back-link bitmap.
    pub fn append(
        &mut self,
        certificate: Certificate,
        committee: &Committee,
        rules: &RoundRules,
    ) -> (r: Result<Option<ProposalParents>, DagError>)
        requires
            old(self).wf(committee),
            certificate@.header.summaries_wf(),
            weak_budget(committee) <= usize::MAX,
            parent_kind(old(self)@.expected_round, *rules, certificate@.round()) is CrossStepWeak
                ==> ancestry_score(certificate@, rules.back_link_target_round) <= usize::MAX,
        ensures
            final(self).wf(committee),
            final(self)@ == append_outcome(old(self)@, certificate@, committee.authorities@, *rules, weak_budget(committee)).0,
            match append_outcome(old(self)@, certificate@, committee.authorities@, *rules, weak_budget(committee)).1 {
                Some(p) => r matches Ok(Some(parents)) && parents@ == p,
                None => r matches Ok(None),
            },
    {
        let ghost v0 = self@;
        let ghost auths = committee.authorities@;
        let ghost kind = parent_kind(v0.expected_round, *rules, certificate@.round());
        let origin = certificate.origin();
        let round = certificate.round();
        if round == self.expected_round && !self.used.insert(origin) {
            assert(self.used@ =~= v0.used);
            assert(self@ =~= v0);
            return Ok(None);
        }
        let digest = certificate.digest;
        let target = rules.back_link_target_round;
        if round == self.expected_round {
            proof {
                let p = |k: PublicKey| v0.used.contains(k);
                let q = |k: PublicKey| v0.used.insert(origin).contains(k);
                lemma_stake_where_insert(auths, p, q, origin);
                lemma_stake_where_le_total(auths, q);
            }
            self.certificates.push(digest);
            self.preserved_parents.push(digest);
            self.extend_step_union(&certificate);
            self.extend_wave_union(&certificate);
            self.back_link_target_round = target;
            self.extend_back_link_bitmap(&certificate, committee, target);
            self.weight = self.weight + committee.stake(origin);
        } else if round >= rules.regular_weak_start && round < self.expected_round {
            self.certificates.push(digest);
            self.weak_certificates.push(digest);
            self.preserved_parents.push(digest);
            self.extend_step_union(&certificate);
            self.extend_wave_union(&certificate);
            self.back_link_target_round = target;
            self.extend_back_link_bitmap(&certificate, committee, target);
        } else if round >= rules.cross_step_weak_start && round < rules.regular_weak_start {
            let ancestry_score = Self::cross_step_weak_parent_score(&certificate, target);
            self.certificates.push(digest);
            self.weak_certificates.push(digest);
            self.cross_step_weak_candidates.push(
                CrossStepWeakParent { digest, round, ancestry_score },
            );
            self.extend_wave_union(&certificate);
            self.back_link_target_round = target;
            self.extend_back_link_bitmap(&certificate, committee, target);
        } else {
            return Ok(None);
        }
        proof {
            assert(self@ =~= absorb(v0, certificate@, auths, *rules, kind));
            lemma_seq_union(v0.solid_step_union, step_cover(certificate@.header));
            lemma_seq_union(v0.solid_wave_union, wave_cover(certificate@.header));
        }
        if rules.is_solid_step {
            self.last_union_set = Some(copy_vec(&self.solid_step_union));
            self.has_quorum = self.solid_step_union.len() >= rules.processing_threshold as usize;
        } else {
            self.has_quorum = self.weight >= rules.processing_threshold;
        }
        proof {
            assert(self@ =~= settle(absorb(v0, certificate@, auths, *rules, kind), *rules));
        }
        if self.has_quorum {
            let parents = ProposalParents {
                parents: self.prioritized_parent_set(committee),
                solid_step_union: copy_vec(&self.solid_step_union),
                solid_wave_union: copy_vec(&self.solid_wave_union),
                wave_back_link_target_round: self.back_link_target_round,
                wave_back_link_author_bitmap: copy_vec(&self.back_link_author_bitmap),
            };
            return Ok(Some(parents));
        }
        Ok(None)
    }
}

/// Every step of the certificates aggregator keeps its invariant: the weight stays the stake
/// of the distinct authors of its strong parents, and its unions never repeat a digest.
pub proof fn lemma_append_keeps_wf(
    v: CertificatesAggregatorView,
    cert: CertificateView,
    c: &Committee,
    rules: RoundRules,
)
    requires
        certificates_wf(v, c),
    ensures
        certificates_wf(append_outcome(v, cert, c.authorities@, rules, weak_budget(c)).0, c),
{
    let auths = c.authorities@;
    if !ignored(v, cert, rules) {
        let kind = parent_kind(v.expected_round, rules, cert.round());
        lemma_seq_union(v.solid_step_union, step_cover(cert.header));
        lemma_seq_union(v.solid_wave_union, wave_cover(cert.header));
        lemma_back_link_update(v.back_link_author_bitmap, cert, auths, rules.back_link_target_round);
        if kind is Strong {
            let p = |k: PublicKey| v.used.contains(k);
            let q = |k: PublicKey| v.used.insert(cert.origin()).contains(k);
            lemma_stake_where_insert(auths, p, q, cert.origin());
        }
    }
}

/// When the certificates aggregator hands out proposal parents, it has met the processing
/// threshold of the round: on a solid step its parents summarise at least that many distinct
/// solid-step vertices, and otherwise the distinct authors of its strong parents hold at
/// least that much stake.
pub proof fn lemma_proposal_meets_threshold(
    v: CertificatesAggregatorView,
    cert: CertificateView,
    c: &Committee,
    rules: RoundRules,
)
    requires
        certificates_wf(v, c),
        append_outcome(v, cert, c.authorities@, rules, weak_budget(c)).1 is Some,
    ensures
        ({
            let n = append_outcome(v, cert, c.authorities@, rules, weak_budget(c)).0;
            &&& rules.is_solid_step ==> n.solid_step_union.to_set().len() >= rules.processing_threshold
            &&& !rules.is_solid_step ==> set_stake(c.authorities@, n.used) >= rules.processing_threshold
        }),
{
    lemma_append_keeps_wf(v, cert, c, rules);
    let n = append_outcome(v, cert, c.authorities@, rules, weak_budget(c)).0;
    n.solid_step_union.unique_seq_to_set();
}

/// The aggregator hands out proposal parents exactly when it accepts a certificate and then
/// meets the processing threshold of its round: on a solid step, by the number of distinct
/// solid-step vertices its parents summarise; otherwise, by the stake of the distinct authors of
/// its strong parents.
pub proof fn lemma_proposal_exactly_at_threshold(
    v: CertificatesAggregatorView,
    cert: CertificateView,
    c: &Committee,
    rules: RoundRules,
)
    requires
        certificates_wf(v, c),
    ensures
        ({
            let out = append_outcome(v, cert, c.authorities@, rules, weak_budget(c));
            let n = out.0;
            out.1 is Some <==> {
                &&& !ignored(v, cert, rules)
                &&& rules.is_solid_step ==> n.solid_step_union.to_set().len() >= rules.processing_threshold
                &&& !rules.is_solid_step ==> set_stake(c.authorities@, n.used) >= rules.processing_threshold
            }
        }),
{
    lemma_append_keeps_wf(v, cert, c, rules);
    let n = append_outcome(v, cert, c.authorities@, rules, weak_budget(c)).0;
    n.solid_step_union.unique_seq_to_set();
}

/// Once the aggregator meets the threshold of its round, every later certificate it accepts
/// for that round hands out proposal parents again: the stake of its strong parents and its
/// solid-step union only grow.
pub proof fn lemma_quorum_stays_reached(
    v: CertificatesAggregatorView,
    cert: CertificateView,
    c: &Committee,
    rules: RoundRules,
)
    requires
        certificates_wf(v, c),
        settle(v, rules).has_quorum,
        !ignored(v, cert, rules),
    ensures
        append_outcome(v, cert, c.authorities@, rules, weak_budget(c)).1 is Some,
{
    lemma_seq_union(v.solid_step_union, step_cover(cert.header));
}

/// The aggregator after taking in the certificates of `certs`, in order.
pub open spec fn append_all(
    v: CertificatesAggregatorView,
    certs: Seq<CertificateView>,
    auths: Seq<Authority>,
    rules: RoundRules,
    budget: int,
) -> CertificatesAggregatorView
    decreases certs.len(),
{
    if certs.len() == 0 {
        v
    } else {
        append_outcome(append_all(v, certs.drop_last(), auths, rules, budget), certs.last(), auths, rules, budget).0
    }
}

/// Whether taking in the certificates of `certs`, in order, accepts at least one of them.
pub open spec fn any_accepted(
    v: CertificatesAggregatorView,
    certs: Seq<CertificateView>,
    auths: Seq<Authority>,
    rules: RoundRules,
    budget: int,
) -> bool
    decreases certs.len(),
{
    if certs.len() == 0 {
        false
    } else {
        any_accepted(v, certs.drop_last(), auths, rules, budget)
            || !ignored(append_all(v, certs.drop_last(), auths, rules, budget), certs.last(), rules)
    }
}

/// Over any run of appends for a round, the last solid-step union is the aggregator's
/// current solid-step union, each digest once, when the round is a solid step and some
/// certificate was accepted; otherwise it is what it was before the run.
pub proof fn lemma_last_solid_step_union(
    v: CertificatesAggregatorView,
    certs: Seq<CertificateView>,
    c: &Committee,
    rules: RoundRules,
)
    requires
        certificates_wf(v, c),
    ensures
        ({
            let n = append_all(v, certs, c.authorities@, rules, weak_budget(c));
            &&& certificates_wf(n, c)
            &&& rules.is_solid_step && any_accepted(v, certs, c.authorities@, rules, weak_budget(c)) ==> {
                &&& n.last_union_set == Some(n.solid_step_union)
                &&& n.solid_step_union.no_duplicates()
            }
            &&& !(rules.is_solid_step && any_accepted(v, certs, c.authorities@, rules, weak_budget(c)))
                ==> n.last_union_set == v.last_union_set
        }),
    decreases certs.len(),
{
    if certs.len() > 0 {
        let init = certs.drop_last();
        lemma_last_solid_step_union(v, init, c, rules);
        let p = append_all(v, init, c.authorities@, rules, weak_budget(c));
        lemma_append_keeps_wf(p, certs.last(), c, rules);
    }
}

proof fn lemma_bitmap_len(auths: Seq<Authority>, j: nat)
    requires
        j < auths.len(),
    ensures
        j / 8 < bitmap_len(auths),
{
    let len = auths.len();
    assert(j / 8 < (len + 7) / 8) by (nonlinear_arith)
        requires
            j < len,
    ;
}

/// The back-link bitmap after a certificate is taken in, for a tracked round: it is sized to
/// the committee, keeps every bit it had, has the bit of the certificate's author when the
/// certificate belongs to the tracked round, and has every bit the certificate carries for the
/// tracked round.
pub proof fn lemma_back_link_update(bitmap: Seq<u8>, cert: CertificateView, auths: Seq<Authority>, target: Round)
    requires
        bitmap.len() == 0 || bitmap.len() == bitmap_len(auths),
    ensures
        ({
            let n = back_link_update(bitmap, cert, auths, target);
            &&& target == 0 ==> n == bitmap
            &&& target != 0 ==> n.len() == bitmap_len(auths)
            &&& forall|j: nat| has_author_bit(bitmap, j) ==> #[trigger] has_author_bit(n, j)
            &&& target != 0 && cert.round() == target ==> match position_of(auths, cert.origin()) {
                Some(i) => has_author_bit(n, i),
                None => true,
            }
            &&& target != 0 && cert.header.wave_back_link_target_round == target ==> forall|j: nat|
                j < auths.len() && has_author_bit(cert.header.wave_back_link_author_bitmap, j)
                    ==> #[trigger] has_author_bit(n, j)
        }),
{
    if target != 0 {
        let b0 = if bitmap.len() == 0 {
            Seq::new(bitmap_len(auths), |i: int| 0u8)
        } else {
            bitmap
        };
        assert(forall|j: nat| has_author_bit(bitmap, j) ==> #[trigger] has_author_bit(b0, j));
        let b1 = if cert.round() == target {
            match position_of(auths, cert.origin()) {
                Some(i) => with_author_bit(b0, i),
                None => b0,
            }
        } else {
            b0
        };
        if cert.round() == target {
            lemma_position_of(auths, cert.origin());
            if let Some(i) = position_of(auths, cert.origin()) {
                lemma_bitmap_len(auths, i);
                lemma_with_author_bit(b0, i);
            }
        }
        lemma_merged_bitmap(b1, cert.header.wave_back_link_author_bitmap);
        if cert.header.wave_back_link_target_round == target {
            let n = merged_bitmap(b1, cert.header.wave_back_link_author_bitmap);
            assert forall|j: nat|
                j < auths.len() && has_author_bit(cert.header.wave_back_link_author_bitmap, j)
                    implies #[trigger] has_author_bit(n, j) by {
                lemma_bitmap_len(auths, j);
            }
        }
    }
}

/// Every parent the aggregator accepts, of any kind, has its solid-wave summary (the merged one
/// when it has one) in the solid-wave union afterwards; a strong or regular weak parent also has
/// its solid-step summary in the solid-step union, while a cross-step weak parent leaves that
/// union as it was. Nothing ever leaves either union, and proposal parents carry both unions as
/// they then stand.
pub proof fn lemma_append_covers_summaries(
    v: CertificatesAggregatorView,
    cert: CertificateView,
    c: &Committee,
    rules: RoundRules,
)
    requires
        certificates_wf(v, c),
    ensures
        ({
            let out = append_outcome(v, cert, c.authorities@, rules, weak_budget(c));
            let n = out.0;
            let kind = parent_kind(v.expected_round, rules, cert.round());
            &&& v.solid_wave_union.to_set().subset_of(n.solid_wave_union.to_set())
            &&& v.solid_step_union.to_set().subset_of(n.solid_step_union.to_set())
            &&& !ignored(v, cert, rules) ==> wave_cover(cert.header).to_set().subset_of(
                n.solid_wave_union.to_set(),
            )
            &&& !ignored(v, cert, rules) && !(kind is CrossStepWeak) ==> step_cover(
                cert.header,
            ).to_set().subset_of(n.solid_step_union.to_set())
            &&& kind is CrossStepWeak ==> n.solid_step_union == v.solid_step_union
            &&& out.1 matches Some(p) ==> p.solid_wave_union == n.solid_wave_union
                && p.solid_step_union == n.solid_step_union
        }),
{
    lemma_seq_union(v.solid_step_union, step_cover(cert.header));
    lemma_seq_union(v.solid_wave_union, wave_cover(cert.header));
}

/// Once a round is tracked, every parent of that round the aggregator accepts (strong, regular
/// weak or cross-step weak) has the bit of its author's committee position set in the back-link
/// bitmap afterwards, and so does every author that an accepted parent reports reaching in that
/// round. No bit is ever cleared, and proposal parents carry the bitmap as it then stands.
pub proof fn lemma_append_sets_back_link_bits(
    v: CertificatesAggregatorView,
    cert: CertificateView,
    c: &Committee,
    rules: RoundRules,
)
    requires
        certificates_wf(v, c),
    ensures
        ({
            let out = append_outcome(v, cert, c.authorities@, rules, weak_budget(c));
            let n = out.0;
            let t = rules.back_link_target_round;
            &&& forall|j: nat| has_author_bit(v.back_link_author_bitmap, j)
                ==> #[trigger] has_author_bit(n.back_link_author_bitmap, j)
            &&& !ignored(v, cert, rules) && t != 0 && cert.round() == t ==> match position_of(
                c.authorities@,
                cert.origin(),
            ) {
                Some(i) => has_author_bit(n.back_link_author_bitmap, i),
                None => true,
            }
            &&& !ignored(v, cert, rules) && t != 0 && cert.header.wave_back_link_target_round == t
                ==> forall|j: nat|
                j < c.authorities@.len() && has_author_bit(cert.header.wave_back_link_author_bitmap, j)
                    ==> #[trigger] has_author_bit(n.back_link_author_bitmap, j)
            &&& out.1 matches Some(p) ==> p.wave_back_link_author_bitmap == n.back_link_author_bitmap
                && p.wave_back_link_target_round == n.back_link_target_round
        }),
{
    lemma_back_link_update(v.back_link_author_bitmap, cert, c.authorities@, rules.back_link_target_round);
}

} // verus!
