//! The consensus state: the local DAG of certificates, its lookup indexes, and what has been
//! committed so far.

use crate::maps::keys_of;
use crate::types::{Certificate, CertificateView, Digest, PublicKey, Round};
use std::collections::{HashMap, HashSet};
use vstd::prelude::*;

verus! {

broadcast use vstd::std_specs::hash::group_hash_axioms;

/// What the fast path decided of a certificate.
#[derive(Clone, Copy, Debug, PartialEq, Eq, Structural)]
pub enum CommitStatus {
    OneValent,
    ZeroValent,
    Bivalent,
    Pending,
}

/// A certificate stored in the DAG, with its digest and its fast-path status.
#[derive(Debug)]
pub struct DagEntry {
    pub digest: Digest,
    pub certificate: Certificate,
    pub status: CommitStatus,
}

#[verifier::ext_equal]
pub struct DagEntryView {
    pub digest: Digest,
    pub certificate: CertificateView,
    pub status: CommitStatus,
}

impl View for DagEntry {
    type V = DagEntryView;

    open spec fn view(&self) -> DagEntryView {
        DagEntryView { digest: self.digest, certificate: self.certificate@, status: self.status }
    }
}

impl DagEntry {
    pub fn copy(&self) -> (r: DagEntry)
        ensures
            r@ == self@,
    {
        DagEntry { digest: self.digest, certificate: self.certificate.copy(), status: self.status }
    }
}

/// The state that the consensus keeps between certificates.
pub struct State {
    /// The highest round among all committed certificates.
    pub last_committed_certificate_round: Round,
    /// The round of the last leader whose commit path was accepted.
    pub last_committed_leader_round: Round,
    /// The last committed round of each authority.
    pub last_committed: HashMap<PublicKey, Round>,
    /// The certificates, by round and then by author.
    pub dag: HashMap<Round, HashMap<PublicKey, DagEntry>>,
    /// Certificate digest to DAG position.
    pub certificate_index: HashMap<Digest, (Round, PublicKey)>,
    /// Certificate digest or header id to DAG position.
    pub digest_index: HashMap<Digest, (Round, PublicKey)>,
    /// Rounds that the fast path already examined.
    pub fast_path_checked_rounds: HashSet<Round>,
    /// While set, the fast path waits until the normal path has committed up to this round.
    pub fast_path_blocked_until_normal_round: Option<Round>,
}

#[verifier::ext_equal]
pub struct StateView {
    pub last_committed_certificate_round: Round,
    pub last_committed_leader_round: Round,
    pub last_committed: Map<PublicKey, Round>,
    pub dag: Map<Round, Map<PublicKey, DagEntryView>>,
    pub certificate_index: Map<Digest, (Round, PublicKey)>,
    pub digest_index: Map<Digest, (Round, PublicKey)>,
    pub fast_path_checked_rounds: Set<Round>,
    pub fast_path_blocked_until_normal_round: Option<Round>,
}

pub open spec fn round_view(m: HashMap<PublicKey, DagEntry>) -> Map<PublicKey, DagEntryView> {
    m@.map_values(|e: DagEntry| e@)
}

impl View for State {
    type V = StateView;

    open spec fn view(&self) -> StateView {
        StateView {
            last_committed_certificate_round: self.last_committed_certificate_round,
            last_committed_leader_round: self.last_committed_leader_round,
            last_committed: self.last_committed@,
            dag: self.dag@.map_values(|m: HashMap<PublicKey, DagEntry>| round_view(m)),
            certificate_index: self.certificate_index@,
            digest_index: self.digest_index@,
            fast_path_checked_rounds: self.fast_path_checked_rounds@,
            fast_path_blocked_until_normal_round: self.fast_path_blocked_until_normal_round,
        }
    }
}

/// The last committed round of `a`, 0 when it has none.
pub open spec fn lc_or_zero(lc: Map<PublicKey, Round>, a: PublicKey) -> Round {
    if lc.contains_key(a) {
        lc[a]
    } else {
        0
    }
}

/// `v` is the largest value of `m` (and 0 when `m` is empty).
pub open spec fn is_max_value(m: Map<PublicKey, Round>, v: Round) -> bool {
    &&& forall|k: PublicKey| #[trigger] m.contains_key(k) ==> m[k] <= v
    &&& (m.dom().len() > 0 ==> exists|k: PublicKey| #[trigger] m.contains_key(k) && m[k] == v)
    &&& (m.dom().len() == 0 ==> v == 0)
}

pub open spec fn max_round(a: Round, b: Round) -> Round {
    if a >= b {
        a
    } else {
        b
    }
}

/// An entry stored at round `r` for author `a` holds a certificate of that round and author,
/// under the certificate's own digest.
pub open spec fn entry_wf(r: Round, a: PublicKey, e: DagEntryView) -> bool {
    &&& e.certificate.round() == r
    &&& e.certificate.origin() == a
    &&& e.digest == e.certificate.digest
}

impl StateView {
    pub open spec fn has_pos(self, r: Round, a: PublicKey) -> bool {
        self.dag.contains_key(r) && self.dag[r].contains_key(a)
    }

    pub open spec fn entry(self, r: Round, a: PublicKey) -> DagEntryView {
        self.dag[r][a]
    }

    /// Every stored entry sits at its own round and author, every index entry points at a
    /// stored entry with that digest (or, for the digest index, that header id), and the
    /// highest committed round is the largest last committed round.
    pub open spec fn wf(self) -> bool {
        &&& forall|r: Round, a: PublicKey| #[trigger] self.has_pos(r, a) ==> entry_wf(r, a, self.entry(r, a))
        &&& forall|d: Digest| #[trigger] self.certificate_index.contains_key(d) ==> {
            let p = self.certificate_index[d];
            self.has_pos(p.0, p.1) && self.entry(p.0, p.1).digest == d
        }
        &&& forall|d: Digest| #[trigger] self.digest_index.contains_key(d) ==> {
            let p = self.digest_index[d];
            self.has_pos(p.0, p.1) && (self.entry(p.0, p.1).digest == d
                || self.entry(p.0, p.1).certificate.header.id == d)
        }
        &&& is_max_value(self.last_committed, self.last_committed_certificate_round)
        &&& self.last_committed.dom().finite()
    }

    /// The certificate is at or below the last committed round of its author.
    pub open spec fn committed(self, c: CertificateView) -> bool {
        self.last_committed.contains_key(c.origin()) && self.last_committed[c.origin()] >= c.round()
    }

    /// The state after storing `c` at its round and author, replacing what was there.
    pub open spec fn insert_spec(self, c: CertificateView) -> StateView {
        let r = c.round();
        let a = c.origin();
        let round_map = if self.dag.contains_key(r) {
            self.dag[r]
        } else {
            Map::empty()
        };
        let e = DagEntryView { digest: c.digest, certificate: c, status: CommitStatus::Pending };
        let cleared = if round_map.contains_key(a) {
            self.remove_indexes_spec(round_map[a].digest, round_map[a].certificate.header.id)
        } else {
            self
        };
        StateView {
            dag: self.dag.insert(r, round_map.insert(a, e)),
            certificate_index: cleared.certificate_index.insert(c.digest, (r, a)),
            digest_index: cleared.digest_index.insert(c.digest, (r, a)).insert(c.header.id, (r, a)),
            ..self
        }
    }

    pub open spec fn remove_indexes_spec(self, d: Digest, h: Digest) -> StateView {
        StateView {
            certificate_index: self.certificate_index.remove(d),
            digest_index: self.digest_index.remove(d).remove(h),
            ..self
        }
    }

    /// The entry that the certificate index holds for `d`.
    pub open spec fn find_certificate_spec(self, d: Digest) -> Option<DagEntryView> {
        if self.certificate_index.contains_key(d) && self.has_pos(
            self.certificate_index[d].0,
            self.certificate_index[d].1,
        ) {
            Some(self.entry(self.certificate_index[d].0, self.certificate_index[d].1))
        } else {
            None
        }
    }

    /// The state after recording that `c` is committed.
    pub open spec fn record_commit_spec(self, c: CertificateView) -> StateView {
        let a = c.origin();
        let nr = if self.last_committed.contains_key(a) {
            max_round(self.last_committed[a], c.round())
        } else {
            c.round()
        };
        StateView {
            last_committed: self.last_committed.insert(a, nr),
            last_committed_certificate_round: max_round(self.last_committed_certificate_round, nr),
            ..self
        }
    }

    /// An entry survives garbage collection when its round is within `gc` rounds of the highest
    /// committed round and not below the last committed round of its author.
    pub open spec fn keep(self, gc: Round, r: Round, a: PublicKey) -> bool {
        r + gc >= self.last_committed_certificate_round && r >= lc_or_zero(self.last_committed, a)
    }

    pub open spec fn collected(self, gc: Round, r: Round, a: PublicKey) -> bool {
        self.has_pos(r, a) && !self.keep(gc, r, a)
    }

    pub open spec fn kept_round(self, gc: Round, r: Round) -> Map<PublicKey, DagEntryView> {
        self.dag[r].restrict(Set::new(|a: PublicKey| self.keep(gc, r, a)))
    }

    pub open spec fn round_survives(self, gc: Round, r: Round) -> bool {
        self.dag.contains_key(r) && exists|a: PublicKey| #[trigger] self.has_pos(r, a) && self.keep(gc, r, a)
    }

    /// The digests of the certificates that garbage collection removes.
    pub open spec fn collected_digests(self, gc: Round) -> Set<Digest> {
        Set::new(|d: Digest| exists|r: Round, a: PublicKey| #[trigger] self.collected(gc, r, a) && self.entry(r, a).digest == d)
    }

    /// The header ids of the certificates that garbage collection removes.
    pub open spec fn collected_ids(self, gc: Round) -> Set<Digest> {
        Set::new(|h: Digest| exists|r: Round, a: PublicKey| #[trigger] self.collected(gc, r, a) && self.entry(r, a).certificate.header.id == h)
    }

    /// The state after garbage collection with depth `gc`: the entries that are not kept
    /// leave the DAG and the indexes, and rounds left empty disappear.
    pub open spec fn cleanup_spec(self, gc: Round) -> StateView {
        StateView {
            dag: Map::new(|r: Round| self.round_survives(gc, r), |r: Round| self.kept_round(gc, r)),
            certificate_index: self.certificate_index.remove_keys(self.collected_digests(gc)),
            digest_index: self.digest_index.remove_keys(
                self.collected_digests(gc).union(self.collected_ids(gc)),
            ),
            ..self
        }
    }

    /// The state after setting the fast-path status of the entry at the round and author of `c`.
    pub open spec fn set_status_spec(self, c: CertificateView, status: CommitStatus) -> StateView {
        let r = c.round();
        let a = c.origin();
        if self.has_pos(r, a) {
            StateView {
                dag: self.dag.insert(r, self.dag[r].insert(a, DagEntryView { status, ..self.dag[r][a] })),
                ..self
            }
        } else {
            self
        }
    }

    /// The state after a leader of `leader_round` was committed.
    pub open spec fn update_leader_spec(self, leader_round: Round) -> StateView {
        StateView { last_committed_leader_round: max_round(self.last_committed_leader_round, leader_round), ..self }
    }

    /// The state after lifting the fast-path block, if the normal path has reached its round.
    pub open spec fn unblock_spec(self) -> StateView {
        match self.fast_path_blocked_until_normal_round {
            Some(target) => if self.last_committed_certificate_round >= target {
                StateView { fast_path_blocked_until_normal_round: None, ..self }
            } else {
                self
            },
            None => self,
        }
    }

    pub open spec fn empty() -> StateView {
        StateView {
            last_committed_certificate_round: 0,
            last_committed_leader_round: 0,
            last_committed: Map::empty(),
            dag: Map::empty(),
            certificate_index: Map::empty(),
            digest_index: Map::empty(),
            fast_path_checked_rounds: Set::empty(),
            fast_path_blocked_until_normal_round: None,
        }
    }

    /// `self` after storing the certificates of `cs` in order.
    pub open spec fn insert_all(self, cs: Seq<CertificateView>) -> StateView
        decreases cs.len(),
    {
        if cs.len() == 0 {
            self
        } else {
            self.insert_all(cs.drop_last()).insert_spec(cs.last())
        }
    }

    /// The initial state: the genesis certificates are stored, and the authors of round 0
    /// count as committed at round 0.
    pub open spec fn new_spec(genesis: Seq<CertificateView>) -> StateView {
        let s = StateView::empty().insert_all(genesis);
        StateView {
            last_committed: if s.dag.contains_key(0) {
                s.dag[0].map_values(|e: DagEntryView| e.certificate.round())
            } else {
                Map::empty()
            },
            ..s
        }
    }
}

pub open spec fn firsts(s: Seq<(Digest, Digest)>) -> Seq<Digest> {
    s.map_values(|x: (Digest, Digest)| x.0)
}

pub open spec fn seconds(s: Seq<(Digest, Digest)>) -> Seq<Digest> {
    s.map_values(|x: (Digest, Digest)| x.1)
}

/// Every stored entry is indexed: the certificate index maps its digest to its position.
pub open spec fn indexed(s: StateView) -> bool {
    forall|r: Round, a: PublicKey| #[trigger] s.has_pos(r, a) ==> {
        &&& s.certificate_index.contains_key(s.entry(r, a).digest)
        &&& s.certificate_index[s.entry(r, a).digest] == (r, a)
    }
}

/// No stored entry other than the one at the position of `c` has the digest of `c`.
pub open spec fn fresh_digest(s: StateView, c: CertificateView) -> bool {
    forall|r: Round, a: PublicKey| #[trigger] s.has_pos(r, a) && (r != c.round() || a != c.origin())
        ==> s.entry(r, a).digest != c.digest
}

/// Storing a certificate keeps every stored entry indexed, when no entry at another position
/// has its digest.
pub proof fn lemma_insert_keeps_indexed(s: StateView, c: CertificateView)
    requires
        indexed(s),
        fresh_digest(s, c),
    ensures
        indexed(s.insert_spec(c)),
{
    let t = s.insert_spec(c);
    let p = (c.round(), c.origin());
    assert forall|r: Round, a: PublicKey| #[trigger] t.has_pos(r, a) implies t.certificate_index.contains_key(t.entry(r, a).digest)
        && t.certificate_index[t.entry(r, a).digest] == (r, a) by {
        if (r, a) != p {
            assert(s.has_pos(r, a));
            assert(t.entry(r, a) == s.entry(r, a));
            let d = s.entry(r, a).digest;
            if s.has_pos(p.0, p.1) {
                let old = s.entry(p.0, p.1);
                assert(s.certificate_index[old.digest] == p);
                assert(old.digest != d);
            }
        }
    }
}

/// Recording a commit, setting a fast-path status, recording a leader round and lifting the
/// fast-path block keep every stored entry indexed.
pub proof fn lemma_updates_keep_indexed(s: StateView, c: CertificateView, status: CommitStatus, leader_round: Round)
    requires
        indexed(s),
    ensures
        indexed(s.record_commit_spec(c)),
        indexed(s.set_status_spec(c, status)),
        indexed(s.update_leader_spec(leader_round)),
        indexed(s.unblock_spec()),
{
    let t = s.set_status_spec(c, status);
    assert forall|r: Round, a: PublicKey| #[trigger] t.has_pos(r, a) implies t.certificate_index.contains_key(t.entry(r, a).digest)
        && t.certificate_index[t.entry(r, a).digest] == (r, a) by {
        assert(s.has_pos(r, a));
        assert(t.entry(r, a).digest == s.entry(r, a).digest);
    }
    lemma_indexed_same(s, s.record_commit_spec(c));
    lemma_indexed_same(s, s.update_leader_spec(leader_round));
    lemma_indexed_same(s, s.unblock_spec());
}

proof fn lemma_indexed_same(s: StateView, t: StateView)
    requires
        indexed(s),
        t.dag == s.dag,
        t.certificate_index == s.certificate_index,
    ensures
        indexed(t),
{
    assert forall|r: Round, a: PublicKey| #[trigger] t.has_pos(r, a) implies t.certificate_index.contains_key(t.entry(r, a).digest)
        && t.certificate_index[t.entry(r, a).digest] == (r, a) by {
        assert(s.has_pos(r, a));
    }
}

/// Garbage collection keeps every remaining entry indexed.
pub proof fn lemma_cleanup_keeps_indexed(s: StateView, gc: Round)
    requires
        indexed(s),
    ensures
        indexed(s.cleanup_spec(gc)),
{
    let t = s.cleanup_spec(gc);
    assert forall|r: Round, a: PublicKey| #[trigger] t.has_pos(r, a) implies t.certificate_index.contains_key(t.entry(r, a).digest)
        && t.certificate_index[t.entry(r, a).digest] == (r, a) by {
        lemma_cleanup_keeps_recent(s, gc, r, a);
        assert(s.has_pos(r, a) && s.keep(gc, r, a));
        assert(t.entry(r, a) == s.entry(r, a));
        let d = s.entry(r, a).digest;
        if s.collected_digests(gc).contains(d) {
            let (r2, a2) = choose|r2: Round, a2: PublicKey| #[trigger] s.collected(gc, r2, a2) && s.entry(r2, a2).digest == d;
            assert(s.certificate_index[d] == (r2, a2));
        }
    }
}

proof fn lemma_insert_all_indexed(cs: Seq<CertificateView>)
    requires
        forall|i: int, j: int| 0 <= i < j < cs.len() ==> cs[i].digest != cs[j].digest,
    ensures
        indexed(StateView::empty().insert_all(cs)),
        forall|r: Round, a: PublicKey| #[trigger] StateView::empty().insert_all(cs).has_pos(r, a) ==> exists|i: int|
            0 <= i < cs.len() && #[trigger] cs[i].digest == StateView::empty().insert_all(cs).entry(r, a).digest,
    decreases cs.len(),
{
    let t = StateView::empty().insert_all(cs);
    if cs.len() == 0 {
        assert(indexed(t));
    } else {
        let init = cs.drop_last();
        let c = cs.last();
        let n = cs.len() - 1;
        assert forall|i: int, j: int| 0 <= i < j < init.len() implies init[i].digest != init[j].digest by {
            assert(init[i] == cs[i] && init[j] == cs[j]);
        }
        lemma_insert_all_indexed(init);
        let p = StateView::empty().insert_all(init);
        assert forall|r: Round, a: PublicKey| #[trigger] p.has_pos(r, a) && (r != c.round() || a != c.origin())
            implies p.entry(r, a).digest != c.digest by {
            let i = choose|i: int| 0 <= i < init.len() && #[trigger] init[i].digest == p.entry(r, a).digest;
            assert(init[i] == cs[i]);
            assert(cs[i].digest != cs[n].digest);
        }
        lemma_insert_keeps_indexed(p, c);
        assert forall|r: Round, a: PublicKey| #[trigger] t.has_pos(r, a) implies exists|i: int|
            0 <= i < cs.len() && #[trigger] cs[i].digest == t.entry(r, a).digest by {
            if r == c.round() && a == c.origin() {
                assert(cs[n].digest == t.entry(r, a).digest);
            } else {
                assert(p.has_pos(r, a));
                let i = choose|i: int| 0 <= i < init.len() && #[trigger] init[i].digest == p.entry(r, a).digest;
                assert(init[i] == cs[i]);
                assert(cs[i].digest == t.entry(r, a).digest);
            }
        }
    }
}

/// The initial state over genesis certificates with distinct digests has every stored entry
/// indexed.
pub proof fn lemma_new_indexed(genesis: Seq<CertificateView>)
    requires
        forall|i: int, j: int| 0 <= i < j < genesis.len() ==> genesis[i].digest != genesis[j].digest,
    ensures
        indexed(StateView::new_spec(genesis)),
{
    lemma_insert_all_indexed(genesis);
    lemma_indexed_same(StateView::empty().insert_all(genesis), StateView::new_spec(genesis));
}

/// A certificate that was just stored is found again by its digest, as a pending entry, and
/// its digest and its header id both lead to its round and author.
pub proof fn lemma_insert_then_find(s: StateView, c: CertificateView)
    ensures
        s.insert_spec(c).find_certificate_spec(c.digest) == Some(
            DagEntryView { digest: c.digest, certificate: c, status: CommitStatus::Pending },
        ),
        s.insert_spec(c).digest_index.contains_key(c.digest),
        s.insert_spec(c).digest_index[c.digest] == (c.round(), c.origin()),
        s.insert_spec(c).digest_index.contains_key(c.header.id),
        s.insert_spec(c).digest_index[c.header.id] == (c.round(), c.origin()),
{
}

/// After garbage collection every entry left in the DAG is within `gc` rounds of the
/// highest committed round and not below the last committed round of its author, and every
/// entry that satisfies both is still there.
pub proof fn lemma_cleanup_keeps_recent(s: StateView, gc: Round, r: Round, a: PublicKey)
    ensures
        s.cleanup_spec(gc).has_pos(r, a) <==> (s.has_pos(r, a) && s.keep(gc, r, a)),
{
    let t = s.cleanup_spec(gc);
    if s.has_pos(r, a) && s.keep(gc, r, a) {
        assert(s.round_survives(gc, r));
    }
}

/// Well-formedness of the DAG and its indexes does not depend on what is committed.
pub proof fn lemma_wf_other_commits(s: StateView, lc: Map<PublicKey, Round>, lccr: Round)
    requires
        s.wf(),
        is_max_value(lc, lccr),
        lc.dom().finite(),
    ensures
        (StateView { last_committed: lc, last_committed_certificate_round: lccr, ..s }).wf(),
{
    let t = StateView { last_committed: lc, last_committed_certificate_round: lccr, ..s };
    assert forall|r: Round, a: PublicKey| #[trigger] t.has_pos(r, a) implies entry_wf(r, a, t.entry(r, a)) by {
        assert(s.has_pos(r, a));
    }
    assert forall|d: Digest| #[trigger] t.certificate_index.contains_key(d) implies {
        let p = t.certificate_index[d];
        t.has_pos(p.0, p.1) && t.entry(p.0, p.1).digest == d
    } by {
        assert(s.certificate_index.contains_key(d));
    }
    assert forall|d: Digest| #[trigger] t.digest_index.contains_key(d) implies {
        let p = t.digest_index[d];
        t.has_pos(p.0, p.1) && (t.entry(p.0, p.1).digest == d || t.entry(p.0, p.1).certificate.header.id == d)
    } by {
        assert(s.digest_index.contains_key(d));
    }
}

/// Well-formedness only depends on the DAG, the indexes and what is committed.
pub proof fn lemma_wf_same_dag(s: StateView, t: StateView)
    requires
        s.wf(),
        t.dag == s.dag,
        t.certificate_index == s.certificate_index,
        t.digest_index == s.digest_index,
        t.last_committed == s.last_committed,
        t.last_committed_certificate_round == s.last_committed_certificate_round,
    ensures
        t.wf(),
{
    assert forall|r: Round, a: PublicKey| #[trigger] t.has_pos(r, a) implies entry_wf(r, a, t.entry(r, a)) by {
        assert(s.has_pos(r, a));
    }
    assert forall|d: Digest| #[trigger] t.certificate_index.contains_key(d) implies {
        let p = t.certificate_index[d];
        t.has_pos(p.0, p.1) && t.entry(p.0, p.1).digest == d
    } by {
        assert(s.certificate_index.contains_key(d));
    }
    assert forall|d: Digest| #[trigger] t.digest_index.contains_key(d) implies {
        let p = t.digest_index[d];
        t.has_pos(p.0, p.1) && (t.entry(p.0, p.1).digest == d || t.entry(p.0, p.1).certificate.header.id == d)
    } by {
        assert(s.digest_index.contains_key(d));
    }
}

/// Recording a commit keeps the state well formed.
pub proof fn lemma_record_commit_wf(s: StateView, c: CertificateView)
    requires
        s.wf(),
    ensures
        s.record_commit_spec(c).wf(),
{
    let t = s.record_commit_spec(c);
    let origin = c.origin();
    assert(t.last_committed.contains_key(origin));
    assert forall|k: PublicKey| #[trigger] t.last_committed.contains_key(k) implies t.last_committed[k] <= t.last_committed_certificate_round by {
        if k != origin {
            assert(s.last_committed.contains_key(k));
        }
    }
    let nr = t.last_committed[origin];
    if nr > s.last_committed_certificate_round {
        assert(t.last_committed.contains_key(origin) && t.last_committed[origin] == t.last_committed_certificate_round);
    } else {
        if s.last_committed.dom().len() > 0 {
            let k = choose|k: PublicKey| #[trigger] s.last_committed.contains_key(k) && s.last_committed[k] == s.last_committed_certificate_round;
            if k == origin {
                assert(t.last_committed[origin] == t.last_committed_certificate_round);
            } else {
                assert(t.last_committed.contains_key(k) && t.last_committed[k] == t.last_committed_certificate_round);
            }
        } else {
            assert(t.last_committed.contains_key(origin) && t.last_committed[origin] == t.last_committed_certificate_round);
        }
    }
    assert(t.last_committed.dom().len() > 0) by {
        vstd::set::axiom_set_contains_len(t.last_committed.dom(), origin);
    }
    lemma_wf_other_commits(s, t.last_committed, t.last_committed_certificate_round);
    assert(t == StateView { last_committed: t.last_committed, last_committed_certificate_round: t.last_committed_certificate_round, ..s });
}

/// Garbage collection keeps the DAG and its indexes well formed.
pub proof fn lemma_cleanup_wf(s: StateView, gc: Round)
    requires
        s.wf(),
    ensures
        s.cleanup_spec(gc).wf(),
{
    let t = s.cleanup_spec(gc);
    assert forall|r: Round, a: PublicKey| #[trigger] t.has_pos(r, a) implies s.has_pos(r, a) && s.keep(gc, r, a) && t.entry(r, a) == s.entry(r, a) by {
    }
    assert forall|r: Round, a: PublicKey| #[trigger] t.has_pos(r, a) implies entry_wf(r, a, t.entry(r, a)) by {
        assert(s.has_pos(r, a));
    }
    assert forall|d: Digest| #[trigger] t.certificate_index.contains_key(d) implies {
        let p = t.certificate_index[d];
        t.has_pos(p.0, p.1) && t.entry(p.0, p.1).digest == d
    } by {
        let p = s.certificate_index[d];
        assert(s.certificate_index.contains_key(d));
        assert(!s.collected_digests(gc).contains(d));
        if !s.keep(gc, p.0, p.1) {
            assert(s.collected(gc, p.0, p.1));
            assert(s.collected_digests(gc).contains(d));
        }
        assert(s.has_pos(p.0, p.1) && s.keep(gc, p.0, p.1));
        assert(s.round_survives(gc, p.0));
    }
    assert forall|d: Digest| #[trigger] t.digest_index.contains_key(d) implies {
        let p = t.digest_index[d];
        t.has_pos(p.0, p.1) && (t.entry(p.0, p.1).digest == d || t.entry(p.0, p.1).certificate.header.id == d)
    } by {
        let p = s.digest_index[d];
        assert(s.digest_index.contains_key(d));
        if !s.keep(gc, p.0, p.1) {
            assert(s.collected(gc, p.0, p.1));
            if s.entry(p.0, p.1).digest == d {
                assert(s.collected_digests(gc).contains(d));
            } else {
                assert(s.collected_ids(gc).contains(d));
            }
        }
        assert(s.has_pos(p.0, p.1) && s.keep(gc, p.0, p.1));
        assert(s.round_survives(gc, p.0));
    }
}

impl State {
    /// A state holding the genesis certificates.
    pub fn new(genesis: &Vec<Certificate>) -> (r: State)
        ensures
            r@ == StateView::new_spec(genesis@.map_values(|c: Certificate| c@)),
            r@.wf(),
    {
        let mut state = State {
            last_committed_certificate_round: 0,
            last_committed_leader_round: 0,
            last_committed: HashMap::new(),
            dag: HashMap::new(),
            certificate_index: HashMap::new(),
            digest_index: HashMap::new(),
            fast_path_checked_rounds: HashSet::new(),
            fast_path_blocked_until_normal_round: None,
        };
        let ghost gs = genesis@.map_values(|c: Certificate| c@);
        assert(state@.dag =~= StateView::empty().dag);
        assert(state@ == StateView::empty().insert_all(gs.subrange(0, 0)));
        let mut i: usize = 0;
        while i < genesis.len()
            invariant
                i <= genesis.len(),
                gs == genesis@.map_values(|c: Certificate| c@),
                state@ == StateView::empty().insert_all(gs.subrange(0, i as int)),
                state@.wf(),
                state.last_committed@ == Map::<PublicKey, Round>::empty(),
                state.last_committed_certificate_round == 0,
            decreases genesis.len() - i,
        {
            let c = genesis[i].copy();
            state.insert(c);
            proof {
                assert(gs.subrange(0, i + 1).drop_last() =~= gs.subrange(0, i as int));
                assert(gs.subrange(0, i + 1).last() == gs[i as int]);
            }
            i = i + 1;
        }
        assert(gs.subrange(0, genesis.len() as int) =~= gs);
        let ghost s = state@;
        match state.dag.get(&0) {
            Some(round_zero) => {
                let authors = keys_of(round_zero);
                let mut lc: HashMap<PublicKey, Round> = HashMap::new();
                let mut j: usize = 0;
                while j < authors.len()
                    invariant
                        j <= authors.len(),
                        authors@.to_set() == round_zero@.dom(),
                        s.dag.contains_key(0),
                        s.dag[0] == round_view(*round_zero),
                        s.wf(),
                        forall|a: PublicKey| #[trigger] lc@.contains_key(a) <==> authors@.subrange(0, j as int).contains(a),
                        forall|a: PublicKey| #[trigger] lc@.contains_key(a) ==> lc@[a] == 0,
                    decreases authors.len() - j,
                {
                    let a = authors[j];
                    proof {
                        assert(authors@.to_set().contains(a));
                        assert(s.has_pos(0, a));
                    }
                    let e = round_zero.get(&a).unwrap();
                    lc.insert(a, e.certificate.header.round);
                    proof {
                        let prev = authors@.subrange(0, j as int);
                        assert(authors@.subrange(0, j + 1) =~= prev.push(a));
                        assert forall|b: PublicKey| #[trigger] lc@.contains_key(b) <==> prev.push(a).contains(b) by {
                            broadcast use vstd::seq_lib::group_seq_properties;
                        }
                    }
                    j = j + 1;
                }
                state.last_committed = lc;
                proof {
                    assert(authors@.subrange(0, authors@.len() as int) =~= authors@);
                    let target = s.dag[0].map_values(|e: DagEntryView| e.certificate.round());
                    assert forall|a: PublicKey| #[trigger] lc@.contains_key(a) == target.contains_key(a) by {
                        if lc@.contains_key(a) {
                            assert(authors@.to_set().contains(a));
                        }
                        if target.contains_key(a) {
                            assert(round_zero@.dom().contains(a));
                            assert(authors@.to_set().contains(a));
                        }
                    }
                    assert forall|a: PublicKey| #[trigger] lc@.contains_key(a) implies lc@[a] == target[a] by {
                        assert(s.has_pos(0, a));
                    }
                    assert(lc@ =~= target);
                    assert(state@ == StateView::new_spec(gs));
                    if lc@.dom().len() > 0 {
                        let k = lc@.dom().choose();
                        assert(lc@.contains_key(k));
                    }
                    assert(lc@.dom() =~= round_zero@.dom());
                    assert(is_max_value(lc@, 0));
                    assert(state@.dag == s.dag);
                    assert(state@.certificate_index == s.certificate_index);
                    assert(state@.digest_index == s.digest_index);
                    assert(lc@.dom().finite());
                    lemma_wf_other_commits(s, lc@, 0);
                    assert(state@ == StateView { last_committed: lc@, last_committed_certificate_round: 0, ..s });
                }
            },
            None => {
                assert(state@ == StateView::new_spec(gs));
                assert(state@.wf());
            },
        }
        state
    }

    /// Stores `certificate` at its round and author with a pending status; a certificate that
    /// was there before leaves the indexes.
    pub fn insert(&mut self, certificate: Certificate)
        requires
            old(self)@.wf(),
        ensures
            final(self)@ == old(self)@.insert_spec(certificate@),
            final(self)@.wf(),
    {
        let ghost s = self@;
        let round = certificate.header.round;
        let origin = certificate.header.author;
        let certificate_digest = certificate.digest;
        let header_id = certificate.header.id;
        let ghost c = certificate@;
        let mut authorities = match self.dag.remove(&round) {
            Some(m) => m,
            None => HashMap::new(),
        };
        let ghost round_map = if s.dag.contains_key(round) {
            s.dag[round]
        } else {
            Map::empty()
        };
        assert(round_view(authorities) =~= round_map);
        let entry = DagEntry { digest: certificate_digest, certificate, status: CommitStatus::Pending };
        let previous = authorities.insert(origin, entry);
        self.dag.insert(round, authorities);
        let ghost e = DagEntryView { digest: c.digest, certificate: c, status: CommitStatus::Pending };
        assert(round_view(authorities) =~= round_map.insert(origin, e));
        assert(self@.dag =~= s.dag.insert(round, round_map.insert(origin, e)));
        match previous {
            Some(p) => {
                assert(p@ == round_map[origin]);
                self.remove_indexes(p.digest, p.certificate.header.id);
            },
            None => {},
        }
        self.certificate_index.insert(certificate_digest, (round, origin));
        self.digest_index.insert(certificate_digest, (round, origin));
        self.digest_index.insert(header_id, (round, origin));
        proof {
            let t = s.insert_spec(c);
            assert(self@.certificate_index =~= t.certificate_index);
            assert(self@.digest_index =~= t.digest_index);
            assert(self@ == t);
            assert forall|r: Round, a: PublicKey| #[trigger] t.has_pos(r, a) implies entry_wf(r, a, t.entry(r, a)) by {
                if r != round || a != origin {
                    assert(s.has_pos(r, a));
                }
            }
            assert forall|d: Digest| #[trigger] t.certificate_index.contains_key(d) implies {
                let p = t.certificate_index[d];
                t.has_pos(p.0, p.1) && t.entry(p.0, p.1).digest == d
            } by {
                if d != certificate_digest {
                    let p = s.certificate_index[d];
                    assert(s.certificate_index.contains_key(d));
                    if p.0 == round && p.1 == origin {
                        assert(round_map.contains_key(origin));
                    }
                }
            }
            assert forall|d: Digest| #[trigger] t.digest_index.contains_key(d) implies {
                let p = t.digest_index[d];
                t.has_pos(p.0, p.1) && (t.entry(p.0, p.1).digest == d || t.entry(p.0, p.1).certificate.header.id == d)
            } by {
                if d != certificate_digest && d != header_id {
                    let p = s.digest_index[d];
                    assert(s.digest_index.contains_key(d));
                    if p.0 == round && p.1 == origin {
                        assert(round_map.contains_key(origin));
                    }
                }
            }
        }
    }

    /// Drops a certificate digest and a header id from the indexes.
    pub fn remove_indexes(&mut self, certificate_digest: Digest, header_id: Digest)
        ensures
            final(self)@ == old(self)@.remove_indexes_spec(certificate_digest, header_id),
    {
        self.certificate_index.remove(&certificate_digest);
        self.digest_index.remove(&certificate_digest);
        self.digest_index.remove(&header_id);
    }

    /// The entry that the certificate index holds for a certificate digest.
    pub fn find_certificate(&self, certificate_digest: Digest) -> (r: Option<&DagEntry>)
        ensures
            match r {
                Some(e) => self@.find_certificate_spec(certificate_digest) == Some(e@),
                None => self@.find_certificate_spec(certificate_digest) is None,
            },
    {
        match self.certificate_index.get(&certificate_digest) {
            None => None,
            Some(position) => {
                let (round, author) = *position;
                match self.dag.get(&round) {
                    None => None,
                    Some(round_map) => round_map.get(&author),
                }
            },
        }
    }

    /// The DAG position that the digest index holds for a certificate digest or header id.
    pub fn find_digest(&self, digest: Digest) -> (r: Option<(Round, PublicKey)>)
        ensures
            r == (if self@.digest_index.contains_key(digest) {
                Some(self@.digest_index[digest])
            } else {
                None
            }),
    {
        match self.digest_index.get(&digest) {
            Some(p) => Some(*p),
            None => None,
        }
    }

    /// The entry at a round and author.
    pub fn get_entry(&self, round: Round, author: PublicKey) -> (r: Option<&DagEntry>)
        ensures
            match r {
                Some(e) => self@.has_pos(round, author) && e@ == self@.entry(round, author),
                None => !self@.has_pos(round, author),
            },
    {
        match self.dag.get(&round) {
            None => None,
            Some(round_map) => round_map.get(&author),
        }
    }

    /// The number of entries of a round, if the round is in the DAG.
    pub fn round_len(&self, round: Round) -> (r: Option<usize>)
        ensures
            match r {
                Some(n) => self@.dag.contains_key(round) && n == self@.dag[round].dom().len(),
                None => !self@.dag.contains_key(round),
            },
    {
        match self.dag.get(&round) {
            None => None,
            Some(round_map) => {
                proof {
                    assert(round_view(*round_map).dom() =~= round_map@.dom());
                }
                Some(round_map.len())
            },
        }
    }

    /// The authors of a round of the DAG, each once.
    pub fn round_authors(&self, round: Round) -> (r: Vec<PublicKey>)
        ensures
            self@.dag.contains_key(round) ==> r@.to_set() == self@.dag[round].dom(),
            !self@.dag.contains_key(round) ==> r@.len() == 0,
            r@.no_duplicates(),
    {
        match self.dag.get(&round) {
            None => Vec::new(),
            Some(round_map) => {
                let authors = keys_of(round_map);
                assert(round_view(*round_map).dom() =~= round_map@.dom());
                authors
            },
        }
    }

    /// Whether `certificate` is at or below the last committed round of its author.
    pub fn is_committed(&self, certificate: &Certificate) -> (r: bool)
        ensures
            r == self@.committed(certificate@),
    {
        match self.last_committed.get(&certificate.header.author) {
            Some(r) => *r >= certificate.header.round,
            None => false,
        }
    }

    /// Records that `certificate` is committed, without cleaning the DAG.
    pub fn record_commit(&mut self, certificate: &Certificate)
        requires
            old(self)@.wf(),
        ensures
            final(self)@ == old(self)@.record_commit_spec(certificate@),
            final(self)@.wf(),
    {
        let ghost s = self@;
        let origin = certificate.header.author;
        let round = certificate.header.round;
        let updated = match self.last_committed.get(&origin) {
            Some(r) => if *r >= round {
                *r
            } else {
                round
            },
            None => round,
        };
        self.last_committed.insert(origin, updated);
        if updated > self.last_committed_certificate_round {
            self.last_committed_certificate_round = updated;
        }
        proof {
            let t = s.record_commit_spec(certificate@);
            assert(self@ == t);
            assert(self.last_committed@.contains_key(origin));
            assert forall|k: PublicKey| #[trigger] t.last_committed.contains_key(k) implies t.last_committed[k] <= t.last_committed_certificate_round by {
                if k != origin {
                    assert(s.last_committed.contains_key(k));
                }
            }
            if updated > s.last_committed_certificate_round {
                assert(t.last_committed.contains_key(origin) && t.last_committed[origin] == t.last_committed_certificate_round);
            } else {
                if s.last_committed.dom().len() > 0 {
                    let k = choose|k: PublicKey| #[trigger] s.last_committed.contains_key(k) && s.last_committed[k] == s.last_committed_certificate_round;
                    if k == origin {
                        assert(t.last_committed[origin] == t.last_committed_certificate_round);
                    } else {
                        assert(t.last_committed.contains_key(k) && t.last_committed[k] == t.last_committed_certificate_round);
                    }
                } else {
                    assert(t.last_committed_certificate_round == updated);
                    assert(t.last_committed.contains_key(origin) && t.last_committed[origin] == t.last_committed_certificate_round);
                }
            }
            assert(t.last_committed.dom().finite());
            assert(forall|r: Round, a: PublicKey| #[trigger] t.has_pos(r, a) ==> s.has_pos(r, a));
            assert(t.last_committed.dom().len() > 0) by {
                assert(t.last_committed.dom().contains(origin));
                vstd::set::axiom_set_contains_len(t.last_committed.dom(), origin);
            }
        }
    }

    /// Garbage-collects the DAG: drops every entry more than `gc_depth` rounds below the highest
    /// committed round or below the last committed round of its author, and the rounds this
    /// leaves empty, and drops their digests and header ids from the indexes.
    pub fn cleanup_committed_history(&mut self, gc_depth: Round)
        requires
            old(self)@.wf(),
        ensures
            final(self)@ == old(self)@.cleanup_spec(gc_depth),
            final(self)@.wf(),
    {
        let ghost s = self@;
        let ghost t = s.cleanup_spec(gc_depth);
        let lccr = self.last_committed_certificate_round;
        let rounds = keys_of(&self.dag);
        let mut removed: Vec<(Digest, Digest)> = Vec::new();
        let ghost mut done: Set<Round> = Set::empty();
        let mut i: usize = 0;
        while i < rounds.len()
            invariant
                i <= rounds.len(),
                rounds@.to_set() == s.dag.dom(),
                rounds@.no_duplicates(),
                done == rounds@.subrange(0, i as int).to_set(),
                s.wf(),
                t == s.cleanup_spec(gc_depth),
                lccr == s.last_committed_certificate_round,
                self@ == (StateView { dag: self@.dag, ..s }),
                forall|r: Round| #[trigger] done.contains(r) ==> (self@.dag.contains_key(r) == t.dag.contains_key(r) && (t.dag.contains_key(r) ==> self@.dag[r] == t.dag[r])),
                forall|r: Round| !done.contains(r) ==> (#[trigger] self@.dag.contains_key(r) == s.dag.contains_key(r) && (s.dag.contains_key(r) ==> self@.dag[r] == s.dag[r])),
                forall|x: (Digest, Digest)| #[trigger] removed@.contains(x) ==> exists|r: Round, a: PublicKey| #[trigger] s.collected(gc_depth, r, a) && x == (s.entry(r, a).digest, s.entry(r, a).certificate.header.id),
                forall|r: Round, a: PublicKey| #[trigger] s.collected(gc_depth, r, a) && done.contains(r) ==> removed@.contains((s.entry(r, a).digest, s.entry(r, a).certificate.header.id)),
            decreases rounds.len() - i,
        {
            let round = rounds[i];
            proof {
                assert(rounds@.to_set().contains(round));
                assert(!done.contains(round)) by {
                    if done.contains(round) {
                        let k = choose|k: int| 0 <= k < i && rounds@.subrange(0, i as int)[k] == round;
                        assert(rounds@[k] == rounds@[i as int]);
                    }
                }
            }
            let keep_round = lccr <= gc_depth || round >= lccr - gc_depth;
            proof {
                assert(s.dag.contains_key(round));
                assert(self@.dag.contains_key(round) == s.dag.contains_key(round));
                assert(self@.dag[round] == s.dag[round]);
            }
            let ghost dag0 = self@.dag;
            let removed_round = self.dag.remove(&round);
            match removed_round {
                None => {
                    assert(false);
                },
                Some(round_map) => {
                    assert(round_view(round_map) == s.dag[round]);
                    assert(self@.dag =~= dag0.remove(round));
                    let authors = keys_of(&round_map);
                    let mut kept: HashMap<PublicKey, DagEntry> = HashMap::new();
                    let mut j: usize = 0;
                    while j < authors.len()
                        invariant
                            j <= authors.len(),
                            authors@.to_set() == round_map@.dom(),
                            authors@.no_duplicates(),
                            round_view(round_map) == s.dag[round],
                            s.dag.contains_key(round),
                            s.wf(),
                            !done.contains(round),
                            keep_round == (round + gc_depth >= s.last_committed_certificate_round),
                            self@ == (StateView { dag: dag0.remove(round), ..s }),
                            forall|a: PublicKey| #[trigger] kept@.contains_key(a) <==> (authors@.subrange(0, j as int).contains(a) && s.keep(gc_depth, round, a)),
                            forall|a: PublicKey| #[trigger] kept@.contains_key(a) ==> kept@[a]@ == s.dag[round][a],
                            forall|x: (Digest, Digest)| #[trigger] removed@.contains(x) ==> exists|r: Round, a: PublicKey| #[trigger] s.collected(gc_depth, r, a) && x == (s.entry(r, a).digest, s.entry(r, a).certificate.header.id),
                            forall|r: Round, a: PublicKey| #[trigger] s.collected(gc_depth, r, a) && done.contains(r) ==> removed@.contains((s.entry(r, a).digest, s.entry(r, a).certificate.header.id)),
                            forall|a: PublicKey| #[trigger] s.collected(gc_depth, round, a) && authors@.subrange(0, j as int).contains(a) ==> removed@.contains((s.entry(round, a).digest, s.entry(round, a).certificate.header.id)),
                        decreases authors.len() - j,
                    {
                        let author = authors[j];
                        proof {
                            assert(authors@.to_set().contains(author));
                        }
                        let entry = round_map.get(&author).unwrap();
                        let floor = match self.last_committed.get(&author) {
                            Some(r) => *r,
                            None => 0,
                        };
                        let ghost prev = authors@.subrange(0, j as int);
                        let ghost removed0 = removed@;
                        proof {
                            assert(authors@.subrange(0, j + 1) =~= prev.push(author));
                            assert(s.has_pos(round, author));
                            assert(entry@ == s.entry(round, author));
                        }
                        if keep_round && round >= floor {
                            kept.insert(author, entry.copy());
                            proof {
                                assert(s.keep(gc_depth, round, author));
                            }
                        } else {
                            removed.push((entry.digest, entry.certificate.header.id));
                            proof {
                                assert(s.collected(gc_depth, round, author));
                                assert(removed@ == removed0.push((entry.digest, entry.certificate.header.id)));
                                assert(removed@.contains((entry.digest, entry.certificate.header.id))) by {
                                    assert(removed@[removed0.len() as int] == (entry.digest, entry.certificate.header.id));
                                }
                                assert forall|x: (Digest, Digest)| #[trigger] removed@.contains(x) implies exists|r: Round, a: PublicKey| #[trigger] s.collected(gc_depth, r, a) && x == (s.entry(r, a).digest, s.entry(r, a).certificate.header.id) by {
                                    if x != (entry.digest, entry.certificate.header.id) {
                                        let k = choose|k: int| 0 <= k < removed@.len() && removed@[k] == x;
                                        assert(removed0[k] == x);
                                        assert(removed0.contains(x));
                                    }
                                }
                                assert forall|r: Round, a: PublicKey| #[trigger] s.collected(gc_depth, r, a) && done.contains(r) implies removed@.contains((s.entry(r, a).digest, s.entry(r, a).certificate.header.id)) by {
                                    let y = (s.entry(r, a).digest, s.entry(r, a).certificate.header.id);
                                    assert(removed0.contains(y));
                                    let k = choose|k: int| 0 <= k < removed0.len() && removed0[k] == y;
                                    assert(removed@[k] == y);
                                }
                                assert forall|a: PublicKey| #[trigger] s.collected(gc_depth, round, a) && prev.contains(a) implies removed@.contains((s.entry(round, a).digest, s.entry(round, a).certificate.header.id)) by {
                                    let y = (s.entry(round, a).digest, s.entry(round, a).certificate.header.id);
                                    assert(removed0.contains(y));
                                    let k = choose|k: int| 0 <= k < removed0.len() && removed0[k] == y;
                                    assert(removed@[k] == y);
                                }
                            }
                        }
                        proof {
                            assert forall|a: PublicKey| #[trigger] s.collected(gc_depth, round, a) && authors@.subrange(0, j + 1).contains(a) implies removed@.contains((s.entry(round, a).digest, s.entry(round, a).certificate.header.id)) by {
                                assert(prev.push(author).contains(a));
                                if a != author {
                                    let k = choose|k: int| 0 <= k < prev.len() + 1 && prev.push(author)[k] == a;
                                    assert(prev[k] == a);
                                }
                            }
                            assert forall|a: PublicKey| #[trigger] kept@.contains_key(a) <==> (authors@.subrange(0, j + 1).contains(a) && s.keep(gc_depth, round, a)) by {
                                broadcast use vstd::seq_lib::group_seq_properties;
                            }
                        }
                        j = j + 1;
                    }
                    proof {
                        assert(authors@.subrange(0, authors@.len() as int) =~= authors@);
                        assert(round_view(kept) =~= s.kept_round(gc_depth, round)) by {
                            assert forall|a: PublicKey| #[trigger] round_view(kept).contains_key(a) == s.kept_round(gc_depth, round).contains_key(a) by {
                                if s.kept_round(gc_depth, round).contains_key(a) {
                                    assert(round_map@.dom().contains(a));
                                    assert(authors@.to_set().contains(a));
                                }
                            }
                        }
                    }
                    if kept.len() > 0 {
                        self.dag.insert(round, kept);
                        proof {
                            let a = kept@.dom().choose();
                            vstd::set::axiom_set_choose_len(kept@.dom());
                            assert(kept@.contains_key(a));
                            assert(s.has_pos(round, a) && s.keep(gc_depth, round, a));
                            assert(t.dag.contains_key(round));
                        }
                    } else {
                        proof {
                            if t.dag.contains_key(round) {
                                let a = choose|a: PublicKey| #[trigger] s.has_pos(round, a) && s.keep(gc_depth, round, a);
                                assert(round_map@.dom().contains(a));
                                assert(authors@.to_set().contains(a));
                                assert(kept@.contains_key(a));
                                vstd::set::axiom_set_contains_len(kept@.dom(), a);
                            }
                        }
                    }
                    proof {
                        let done2 = done.insert(round);
                        assert forall|r: Round, a: PublicKey| #[trigger] s.collected(gc_depth, r, a) && done2.contains(r) implies removed@.contains((s.entry(r, a).digest, s.entry(r, a).certificate.header.id)) by {
                            if r == round {
                                assert(round_map@.dom().contains(a));
                                assert(authors@.to_set().contains(a));
                            }
                        }
                    }
                },
            }
            proof {
                assert(rounds@.subrange(0, i + 1) =~= rounds@.subrange(0, i as int).push(round));
                assert(rounds@.subrange(0, i + 1).to_set() =~= done.insert(round)) by {
                    broadcast use vstd::seq_lib::group_seq_properties;
                }
                done = done.insert(round);
            }
            i = i + 1;
        }
        proof {
            assert(rounds@.subrange(0, rounds@.len() as int) =~= rounds@);
            assert(done =~= s.dag.dom());
            assert(self@.dag =~= t.dag) by {
                assert forall|r: Round| #[trigger] self@.dag.contains_key(r) == t.dag.contains_key(r) by {
                    if !done.contains(r) {
                        assert(!s.dag.contains_key(r));
                    }
                }
            }
        }
        let ghost removed_digests = firsts(removed@).to_set();
        let ghost removed_ids = seconds(removed@).to_set();
        proof {
            assert(removed_digests =~= s.collected_digests(gc_depth)) by {
                assert forall|d: Digest| #[trigger] removed_digests.contains(d) implies s.collected_digests(gc_depth).contains(d) by {
                    let k = choose|k: int| 0 <= k < removed@.len() && firsts(removed@)[k] == d;
                    assert(removed@.contains(removed@[k]));
                }
                assert forall|d: Digest| #[trigger] s.collected_digests(gc_depth).contains(d) implies removed_digests.contains(d) by {
                    let (r, a) = choose|r: Round, a: PublicKey| #[trigger] s.collected(gc_depth, r, a) && s.entry(r, a).digest == d;
                    assert(done.contains(r));
                    let y = (s.entry(r, a).digest, s.entry(r, a).certificate.header.id);
                    assert(removed@.contains(y));
                    let k = choose|k: int| 0 <= k < removed@.len() && removed@[k] == y;
                    assert(firsts(removed@)[k] == d);
                }
            }
            assert(removed_ids =~= s.collected_ids(gc_depth)) by {
                assert forall|d: Digest| #[trigger] removed_ids.contains(d) implies s.collected_ids(gc_depth).contains(d) by {
                    let k = choose|k: int| 0 <= k < removed@.len() && seconds(removed@)[k] == d;
                    assert(removed@.contains(removed@[k]));
                }
                assert forall|d: Digest| #[trigger] s.collected_ids(gc_depth).contains(d) implies removed_ids.contains(d) by {
                    let (r, a) = choose|r: Round, a: PublicKey| #[trigger] s.collected(gc_depth, r, a) && s.entry(r, a).certificate.header.id == d;
                    assert(done.contains(r));
                    let y = (s.entry(r, a).digest, s.entry(r, a).certificate.header.id);
                    assert(removed@.contains(y));
                    let k = choose|k: int| 0 <= k < removed@.len() && removed@[k] == y;
                    assert(seconds(removed@)[k] == d);
                }
            }
        }
        let ghost dag1 = self@.dag;
        proof {
            let e0 = firsts(removed@.subrange(0, 0)).to_set();
            let e1 = seconds(removed@.subrange(0, 0)).to_set();
            assert(e0 =~= Set::empty());
            assert(e1 =~= Set::empty());
            assert(s.certificate_index.remove_keys(e0) =~= s.certificate_index);
            assert(s.digest_index.remove_keys(e0.union(e1)) =~= s.digest_index);
        }
        let mut k: usize = 0;
        while k < removed.len()
            invariant
                k <= removed.len(),
                self@ == (StateView {
                    dag: dag1,
                    certificate_index: s.certificate_index.remove_keys(firsts(removed@.subrange(0, k as int)).to_set()),
                    digest_index: s.digest_index.remove_keys(
                        firsts(removed@.subrange(0, k as int)).to_set().union(
                            seconds(removed@.subrange(0, k as int)).to_set())),
                    ..s
                }),
            decreases removed.len() - k,
        {
            let (d, h) = removed[k];
            self.remove_indexes(d, h);
            proof {
                let p0 = removed@.subrange(0, k as int);
                let p1 = removed@.subrange(0, k + 1);
                assert(p1 =~= p0.push((d, h)));
                assert(firsts(p1) =~= firsts(p0).push(d));
                assert(seconds(p1) =~= seconds(p0).push(h));
                assert(firsts(p1).to_set() =~= firsts(p0).to_set().insert(d)) by {
                    broadcast use vstd::seq_lib::group_seq_properties;
                }
                assert(seconds(p1).to_set() =~= seconds(p0).to_set().insert(h)) by {
                    broadcast use vstd::seq_lib::group_seq_properties;
                }
                assert(self@.certificate_index =~= s.certificate_index.remove_keys(firsts(p1).to_set()));
                assert(self@.digest_index =~= s.digest_index.remove_keys(
                    firsts(p1).to_set().union(seconds(p1).to_set())));
            }
            k = k + 1;
        }
        proof {
            assert(removed@.subrange(0, removed@.len() as int) =~= removed@);
            assert(self@ == t);
            lemma_cleanup_wf(s, gc_depth);
        }
    }

    /// Remembers the round of the last leader whose commit was accepted.
    pub fn update_last_committed_leader(&mut self, leader_round: Round)
        ensures
            final(self)@ == old(self)@.update_leader_spec(leader_round),
            old(self)@.wf() ==> final(self)@.wf(),
    {
        proof {
            if self@.wf() {
                lemma_wf_same_dag(self@, self@.update_leader_spec(leader_round));
            }
        }
        if leader_round > self.last_committed_leader_round {
            self.last_committed_leader_round = leader_round;
        }
    }

    /// Lifts the fast-path block once the normal path has committed up to its round.
    pub fn maybe_unblock_fast_path(&mut self)
        ensures
            final(self)@ == old(self)@.unblock_spec(),
            old(self)@.wf() ==> final(self)@.wf(),
    {
        proof {
            if self@.wf() {
                lemma_wf_same_dag(self@, self@.unblock_spec());
            }
        }
        if let Some(target_round) = self.fast_path_blocked_until_normal_round {
            if self.last_committed_certificate_round >= target_round {
                self.fast_path_blocked_until_normal_round = None;
            }
        }
    }

    /// Sets the fast-path status of the entry at the round and author of `certificate`.
    pub fn set_commit_status(&mut self, certificate: &Certificate, status: CommitStatus)
        requires
            old(self)@.wf(),
        ensures
            final(self)@ == old(self)@.set_status_spec(certificate@, status),
            final(self)@.wf(),
    {
        let ghost s = self@;
        let round = certificate.header.round;
        let author = certificate.header.author;
        match self.dag.remove(&round) {
            None => {
                assert(self@.dag =~= s.dag);
            },
            Some(mut round_map) => {
                match round_map.remove(&author) {
                    None => {
                        self.dag.insert(round, round_map);
                        assert(round_view(round_map) =~= s.dag[round]);
                        assert(self@.dag =~= s.dag);
                    },
                    Some(mut entry) => {
                        let ghost old_entry = entry@;
                        entry.status = status;
                        round_map.insert(author, entry);
                        self.dag.insert(round, round_map);
                        proof {
                            let t = s.set_status_spec(certificate@, status);
                            assert(round_view(round_map) =~= s.dag[round].insert(author, DagEntryView { status, ..old_entry }));
                            assert(self@.dag =~= t.dag);
                            assert forall|r: Round, a: PublicKey| #[trigger] t.has_pos(r, a) implies entry_wf(r, a, t.entry(r, a)) by {
                                assert(s.has_pos(r, a));
                            }
                            assert forall|d: Digest| #[trigger] t.certificate_index.contains_key(d) implies {
                                let p = t.certificate_index[d];
                                t.has_pos(p.0, p.1) && t.entry(p.0, p.1).digest == d
                            } by {
                                assert(s.certificate_index.contains_key(d));
                            }
                            assert forall|d: Digest| #[trigger] t.digest_index.contains_key(d) implies {
                                let p = t.digest_index[d];
                                t.has_pos(p.0, p.1) && (t.entry(p.0, p.1).digest == d || t.entry(p.0, p.1).certificate.header.id == d)
                            } by {
                                assert(s.digest_index.contains_key(d));
                            }
                        }
                    },
                }
            },
        }
    }
}

} // verus!
