//! The consensus: it takes the certificates of the DAG one at a time and decides which of
//! them to commit, and in which order, on the fast path and on the normal path.

use crate::committee::{lemma_stake_where_extend, lemma_stake_where_le_total, lemma_stake_where_prefix, stake_where, Committee};
use crate::types::contains_digest;
use crate::dag::{CommitStatus, DagEntry, DagEntryView, State, StateView};
use crate::graph::{
    edge, lemma_closed_holds_reached, lemma_reaches_start, lemma_reaches_step, node_cert,
    parent_entry, parent_ok, reaches,
};
use crate::ordering::{distinct_digests, sort_by_round, sorted_by_round, stable_sort_by_round, views};
use crate::types::{Certificate, CertificateView, Digest, PublicKey, Round, Stake};
use std::collections::HashSet;
use vstd::prelude::*;

verus! {

broadcast use vstd::std_specs::hash::group_hash_axioms;

/// The consensus of one authority: the committee, the depth of the garbage collector, and the
/// state built from the certificates received so far.
pub struct Consensus {
    pub committee: Committee,
    pub gc_depth: Round,
    pub state: State,
}

/// The authority that leads `round`: the committee walks round robin over its authorities.
pub open spec fn leader_name(committee: Committee, round: Round) -> PublicKey {
    committee.authorities@[(round as int) % (committee.authorities@.len() as int)].name
}

/// The leader's certificate of `round`, if the DAG holds it.
pub open spec fn leader_spec(committee: Committee, s: StateView, round: Round) -> Option<DagEntryView> {
    let a = leader_name(committee, round);
    if s.has_pos(round, a) {
        Some(s.entry(round, a))
    } else {
        None
    }
}

/// A certificate on the stack of a walk from `start` stands for its own digest, which a walk
/// reaches and which the index (or the start) knows.
pub open spec fn stacked_ok(s: StateView, start: CertificateView, pruned: bool, visited: Set<Digest>, c: CertificateView) -> bool {
    &&& reaches(s, start, pruned, c.digest)
    &&& (c.digest == start.digest ==> (c == start || visited.contains(start.digest)))
    &&& (c.digest != start.digest ==> c == node_cert(s, start, c.digest))
    &&& (s.certificate_index.contains_key(c.digest) || c.digest == start.digest)
}

/// The values of the certificates on a stack of the walk.
pub open spec fn stack_views(stack: Seq<&Certificate>) -> Seq<CertificateView> {
    stack.map_values(|c: &Certificate| c@)
}

/// The certificates that a visit of `cur` puts on the stack for the parent digests `parents`,
/// in order: those that name an earlier entry which the fast path did not find zero-valent,
/// and which is neither visited (with `visited`) nor committed.
pub open spec fn walk_pushes(
    s: StateView,
    cur: CertificateView,
    visited: Set<Digest>,
    parents: Seq<Digest>,
) -> Seq<CertificateView>
    decreases parents.len(),
{
    if parents.len() == 0 {
        Seq::empty()
    } else {
        let prev = walk_pushes(s, cur, visited, parents.drop_last());
        match parent_entry(s, cur.round(), parents.last()) {
            Some(e) => if e.status != CommitStatus::ZeroValent && !(visited.contains(e.digest) || s.committed(
                e.certificate,
            )) {
                prev.push(e.certificate)
            } else {
                prev
            },
            None => prev,
        }
    }
}

/// The certificates that a depth-first walk visits, in order, from `stack` (its top last)
/// once the digests of `visited` are visited: the top is skipped when visited or committed,
/// and otherwise visited, after which its pushes go on the stack. `fuel` bounds the visits.
pub open spec fn walk_order(s: StateView, stack: Seq<CertificateView>, visited: Set<Digest>, fuel: nat) -> Seq<CertificateView>
    decreases fuel, stack.len(),
{
    if stack.len() == 0 || fuel == 0 {
        Seq::empty()
    } else {
        let cur = stack.last();
        let rest = stack.drop_last();
        if visited.contains(cur.digest) || s.committed(cur) {
            walk_order(s, rest, visited, fuel)
        } else {
            let seen = visited.insert(cur.digest);
            seq![cur] + walk_order(s, rest + walk_pushes(s, cur, seen, cur.header.parents), seen, (fuel - 1) as nat)
        }
    }
}

/// The certificates of the sub-DAG of `leader` in the order of a depth-first pre-order walk
/// from it, parents in the order of their header; the fuel is the number of digests the walk
/// can meet.
pub open spec fn dag_walk(s: StateView, leader: CertificateView) -> Seq<CertificateView> {
    walk_order(s, seq![leader], Set::empty(), s.certificate_index.dom().insert(leader.digest).len())
}

/// The certificates of `x` that survive garbage collection at depth `gc` below `lccr`, in order.
pub open spec fn keep_within_gc(x: Seq<CertificateView>, gc: Round, lccr: Round) -> Seq<CertificateView>
    decreases x.len(),
{
    if x.len() == 0 {
        Seq::empty()
    } else {
        let p = keep_within_gc(x.drop_last(), gc, lccr);
        if within_gc(x.last().round(), gc, lccr) {
            p.push(x.last())
        } else {
            p
        }
    }
}

/// What ordering the sub-DAG of `leader` gives: the certificates of its depth-first walk that
/// survive garbage collection, sorted by round, the walk's order kept within a round.
pub open spec fn order_dag_spec(s: StateView, leader: CertificateView, gc: Round) -> Seq<CertificateView> {
    stable_sort_by_round(keep_within_gc(dag_walk(s, leader), gc, s.last_committed_certificate_round))
}

pub open spec fn on_stack(stack: Seq<&Certificate>, q: Digest) -> bool {
    exists|i: int| 0 <= i < stack.len() && #[trigger] stack[i].digest == q
}

/// A certificate of `round` survives garbage collection at depth `gc` below `lccr`.
pub open spec fn within_gc(round: Round, gc: Round, lccr: Round) -> bool {
    round + gc >= lccr
}

pub open spec fn digests(s: Seq<CertificateView>) -> Seq<Digest> {
    s.map_values(|c: CertificateView| c.digest)
}

/// The digests that a pruned walk reaches from `leader`, or none when the leader is committed.
pub open spec fn sub_dag_set(s: StateView, leader: CertificateView) -> Set<Digest> {
    Set::new(|d: Digest| !s.committed(leader) && reaches(s, leader, true, d))
}

/// The digests that ordering the sub-DAG of `leader` commits: those of its sub-DAG whose
/// certificates survive garbage collection.
pub open spec fn order_set(s: StateView, leader: CertificateView, gc: Round) -> Set<Digest> {
    Set::new(|d: Digest| sub_dag_set(s, leader).contains(d) && within_gc(node_cert(s, leader, d).round(), gc, s.last_committed_certificate_round))
}

/// `out` lists, each once and by increasing round, the certificates that the digests of `set`
/// stand for in a walk from `leader`.
pub open spec fn round_ordering(s: StateView, leader: CertificateView, set: Set<Digest>, out: Seq<CertificateView>) -> bool {
    &&& sorted_by_round(out)
    &&& digests(out).no_duplicates()
    &&& digests(out).to_set() == set
    &&& forall|i: int| 0 <= i < out.len() ==> #[trigger] out[i] == node_cert(s, leader, out[i].digest)
}

/// Walking the leader rounds `r`, `r - wave`, ... down to `start`, the leaders that chain
/// back from `cur`: each one that the previous chained leader links to.
pub open spec fn leader_chain(committee: Committee, s: StateView, cur: CertificateView, r: int, start: int, wave: int) -> Seq<CertificateView>
    decreases r - start + wave,
{
    if r < start || wave <= 0 || r < 0 {
        Seq::empty()
    } else {
        match leader_spec(committee, s, r as Round) {
            Some(e) => if reaches(s, cur, false, e.certificate.digest) {
                seq![e.certificate] + leader_chain(committee, s, e.certificate, r - wave, start, wave)
            } else {
                leader_chain(committee, s, cur, r - wave, start, wave)
            },
            None => leader_chain(committee, s, cur, r - wave, start, wave),
        }
    }
}

/// The leaders that the normal path commits along with `leader`, newest first: the leader,
/// then the chain of earlier leaders from the round below it down to one wave above the last
/// committed leader round.
pub open spec fn order_leaders_spec(committee: Committee, s: StateView, leader: CertificateView) -> Seq<CertificateView> {
    let wave = committee.solid_wave_length;
    if wave == 0 {
        seq![leader]
    } else {
        let start = if s.last_committed_leader_round + wave > u64::MAX {
            u64::MAX as int
        } else {
            s.last_committed_leader_round + wave
        };
        seq![leader] + leader_chain(committee, s, leader, leader.round() - 1, start, wave as int)
    }
}

/// The certificate lists `leader` (by header id or digest) among its solid-wave vertices.
pub open spec fn supports_leader(c: CertificateView, leader: CertificateView) -> bool {
    c.header.solid_wave_vertices.contains(leader.header.id) || c.header.solid_wave_vertices.contains(leader.digest)
}

pub open spec fn support_pred(s: StateView, support_round: Round, leader: CertificateView) -> spec_fn(PublicKey) -> bool {
    |k: PublicKey| s.has_pos(support_round, k) && supports_leader(s.entry(support_round, k).certificate, leader)
}

/// The stake of the authorities whose certificate of `support_round` supports `leader`.
pub open spec fn support_stake(committee: Committee, s: StateView, support_round: Round, leader: CertificateView) -> nat {
    stake_where(committee.authorities@, support_pred(s, support_round, leader))
}

pub open spec fn step_pred(s: StateView, round: Round, c: CertificateView) -> spec_fn(PublicKey) -> bool {
    |k: PublicKey| s.has_pos(round, k) && s.entry(round, k).certificate.header.solid_step_vertices.contains(c.header.id)
}

/// The stake of the authorities whose certificate of `round` lists `c` (by header id) among its
/// solid-step vertices.
pub open spec fn step_support(committee: Committee, s: StateView, round: Round, c: CertificateView) -> nat {
    stake_where(committee.authorities@, step_pred(s, round, c))
}

/// What the fast path decides of `c` from the certificates of `round`: one-valent at the fast
/// path threshold, zero-valent below the validity threshold, bivalent in between.
pub open spec fn fast_status(committee: Committee, s: StateView, round: Round, c: CertificateView) -> CommitStatus {
    let stake = step_support(committee, s, round, c);
    if stake >= committee.fast_path_threshold {
        CommitStatus::OneValent
    } else if stake < committee.validity_threshold {
        CommitStatus::ZeroValent
    } else {
        CommitStatus::Bivalent
    }
}

/// `s` with the authors of `done` in the round below `round` given their fast-path status.
pub open spec fn classify_upto(committee: Committee, s: StateView, round: Round, done: Set<PublicKey>) -> StateView {
    let r = (round - 1) as Round;
    StateView {
        dag: s.dag.insert(
            r,
            Map::new(
                |a: PublicKey| s.dag[r].contains_key(a),
                |a: PublicKey| if done.contains(a) {
                    DagEntryView { status: fast_status(committee, s, round, s.dag[r][a].certificate), ..s.dag[r][a] }
                } else {
                    s.dag[r][a]
                },
            ),
        ),
        ..s
    }
}

/// `s` with every certificate of the round below `round` given its fast-path status.
pub open spec fn classify(committee: Committee, s: StateView, round: Round) -> StateView {
    classify_upto(committee, s, round, s.dag[(round - 1) as Round].dom())
}

pub open spec fn is_one_valent(committee: Committee, s: StateView, round: Round, a: PublicKey) -> bool {
    let r = (round - 1) as Round;
    s.has_pos(r, a) && fast_status(committee, s, round, s.entry(r, a).certificate) == CommitStatus::OneValent
}

pub open spec fn is_bivalent(committee: Committee, s: StateView, round: Round, a: PublicKey) -> bool {
    let r = (round - 1) as Round;
    s.has_pos(r, a) && fast_status(committee, s, round, s.entry(r, a).certificate) == CommitStatus::Bivalent
}

/// `auths` lists the authors of the one-valent certificates of the round below `round`, each once.
pub open spec fn one_valent_authors(committee: Committee, s: StateView, round: Round, auths: Seq<PublicKey>) -> bool {
    &&& auths.no_duplicates()
    &&& auths.to_set() == Set::new(|a: PublicKey| is_one_valent(committee, s, round, a))
}

/// The certificates of round `r` of the authors `auths`.
pub open spec fn certs_of(s: StateView, r: Round, auths: Seq<PublicKey>) -> Seq<CertificateView> {
    auths.map_values(|a: PublicKey| s.entry(r, a).certificate)
}

/// The round, a multiple of the wave length, that the normal path must reach before the fast
/// path resumes after a round `r` it could not decide.
pub open spec fn unblock_round(committee: Committee, r: Round) -> int {
    let wave = if committee.solid_wave_length >= 1 { committee.solid_wave_length as int } else { 1 };
    ((r as int / wave) + 1) * wave
}

/// The fast path from `s` on a certificate of `round` ends in `s2` and commits `out`.
///
/// It does nothing for round 0, rounds at or below the highest committed round, rounds it
/// already examined, rounds missing from the DAG, and (above round 1) rounds with fewer
/// certificates than the quorum threshold. Otherwise it marks the round as examined; if it is
/// blocked until the normal path reaches a round it has not reached, it stops there; otherwise
/// the block is lifted. If the round below is in the DAG, each of its certificates gets its
/// fast-path status; if one of them is bivalent, the fast path blocks itself until the normal
/// path reaches the next wave round; otherwise it commits the sub-DAGs of the one-valent
/// certificates and garbage-collects the DAG.
pub open spec fn fast_path_rel(committee: Committee, gc: Round, s: StateView, round: Round, s2: StateView, out: Seq<CertificateView>) -> bool {
    if round == 0 || round <= s.last_committed_certificate_round || s.fast_path_checked_rounds.contains(round)
        || !s.dag.contains_key(round) || (round > 1 && s.dag[round].dom().len() < committee.quorum_threshold) {
        s2 == s && out.len() == 0
    } else {
        let s1 = StateView { fast_path_checked_rounds: s.fast_path_checked_rounds.insert(round), ..s };
        if s1.fast_path_blocked_until_normal_round is Some && s1.last_committed_certificate_round
            < s1.fast_path_blocked_until_normal_round->0 {
            s2 == s1 && out.len() == 0
        } else {
            let sb = StateView { fast_path_blocked_until_normal_round: None, ..s1 };
            let r = (round - 1) as Round;
            if !sb.dag.contains_key(r) {
                s2 == sb && out.len() == 0
            } else {
                let s3 = classify(committee, sb, round);
                if exists|a: PublicKey| is_bivalent(committee, sb, round, a) {
                    let corresponding = unblock_round(committee, r);
                    &&& out.len() == 0
                    &&& s2 == (StateView {
                        fast_path_blocked_until_normal_round: Some(match s3.fast_path_blocked_until_normal_round {
                            None => corresponding as Round,
                            Some(x) => if x >= corresponding { x } else { corresponding as Round },
                        }),
                        ..s3
                    })
                } else {
                    exists|auths: Seq<PublicKey>| #[trigger] one_valent_authors(committee, sb, round, auths)
                        && fast_commit_ordering(s3, certs_of(sb, r, auths), gc, out)
                        && out == stable_sort_by_round(fast_concat(s3, certs_of(sb, r, auths), gc))
                        && s2 == record_all(s3, out).cleanup_spec(gc)
                }
            }
        }
    }
}

/// `s` after recording each certificate of `cs` as committed, in order.
pub open spec fn record_all(s: StateView, cs: Seq<CertificateView>) -> StateView
    decreases cs.len(),
{
    if cs.len() == 0 {
        s
    } else {
        record_all(s, cs.drop_last()).record_commit_spec(cs.last())
    }
}

/// `out` is what ordering the sub-DAGs of `leaders`, one after the other, commits from `s`:
/// the part of each leader is a round ordering of its sub-DAG in the state that records the
/// parts before it as committed.
pub open spec fn ordered_chunks(s: StateView, gc: Round, leaders: Seq<CertificateView>, out: Seq<CertificateView>) -> bool
    decreases leaders.len(),
{
    if leaders.len() == 0 {
        out.len() == 0
    } else {
        exists|n: int|
            #![trigger out.subrange(0, n)]
            0 <= n <= out.len() && ordered_chunks(s, gc, leaders.drop_last(), out.subrange(0, n)) && round_ordering(
                record_all(s, out.subrange(0, n)),
                leaders.last(),
                order_set(record_all(s, out.subrange(0, n)), leaders.last(), gc),
                out.subrange(n, out.len() as int),
            )
    }
}

/// What the normal path commits for `leaders` (oldest first): the ordered sub-DAG of each
/// leader in turn, each ordered against the state in which the commits before it are recorded.
pub open spec fn chunk_order(s: StateView, gc: Round, leaders: Seq<CertificateView>) -> Seq<CertificateView>
    decreases leaders.len(),
{
    if leaders.len() == 0 {
        Seq::empty()
    } else {
        let prev = chunk_order(s, gc, leaders.drop_last());
        prev + order_dag_spec(record_all(s, prev), leaders.last(), gc)
    }
}

/// The leader that the normal path commits when a certificate of `round` arrives, with its
/// round. A round that opens a wave (one past a multiple of the wave length), after the first
/// wave, looks back one wave: the leader of that round is committed when it is above the last
/// committed leader, in the DAG, and the authorities of the support round, one step before the
/// triggering round (a wave less a step after the leader), that list it among their
/// solid-wave vertices hold at least the validity threshold.
pub open spec fn normal_leader(committee: Committee, s: StateView, round: Round) -> Option<(Round, CertificateView)> {
    let step = committee.solid_step_length;
    let wave = committee.solid_wave_length;
    if round < wave + 1 || round < step {
        None
    } else {
        let r = round - 1;
        if r % (wave as int) != 0 {
            None
        } else {
            let leader_round = (round - wave) as Round;
            let support_round = (round - step) as Round;
            if leader_round <= s.last_committed_leader_round {
                None
            } else {
                match leader_spec(committee, s, leader_round) {
                    None => None,
                    Some(e) => if !s.dag.contains_key(support_round) || support_stake(committee, s, support_round, e.certificate)
                        < committee.validity_threshold {
                        None
                    } else {
                        Some((leader_round, e.certificate))
                    },
                }
            }
        }
    }
}

/// The normal path from `s` on a certificate of `round` ends in `s2` and commits `out`: nothing
/// without a leader to commit; otherwise the sub-DAGs of the chained leaders, oldest leader
/// first, after which the leader round is recorded, the DAG is garbage-collected and the fast
/// path may be unblocked.
pub open spec fn normal_path_rel(committee: Committee, gc: Round, s: StateView, round: Round, s2: StateView, out: Seq<CertificateView>) -> bool {
    match normal_leader(committee, s, round) {
        None => s2 == s && out.len() == 0,
        Some((leader_round, leader)) => {
            &&& ordered_chunks(s, gc, order_leaders_spec(committee, s, leader).reverse(), out)
            &&& out == chunk_order(s, gc, order_leaders_spec(committee, s, leader).reverse())
            &&& s2 == record_all(s, out).update_leader_spec(leader_round).cleanup_spec(gc).unblock_spec()
        },
    }
}

pub proof fn lemma_record_all_wf(s: StateView, cs: Seq<CertificateView>)
    requires
        s.wf(),
    ensures
        record_all(s, cs).wf(),
    decreases cs.len(),
{
    if cs.len() > 0 {
        lemma_record_all_wf(s, cs.drop_last());
        crate::dag::lemma_record_commit_wf(record_all(s, cs.drop_last()), cs.last());
    }
}

/// `c` is the certificate that its digest stands for in a walk from `start`.
pub open spec fn stands_for(s: StateView, start: CertificateView, c: CertificateView) -> bool {
    c == node_cert(s, start, c.digest)
}

/// The digests that the fast path commits for the one-valent certificates `ones`: the union of
/// what ordering the sub-DAG of each of them commits.
pub open spec fn fast_commit_set(s: StateView, ones: Seq<CertificateView>, gc: Round) -> Set<Digest> {
    Set::new(|d: Digest| exists|i: int| 0 <= i < ones.len() && #[trigger] order_set(s, ones[i], gc).contains(d))
}

/// `out` lists, each once and by increasing round, the digests that the sub-DAGs of `ones`
/// commit, each certificate as its digest stands for it in the walk from one of them.
pub open spec fn fast_commit_ordering(s: StateView, ones: Seq<CertificateView>, gc: Round, out: Seq<CertificateView>) -> bool {
    &&& sorted_by_round(out)
    &&& digests(out).no_duplicates()
    &&& digests(out).to_set() == fast_commit_set(s, ones, gc)
    &&& forall|k: int| 0 <= k < out.len() ==> stands_for(s, ones[first_owner(s, ones, gc, out[k].digest)], #[trigger] out[k])
}

/// `acc` followed by the certificates of `x` whose digest it does not hold yet, in order.
pub open spec fn append_new(acc: Seq<CertificateView>, x: Seq<CertificateView>) -> Seq<CertificateView>
    decreases x.len(),
{
    if x.len() == 0 {
        acc
    } else {
        let a = append_new(acc, x.drop_last());
        if digests(a).contains(x.last().digest) {
            a
        } else {
            a.push(x.last())
        }
    }
}

/// The ordered sub-DAGs of `ones`, one after the other, each certificate the first time its
/// digest comes.
pub open spec fn fast_concat(s: StateView, ones: Seq<CertificateView>, gc: Round) -> Seq<CertificateView>
    decreases ones.len(),
{
    if ones.len() == 0 {
        Seq::empty()
    } else {
        append_new(fast_concat(s, ones.drop_last(), gc), order_dag_spec(s, ones.last(), gc))
    }
}

/// The first of `ones`, from position `i` on, whose sub-DAG commits digest `d` (-1 if none).
pub open spec fn owner_from(s: StateView, ones: Seq<CertificateView>, gc: Round, d: Digest, i: int) -> int
    decreases ones.len() - i,
{
    if i < 0 || i >= ones.len() {
        -1
    } else if order_set(s, ones[i], gc).contains(d) {
        i
    } else {
        owner_from(s, ones, gc, d, i + 1)
    }
}

/// The first of `ones` whose sub-DAG commits digest `d`.
pub open spec fn first_owner(s: StateView, ones: Seq<CertificateView>, gc: Round, d: Digest) -> int {
    owner_from(s, ones, gc, d, 0)
}

proof fn lemma_first_owner(s: StateView, ones: Seq<CertificateView>, gc: Round, d: Digest, i: int, from: int)
    requires
        0 <= from <= i < ones.len(),
        order_set(s, ones[i], gc).contains(d),
        forall|a: int| from <= a < i ==> !(#[trigger] order_set(s, ones[a], gc).contains(d)),
    ensures
        owner_from(s, ones, gc, d, from) == i,
    decreases i - from,
{
    if from < i {
        lemma_first_owner(s, ones, gc, d, i, from + 1);
    }
}

/// Recording two sequences one after the other records their concatenation.
pub proof fn lemma_record_all_append(s: StateView, a: Seq<CertificateView>, b: Seq<CertificateView>)
    ensures
        record_all(record_all(s, a), b) == record_all(s, a + b),
    decreases b.len(),
{
    if b.len() == 0 {
        assert(a + b =~= a);
    } else {
        lemma_record_all_append(s, a, b.drop_last());
        assert((a + b).drop_last() =~= a + b.drop_last());
        assert((a + b).last() == b.last());
    }
}

/// Recording commits changes neither the DAG, the last committed leader round nor the
/// fast-path block.
pub proof fn lemma_record_all_keeps(s: StateView, cs: Seq<CertificateView>)
    ensures
        record_all(s, cs).dag == s.dag,
        record_all(s, cs).last_committed_leader_round == s.last_committed_leader_round,
        record_all(s, cs).fast_path_blocked_until_normal_round == s.fast_path_blocked_until_normal_round,
    decreases cs.len(),
{
    if cs.len() > 0 {
        lemma_record_all_keeps(s, cs.drop_last());
    }
}

/// The step support of a certificate depends on the DAG alone.
pub proof fn lemma_step_support_same_dag(committee: Committee, s: StateView, t: StateView, round: Round, c: CertificateView)
    requires
        s.dag == t.dag,
    ensures
        step_support(committee, s, round, c) == step_support(committee, t, round, c),
{
    assert(step_pred(s, round, c) =~= step_pred(t, round, c));
}

/// When the fast path commits, it commits every one-valent certificate of the round below that
/// was not committed yet: its digest is among those committed.
pub proof fn lemma_one_valent_committed(
    committee: Committee,
    gc: Round,
    s: StateView,
    sb: StateView,
    round: Round,
    auths: Seq<PublicKey>,
    out: Seq<CertificateView>,
    a: PublicKey,
)
    requires
        s.wf(),
        sb.dag == s.dag,
        sb.last_committed == s.last_committed,
        sb.last_committed_certificate_round == s.last_committed_certificate_round,
        round > s.last_committed_certificate_round,
        s.has_pos((round - 1) as Round, a),
        step_support(committee, s, round, s.entry((round - 1) as Round, a).certificate) >= committee.fast_path_threshold,
        !s.committed(s.entry((round - 1) as Round, a).certificate),
        one_valent_authors(committee, sb, round, auths),
        fast_commit_ordering(classify(committee, sb, round), certs_of(sb, (round - 1) as Round, auths), gc, out),
    ensures
        digests(out).contains(s.entry((round - 1) as Round, a).certificate.digest),
{
    let r = (round - 1) as Round;
    let cert = s.entry(r, a).certificate;
    let s3 = classify(committee, sb, round);
    let ones = certs_of(sb, r, auths);
    lemma_step_support_same_dag(committee, s, sb, round, cert);
    assert(is_one_valent(committee, sb, round, a));
    assert(auths.to_set().contains(a));
    let i = choose|i: int| 0 <= i < auths.len() && auths[i] == a;
    assert(ones[i] == cert);
    assert(s.has_pos(r, a));
    assert(cert.round() == r);
    lemma_reaches_start(s3, cert, true);
    assert(sub_dag_set(s3, cert).contains(cert.digest));
    assert(order_set(s3, ones[i], gc).contains(cert.digest));
    assert(fast_commit_set(s3, ones, gc).contains(cert.digest));
    assert(digests(out).to_set().contains(cert.digest));
}

/// One step of the consensus on certificate `c`: from `s`, the certificate is stored, then the
/// fast path and the normal path run on its round; `out` is what they commit, in that order.
pub open spec fn process_rel(committee: Committee, gc: Round, s: StateView, c: CertificateView, s2: StateView, out: Seq<CertificateView>) -> bool {
    let s1 = s.insert_spec(c);
    exists|sf: StateView, n: int|
        #![trigger fast_path_rel(committee, gc, s1, c.round(), sf, out.subrange(0, n))]
        0 <= n <= out.len() && fast_path_rel(committee, gc, s1, c.round(), sf, out.subrange(0, n)) && normal_path_rel(
            committee,
            gc,
            sf,
            c.round(),
            s2,
            out.subrange(n, out.len() as int),
        )
}

/// The committee has a leader for every round, a positive wave length and a step length of at
/// most two waves.
pub open spec fn committee_ok(committee: Committee) -> bool {
    &&& committee.wf()
    &&& committee.authorities@.len() > 0
    &&& committee.solid_wave_length > 0
    &&& 2 * committee.solid_wave_length <= u64::MAX
    &&& committee.solid_step_length <= 2 * committee.solid_wave_length
}

impl Consensus {
    /// The committee is usable and the state is well formed.
    pub open spec fn wf(&self) -> bool {
        &&& committee_ok(self.committee)
        &&& self.state@.wf()
    }

    /// A consensus over the genesis certificates.
    pub fn new(committee: Committee, gc_depth: Round, genesis: &Vec<Certificate>) -> (r: Consensus)
        ensures
            r.committee == committee,
            r.gc_depth == gc_depth,
            r.state@ == StateView::new_spec(views(genesis@)),
            committee_ok(committee) ==> r.wf(),
    {
        let state = State::new(genesis);
        Consensus { committee, gc_depth, state }
    }

    /// One step of the consensus on a certificate from the primary: stores it, runs the fast
    /// path and then the normal path on its round, and returns what they commit, in order.
    pub fn process_certificate(&mut self, certificate: Certificate) -> (out: Vec<Certificate>)
        requires
            old(self).wf(),
            certificate@.round() == 0 || unblock_round(old(self).committee, (certificate@.round() - 1) as Round) <= u64::MAX,
        ensures
            final(self).wf(),
            final(self).committee == old(self).committee,
            final(self).gc_depth == old(self).gc_depth,
            process_rel(old(self).committee, old(self).gc_depth, old(self).state@, certificate@, final(self).state@, views(out@)),
    {
        let ghost s = self.state@;
        let ghost c = certificate@;
        let round = certificate.header.round;
        self.state.insert(certificate);
        let mut fast = self.fast_path(round);
        let ghost sf = self.state@;
        let ghost fast_v = views(fast@);
        let mut normal = self.normal_path(round);
        let ghost normal_v = views(normal@);
        fast.append(&mut normal);
        proof {
            let out = views(fast@);
            assert(out =~= fast_v + normal_v);
            assert(out.subrange(0, fast_v.len() as int) =~= fast_v);
            assert(out.subrange(fast_v.len() as int, out.len() as int) =~= normal_v);
            assert(fast_path_rel(self.committee, self.gc_depth, s.insert_spec(c), c.round(), sf, out.subrange(0, fast_v.len() as int)));
        }
        fast
    }

    /// The certificate of the leader of `round`, if the DAG holds it.
    pub fn leader<'a>(&self, round: Round, state: &'a State) -> (r: Option<&'a DagEntry>)
        requires
            self.committee.authorities@.len() > 0,
        ensures
            match r {
                Some(e) => leader_spec(self.committee, state@, round) == Some(e@),
                None => leader_spec(self.committee, state@, round) is None,
            },
    {
        let n = self.committee.authorities.len();
        let coin: Round = round;
        let index = (coin % (n as u64)) as usize;
        let leader = self.committee.authorities[index].name;
        state.get_entry(round, leader)
    }

    /// The parent certificate that a certificate of `child_round` finds for a parent digest.
    pub fn find_parent_certificate<'a>(&self, state: &'a State, child_round: Round, parent_digest: Digest) -> (r: Option<&'a DagEntry>)
        ensures
            match r {
                Some(e) => parent_entry(state@, child_round, parent_digest) == Some(e@),
                None => parent_entry(state@, child_round, parent_digest) is None,
            },
    {
        if child_round <= 1 {
            return None;
        }
        match state.find_certificate(parent_digest) {
            Some(e) => if e.certificate.header.round < child_round {
                Some(e)
            } else {
                None
            },
            None => None,
        }
    }

    /// The certificates of the sub-DAG of `leader`, in depth-first pre-order: a walk along
    /// parents that skips zero-valent and already committed certificates.
    pub fn walk_sub_dag(&self, leader: &Certificate, state: &State) -> (r: Vec<Certificate>)
        requires
            state@.wf(),
        ensures
            digests(views(r@)).no_duplicates(),
            digests(views(r@)).to_set() == sub_dag_set(state@, leader@),
            forall|i: int| 0 <= i < r@.len() ==> #[trigger] r@[i]@ == node_cert(state@, leader@, r@[i].digest),
            views(r@) == dag_walk(state@, leader@),
    {
        let ghost s = state@;
        let ghost st = leader@;
        let ghost universe = s.certificate_index.dom().insert(leader.digest);
        let mut ordered: Vec<Certificate> = Vec::new();
        let mut stack: Vec<&Certificate> = Vec::new();
        stack.push(leader);
        let mut visited: HashSet<Digest> = HashSet::new();
        proof {
            lemma_reaches_start(s, st, true);
            assert(state.certificate_index@.dom().finite());
            assert(digests(views(ordered@)).to_set() =~= visited@);
            assert(stack_views(stack@) =~= seq![st]);
            assert(universe.difference(visited@) =~= universe);
            assert(views(ordered@) + walk_order(s, stack_views(stack@), visited@, universe.difference(visited@).len())
                =~= dag_walk(s, st));
        }
        while stack.len() > 0
            invariant
                views(ordered@) + walk_order(s, stack_views(stack@), visited@, universe.difference(visited@).len())
                    == dag_walk(s, st),
                s == state@,
                s.wf(),
                st == leader@,
                universe == s.certificate_index.dom().insert(st.digest),
                universe.finite(),
                visited@.subset_of(universe),
                visited@.finite(),
                forall|d: Digest| #[trigger] visited@.contains(d) ==> reaches(s, st, true, d),
                forall|i: int| 0 <= i < stack@.len() ==> stacked_ok(s, st, true, visited@, #[trigger] stack@[i]@),
                forall|x: Digest, q: Digest| #[trigger] visited@.contains(x) && #[trigger] edge(s, st, true, x, q) ==> visited@.contains(q) || on_stack(stack@, q),
                visited@.len() == 0 ==> ((stack@.len() == 1 && stack@[0]@ == st) || (stack@.len() == 0 && s.committed(st))),
                visited@.len() > 0 ==> visited@.contains(st.digest) && !s.committed(st),
                digests(views(ordered@)).no_duplicates(),
                digests(views(ordered@)).to_set() == visited@,
                forall|i: int| 0 <= i < ordered@.len() ==> #[trigger] ordered@[i]@ == node_cert(s, st, ordered@[i].digest),
            decreases universe.difference(visited@).len(), stack@.len(),
        {
            let ghost visited0 = visited@;
            let ghost stack0 = stack@;
            let current = stack.pop().unwrap();
            let ghost cur = current@;
            assert(stack0[stack0.len() - 1] == current);
            assert(stacked_ok(s, st, true, visited0, cur));
            let current_digest = current.digest;
            if visited.contains(&current_digest) || state.is_committed(current) {
                proof {
                    assert(stack0.len() > 0);
                    assert(stack_views(stack0).drop_last() =~= stack_views(stack@));
                    assert(stack_views(stack0).last() == cur);
                    if !visited@.contains(current_digest) {
                        assert(s.committed(cur));
                        if visited0.len() > 0 {
                            assert(current_digest != st.digest);
                            assert(cur == node_cert(s, st, current_digest));
                        } else {
                            assert(cur == st);
                        }
                    }
                    assert forall|x: Digest, q: Digest| #[trigger] visited@.contains(x) && #[trigger] edge(s, st, true, x, q) implies visited@.contains(q) || on_stack(stack@, q) by {
                        if !visited@.contains(q) {
                            assert(on_stack(stack0, q));
                            let i = choose|i: int| 0 <= i < stack0.len() && #[trigger] stack0[i].digest == q;
                            if i == stack0.len() - 1 {
                                assert(q == current_digest);
                                assert(q != st.digest);
                                assert(parent_ok(s, st, true, x, q));
                                assert(false);
                            } else {
                                assert(stack@[i] == stack0[i]);
                            }
                        }
                    }
                    assert forall|i: int| 0 <= i < stack@.len() implies stacked_ok(s, st, true, visited@, #[trigger] stack@[i]@) by {
                        assert(stack@[i] == stack0[i]);
                    }
                }
                continue;
            }
            visited.insert(current_digest);
            let ghost ordered0 = views(ordered@);
            ordered.push(current.copy());
            proof {
                if visited0.len() == 0 {
                    assert(cur == st);
                } else {
                    assert(visited0.contains(st.digest));
                }
                assert(cur == node_cert(s, st, current_digest));
                assert(visited@.contains(st.digest));
                vstd::set::axiom_set_contains_len(visited@, current_digest);
                assert(universe.contains(current_digest));
                assert(universe.difference(visited@) =~= universe.difference(visited0).remove(current_digest));
                vstd::set::axiom_set_remove_len(universe.difference(visited0), current_digest);
                assert(views(ordered@) =~= ordered0.push(cur));
                assert(digests(views(ordered@)) =~= digests(ordered0).push(current_digest));
                assert(!digests(ordered0).contains(current_digest));
                assert(digests(views(ordered@)).to_set() =~= visited@) by {
                    broadcast use vstd::seq_lib::group_seq_properties;
                }
                assert forall|i: int| 0 <= i < ordered@.len() implies #[trigger] ordered@[i]@ == node_cert(s, st, ordered@[i].digest) by {
                    if i < ordered0.len() {
                        assert(ordered@[i]@ == ordered0[i]);
                    }
                }
            }
            let ghost stack1 = stack@;
            let ghost ord1 = ordered@;
            let ghost fuel1: nat = universe.difference(visited@).len();
            proof {
                let f0 = universe.difference(visited0).len();
                assert(universe.difference(visited0).contains(current_digest));
                assert(fuel1 == f0 - 1);
                assert(stack_views(stack0).drop_last() =~= stack_views(stack1));
                assert(stack_views(stack0).last() == cur);
                assert(visited@ == visited0.insert(current_digest));
                let x = walk_order(s, stack_views(stack1) + walk_pushes(s, cur, visited@, cur.header.parents), visited@, fuel1);
                assert(walk_order(s, stack_views(stack0), visited0, f0) == seq![cur] + x);
                assert(views(ordered@) + x =~= ordered0 + (seq![cur] + x));
                assert(walk_pushes(s, cur, visited@, cur.header.parents.subrange(0, 0)) =~= Seq::<CertificateView>::empty()) by {
                    assert(cur.header.parents.subrange(0, 0).len() == 0);
                }
                assert(stack_views(stack@) =~= stack_views(stack1) + Seq::<CertificateView>::empty());
            }
            let mut j: usize = 0;
            while j < current.header.parents.len()
                invariant
                    ordered@ == ord1,
                    fuel1 == universe.difference(visited@).len(),
                    universe == s.certificate_index.dom().insert(st.digest),
                    views(ord1) + walk_order(s, stack_views(stack1) + walk_pushes(s, cur, visited@, cur.header.parents), visited@, fuel1)
                        == dag_walk(s, st),
                    stack_views(stack@) == stack_views(stack1) + walk_pushes(s, cur, visited@, cur.header.parents.subrange(0, j as int)),
                    s == state@,
                    s.wf(),
                    st == leader@,
                    cur == current@,
                    cur == node_cert(s, st, cur.digest),
                    visited@.contains(cur.digest),
                    visited@.contains(st.digest),
                    reaches(s, st, true, cur.digest),
                    j <= current.header.parents.len(),
                    stack@.len() >= stack1.len(),
                    forall|i: int| 0 <= i < stack1.len() ==> stack@[i] == stack1[i],
                    forall|i: int| 0 <= i < stack@.len() ==> stacked_ok(s, st, true, visited@, #[trigger] stack@[i]@),
                    forall|k: int| 0 <= k < j && parent_ok(s, st, true, cur.digest, #[trigger] cur.header.parents[k]) ==> on_stack(stack@, cur.header.parents[k]) || visited@.contains(cur.header.parents[k]),
                decreases current.header.parents.len() - j,
            {
                let parent = current.header.parents[j];
                let ghost stack2 = stack@;
                proof {
                    let pj = cur.header.parents.subrange(0, j as int + 1);
                    assert(pj.drop_last() =~= cur.header.parents.subrange(0, j as int));
                    assert(pj.last() == parent);
                }
                match self.find_parent_certificate(state, current.header.round, parent) {
                    Some(e) => {
                        proof {
                            assert(s.certificate_index.contains_key(parent));
                            let p = s.certificate_index[parent];
                            assert(s.has_pos(p.0, p.1));
                            assert(e@.digest == parent);
                            assert(e@.certificate.digest == parent);
                        }
                        if e.status != CommitStatus::ZeroValent && !(visited.contains(&e.digest) || state.is_committed(&e.certificate)) {
                            stack.push(&e.certificate);
                            proof {
                                assert(stack_views(stack@) =~= stack_views(stack2).push(e@.certificate));
                                assert(cur.header.parents.contains(parent)) by {
                                    assert(cur.header.parents[j as int] == parent);
                                }
                                assert(edge(s, st, true, cur.digest, parent));
                                lemma_reaches_step(s, st, true, cur.digest, parent);
                                assert(stack@[stack@.len() - 1]@ == e@.certificate);
                                assert(stacked_ok(s, st, true, visited@, e@.certificate));
                                assert forall|i: int| 0 <= i < stack@.len() implies stacked_ok(s, st, true, visited@, #[trigger] stack@[i]@) by {
                                    if i < stack2.len() {
                                        assert(stack@[i] == stack2[i]);
                                    }
                                }
                                assert forall|k: int| 0 <= k < j + 1 && parent_ok(s, st, true, cur.digest, #[trigger] cur.header.parents[k]) implies on_stack(stack@, cur.header.parents[k]) || visited@.contains(cur.header.parents[k]) by {
                                    if k < j {
                                        if !visited@.contains(cur.header.parents[k]) {
                                            let i = choose|i: int| 0 <= i < stack2.len() && #[trigger] stack2[i].digest == cur.header.parents[k];
                                            assert(stack@[i] == stack2[i]);
                                        }
                                    } else {
                                        assert(stack@[stack@.len() - 1].digest == parent);
                                    }
                                }
                            }
                        } else {
                            proof {
                                assert forall|k: int| 0 <= k < j + 1 && parent_ok(s, st, true, cur.digest, #[trigger] cur.header.parents[k]) implies on_stack(stack@, cur.header.parents[k]) || visited@.contains(cur.header.parents[k]) by {
                                    if k == j {
                                        assert(parent_entry(s, cur.round(), parent) == Some(e@));
                                    }
                                }
                            }
                        }
                    },
                    None => {
                        proof {
                            assert forall|k: int| 0 <= k < j + 1 && parent_ok(s, st, true, cur.digest, #[trigger] cur.header.parents[k]) implies on_stack(stack@, cur.header.parents[k]) || visited@.contains(cur.header.parents[k]) by {
                                if k == j {
                                    assert(!parent_ok(s, st, true, cur.digest, parent));
                                }
                            }
                        }
                    },
                }
                j = j + 1;
            }
            proof {
                assert(cur.header.parents.subrange(0, cur.header.parents.len() as int) =~= cur.header.parents);
                assert forall|x: Digest, q: Digest| #[trigger] visited@.contains(x) && #[trigger] edge(s, st, true, x, q) implies visited@.contains(q) || on_stack(stack@, q) by {
                    if x == cur.digest {
                        let k = choose|k: int| 0 <= k < cur.header.parents.len() && cur.header.parents[k] == q;
                        assert(parent_ok(s, st, true, cur.digest, cur.header.parents[k]));
                    } else {
                        assert(visited0.contains(x));
                        if !visited@.contains(q) {
                            assert(on_stack(stack0, q));
                            let i = choose|i: int| 0 <= i < stack0.len() && #[trigger] stack0[i].digest == q;
                            if i == stack0.len() - 1 {
                                assert(false);
                            } else {
                                assert(stack1[i] == stack0[i]);
                                assert(stack@[i] == stack1[i]);
                            }
                        }
                    }
                }
            }
        }
        proof {
            assert(visited@ =~= sub_dag_set(s, st)) by {
                if !s.committed(st) {
                    assert(visited@.len() > 0);
                    assert forall|d: Digest| sub_dag_set(s, st).contains(d) implies visited@.contains(d) by {
                        lemma_closed_holds_reached(s, st, true, visited@, d);
                    }
                } else {
                    assert(visited@.len() == 0);
                    assert(visited@ =~= Set::empty());
                }
            }
        }
        ordered
    }

    /// Orders the sub-DAG of `leader`: its certificates that survive garbage collection, each
    /// once, by increasing round (depth-first pre-order within a round).
    pub fn order_dag(&self, leader: &Certificate, state: &State) -> (r: Vec<Certificate>)
        requires
            state@.wf(),
        ensures
            round_ordering(state@, leader@, order_set(state@, leader@, self.gc_depth), views(r@)),
            views(r@) == order_dag_spec(state@, leader@, self.gc_depth),
    {
        let ghost s = state@;
        let ghost st = leader@;
        let ordered = self.walk_sub_dag(leader, state);
        proof {
            assert(views(ordered@).subrange(0, 0) =~= Seq::<CertificateView>::empty());
        }
        let lccr = state.last_committed_certificate_round;
        let gc_depth = self.gc_depth;
        let mut kept: Vec<Certificate> = Vec::new();
        let mut i: usize = 0;
        while i < ordered.len()
            invariant
                i <= ordered@.len(),
                s == state@,
                st == leader@,
                lccr == s.last_committed_certificate_round,
                gc_depth == self.gc_depth,
                digests(views(ordered@)).no_duplicates(),
                digests(views(ordered@)).to_set() == sub_dag_set(s, st),
                forall|k: int| 0 <= k < ordered@.len() ==> #[trigger] ordered@[k]@ == node_cert(s, st, ordered@[k].digest),
                views(ordered@) == dag_walk(s, st),
                views(kept@) == keep_within_gc(views(ordered@).subrange(0, i as int), gc_depth, lccr),
                digests(views(kept@)).no_duplicates(),
                forall|k: int| 0 <= k < kept@.len() ==> #[trigger] kept@[k]@ == node_cert(s, st, kept@[k].digest),
                forall|d: Digest| #[trigger] digests(views(kept@)).contains(d) <==> (digests(views(ordered@.subrange(0, i as int))).contains(d) && within_gc(node_cert(s, st, d).round(), gc_depth, lccr)),
            decreases ordered@.len() - i,
        {
            let x = &ordered[i];
            let ghost kept0 = views(kept@);
            let ghost pre = digests(views(ordered@.subrange(0, i as int)));
            proof {
                assert(views(ordered@).subrange(0, i as int + 1).drop_last() =~= views(ordered@).subrange(0, i as int));
                assert(views(ordered@).subrange(0, i as int + 1).last() == x@);
                assert(digests(views(ordered@.subrange(0, i + 1))) =~= pre.push(x.digest));
                assert(ordered@[i as int]@ == node_cert(s, st, x.digest));
            }
            if lccr <= gc_depth || x.header.round >= lccr - gc_depth {
                kept.push(x.copy());
                proof {
                    assert(views(kept@) =~= kept0.push(x@));
                    assert(digests(views(kept@)) =~= digests(kept0).push(x.digest));
                    assert(!digests(kept0).contains(x.digest)) by {
                        if digests(kept0).contains(x.digest) {
                            assert(pre.contains(x.digest));
                            let a = choose|a: int| 0 <= a < pre.len() && pre[a] == x.digest;
                            assert(digests(views(ordered@))[a] == digests(views(ordered@))[i as int]);
                        }
                    }
                    assert forall|d: Digest| #[trigger] digests(views(kept@)).contains(d) <==> (digests(views(ordered@.subrange(0, i + 1))).contains(d) && within_gc(node_cert(s, st, d).round(), gc_depth, lccr)) by {
                        broadcast use vstd::seq_lib::group_seq_properties;
                    }
                    assert forall|k: int| 0 <= k < kept@.len() implies #[trigger] kept@[k]@ == node_cert(s, st, kept@[k].digest) by {
                        if k < kept0.len() {
                            assert(kept@[k]@ == kept0[k]);
                        }
                    }
                }
            } else {
                proof {
                    assert forall|d: Digest| #[trigger] digests(views(kept@)).contains(d) <==> (digests(views(ordered@.subrange(0, i + 1))).contains(d) && within_gc(node_cert(s, st, d).round(), gc_depth, lccr)) by {
                        broadcast use vstd::seq_lib::group_seq_properties;
                    }
                }
            }
            i = i + 1;
        }
        let (sorted, perm) = sort_by_round(&kept);
        proof {
            assert(ordered@.subrange(0, ordered@.len() as int) =~= ordered@);
            assert(views(ordered@).subrange(0, ordered@.len() as int) =~= views(ordered@));
            let kv = views(kept@);
            let rv = views(sorted@);
            let (p, inv) = perm@;
            assert(distinct_digests(kv)) by {
                assert forall|a: int, b: int| 0 <= a < b < kv.len() implies kv[a].digest != kv[b].digest by {
                    assert(digests(kv)[a] != digests(kv)[b]);
                }
            }
            assert(digests(rv).no_duplicates()) by {
                assert forall|a: int, b: int| 0 <= a < rv.len() && 0 <= b < rv.len() && a != b implies digests(rv)[a] != digests(rv)[b] by {
                    if a < b {
                        assert(rv[a].digest != rv[b].digest);
                    } else {
                        assert(rv[b].digest != rv[a].digest);
                    }
                }
            }
            assert(digests(rv).to_set() =~= order_set(s, st, gc_depth)) by {
                assert forall|d: Digest| digests(rv).to_set().contains(d) implies order_set(s, st, gc_depth).contains(d) by {
                    let a = choose|a: int| 0 <= a < digests(rv).len() && digests(rv)[a] == d;
                    assert(rv[a] == kv[p[a]]);
                    assert(digests(kv)[p[a]] == d);
                    assert(digests(kv).contains(d));
                    assert(digests(views(ordered@)).contains(d));
                }
                assert forall|d: Digest| order_set(s, st, gc_depth).contains(d) implies digests(rv).to_set().contains(d) by {
                    assert(digests(views(ordered@)).to_set().contains(d));
                    assert(digests(kv).contains(d));
                    let b = choose|b: int| 0 <= b < digests(kv).len() && digests(kv)[b] == d;
                    assert(rv[inv[b]] == kv[b]);
                    assert(digests(rv)[inv[b]] == d);
                }
            }
            assert forall|a: int| 0 <= a < rv.len() implies #[trigger] rv[a] == node_cert(s, st, rv[a].digest) by {
                assert(rv[a] == kv[p[a]]);
                assert(kept@[p[a]]@ == node_cert(s, st, kept@[p[a]].digest));
            }
        }
        sorted
    }

    /// The leaders to commit with `leader`, newest first (see `order_leaders_spec`).
    pub fn order_leaders(&self, leader: &Certificate, state: &State) -> (r: Vec<Certificate>)
        requires
            state@.wf(),
            self.committee.authorities@.len() > 0,
        ensures
            views(r@) == order_leaders_spec(self.committee, state@, leader@),
    {
        let ghost s = state@;
        let wave = self.committee.solid_wave_length;
        let mut to_commit: Vec<Certificate> = Vec::new();
        to_commit.push(leader.copy());
        if wave == 0 {
            assert(views(to_commit@) =~= seq![leader@]);
            return to_commit;
        }
        let start = state.last_committed_leader_round.saturating_add(wave);
        let end_round = leader.header.round;
        let ghost total = order_leaders_spec(self.committee, s, leader@);
        assert(views(to_commit@) =~= seq![leader@]);
        if end_round <= start {
            assert(leader_chain(self.committee, s, leader@, end_round - 1, start as int, wave as int) =~= Seq::empty());
            assert(total =~= views(to_commit@));
            return to_commit;
        }
        let mut cur: &Certificate = leader;
        let mut r: Round = end_round - 1;
        let mut more = true;
        while more
            invariant
                s == state@,
                s.wf(),
                self.committee.authorities@.len() > 0,
                wave == self.committee.solid_wave_length,
                wave > 0,
                total == order_leaders_spec(self.committee, s, leader@),
                more ==> start <= r,
                more ==> total == views(to_commit@) + leader_chain(self.committee, s, cur@, r as int, start as int, wave as int),
                !more ==> total == views(to_commit@),
                start as int == (if s.last_committed_leader_round + wave > u64::MAX { u64::MAX as int } else { s.last_committed_leader_round + wave }),
            decreases (if more { r - start + 1 } else { 0 }),
        {
            let ghost to0 = views(to_commit@);
            let ghost cur0 = cur@;
            match self.leader(r, state) {
                Some(e) => {
                    if self.linked(cur, &e.certificate, state) {
                        to_commit.push(e.certificate.copy());
                        cur = &e.certificate;
                        proof {
                            assert(views(to_commit@) =~= to0.push(e@.certificate));
                            assert(to0 + (seq![e@.certificate] + leader_chain(self.committee, s, e@.certificate, r - wave, start as int, wave as int))
                                =~= views(to_commit@) + leader_chain(self.committee, s, cur@, r - wave, start as int, wave as int));
                        }
                    }
                },
                None => {},
            }
            if r - start >= wave {
                r = r - wave;
            } else {
                more = false;
                proof {
                    assert(leader_chain(self.committee, s, cur@, r - wave, start as int, wave as int) =~= Seq::empty());
                    assert(views(to_commit@) + Seq::<CertificateView>::empty() =~= views(to_commit@));
                }
            }
        }
        to_commit
    }

    /// The stake of the authorities whose certificate of `support_round` lists the leader among
    /// its solid-wave vertices.
    pub fn solid_support_stake(&self, support_round: Round, leader: &Certificate, state: &State) -> (r: Stake)
        requires
            self.committee.wf(),
        ensures
            r == support_stake(self.committee, state@, support_round, leader@),
    {
        let ghost s = state@;
        let ghost pred = support_pred(s, support_round, leader@);
        let ghost auths = self.committee.authorities@;
        let mut stake: Stake = 0;
        let mut i: usize = 0;
        assert(auths.subrange(0, 0) =~= Seq::<crate::committee::Authority>::empty());
        while i < self.committee.authorities.len()
            invariant
                s == state@,
                auths == self.committee.authorities@,
                pred == support_pred(s, support_round, leader@),
                self.committee.wf(),
                i <= auths.len(),
                stake == stake_where(auths.subrange(0, i as int), pred),
            decreases auths.len() - i,
        {
            let a = self.committee.authorities[i];
            proof {
                lemma_stake_where_extend(auths, pred, i as int);
                lemma_stake_where_prefix(auths, pred, i + 1);
                lemma_stake_where_le_total(auths, pred);
            }
            match state.get_entry(support_round, a.name) {
                Some(e) => {
                    let vertices = &e.certificate.header.solid_wave_vertices;
                    if contains_digest(vertices, leader.header.id) || contains_digest(vertices, leader.digest) {
                        stake = stake + a.stake;
                    }
                },
                None => {},
            }
            i = i + 1;
        }
        assert(auths.subrange(0, auths.len() as int) =~= auths);
        stake
    }

    /// The normal path on a certificate of `round`: commits the leader of the wave when enough
    /// support stands behind it, together with the earlier leaders that it links to, and returns
    /// what it committed.
    pub fn normal_path(&mut self, round: Round) -> (out: Vec<Certificate>)
        requires
            old(self).wf(),
        ensures
            final(self).wf(),
            final(self).committee == old(self).committee,
            final(self).gc_depth == old(self).gc_depth,
            normal_path_rel(old(self).committee, old(self).gc_depth, old(self).state@, round, final(self).state@, views(out@)),
            ({
                let c = old(self).committee;
                let s = old(self).state@;
                let leader_round = round - c.solid_wave_length;
                let support_round = (round - c.solid_step_length) as Round;
                round >= c.solid_wave_length + 1 && round >= c.solid_step_length && (round - 1) % (
                c.solid_wave_length as int) == 0 && leader_round > s.last_committed_leader_round
                    && s.dag.contains_key(support_round) ==> match leader_spec(c, s, leader_round as Round) {
                    Some(e) => if support_stake(c, s, support_round, e.certificate) >= c.validity_threshold {
                        final(self).state@.last_committed_leader_round == leader_round
                    } else {
                        final(self).state@ == s && out@.len() == 0
                    },
                    None => final(self).state@ == s && out@.len() == 0,
                }
            }),
    {
        let ghost s = self.state@;
        let step = self.committee.solid_step_length;
        let wave = self.committee.solid_wave_length;
        if round < wave + 1 || round < step {
            return Vec::new();
        }
        let r = round - 1;
        if r % wave != 0 {
            return Vec::new();
        }
        let leader_round = round - wave;
        let support_round = round - step;
        if leader_round <= self.state.last_committed_leader_round {
            return Vec::new();
        }
        let leader = match self.leader(leader_round, &self.state) {
            Some(e) => e.certificate.copy(),
            None => {
                return Vec::new();
            },
        };
        if self.state.round_len(support_round).is_none() {
            return Vec::new();
        }
        let stake = self.solid_support_stake(support_round, &leader, &self.state);
        if stake < self.committee.validity_threshold {
            return Vec::new();
        }
        assert(normal_leader(self.committee, s, round) == Some((leader_round, leader@)));
        let leaders = self.order_leaders(&leader, &self.state);
        let ghost rev = views(leaders@).reverse();
        let mut sequence: Vec<Certificate> = Vec::new();
        let mut k: usize = 0;
        assert(rev.subrange(0, 0) =~= Seq::<CertificateView>::empty());
        assert(views(sequence@) =~= Seq::<CertificateView>::empty());
        while k < leaders.len()
            invariant
                self.wf(),
                self.committee == old(self).committee,
                self.gc_depth == old(self).gc_depth,
                k <= leaders@.len(),
                rev == views(leaders@).reverse(),
                ordered_chunks(s, self.gc_depth, rev.subrange(0, k as int), views(sequence@)),
                views(sequence@) == chunk_order(s, self.gc_depth, rev.subrange(0, k as int)),
                self.state@ == record_all(s, views(sequence@)),
                s.wf(),
            decreases leaders@.len() - k,
        {
            let index = leaders.len() - 1 - k;
            let mut chunk = self.order_dag(&leaders[index], &self.state);
            let ghost chunk_v = views(chunk@);
            let ghost seq0 = views(sequence@);
            let ghost st0 = self.state@;
            let mut m: usize = 0;
            while m < chunk.len()
                invariant
                    self.wf(),
                    self.committee == old(self).committee,
                    self.gc_depth == old(self).gc_depth,
                    m <= chunk@.len(),
                    chunk_v == views(chunk@),
                    self.state@ == record_all(st0, chunk_v.subrange(0, m as int)),
                decreases chunk@.len() - m,
            {
                self.state.record_commit(&chunk[m]);
                proof {
                    assert(chunk_v.subrange(0, m + 1).drop_last() =~= chunk_v.subrange(0, m as int));
                }
                m = m + 1;
            }
            sequence.append(&mut chunk);
            proof {
                assert(chunk_v.subrange(0, chunk_v.len() as int) =~= chunk_v);
                let out = views(sequence@);
                assert(out =~= seq0 + chunk_v);
                lemma_record_all_append(s, seq0, chunk_v);
                let rk = rev.subrange(0, k + 1);
                assert(rk.drop_last() =~= rev.subrange(0, k as int));
                assert(rk.last() == views(leaders@)[index as int]);
                assert(out.subrange(0, seq0.len() as int) =~= seq0);
                assert(out.subrange(seq0.len() as int, out.len() as int) =~= chunk_v);
                assert(ordered_chunks(s, self.gc_depth, rk, out));
            }
            k = k + 1;
        }
        proof {
            assert(rev.subrange(0, leaders@.len() as int) =~= rev);
            lemma_record_all_keeps(s, views(sequence@));
        }
        self.state.update_last_committed_leader(leader_round);
        self.state.cleanup_committed_history(self.gc_depth);
        self.state.maybe_unblock_fast_path();
        sequence
    }

    /// The certificates that the fast path commits for the one-valent certificates: the
    /// sub-DAGs of each of them, each certificate once, by increasing round.
    pub fn collect_fast_path_commits(&self, one_valent: &Vec<Certificate>, state: &State) -> (r: Vec<Certificate>)
        requires
            state@.wf(),
        ensures
            fast_commit_ordering(state@, views(one_valent@), self.gc_depth, views(r@)),
            views(r@) == stable_sort_by_round(fast_concat(state@, views(one_valent@), self.gc_depth)),
    {
        let ghost s = state@;
        let ghost ones = views(one_valent@);
        let ghost gc = self.gc_depth;
        let mut to_commit: Vec<Certificate> = Vec::new();
        let mut seen: HashSet<Digest> = HashSet::new();
        let mut i: usize = 0;
        while i < one_valent.len()
            invariant
                s == state@,
                s.wf(),
                gc == self.gc_depth,
                ones == views(one_valent@),
                i <= one_valent@.len(),
                views(to_commit@) == fast_concat(s, ones.subrange(0, i as int), gc),
                digests(views(to_commit@)).no_duplicates(),
                digests(views(to_commit@)).to_set() == seen@,
                forall|d: Digest| #[trigger] seen@.contains(d) <==> exists|a: int| 0 <= a < i && #[trigger] order_set(s, ones[a], gc).contains(d),
                forall|k: int| 0 <= k < to_commit@.len() ==> stands_for(s, ones[first_owner(s, ones, gc, to_commit@[k].digest)], #[trigger] to_commit@[k]@),
            decreases one_valent@.len() - i,
        {
            let chunk = self.order_dag(&one_valent[i], state);
            let ghost cv = views(chunk@);
            let ghost c = ones[i as int];
            let ghost seen_i = seen@;
            let ghost base = views(to_commit@);
            proof {
                assert(one_valent@[i as int]@ == c);
                assert(cv.subrange(0, 0) =~= Seq::<CertificateView>::empty());
            }
            let mut j: usize = 0;
            while j < chunk.len()
                invariant
                    s == state@,
                    gc == self.gc_depth,
                    ones == views(one_valent@),
                    i < one_valent@.len(),
                    c == ones[i as int],
                    cv == views(chunk@),
                    round_ordering(s, c, order_set(s, c, gc), cv),
                    cv == order_dag_spec(s, c, gc),
                    base == fast_concat(s, ones.subrange(0, i as int), gc),
                    views(to_commit@) == append_new(base, cv.subrange(0, j as int)),
                    j <= chunk@.len(),
                    digests(views(to_commit@)).no_duplicates(),
                    digests(views(to_commit@)).to_set() == seen@,
                    forall|d: Digest| #[trigger] seen@.contains(d) <==> (seen_i.contains(d) || digests(cv.subrange(0, j as int)).contains(d)),
                    forall|d: Digest| #[trigger] seen_i.contains(d) <==> exists|a: int| 0 <= a < i && #[trigger] order_set(s, ones[a], gc).contains(d),
                    forall|k: int| 0 <= k < to_commit@.len() ==> stands_for(s, ones[first_owner(s, ones, gc, to_commit@[k].digest)], #[trigger] to_commit@[k]@),
                decreases chunk@.len() - j,
            {
                let d = chunk[j].digest;
                let ghost tc0 = views(to_commit@);
                proof {
                    assert(cv.subrange(0, j as int + 1).drop_last() =~= cv.subrange(0, j as int));
                    assert(cv.subrange(0, j as int + 1).last() == cv[j as int]);
                    assert(digests(tc0).contains(d) == seen@.contains(d)) by {
                        broadcast use vstd::seq_lib::group_seq_properties;
                    }
                    assert(cv[j as int].digest == d);
                    assert(digests(cv.subrange(0, j + 1)) =~= digests(cv.subrange(0, j as int)).push(d));
                    assert(digests(cv).to_set().contains(d)) by {
                        assert(digests(cv)[j as int] == d);
                    }
                }
                if !seen.contains(&d) {
                    seen.insert(d);
                    to_commit.push(chunk[j].copy());
                    proof {
                        assert forall|a: int| 0 <= a < i implies !(#[trigger] order_set(s, ones[a], gc).contains(d)) by {
                            assert(!seen_i.contains(d));
                        }
                        assert(order_set(s, ones[i as int], gc).contains(d)) by {
                            assert(digests(cv).to_set().contains(d));
                        }
                        lemma_first_owner(s, ones, gc, d, i as int, 0);
                        assert(views(to_commit@) =~= tc0.push(cv[j as int]));
                        assert(digests(views(to_commit@)) =~= digests(tc0).push(d));
                        assert(digests(views(to_commit@)).to_set() =~= seen@) by {
                            broadcast use vstd::seq_lib::group_seq_properties;
                        }
                        assert forall|k: int| 0 <= k < to_commit@.len() implies stands_for(s, ones[first_owner(s, ones, gc, to_commit@[k].digest)], #[trigger] to_commit@[k]@) by {
                            if k < tc0.len() {
                                assert(to_commit@[k]@ == tc0[k]);
                            } else {
                                assert(cv[j as int] == node_cert(s, c, d));
                            }
                        }
                    }
                }
                proof {
                    assert forall|e: Digest| #[trigger] seen@.contains(e) <==> (seen_i.contains(e) || digests(cv.subrange(0, j + 1)).contains(e)) by {
                        broadcast use vstd::seq_lib::group_seq_properties;
                    }
                }
                j = j + 1;
            }
            proof {
                assert(cv.subrange(0, cv.len() as int) =~= cv);
                assert(ones.subrange(0, i as int + 1).drop_last() =~= ones.subrange(0, i as int));
                assert(ones.subrange(0, i as int + 1).last() == c);
                assert forall|d: Digest| #[trigger] seen@.contains(d) <==> exists|a: int| 0 <= a < i + 1 && #[trigger] order_set(s, ones[a], gc).contains(d) by {
                    if seen@.contains(d) && !seen_i.contains(d) {
                        assert(digests(cv).contains(d));
                        assert(digests(cv).to_set().contains(d));
                        assert(order_set(s, ones[i as int], gc).contains(d));
                    }
                    if exists|a: int| 0 <= a < i + 1 && #[trigger] order_set(s, ones[a], gc).contains(d) {
                        let a = choose|a: int| 0 <= a < i + 1 && #[trigger] order_set(s, ones[a], gc).contains(d);
                        if a == i {
                            assert(digests(cv).to_set().contains(d));
                            assert(digests(cv).contains(d));
                        } else {
                            assert(seen_i.contains(d));
                        }
                    }
                }
            }
            i = i + 1;
        }
        let (sorted, perm) = sort_by_round(&to_commit);
        proof {
            assert(ones.subrange(0, ones.len() as int) =~= ones);
            let tv = views(to_commit@);
            let rv = views(sorted@);
            let (p, inv) = perm@;
            assert(distinct_digests(tv)) by {
                assert forall|a: int, b: int| 0 <= a < b < tv.len() implies tv[a].digest != tv[b].digest by {
                    assert(digests(tv)[a] != digests(tv)[b]);
                }
            }
            assert(digests(rv).no_duplicates()) by {
                assert forall|a: int, b: int| 0 <= a < rv.len() && 0 <= b < rv.len() && a != b implies digests(rv)[a] != digests(rv)[b] by {
                    if a < b {
                        assert(rv[a].digest != rv[b].digest);
                    } else {
                        assert(rv[b].digest != rv[a].digest);
                    }
                }
            }
            assert(digests(rv).to_set() =~= fast_commit_set(s, ones, gc)) by {
                assert forall|d: Digest| digests(rv).to_set().contains(d) implies fast_commit_set(s, ones, gc).contains(d) by {
                    let a = choose|a: int| 0 <= a < digests(rv).len() && digests(rv)[a] == d;
                    assert(rv[a] == tv[p[a]]);
                    assert(digests(tv)[p[a]] == d);
                    assert(digests(tv).contains(d));
                    assert(seen@.contains(d));
                }
                assert forall|d: Digest| fast_commit_set(s, ones, gc).contains(d) implies digests(rv).to_set().contains(d) by {
                    assert(seen@.contains(d));
                    assert(digests(tv).to_set().contains(d));
                    let b = choose|b: int| 0 <= b < digests(tv).len() && digests(tv)[b] == d;
                    assert(rv[inv[b]] == tv[b]);
                    assert(digests(rv)[inv[b]] == d);
                }
            }
            assert forall|k: int| 0 <= k < rv.len() implies stands_for(s, ones[first_owner(s, ones, gc, rv[k].digest)], #[trigger] rv[k]) by {
                let q = p[k];
                assert(rv[k] == tv[q]);
                assert(to_commit@[q]@ == tv[q]);
            }

        }
        sorted
    }

    /// The stake of the authorities whose certificate of `round` lists `certificate` (by header
    /// id) among its solid-step vertices.
    pub fn step_support_stake(&self, round: Round, certificate: &Certificate, state: &State) -> (r: Stake)
        requires
            self.committee.wf(),
        ensures
            r == step_support(self.committee, state@, round, certificate@),
    {
        let ghost s = state@;
        let ghost pred = step_pred(s, round, certificate@);
        let ghost auths = self.committee.authorities@;
        let mut stake: Stake = 0;
        let mut i: usize = 0;
        assert(auths.subrange(0, 0) =~= Seq::<crate::committee::Authority>::empty());
        while i < self.committee.authorities.len()
            invariant
                s == state@,
                auths == self.committee.authorities@,
                pred == step_pred(s, round, certificate@),
                self.committee.wf(),
                i <= auths.len(),
                stake == stake_where(auths.subrange(0, i as int), pred),
            decreases auths.len() - i,
        {
            let a = self.committee.authorities[i];
            proof {
                lemma_stake_where_extend(auths, pred, i as int);
                lemma_stake_where_prefix(auths, pred, i + 1);
                lemma_stake_where_le_total(auths, pred);
            }
            match state.get_entry(round, a.name) {
                Some(e) => {
                    if contains_digest(&e.certificate.header.solid_step_vertices, certificate.header.id) {
                        stake = stake + a.stake;
                    }
                },
                None => {},
            }
            i = i + 1;
        }
        assert(auths.subrange(0, auths.len() as int) =~= auths);
        stake
    }

    /// The fast path on a certificate of `round` (see `fast_path_rel`); returns what it commits.
    #[verifier::rlimit(30)]
    pub fn fast_path(&mut self, round: Round) -> (out: Vec<Certificate>)
        requires
            old(self).wf(),
            round == 0 || unblock_round(old(self).committee, (round - 1) as Round) <= u64::MAX,
        ensures
            final(self).wf(),
            final(self).committee == old(self).committee,
            final(self).gc_depth == old(self).gc_depth,
            fast_path_rel(old(self).committee, old(self).gc_depth, old(self).state@, round, final(self).state@, views(out@)),
            ({
                let c = old(self).committee;
                let s = old(self).state@;
                let r = (round - 1) as Round;
                round != 0 && round > s.last_committed_certificate_round && !s.fast_path_checked_rounds.contains(round)
                    && s.dag.contains_key(round) && (round <= 1 || s.dag[round].dom().len() >= c.quorum_threshold)
                    && (s.fast_path_blocked_until_normal_round matches Some(t) ==> s.last_committed_certificate_round >= t)
                    && s.dag.contains_key(r) ==> {
                    &&& (exists|a: PublicKey| s.has_pos(r, a)
                        && c.validity_threshold <= #[trigger] step_support(c, s, round, s.entry(r, a).certificate)
                        && step_support(c, s, round, s.entry(r, a).certificate) < c.fast_path_threshold)
                        ==> out@.len() == 0 && final(self).state@.fast_path_blocked_until_normal_round is Some
                    &&& !(exists|a: PublicKey| s.has_pos(r, a)
                        && c.validity_threshold <= #[trigger] step_support(c, s, round, s.entry(r, a).certificate)
                        && step_support(c, s, round, s.entry(r, a).certificate) < c.fast_path_threshold)
                        ==> final(self).state@.fast_path_blocked_until_normal_round is None
                    &&& !(exists|a: PublicKey| s.has_pos(r, a)
                        && c.validity_threshold <= #[trigger] step_support(c, s, round, s.entry(r, a).certificate)
                        && step_support(c, s, round, s.entry(r, a).certificate) < c.fast_path_threshold)
                        ==> forall|a: PublicKey| s.has_pos(r, a)
                        && #[trigger] step_support(c, s, round, s.entry(r, a).certificate) >= c.fast_path_threshold
                        && !s.committed(s.entry(r, a).certificate)
                        ==> digests(views(out@)).contains(s.entry(r, a).certificate.digest)
                }
            }),
    {
        let ghost s = self.state@;
        if round == 0 || round <= self.state.last_committed_certificate_round {
            return Vec::new();
        }
        if self.state.fast_path_checked_rounds.contains(&round) {
            return Vec::new();
        }
        let current_len = match self.state.round_len(round) {
            None => {
                return Vec::new();
            },
            Some(n) => n,
        };
        if round > 1 && current_len < self.committee.quorum_threshold as usize {
            return Vec::new();
        }
        self.state.fast_path_checked_rounds.insert(round);
        proof {
            crate::dag::lemma_wf_same_dag(s, self.state@);
        }
        if let Some(target_round) = self.state.fast_path_blocked_until_normal_round {
            if self.state.last_committed_certificate_round < target_round {
                return Vec::new();
            }
        }
        self.state.fast_path_blocked_until_normal_round = None;
        let ghost sb = self.state@;
        proof {
            crate::dag::lemma_wf_same_dag(s, sb);
        }
        let r = round - 1;
        if self.state.round_len(r).is_none() {
            return Vec::new();
        }
        let authors = self.state.round_authors(r);
        let mut statuses: Vec<CommitStatus> = Vec::new();
        let mut one_valent: Vec<Certificate> = Vec::new();
        let ghost mut one_auths: Seq<PublicKey> = Seq::empty();
        let mut has_bivalent = false;
        let mut i: usize = 0;
        while i < authors.len()
            invariant
                self.wf(),
                self.committee == old(self).committee,
                self.gc_depth == old(self).gc_depth,
                self.state@ == sb,
                sb.dag.contains_key(r),
                r == round - 1,
                authors@.to_set() == sb.dag[r].dom(),
                authors@.no_duplicates(),
                i <= authors@.len(),
                statuses@.len() == i,
                forall|k: int| 0 <= k < i ==> #[trigger] statuses@[k] == fast_status(self.committee, sb, round, sb.entry(r, authors@[k]).certificate),
                views(one_valent@) == certs_of(sb, r, one_auths),
                one_auths.no_duplicates(),
                forall|a: PublicKey| #[trigger] one_auths.contains(a) <==> (authors@.subrange(0, i as int).contains(a) && is_one_valent(self.committee, sb, round, a)),
                has_bivalent == exists|k: int| 0 <= k < i && is_bivalent(self.committee, sb, round, #[trigger] authors@[k]),
            decreases authors@.len() - i,
        {
            let a = authors[i];
            proof {
                assert(authors@.to_set().contains(a));
                assert(sb.has_pos(r, a));
            }
            let c = self.state.get_entry(r, a).unwrap().certificate.copy();
            assert(c@ == sb.entry(r, a).certificate);
            let stake = self.step_support_stake(round, &c, &self.state);
            let status = if stake >= self.committee.fast_path_threshold {
                CommitStatus::OneValent
            } else if stake < self.committee.validity_threshold {
                CommitStatus::ZeroValent
            } else {
                CommitStatus::Bivalent
            };
            let ghost statuses0 = statuses@;
            let ghost ones0 = views(one_valent@);
            let ghost auths0 = one_auths;
            statuses.push(status);
            proof {
                let prev = authors@.subrange(0, i as int);
                assert(authors@.subrange(0, i + 1) =~= prev.push(a));
                assert forall|k: int| 0 <= k < i + 1 implies #[trigger] statuses@[k] == fast_status(self.committee, sb, round, sb.entry(r, authors@[k]).certificate) by {
                    if k < i {
                        assert(statuses@[k] == statuses0[k]);
                    }
                }
                assert(!prev.contains(a)) by {
                    if prev.contains(a) {
                        let k = choose|k: int| 0 <= k < prev.len() && prev[k] == a;
                        assert(authors@[k] == authors@[i as int]);
                    }
                }
            }
            if status == CommitStatus::OneValent {
                one_valent.push(c);
                proof {
                    one_auths = auths0.push(a);
                    assert(views(one_valent@) =~= ones0.push(c@));
                    assert(certs_of(sb, r, one_auths) =~= certs_of(sb, r, auths0).push(sb.entry(r, a).certificate));
                    assert(views(one_valent@) =~= certs_of(sb, r, one_auths));
                    assert(!auths0.contains(a));
                    assert forall|b: PublicKey| #[trigger] one_auths.contains(b) <==> (authors@.subrange(0, i + 1).contains(b) && is_one_valent(self.committee, sb, round, b)) by {
                        broadcast use vstd::seq_lib::group_seq_properties;
                    }
                }
            } else {
                proof {
                    assert forall|b: PublicKey| #[trigger] one_auths.contains(b) <==> (authors@.subrange(0, i + 1).contains(b) && is_one_valent(self.committee, sb, round, b)) by {
                        broadcast use vstd::seq_lib::group_seq_properties;
                    }
                }
            }
            if status == CommitStatus::Bivalent {
                has_bivalent = true;
                assert(is_bivalent(self.committee, sb, round, authors@[i as int]));
            }
            i = i + 1;
        }
        proof {
            assert(authors@.subrange(0, authors@.len() as int) =~= authors@);
            assert(sb.dag[r].dom() =~= authors@.subrange(0, 0).to_set().union(sb.dag[r].dom()));
            assert(classify_upto(self.committee, sb, round, Set::empty()) =~= sb) by {
                assert(classify_upto(self.committee, sb, round, Set::empty()).dag =~= sb.dag) by {
                    assert(classify_upto(self.committee, sb, round, Set::empty()).dag[r] =~= sb.dag[r]);
                }
            }
            assert(authors@.subrange(0, 0).to_set() =~= Set::<PublicKey>::empty());
        }
        let mut j: usize = 0;
        while j < authors.len()
            invariant
                self.wf(),
                self.committee == old(self).committee,
                self.gc_depth == old(self).gc_depth,
                sb.wf(),
                sb.dag.contains_key(r),
                r == round - 1,
                authors@.to_set() == sb.dag[r].dom(),
                j <= authors@.len(),
                statuses@.len() == authors@.len(),
                forall|k: int| 0 <= k < authors@.len() ==> #[trigger] statuses@[k] == fast_status(self.committee, sb, round, sb.entry(r, authors@[k]).certificate),
                self.state@ == classify_upto(self.committee, sb, round, authors@.subrange(0, j as int).to_set()),
            decreases authors@.len() - j,
        {
            let a = authors[j];
            let ghost done = authors@.subrange(0, j as int).to_set();
            let ghost t = self.state@;
            proof {
                assert(authors@.to_set().contains(a));
                assert(sb.has_pos(r, a));
                assert(t.has_pos(r, a));
            }
            let c = self.state.get_entry(r, a).unwrap().certificate.copy();
            proof {
                assert(c@ == sb.entry(r, a).certificate);
                assert(c@.round() == r && c@.origin() == a);
            }
            self.state.set_commit_status(&c, statuses[j]);
            proof {
                let done2 = authors@.subrange(0, j + 1).to_set();
                assert(authors@.subrange(0, j + 1) =~= authors@.subrange(0, j as int).push(a));
                assert(done2 =~= done.insert(a)) by {
                    broadcast use vstd::seq_lib::group_seq_properties;
                }
                let target = classify_upto(self.committee, sb, round, done2);
                assert(self.state@.dag[r] =~= target.dag[r]);
                assert(self.state@.dag =~= target.dag);
                assert(self.state@ =~= target);
            }
            j = j + 1;
        }
        proof {
            assert(authors@.subrange(0, authors@.len() as int) =~= authors@);
        }
        let ghost s3 = self.state@;
        assert(s3 == classify(self.committee, sb, round));
        if !has_bivalent {
            proof {
                assert forall|a: PublicKey| !is_bivalent(self.committee, sb, round, a) by {
                    if is_bivalent(self.committee, sb, round, a) {
                        assert(authors@.to_set().contains(a));
                        let k = choose|k: int| 0 <= k < authors@.len() && authors@[k] == a;
                        assert(is_bivalent(self.committee, sb, round, authors@[k]));
                    }
                }
                assert(one_auths.to_set() =~= Set::new(|a: PublicKey| is_one_valent(self.committee, sb, round, a))) by {
                    assert forall|a: PublicKey| is_one_valent(self.committee, sb, round, a) implies one_auths.contains(a) by {
                        assert(authors@.to_set().contains(a));
                    }
                }
                assert(one_valent_authors(self.committee, sb, round, one_auths));
            }
            let mut to_commit = self.collect_fast_path_commits(&one_valent, &self.state);
            let ghost out = views(to_commit@);
            let mut m: usize = 0;
            while m < to_commit.len()
                invariant
                    self.wf(),
                    self.committee == old(self).committee,
                    self.gc_depth == old(self).gc_depth,
                    m <= to_commit@.len(),
                    out == views(to_commit@),
                    self.state@ == record_all(s3, out.subrange(0, m as int)),
                decreases to_commit@.len() - m,
            {
                self.state.record_commit(&to_commit[m]);
                proof {
                    assert(out.subrange(0, m + 1).drop_last() =~= out.subrange(0, m as int));
                }
                m = m + 1;
            }
            proof {
                assert(out.subrange(0, out.len() as int) =~= out);
            }
            self.state.cleanup_committed_history(self.gc_depth);
            proof {
                assert(one_valent_authors(self.committee, sb, round, one_auths)
                    && fast_commit_ordering(s3, certs_of(sb, r, one_auths), self.gc_depth, out)
                    && self.state@ == record_all(s3, out).cleanup_spec(self.gc_depth));
                lemma_record_all_keeps(s3, out);
                assert forall|a: PublicKey| !(s.has_pos(r, a)
                    && self.committee.validity_threshold <= #[trigger] step_support(self.committee, s, round, s.entry(r, a).certificate)
                    && step_support(self.committee, s, round, s.entry(r, a).certificate) < self.committee.fast_path_threshold) by {
                    lemma_step_support_same_dag(self.committee, s, sb, round, s.entry(r, a).certificate);
                    assert(!is_bivalent(self.committee, sb, round, a));
                }
                assert forall|a: PublicKey| s.has_pos(r, a)
                    && #[trigger] step_support(self.committee, s, round, s.entry(r, a).certificate) >= self.committee.fast_path_threshold
                    && !s.committed(s.entry(r, a).certificate)
                    implies digests(out).contains(s.entry(r, a).certificate.digest) by {
                    lemma_one_valent_committed(self.committee, self.gc_depth, s, sb, round, one_auths, out, a);
                }
            }
            to_commit
        } else {
            let wave = if self.committee.solid_wave_length >= 1 {
                self.committee.solid_wave_length
            } else {
                1
            };
            proof {
                let k = choose|k: int| 0 <= k < authors@.len() && is_bivalent(self.committee, sb, round, #[trigger] authors@[k]);
                assert(is_bivalent(self.committee, sb, round, authors@[k]));
                let a = authors@[k];
                lemma_step_support_same_dag(self.committee, s, sb, round, s.entry(r, a).certificate);
                assert(s.has_pos(r, a)
                    && self.committee.validity_threshold <= step_support(self.committee, s, round, s.entry(r, a).certificate)
                    && step_support(self.committee, s, round, s.entry(r, a).certificate) < self.committee.fast_path_threshold);
                assert((r / wave + 1) * wave == unblock_round(self.committee, r));
            }
            let corresponding_round = ((r / wave) + 1) * wave;
            let blocked = match self.state.fast_path_blocked_until_normal_round {
                None => corresponding_round,
                Some(x) => if x >= corresponding_round {
                    x
                } else {
                    corresponding_round
                },
            };
            self.state.fast_path_blocked_until_normal_round = Some(blocked);
            proof {
                crate::dag::lemma_wf_same_dag(s3, self.state@);
            }
            Vec::new()
        }
    }

    /// Whether a walk along parents, weak ones included, leads from `leader` to `prev_leader`.
    pub fn linked(&self, leader: &Certificate, prev_leader: &Certificate, state: &State) -> (r: bool)
        requires
            state@.wf(),
        ensures
            r == reaches(state@, leader@, false, prev_leader.digest),
    {
        let ghost s = state@;
        let ghost st = leader@;
        let target = prev_leader.digest;
        let ghost universe = s.certificate_index.dom().insert(leader.digest);
        let mut stack: Vec<&Certificate> = Vec::new();
        stack.push(leader);
        let mut visited: HashSet<Digest> = HashSet::new();
        proof {
            lemma_reaches_start(s, st, false);
            assert(state.certificate_index@.dom().finite());
        }
        while stack.len() > 0
            invariant
                s == state@,
                s.wf(),
                st == leader@,
                target == prev_leader.digest,
                universe == s.certificate_index.dom().insert(st.digest),
                universe.finite(),
                visited@.subset_of(universe),
                !visited@.contains(target),
                forall|d: Digest| #[trigger] visited@.contains(d) ==> reaches(s, st, false, d),
                forall|i: int| 0 <= i < stack@.len() ==> stacked_ok(s, st, false, visited@, #[trigger] stack@[i]@),
                forall|x: Digest, q: Digest| #[trigger] visited@.contains(x) && #[trigger] edge(s, st, false, x, q) ==> visited@.contains(q) || on_stack(stack@, q),
                visited@.len() == 0 ==> (stack@.len() == 1 && stack@[0]@ == st),
                visited@.len() > 0 ==> visited@.contains(st.digest),
                visited@.finite(),
            decreases universe.difference(visited@).len(), stack@.len(),
        {
            let ghost visited0 = visited@;
            let ghost stack0 = stack@;
            let current = stack.pop().unwrap();
            let ghost cur = current@;
            assert(stack0[stack0.len() - 1] == current);
            assert(stacked_ok(s, st, false, visited0, cur));
            let current_digest = current.digest;
            if visited.contains(&current_digest) {
                proof {
                    assert forall|x: Digest, q: Digest| #[trigger] visited@.contains(x) && #[trigger] edge(s, st, false, x, q) implies visited@.contains(q) || on_stack(stack@, q) by {
                        if !visited@.contains(q) {
                            assert(on_stack(stack0, q));
                            let i = choose|i: int| 0 <= i < stack0.len() && #[trigger] stack0[i].digest == q;
                            if i == stack0.len() - 1 {
                                assert(false);
                            } else {
                                assert(stack@[i] == stack0[i]);
                            }
                        }
                    }
                    assert forall|i: int| 0 <= i < stack@.len() implies stacked_ok(s, st, false, visited@, #[trigger] stack@[i]@) by {
                        assert(stack@[i] == stack0[i]);
                    }
                }
                continue;
            }
            visited.insert(current_digest);
            proof {
                if visited0.len() == 0 {
                    assert(cur == st);
                } else {
                    assert(visited0.contains(st.digest));
                }
                assert(cur == node_cert(s, st, current_digest));
                assert(visited@.contains(st.digest));
                vstd::set::axiom_set_contains_len(visited@, current_digest);
                assert(universe.contains(current_digest));
                assert(universe.difference(visited@) =~= universe.difference(visited0).remove(current_digest));
                vstd::set::axiom_set_remove_len(universe.difference(visited0), current_digest);
            }
            if current_digest == target {
                return true;
            }
            let ghost stack1 = stack@;
            let mut j: usize = 0;
            while j < current.header.parents.len()
                invariant
                    s == state@,
                    s.wf(),
                    st == leader@,
                    cur == current@,
                    cur == node_cert(s, st, cur.digest),
                    visited@.contains(cur.digest),
                    visited@.contains(st.digest),
                    reaches(s, st, false, cur.digest),
                    j <= current.header.parents.len(),
                    stack@.len() >= stack1.len(),
                    forall|i: int| 0 <= i < stack1.len() ==> stack@[i] == stack1[i],
                    forall|i: int| 0 <= i < stack@.len() ==> stacked_ok(s, st, false, visited@, #[trigger] stack@[i]@),
                    forall|k: int| 0 <= k < j && parent_ok(s, st, false, cur.digest, #[trigger] cur.header.parents[k]) ==> on_stack(stack@, cur.header.parents[k]),
                decreases current.header.parents.len() - j,
            {
                let parent = current.header.parents[j];
                let ghost stack2 = stack@;
                match self.find_parent_certificate(state, current.header.round, parent) {
                    Some(e) => {
                        stack.push(&e.certificate);
                        proof {
                            assert(s.certificate_index.contains_key(parent));
                            let p = s.certificate_index[parent];
                            assert(s.has_pos(p.0, p.1));
                            assert(e@.digest == parent);
                            assert(e@.certificate.digest == parent);
                            assert(cur.header.parents.contains(parent)) by {
                                assert(cur.header.parents[j as int] == parent);
                            }
                            assert(edge(s, st, false, cur.digest, parent));
                            lemma_reaches_step(s, st, false, cur.digest, parent);
                            assert(stack@[stack@.len() - 1]@ == e@.certificate);
                            assert(stacked_ok(s, st, false, visited@, e@.certificate));
                            assert forall|i: int| 0 <= i < stack@.len() implies stacked_ok(s, st, false, visited@, #[trigger] stack@[i]@) by {
                                if i < stack2.len() {
                                    assert(stack@[i] == stack2[i]);
                                }
                            }
                            assert forall|k: int| 0 <= k < j + 1 && parent_ok(s, st, false, cur.digest, #[trigger] cur.header.parents[k]) implies on_stack(stack@, cur.header.parents[k]) by {
                                if k < j {
                                    let i = choose|i: int| 0 <= i < stack2.len() && #[trigger] stack2[i].digest == cur.header.parents[k];
                                    assert(stack@[i] == stack2[i]);
                                } else {
                                    assert(stack@[stack@.len() - 1].digest == parent);
                                }
                            }
                        }
                    },
                    None => {
                        proof {
                            assert forall|k: int| 0 <= k < j + 1 && parent_ok(s, st, false, cur.digest, #[trigger] cur.header.parents[k]) implies on_stack(stack@, cur.header.parents[k]) by {
                                if k == j {
                                    assert(!parent_ok(s, st, false, cur.digest, parent));
                                }
                            }
                        }
                    },
                }
                j = j + 1;
            }
            proof {
                assert forall|x: Digest, q: Digest| #[trigger] visited@.contains(x) && #[trigger] edge(s, st, false, x, q) implies visited@.contains(q) || on_stack(stack@, q) by {
                    if x == cur.digest {
                        let k = choose|k: int| 0 <= k < cur.header.parents.len() && cur.header.parents[k] == q;
                        assert(parent_ok(s, st, false, cur.digest, cur.header.parents[k]));
                    } else {
                        assert(visited0.contains(x));
                        if !visited@.contains(q) {
                            assert(on_stack(stack0, q));
                            let i = choose|i: int| 0 <= i < stack0.len() && #[trigger] stack0[i].digest == q;
                            if i == stack0.len() - 1 {
                                assert(false);
                            } else {
                                assert(stack1[i] == stack0[i]);
                                assert(stack@[i] == stack1[i]);
                            }
                        }
                    }
                }
            }
        }
        proof {
            if reaches(s, st, false, target) {
                lemma_closed_holds_reached(s, st, false, visited@, target);
            }
        }
        false
    }
}

} // verus!
