//! What every step of the consensus keeps: committed rounds only grow, and a certificate is
//! committed once, after which its author is only ever committed at later rounds.

use crate::committee::Committee;
use crate::consensus::{
    committee_ok, leader_chain, leader_name, leader_spec, order_leaders_spec,
    certs_of, classify, digests, fast_commit_ordering, fast_commit_set, fast_path_rel, first_owner, unblock_round,
    is_bivalent, normal_leader, normal_path_rel, one_valent_authors, order_set, ordered_chunks,
    owner_from, process_rel, record_all, round_ordering, stands_for, is_one_valent, fast_concat,
    lemma_one_valent_committed, lemma_record_all_keeps, lemma_step_support_same_dag, step_support, support_stake,
};
use crate::ordering::stable_sort_by_round;
use crate::dag::{entry_wf, StateView};
use crate::graph::{is_path, node_cert, parent_entry, path_step, reaches};
use crate::ordering::sorted_by_round;
use crate::types::{CertificateView, Digest, PublicKey, Round};
use vstd::prelude::*;

verus! {

/// Every authority's last committed round in `s` is still there, and not lower, in `t`.
pub open spec fn lc_grows(s: StateView, t: StateView) -> bool {
    forall|a: PublicKey| #[trigger] s.last_committed.contains_key(a) ==> t.last_committed.contains_key(a) && t.last_committed[a] >= s.last_committed[a]
}

/// What is committed only grows from `s` to `t`, and so do the highest committed round and the
/// last committed leader round.
pub open spec fn commits_grow(s: StateView, t: StateView) -> bool {
    &&& lc_grows(s, t)
    &&& t.last_committed_certificate_round >= s.last_committed_certificate_round
    &&& t.last_committed_leader_round >= s.last_committed_leader_round
}

proof fn lemma_commits_grow_trans(s: StateView, t: StateView, u: StateView)
    requires
        commits_grow(s, t),
        commits_grow(t, u),
    ensures
        commits_grow(s, u),
{
    assert forall|a: PublicKey| #[trigger] s.last_committed.contains_key(a) implies u.last_committed.contains_key(a) && u.last_committed[a] >= s.last_committed[a] by {
        assert(t.last_committed.contains_key(a));
    }
}

/// Recording commits makes what it records committed and only grows what is committed.
proof fn lemma_record_all_grows(s: StateView, cs: Seq<CertificateView>)
    ensures
        commits_grow(s, record_all(s, cs)),
        record_all(s, cs).last_committed_leader_round == s.last_committed_leader_round,
        forall|i: int| 0 <= i < cs.len() ==> record_all(s, cs).committed(#[trigger] cs[i]),
    decreases cs.len(),
{
    if cs.len() > 0 {
        let init = cs.drop_last();
        lemma_record_all_grows(s, init);
        let t = record_all(s, init);
        let u = record_all(s, cs);
        assert(u == t.record_commit_spec(cs.last()));
        assert(commits_grow(t, u)) by {
            assert forall|a: PublicKey| #[trigger] t.last_committed.contains_key(a) implies u.last_committed.contains_key(a) && u.last_committed[a] >= t.last_committed[a] by {
            }
        }
        lemma_commits_grow_trans(s, t, u);
        assert forall|i: int| 0 <= i < cs.len() implies u.committed(#[trigger] cs[i]) by {
            if i < cs.len() - 1 {
                assert(init[i] == cs[i]);
                assert(t.committed(init[i]));
            }
        }
    }
}

proof fn lemma_committed_stays(s: StateView, t: StateView, x: CertificateView)
    requires
        lc_grows(s, t),
        s.committed(x),
    ensures
        t.committed(x),
{
}

proof fn lemma_uncommitted_before(s: StateView, t: StateView, x: CertificateView)
    requires
        lc_grows(s, t),
        !t.committed(x),
    ensures
        !s.committed(x),
{
}

/// A certificate that ordering a sub-DAG commits is not committed yet.
proof fn lemma_ordered_not_committed(t: StateView, leader: CertificateView, gc: Round, d: Digest)
    requires
        order_set(t, leader, gc).contains(d),
    ensures
        !t.committed(node_cert(t, leader, d)),
{
    if d != leader.digest {
        let path = choose|path: Seq<Digest>| #[trigger] is_path(t, leader, true, path) && path.last() == d;
        assert(path.len() >= 2);
        let k = path.len() - 2;
        assert(path_step(t, leader, true, path, k));
        assert(path[k + 1] == d);
    }
}

proof fn lemma_round_ordering_fresh(t: StateView, leader: CertificateView, gc: Round, out: Seq<CertificateView>)
    requires
        round_ordering(t, leader, order_set(t, leader, gc), out),
    ensures
        forall|i: int| 0 <= i < out.len() ==> !t.committed(#[trigger] out[i]),
{
    assert forall|i: int| 0 <= i < out.len() implies !t.committed(#[trigger] out[i]) by {
        assert(digests(out)[i] == out[i].digest);
        assert(digests(out).to_set().contains(out[i].digest));
        lemma_ordered_not_committed(t, leader, gc, out[i].digest);
    }
}

/// Ordering the sub-DAGs of several leaders commits only what was not committed, and records
/// all of it.
proof fn lemma_chunks_fresh(t: StateView, gc: Round, leaders: Seq<CertificateView>, out: Seq<CertificateView>)
    requires
        ordered_chunks(t, gc, leaders, out),
    ensures
        forall|i: int| 0 <= i < out.len() ==> !t.committed(#[trigger] out[i]),
        forall|i: int| 0 <= i < out.len() ==> record_all(t, out).committed(#[trigger] out[i]),
    decreases leaders.len(),
{
    lemma_record_all_grows(t, out);
    if leaders.len() > 0 {
        let n = choose|n: int|
            #![trigger out.subrange(0, n)]
            0 <= n <= out.len() && ordered_chunks(t, gc, leaders.drop_last(), out.subrange(0, n)) && round_ordering(
                record_all(t, out.subrange(0, n)),
                leaders.last(),
                order_set(record_all(t, out.subrange(0, n)), leaders.last(), gc),
                out.subrange(n, out.len() as int),
            );
        let pre = out.subrange(0, n);
        let post = out.subrange(n, out.len() as int);
        lemma_chunks_fresh(t, gc, leaders.drop_last(), pre);
        let tp = record_all(t, pre);
        lemma_record_all_grows(t, pre);
        lemma_round_ordering_fresh(tp, leaders.last(), gc, post);
        assert forall|i: int| 0 <= i < out.len() implies !t.committed(#[trigger] out[i]) by {
            if i < n {
                assert(pre[i] == out[i]);
            } else {
                assert(post[i - n] == out[i]);
                lemma_uncommitted_before(t, tp, out[i]);
            }
        }
    }
}

proof fn lemma_first_owner_contains(s: StateView, ones: Seq<CertificateView>, gc: Round, d: Digest, i: int, from: int)
    requires
        0 <= from <= i < ones.len(),
        order_set(s, ones[i], gc).contains(d),
    ensures
        from <= owner_from(s, ones, gc, d, from) <= i,
        order_set(s, ones[owner_from(s, ones, gc, d, from)], gc).contains(d),
    decreases i - from,
{
    if !order_set(s, ones[from], gc).contains(d) {
        lemma_first_owner_contains(s, ones, gc, d, i, from + 1);
    }
}

proof fn lemma_fast_commit_fresh(s3: StateView, ones: Seq<CertificateView>, gc: Round, out: Seq<CertificateView>)
    requires
        fast_commit_ordering(s3, ones, gc, out),
    ensures
        forall|i: int| 0 <= i < out.len() ==> !s3.committed(#[trigger] out[i]),
{
    assert forall|k: int| 0 <= k < out.len() implies !s3.committed(#[trigger] out[k]) by {
        let d = out[k].digest;
        assert(digests(out)[k] == d);
        assert(digests(out).to_set().contains(d));
        assert(fast_commit_set(s3, ones, gc).contains(d));
        let i = choose|i: int| 0 <= i < ones.len() && #[trigger] order_set(s3, ones[i], gc).contains(d);
        lemma_first_owner_contains(s3, ones, gc, d, i, 0);
        let o = first_owner(s3, ones, gc, d);
        assert(stands_for(s3, ones[o], out[k]));
        lemma_ordered_not_committed(s3, ones[o], gc, d);
    }
}

/// The fast path commits only what was not committed, records it, and only grows what is
/// committed.
proof fn lemma_fast_path_fresh(committee: Committee, gc: Round, s: StateView, round: Round, s2: StateView, out: Seq<CertificateView>)
    requires
        fast_path_rel(committee, gc, s, round, s2, out),
    ensures
        commits_grow(s, s2),
        forall|i: int| 0 <= i < out.len() ==> !s.committed(#[trigger] out[i]),
        forall|i: int| 0 <= i < out.len() ==> s2.committed(#[trigger] out[i]),
{
    if round == 0 || round <= s.last_committed_certificate_round || s.fast_path_checked_rounds.contains(round)
        || !s.dag.contains_key(round) || (round > 1 && s.dag[round].dom().len() < committee.quorum_threshold) {
    } else {
        let s1 = StateView { fast_path_checked_rounds: s.fast_path_checked_rounds.insert(round), ..s };
        if s1.fast_path_blocked_until_normal_round is Some && s1.last_committed_certificate_round
            < s1.fast_path_blocked_until_normal_round->0 {
        } else {
            let sb = StateView { fast_path_blocked_until_normal_round: None, ..s1 };
            let r = (round - 1) as Round;
            if sb.dag.contains_key(r) {
                let s3 = classify(committee, sb, round);
                if !exists|a: PublicKey| is_bivalent(committee, sb, round, a) {
                    let auths = choose|auths: Seq<PublicKey>| #[trigger] one_valent_authors(committee, sb, round, auths)
                        && fast_commit_ordering(s3, certs_of(sb, r, auths), gc, out)
                        && s2 == record_all(s3, out).cleanup_spec(gc);
                    lemma_fast_commit_fresh(s3, certs_of(sb, r, auths), gc, out);
                    lemma_record_all_grows(s3, out);
                    assert(s3.last_committed == s.last_committed);
                    assert forall|i: int| 0 <= i < out.len() implies !s.committed(#[trigger] out[i]) by {
                        assert(!s3.committed(out[i]));
                    }
                    assert forall|i: int| 0 <= i < out.len() implies s2.committed(#[trigger] out[i]) by {
                        assert(record_all(s3, out).committed(out[i]));
                    }
                    let u = record_all(s3, out);
                    assert(lc_grows(s, u)) by {
                        assert forall|a: PublicKey| #[trigger] s.last_committed.contains_key(a) implies u.last_committed.contains_key(a) && u.last_committed[a] >= s.last_committed[a] by {
                            assert(s3.last_committed.contains_key(a));
                        }
                    }
                }
            }
        }
    }
}

/// The normal path commits only what was not committed, records it, and only grows what is
/// committed.
proof fn lemma_normal_path_fresh(committee: Committee, gc: Round, s: StateView, round: Round, s2: StateView, out: Seq<CertificateView>)
    requires
        normal_path_rel(committee, gc, s, round, s2, out),
    ensures
        commits_grow(s, s2),
        forall|i: int| 0 <= i < out.len() ==> !s.committed(#[trigger] out[i]),
        forall|i: int| 0 <= i < out.len() ==> s2.committed(#[trigger] out[i]),
{
    match normal_leader(committee, s, round) {
        None => {},
        Some((leader_round, leader)) => {
            let leaders = crate::consensus::order_leaders_spec(committee, s, leader).reverse();
            lemma_chunks_fresh(s, gc, leaders, out);
            lemma_record_all_grows(s, out);
            let u = record_all(s, out);
            assert(commits_grow(u, s2));
            lemma_commits_grow_trans(s, u, s2);
        },
    }
}

/// Every step of the consensus only grows what is committed (each authority's last committed
/// round, the highest committed round and the last committed leader round), commits only
/// certificates that were not committed before the step, and leaves each of them committed.
pub proof fn lemma_step_commits_fresh(committee: Committee, gc: Round, s: StateView, c: CertificateView, s2: StateView, out: Seq<CertificateView>)
    requires
        process_rel(committee, gc, s, c, s2, out),
    ensures
        commits_grow(s, s2),
        forall|i: int| 0 <= i < out.len() ==> !s.committed(#[trigger] out[i]),
        forall|i: int| 0 <= i < out.len() ==> s2.committed(#[trigger] out[i]),
{
    let s1 = s.insert_spec(c);
    let (sf, n) = choose|sf: StateView, n: int|
        #![trigger fast_path_rel(committee, gc, s1, c.round(), sf, out.subrange(0, n))]
        0 <= n <= out.len() && fast_path_rel(committee, gc, s1, c.round(), sf, out.subrange(0, n)) && normal_path_rel(
            committee,
            gc,
            sf,
            c.round(),
            s2,
            out.subrange(n, out.len() as int),
        );
    let f = out.subrange(0, n);
    let g = out.subrange(n, out.len() as int);
    lemma_fast_path_fresh(committee, gc, s1, c.round(), sf, f);
    lemma_normal_path_fresh(committee, gc, sf, c.round(), s2, g);
    assert(commits_grow(s, s1));
    lemma_commits_grow_trans(s, s1, sf);
    lemma_commits_grow_trans(s, sf, s2);
    assert forall|i: int| 0 <= i < out.len() implies !s.committed(#[trigger] out[i]) && s2.committed(out[i]) by {
        if i < n {
            assert(f[i] == out[i]);
            assert(!s1.committed(f[i]));
            assert(sf.committed(f[i]));
            lemma_committed_stays(sf, s2, out[i]);
        } else {
            assert(g[i - n] == out[i]);
            assert(!sf.committed(g[i - n]));
            lemma_uncommitted_before(s1, sf, out[i]);
        }
    }
}

/// No certificate is committed twice: once an authority's certificate is committed, every
/// later commit of that authority, in any later step, is of a strictly later round.
pub proof fn lemma_never_recommitted(
    committee: Committee,
    gc: Round,
    s1: StateView,
    c1: CertificateView,
    s2: StateView,
    out1: Seq<CertificateView>,
    c2: CertificateView,
    s3: StateView,
    out2: Seq<CertificateView>,
    i: int,
    j: int,
)
    requires
        process_rel(committee, gc, s1, c1, s2, out1),
        process_rel(committee, gc, s2, c2, s3, out2),
        0 <= i < out1.len(),
        0 <= j < out2.len(),
        out1[i].origin() == out2[j].origin(),
    ensures
        out2[j].round() > out1[i].round(),
{
    lemma_step_commits_fresh(committee, gc, s1, c1, s2, out1);
    lemma_step_commits_fresh(committee, gc, s2, c2, s3, out2);
    assert(s2.committed(out1[i]));
    assert(!s2.committed(out2[j]));
}

/// While the fast path waits for the normal path to reach a round, a step of the fast path
/// commits nothing.
pub proof fn lemma_blocked_fast_path_commits_nothing(
    committee: Committee,
    gc: Round,
    s: StateView,
    round: Round,
    s2: StateView,
    out: Seq<CertificateView>,
)
    requires
        fast_path_rel(committee, gc, s, round, s2, out),
        s.fast_path_blocked_until_normal_round matches Some(t) && s.last_committed_certificate_round < t,
    ensures
        out.len() == 0,
{
}

/// The normal path commits a wave leader exactly when its support reaches the validity
/// threshold: on a round that opens a wave after the first, with the leader of one wave back
/// above the last committed leader and the support round (one step back) in the DAG, the
/// leader round becomes the last committed leader round when the authorities of the support
/// round that list the leader among their solid-wave vertices hold at least the validity
/// threshold; with less support, or no leader certificate, nothing changes and nothing is
/// committed.
pub proof fn lemma_normal_path_commits_at_validity(
    committee: Committee,
    gc: Round,
    s: StateView,
    round: Round,
    s2: StateView,
    out: Seq<CertificateView>,
)
    requires
        normal_path_rel(committee, gc, s, round, s2, out),
    ensures
        ({
            let leader_round = round - committee.solid_wave_length;
            let support_round = (round - committee.solid_step_length) as Round;
            round >= committee.solid_wave_length + 1 && round >= committee.solid_step_length && (round - 1) % (
            committee.solid_wave_length as int) == 0 && leader_round > s.last_committed_leader_round
                && s.dag.contains_key(support_round) ==> match leader_spec(committee, s, leader_round as Round) {
                Some(e) => if support_stake(committee, s, support_round, e.certificate) >= committee.validity_threshold {
                    s2.last_committed_leader_round == leader_round
                } else {
                    s2 == s && out.len() == 0
                },
                None => s2 == s && out.len() == 0,
            }
        }),
{
    lemma_record_all_keeps(s, out);
}

/// The fast path never commits past a certificate it cannot decide: when it examines a round
/// (not yet examined, above the highest committed round, in the DAG with enough certificates,
/// not blocked, with the round below in the DAG) and some certificate of the round below has
/// step support of at least the validity threshold but below the fast-path threshold, it
/// commits nothing and blocks itself; when no certificate of the round below is in that band,
/// it leaves no block behind and commits every certificate of the round below that reached the
/// fast-path threshold and was not committed yet.
pub proof fn lemma_fast_path_blocks_on_undecided(
    committee: Committee,
    gc: Round,
    s: StateView,
    round: Round,
    s2: StateView,
    out: Seq<CertificateView>,
)
    requires
        s.wf(),
        fast_path_rel(committee, gc, s, round, s2, out),
    ensures
        ({
            let r = (round - 1) as Round;
            round != 0 && round > s.last_committed_certificate_round && !s.fast_path_checked_rounds.contains(round)
                && s.dag.contains_key(round) && (round <= 1 || s.dag[round].dom().len() >= committee.quorum_threshold)
                && (s.fast_path_blocked_until_normal_round matches Some(t) ==> s.last_committed_certificate_round >= t)
                && s.dag.contains_key(r) ==> {
                &&& (exists|a: PublicKey| s.has_pos(r, a)
                    && committee.validity_threshold <= #[trigger] step_support(committee, s, round, s.entry(r, a).certificate)
                    && step_support(committee, s, round, s.entry(r, a).certificate) < committee.fast_path_threshold)
                    ==> out.len() == 0 && s2.fast_path_blocked_until_normal_round is Some
                &&& !(exists|a: PublicKey| s.has_pos(r, a)
                    && committee.validity_threshold <= #[trigger] step_support(committee, s, round, s.entry(r, a).certificate)
                    && step_support(committee, s, round, s.entry(r, a).certificate) < committee.fast_path_threshold)
                    ==> s2.fast_path_blocked_until_normal_round is None
                &&& !(exists|a: PublicKey| s.has_pos(r, a)
                    && committee.validity_threshold <= #[trigger] step_support(committee, s, round, s.entry(r, a).certificate)
                    && step_support(committee, s, round, s.entry(r, a).certificate) < committee.fast_path_threshold)
                    ==> forall|a: PublicKey| s.has_pos(r, a)
                    && #[trigger] step_support(committee, s, round, s.entry(r, a).certificate) >= committee.fast_path_threshold
                    && !s.committed(s.entry(r, a).certificate)
                    ==> digests(out).contains(s.entry(r, a).certificate.digest)
            }
        }),
{
    let r = (round - 1) as Round;
    if round != 0 && round > s.last_committed_certificate_round && !s.fast_path_checked_rounds.contains(round)
        && s.dag.contains_key(round) && (round <= 1 || s.dag[round].dom().len() >= committee.quorum_threshold)
        && (s.fast_path_blocked_until_normal_round matches Some(t) ==> s.last_committed_certificate_round >= t)
        && s.dag.contains_key(r) {
        let s1 = StateView { fast_path_checked_rounds: s.fast_path_checked_rounds.insert(round), ..s };
        let sb = StateView { fast_path_blocked_until_normal_round: None, ..s1 };
        assert forall|a: PublicKey| #[trigger] is_bivalent(committee, sb, round, a) <==> (s.has_pos(r, a)
            && committee.validity_threshold <= step_support(committee, s, round, s.entry(r, a).certificate)
            && step_support(committee, s, round, s.entry(r, a).certificate) < committee.fast_path_threshold) by {
            lemma_step_support_same_dag(committee, s, sb, round, s.entry(r, a).certificate);
        }
        if (exists|a: PublicKey| s.has_pos(r, a)
            && committee.validity_threshold <= #[trigger] step_support(committee, s, round, s.entry(r, a).certificate)
            && step_support(committee, s, round, s.entry(r, a).certificate) < committee.fast_path_threshold) {
            let a = choose|a: PublicKey| s.has_pos(r, a)
                && committee.validity_threshold <= #[trigger] step_support(committee, s, round, s.entry(r, a).certificate)
                && step_support(committee, s, round, s.entry(r, a).certificate) < committee.fast_path_threshold;
            assert(is_bivalent(committee, sb, round, a));
        } else {
            assert(!exists|a: PublicKey| is_bivalent(committee, sb, round, a));
            let s3 = classify(committee, sb, round);
            let auths = choose|auths: Seq<PublicKey>| #[trigger] one_valent_authors(committee, sb, round, auths)
                && fast_commit_ordering(s3, certs_of(sb, r, auths), gc, out)
                && out == stable_sort_by_round(fast_concat(s3, certs_of(sb, r, auths), gc))
                && s2 == record_all(s3, out).cleanup_spec(gc);
            lemma_record_all_keeps(s3, out);
            assert forall|a: PublicKey| s.has_pos(r, a)
                && #[trigger] step_support(committee, s, round, s.entry(r, a).certificate) >= committee.fast_path_threshold
                && !s.committed(s.entry(r, a).certificate)
                implies digests(out).contains(s.entry(r, a).certificate.digest) by {
                lemma_one_valent_committed(committee, gc, s, sb, round, auths, out, a);
            }
        }
    }
}

/// A round that the fast path cannot decide blocks it until the nearest round above it that
/// is a multiple of the wave length.
pub proof fn lemma_unblock_round_is_next_wave(committee: Committee, r: Round)
    requires
        committee.solid_wave_length >= 1,
    ensures
        unblock_round(committee, r) > r,
        unblock_round(committee, r) % (committee.solid_wave_length as int) == 0,
        unblock_round(committee, r) - committee.solid_wave_length <= r,
{
    let w = committee.solid_wave_length as int;
    let q = r as int / w;
    vstd::arithmetic::div_mod::lemma_fundamental_div_mod(r as int, w);
    assert(unblock_round(committee, r) == q * w + w) by (nonlinear_arith)
        requires
            unblock_round(committee, r) == (q + 1) * w,
    ;
    vstd::arithmetic::div_mod::lemma_mod_multiples_basic(q + 1, w);
    assert((q + 1) * w == w * (q + 1)) by (nonlinear_arith);
}

/// Recording commits leaves the rounds the fast path examined as they are.
proof fn lemma_record_all_keeps_checked(s: StateView, cs: Seq<CertificateView>)
    ensures
        record_all(s, cs).fast_path_checked_rounds == s.fast_path_checked_rounds,
    decreases cs.len(),
{
    if cs.len() > 0 {
        lemma_record_all_keeps_checked(s, cs.drop_last());
    }
}

/// The fast path examines a round once: right after a fast-path step on `round`, a second
/// step on the same round changes nothing and commits nothing.
pub proof fn lemma_fast_path_runs_once(
    committee: Committee,
    gc: Round,
    s: StateView,
    round: Round,
    s2: StateView,
    out: Seq<CertificateView>,
    s3: StateView,
    out2: Seq<CertificateView>,
)
    requires
        fast_path_rel(committee, gc, s, round, s2, out),
        fast_path_rel(committee, gc, s2, round, s3, out2),
    ensures
        s3 == s2,
        out2.len() == 0,
{
    if !(round == 0 || round <= s.last_committed_certificate_round || s.fast_path_checked_rounds.contains(round)
        || !s.dag.contains_key(round) || (round > 1 && s.dag[round].dom().len() < committee.quorum_threshold)) {
        let s1 = StateView { fast_path_checked_rounds: s.fast_path_checked_rounds.insert(round), ..s };
        if !(s1.fast_path_blocked_until_normal_round is Some && s1.last_committed_certificate_round
            < s1.fast_path_blocked_until_normal_round->0) {
            let sb = StateView { fast_path_blocked_until_normal_round: None, ..s1 };
            let r = (round - 1) as Round;
            if sb.dag.contains_key(r) {
                let s4 = classify(committee, sb, round);
                if !(exists|a: PublicKey| is_bivalent(committee, sb, round, a)) {
                    lemma_record_all_keeps_checked(s4, out);
                    assert(s2.fast_path_checked_rounds.contains(round));
                }
            }
        }
    }
}

/// `states[k]` steps to `states[k + 1]` on the certificate `inputs[k]`, committing `outs[k]`.
pub open spec fn is_run(
    committee: Committee,
    gc: Round,
    states: Seq<StateView>,
    inputs: Seq<CertificateView>,
    outs: Seq<Seq<CertificateView>>,
) -> bool {
    &&& states.len() == inputs.len() + 1
    &&& outs.len() == inputs.len()
    &&& forall|k: int| 0 <= k < inputs.len() ==> process_rel(committee, gc, states[k], #[trigger] inputs[k], states[k + 1], outs[k])
}

/// Along a run, what is committed only grows.
proof fn lemma_run_commits_grow(
    committee: Committee,
    gc: Round,
    states: Seq<StateView>,
    inputs: Seq<CertificateView>,
    outs: Seq<Seq<CertificateView>>,
    k: int,
    l: int,
)
    requires
        is_run(committee, gc, states, inputs, outs),
        0 <= k <= l < states.len(),
    ensures
        commits_grow(states[k], states[l]),
    decreases l - k,
{
    if k < l {
        lemma_run_commits_grow(committee, gc, states, inputs, outs, k, l - 1);
        let c = inputs[l - 1];
        lemma_step_commits_fresh(committee, gc, states[l - 1], c, states[l], outs[l - 1]);
        lemma_commits_grow_trans(states[k], states[l - 1], states[l]);
    }
}

/// Over a whole run, no certificate is committed twice: whenever two steps commit
/// certificates of the same authority, the later step's is of a strictly later round; and
/// every committed certificate of an authority is above the round that authority had
/// committed when the run started.
pub proof fn lemma_run_commits_once(
    committee: Committee,
    gc: Round,
    states: Seq<StateView>,
    inputs: Seq<CertificateView>,
    outs: Seq<Seq<CertificateView>>,
    k: int,
    i: int,
    l: int,
    j: int,
)
    requires
        is_run(committee, gc, states, inputs, outs),
        0 <= k < inputs.len(),
        0 <= l < inputs.len(),
        0 <= i < outs[k].len(),
        0 <= j < outs[l].len(),
    ensures
        k < l && outs[k][i].origin() == outs[l][j].origin() ==> outs[l][j].round() > outs[k][i].round(),
        states[0].last_committed.contains_key(outs[l][j].origin())
            ==> outs[l][j].round() > states[0].last_committed[outs[l][j].origin()],
{
    let x = outs[k][i];
    let y = outs[l][j];
    lemma_step_commits_fresh(committee, gc, states[l], inputs[l], states[l + 1], outs[l]);
    assert(!states[l].committed(y));
    lemma_run_commits_grow(committee, gc, states, inputs, outs, 0, l);
    if k < l {
        lemma_step_commits_fresh(committee, gc, states[k], inputs[k], states[k + 1], outs[k]);
        assert(states[k + 1].committed(x));
        lemma_run_commits_grow(committee, gc, states, inputs, outs, k + 1, l);
    }
}

/// A run from the initial state never commits a certificate of round 0 for an authority whose
/// genesis certificate the initial state holds.
pub proof fn lemma_run_never_commits_genesis(
    committee: Committee,
    gc: Round,
    genesis: Seq<CertificateView>,
    states: Seq<StateView>,
    inputs: Seq<CertificateView>,
    outs: Seq<Seq<CertificateView>>,
    l: int,
    j: int,
)
    requires
        is_run(committee, gc, states, inputs, outs),
        states[0] == StateView::new_spec(genesis),
        states[0].wf(),
        0 <= l < inputs.len(),
        0 <= j < outs[l].len(),
        states[0].has_pos(0, outs[l][j].origin()),
    ensures
        outs[l][j].round() > 0,
{
    let a = outs[l][j].origin();
    let s = StateView::empty().insert_all(genesis);
    assert(states[0].dag == s.dag);
    assert(states[0].last_committed.contains_key(a));
    assert(states[0].last_committed[a] == states[0].entry(0, a).certificate.round());
    lemma_run_commits_once(committee, gc, states, inputs, outs, l, j, l, j);
}

/// Every leader of a chain walked down to `start` is of a round from `start` to `r`.
proof fn lemma_leader_chain_rounds(committee: Committee, s: StateView, cur: CertificateView, r: int, start: int, wave: int)
    requires
        s.wf(),
        r <= u64::MAX,
    ensures
        forall|i: int| 0 <= i < leader_chain(committee, s, cur, r, start, wave).len() ==> {
            &&& start <= #[trigger] leader_chain(committee, s, cur, r, start, wave)[i].round()
            &&& leader_chain(committee, s, cur, r, start, wave)[i].round() <= r
        },
    decreases r - start + wave,
{
    if !(r < start || wave <= 0 || r < 0) {
        match leader_spec(committee, s, r as Round) {
            Some(e) => {
                assert(s.has_pos(r as Round, leader_name(committee, r as Round)));
                assert(e.certificate.round() == r);
                if reaches(s, cur, false, e.certificate.digest) {
                    lemma_leader_chain_rounds(committee, s, e.certificate, r - wave, start, wave);
                    let rest = leader_chain(committee, s, e.certificate, r - wave, start, wave);
                    let all = leader_chain(committee, s, cur, r, start, wave);
                    assert(all == seq![e.certificate] + rest);
                    assert forall|i: int| 0 <= i < all.len() implies start <= #[trigger] all[i].round() && all[i].round() <= r by {
                        if i > 0 {
                            assert(all[i] == rest[i - 1]);
                        }
                    }
                } else {
                    lemma_leader_chain_rounds(committee, s, cur, r - wave, start, wave);
                    assert(leader_chain(committee, s, cur, r, start, wave) == leader_chain(committee, s, cur, r - wave, start, wave));
                }
            },
            None => {
                lemma_leader_chain_rounds(committee, s, cur, r - wave, start, wave);
                assert(leader_chain(committee, s, cur, r, start, wave) == leader_chain(committee, s, cur, r - wave, start, wave));
            },
        }
    }
}

/// When the normal path commits, its tip leader is above the last committed leader round,
/// which becomes the tip's round, and every leader it commits along is above the old last
/// committed leader round too: no leader round is committed twice, and the tip leader rounds
/// of successive normal-path commits strictly increase.
pub proof fn lemma_normal_leaders_above_last(
    committee: Committee,
    gc: Round,
    s: StateView,
    round: Round,
    s2: StateView,
    out: Seq<CertificateView>,
)
    requires
        s.wf(),
        committee_ok(committee),
        normal_path_rel(committee, gc, s, round, s2, out),
        normal_leader(committee, s, round) is Some,
    ensures
        ({
            let (lr, leader) = normal_leader(committee, s, round)->0;
            let leaders = order_leaders_spec(committee, s, leader);
            &&& lr > s.last_committed_leader_round
            &&& leader.round() == lr
            &&& s2.last_committed_leader_round == lr
            &&& forall|i: int| 0 <= i < leaders.len() ==> #[trigger] leaders[i].round() > s.last_committed_leader_round
        }),
{
    let (lr, leader) = normal_leader(committee, s, round)->0;
    let wave = committee.solid_wave_length;
    let start = if s.last_committed_leader_round + wave > u64::MAX {
        u64::MAX as int
    } else {
        s.last_committed_leader_round + wave
    };
    assert(leader.round() == lr);
    lemma_leader_chain_rounds(committee, s, leader, leader.round() - 1, start, wave as int);
    let chain = leader_chain(committee, s, leader, leader.round() - 1, start, wave as int);
    let leaders = order_leaders_spec(committee, s, leader);
    assert(leaders == seq![leader] + chain);
    assert forall|i: int| 0 <= i < leaders.len() implies #[trigger] leaders[i].round() > s.last_committed_leader_round by {
        if i > 0 {
            assert(leaders[i] == chain[i - 1]);
        }
    }
    lemma_record_all_grows(s, out);
}

/// Every stored entry sits at its own round and author, under its certificate's digest.
pub open spec fn entries_wf(s: StateView) -> bool {
    forall|r: Round, a: PublicKey| #[trigger] s.has_pos(r, a) ==> entry_wf(r, a, s.entry(r, a))
}

/// `c` is the certificate stored at its own round and author.
pub open spec fn positioned(s: StateView, c: CertificateView) -> bool {
    &&& s.has_pos(c.round(), c.origin())
    &&& s.entry(c.round(), c.origin()).certificate == c
}

/// Along `out`, the certificates of each authority come in strictly increasing rounds.
pub open spec fn author_ordered(out: Seq<CertificateView>) -> bool {
    forall|i: int, j: int| 0 <= i < j < out.len() && #[trigger] out[i].origin() == #[trigger] out[j].origin()
        ==> out[i].round() < out[j].round()
}

proof fn lemma_record_all_keeps_dag(s: StateView, cs: Seq<CertificateView>)
    ensures
        record_all(s, cs).dag == s.dag,
        record_all(s, cs).certificate_index == s.certificate_index,
    decreases cs.len(),
{
    if cs.len() > 0 {
        lemma_record_all_keeps_dag(s, cs.drop_last());
    }
}

proof fn lemma_entries_wf_same_dag(s: StateView, t: StateView)
    requires
        entries_wf(s),
        t.dag == s.dag,
    ensures
        entries_wf(t),
{
    assert forall|r: Round, a: PublicKey| #[trigger] t.has_pos(r, a) implies entry_wf(r, a, t.entry(r, a)) by {
        assert(s.has_pos(r, a));
    }
}

proof fn lemma_positioned_same_dag(s: StateView, t: StateView, c: CertificateView)
    requires
        positioned(s, c),
        t.dag == s.dag,
    ensures
        positioned(t, c),
{
}

/// A certificate that ordering the sub-DAG of a stored leader commits is stored at its own
/// position.
proof fn lemma_reached_positioned(t: StateView, leader: CertificateView, gc: Round, d: Digest)
    requires
        entries_wf(t),
        positioned(t, leader),
        order_set(t, leader, gc).contains(d),
    ensures
        positioned(t, node_cert(t, leader, d)),
{
    if d != leader.digest {
        let path = choose|path: Seq<Digest>| #[trigger] is_path(t, leader, true, path) && path.last() == d;
        assert(path.len() >= 2);
        let k = path.len() - 2;
        assert(path_step(t, leader, true, path, k));
        assert(path[k + 1] == d);
        let e = parent_entry(t, node_cert(t, leader, path[k]).round(), d)->0;
        let p = t.certificate_index[d];
        assert(t.has_pos(p.0, p.1));
        assert(entry_wf(p.0, p.1, t.entry(p.0, p.1)));
    }
}

/// A sequence sorted by round, without repeated digests, of certificates stored at their own
/// positions has each authority's certificates in strictly increasing rounds.
proof fn lemma_sorted_positioned_ordered(t: StateView, out: Seq<CertificateView>)
    requires
        sorted_by_round(out),
        digests(out).no_duplicates(),
        forall|k: int| 0 <= k < out.len() ==> positioned(t, #[trigger] out[k]),
    ensures
        author_ordered(out),
{
    assert forall|i: int, j: int| 0 <= i < j < out.len() && #[trigger] out[i].origin() == #[trigger] out[j].origin()
        implies out[i].round() < out[j].round() by {
        assert(positioned(t, out[i]) && positioned(t, out[j]));
        if out[i].round() == out[j].round() {
            assert(out[i] == out[j]);
            assert(digests(out)[i] == digests(out)[j]);
        }
    }
}

proof fn lemma_chunk_ordered(t: StateView, leader: CertificateView, gc: Round, out: Seq<CertificateView>)
    requires
        entries_wf(t),
        positioned(t, leader),
        round_ordering(t, leader, order_set(t, leader, gc), out),
    ensures
        author_ordered(out),
{
    assert forall|k: int| 0 <= k < out.len() implies positioned(t, #[trigger] out[k]) by {
        assert(digests(out)[k] == out[k].digest);
        assert(digests(out).to_set().contains(out[k].digest));
        lemma_reached_positioned(t, leader, gc, out[k].digest);
    }
    lemma_sorted_positioned_ordered(t, out);
}

/// Joining two author-ordered sequences keeps the order when every certificate of the second
/// is of a later round than any certificate of the same authority in the first.
proof fn lemma_join_ordered(a: Seq<CertificateView>, b: Seq<CertificateView>, out: Seq<CertificateView>)
    requires
        author_ordered(a),
        author_ordered(b),
        out == a + b,
        forall|i: int, j: int| 0 <= i < a.len() && 0 <= j < b.len() && #[trigger] a[i].origin() == #[trigger] b[j].origin()
            ==> a[i].round() < b[j].round(),
    ensures
        author_ordered(out),
{
    assert forall|i: int, j: int| 0 <= i < j < out.len() && #[trigger] out[i].origin() == #[trigger] out[j].origin()
        implies out[i].round() < out[j].round() by {
        if j < a.len() {
            assert(out[i] == a[i] && out[j] == a[j]);
        } else if i >= a.len() {
            assert(out[i] == b[i - a.len()] && out[j] == b[j - a.len()]);
        } else {
            assert(out[i] == a[i] && out[j] == b[j - a.len()]);
        }
    }
}

proof fn lemma_chunks_ordered(t: StateView, gc: Round, leaders: Seq<CertificateView>, out: Seq<CertificateView>)
    requires
        entries_wf(t),
        forall|k: int| 0 <= k < leaders.len() ==> positioned(t, #[trigger] leaders[k]),
        ordered_chunks(t, gc, leaders, out),
    ensures
        author_ordered(out),
    decreases leaders.len(),
{
    if leaders.len() > 0 {
        let n = choose|n: int|
            #![trigger out.subrange(0, n)]
            0 <= n <= out.len() && ordered_chunks(t, gc, leaders.drop_last(), out.subrange(0, n)) && round_ordering(
                record_all(t, out.subrange(0, n)),
                leaders.last(),
                order_set(record_all(t, out.subrange(0, n)), leaders.last(), gc),
                out.subrange(n, out.len() as int),
            );
        let pre = out.subrange(0, n);
        let post = out.subrange(n, out.len() as int);
        let init = leaders.drop_last();
        assert forall|k: int| 0 <= k < init.len() implies positioned(t, #[trigger] init[k]) by {
            assert(init[k] == leaders[k]);
        }
        lemma_chunks_ordered(t, gc, init, pre);
        let tp = record_all(t, pre);
        lemma_record_all_keeps_dag(t, pre);
        assert(positioned(t, leaders[leaders.len() - 1]));
        lemma_positioned_same_dag(t, tp, leaders.last());
        lemma_entries_wf_same_dag(t, tp);
        lemma_chunk_ordered(tp, leaders.last(), gc, post);
        lemma_chunks_fresh(t, gc, init, pre);
        lemma_round_ordering_fresh(tp, leaders.last(), gc, post);
        assert forall|i: int, j: int| 0 <= i < pre.len() && 0 <= j < post.len() && #[trigger] pre[i].origin() == #[trigger] post[j].origin()
            implies pre[i].round() < post[j].round() by {
            assert(tp.committed(pre[i]));
            assert(!tp.committed(post[j]));
        }
        assert(out == pre + post);
        lemma_join_ordered(pre, post, out);
    }
}

/// Every leader that the normal path chains from a stored leader is stored at its position.
proof fn lemma_leader_chain_positioned(committee: Committee, s: StateView, cur: CertificateView, r: int, start: int, wave: int)
    requires
        entries_wf(s),
        r <= u64::MAX,
    ensures
        forall|i: int| 0 <= i < leader_chain(committee, s, cur, r, start, wave).len() ==> positioned(
            s,
            #[trigger] leader_chain(committee, s, cur, r, start, wave)[i],
        ),
    decreases r - start + wave,
{
    if !(r < start || wave <= 0 || r < 0) {
        match leader_spec(committee, s, r as Round) {
            Some(e) => {
                assert(s.has_pos(r as Round, leader_name(committee, r as Round)));
                if reaches(s, cur, false, e.certificate.digest) {
                    lemma_leader_chain_positioned(committee, s, e.certificate, r - wave, start, wave);
                    let rest = leader_chain(committee, s, e.certificate, r - wave, start, wave);
                    let all = leader_chain(committee, s, cur, r, start, wave);
                    assert(all == seq![e.certificate] + rest);
                    assert forall|i: int| 0 <= i < all.len() implies positioned(s, #[trigger] all[i]) by {
                        if i > 0 {
                            assert(all[i] == rest[i - 1]);
                        }
                    }
                } else {
                    lemma_leader_chain_positioned(committee, s, cur, r - wave, start, wave);
                    assert(leader_chain(committee, s, cur, r, start, wave) == leader_chain(committee, s, cur, r - wave, start, wave));
                }
            },
            None => {
                lemma_leader_chain_positioned(committee, s, cur, r - wave, start, wave);
                assert(leader_chain(committee, s, cur, r, start, wave) == leader_chain(committee, s, cur, r - wave, start, wave));
            },
        }
    }
}

proof fn lemma_normal_path_ordered(committee: Committee, gc: Round, s: StateView, round: Round, s2: StateView, out: Seq<CertificateView>)
    requires
        entries_wf(s),
        normal_path_rel(committee, gc, s, round, s2, out),
    ensures
        author_ordered(out),
        entries_wf(s2),
{
    match normal_leader(committee, s, round) {
        None => {},
        Some((lr, leader)) => {
            let wave = committee.solid_wave_length;
            let start = if s.last_committed_leader_round + wave > u64::MAX {
                u64::MAX as int
            } else {
                s.last_committed_leader_round + wave
            };
            assert(s.has_pos(lr, leader_name(committee, lr)));
            assert(positioned(s, leader));
            let leaders = order_leaders_spec(committee, s, leader);
            let rev = leaders.reverse();
            if wave != 0 {
                lemma_leader_chain_positioned(committee, s, leader, leader.round() - 1, start, wave as int);
                let chain = leader_chain(committee, s, leader, leader.round() - 1, start, wave as int);
                assert(leaders == seq![leader] + chain);
                assert forall|k: int| 0 <= k < leaders.len() implies positioned(s, #[trigger] leaders[k]) by {
                    if k > 0 {
                        assert(leaders[k] == chain[k - 1]);
                    }
                }
            }
            assert forall|k: int| 0 <= k < rev.len() implies positioned(s, #[trigger] rev[k]) by {
                assert(rev[k] == leaders[leaders.len() - 1 - k]);
            }
            lemma_chunks_ordered(s, gc, rev, out);
            let u = record_all(s, out);
            lemma_record_all_keeps_dag(s, out);
            let v = u.update_leader_spec(lr);
            lemma_entries_wf_same_dag(s, v);
            lemma_cleanup_entries_wf(v, gc);
            lemma_entries_wf_same_dag(v.cleanup_spec(gc), v.cleanup_spec(gc).unblock_spec());
        },
    }
}

proof fn lemma_fast_commit_ordered(s3: StateView, ones: Seq<CertificateView>, gc: Round, out: Seq<CertificateView>)
    requires
        entries_wf(s3),
        forall|k: int| 0 <= k < ones.len() ==> positioned(s3, #[trigger] ones[k]),
        fast_commit_ordering(s3, ones, gc, out),
    ensures
        author_ordered(out),
{
    assert forall|k: int| 0 <= k < out.len() implies positioned(s3, #[trigger] out[k]) by {
        let d = out[k].digest;
        assert(digests(out)[k] == d);
        assert(digests(out).to_set().contains(d));
        assert(fast_commit_set(s3, ones, gc).contains(d));
        let i = choose|i: int| 0 <= i < ones.len() && #[trigger] order_set(s3, ones[i], gc).contains(d);
        lemma_first_owner_contains(s3, ones, gc, d, i, 0);
        let o = first_owner(s3, ones, gc, d);
        assert(stands_for(s3, ones[o], out[k]));
        lemma_reached_positioned(s3, ones[o], gc, d);
    }
    lemma_sorted_positioned_ordered(s3, out);
}

proof fn lemma_cleanup_entries_wf(s: StateView, gc: Round)
    requires
        entries_wf(s),
    ensures
        entries_wf(s.cleanup_spec(gc)),
{
    let t = s.cleanup_spec(gc);
    assert forall|r: Round, a: PublicKey| #[trigger] t.has_pos(r, a) implies entry_wf(r, a, t.entry(r, a)) by {
        crate::dag::lemma_cleanup_keeps_recent(s, gc, r, a);
        assert(s.has_pos(r, a));
        assert(t.entry(r, a) == s.entry(r, a));
    }
}

proof fn lemma_fast_path_ordered(committee: Committee, gc: Round, s: StateView, round: Round, s2: StateView, out: Seq<CertificateView>)
    requires
        entries_wf(s),
        fast_path_rel(committee, gc, s, round, s2, out),
    ensures
        author_ordered(out),
        entries_wf(s2),
{
    if round == 0 || round <= s.last_committed_certificate_round || s.fast_path_checked_rounds.contains(round)
        || !s.dag.contains_key(round) || (round > 1 && s.dag[round].dom().len() < committee.quorum_threshold) {
    } else {
        let s1 = StateView { fast_path_checked_rounds: s.fast_path_checked_rounds.insert(round), ..s };
        if s1.fast_path_blocked_until_normal_round is Some && s1.last_committed_certificate_round
            < s1.fast_path_blocked_until_normal_round->0 {
            lemma_entries_wf_same_dag(s, s1);
        } else {
            let sb = StateView { fast_path_blocked_until_normal_round: None, ..s1 };
            lemma_entries_wf_same_dag(s, sb);
            let r = (round - 1) as Round;
            if sb.dag.contains_key(r) {
                let s3 = classify(committee, sb, round);
                assert(entries_wf(s3)) by {
                    assert forall|rr: Round, a: PublicKey| #[trigger] s3.has_pos(rr, a) implies entry_wf(rr, a, s3.entry(rr, a)) by {
                        assert(sb.has_pos(rr, a));
                    }
                }
                if !exists|a: PublicKey| is_bivalent(committee, sb, round, a) {
                    let auths = choose|auths: Seq<PublicKey>| #[trigger] one_valent_authors(committee, sb, round, auths)
                        && fast_commit_ordering(s3, certs_of(sb, r, auths), gc, out)
                        && out == stable_sort_by_round(fast_concat(s3, certs_of(sb, r, auths), gc))
                        && s2 == record_all(s3, out).cleanup_spec(gc);
                    let ones = certs_of(sb, r, auths);
                    assert forall|k: int| 0 <= k < ones.len() implies positioned(s3, #[trigger] ones[k]) by {
                        let a = auths[k];
                        assert(auths.to_set().contains(a));
                        assert(is_one_valent(committee, sb, round, a));
                        assert(sb.has_pos(r, a));
                        assert(s3.has_pos(r, a));
                    }
                    lemma_fast_commit_ordered(s3, ones, gc, out);
                    lemma_record_all_keeps_dag(s3, out);
                    lemma_entries_wf_same_dag(s3, record_all(s3, out));
                    lemma_cleanup_entries_wf(record_all(s3, out), gc);
                } else {
                    lemma_entries_wf_same_dag(s3, s2);
                }
            } else {
                lemma_entries_wf_same_dag(sb, s2);
            }
        }
    }
}

/// Within one step of the consensus, the certificates of each authority that the step commits
/// come in strictly increasing rounds: no certificate is committed twice in a step, and none
/// after a later one of its author.
pub proof fn lemma_step_author_order(committee: Committee, gc: Round, s: StateView, c: CertificateView, s2: StateView, out: Seq<CertificateView>)
    requires
        entries_wf(s),
        process_rel(committee, gc, s, c, s2, out),
    ensures
        author_ordered(out),
        entries_wf(s2),
{
    let s1 = s.insert_spec(c);
    assert(entries_wf(s1)) by {
        assert forall|r: Round, a: PublicKey| #[trigger] s1.has_pos(r, a) implies entry_wf(r, a, s1.entry(r, a)) by {
            if r != c.round() || a != c.origin() {
                assert(s.has_pos(r, a));
            }
        }
    }
    let (sf, n) = choose|sf: StateView, n: int|
        #![trigger fast_path_rel(committee, gc, s1, c.round(), sf, out.subrange(0, n))]
        0 <= n <= out.len() && fast_path_rel(committee, gc, s1, c.round(), sf, out.subrange(0, n)) && normal_path_rel(
            committee,
            gc,
            sf,
            c.round(),
            s2,
            out.subrange(n, out.len() as int),
        );
    let f = out.subrange(0, n);
    let g = out.subrange(n, out.len() as int);
    lemma_fast_path_ordered(committee, gc, s1, c.round(), sf, f);
    lemma_normal_path_ordered(committee, gc, sf, c.round(), s2, g);
    lemma_fast_path_fresh(committee, gc, s1, c.round(), sf, f);
    lemma_normal_path_fresh(committee, gc, sf, c.round(), s2, g);
    assert forall|i: int, j: int| 0 <= i < f.len() && 0 <= j < g.len() && #[trigger] f[i].origin() == #[trigger] g[j].origin()
        implies f[i].round() < g[j].round() by {
        assert(sf.committed(f[i]));
        assert(!sf.committed(g[j]));
    }
    assert(out == f + g);
    lemma_join_ordered(f, g, out);
}

/// Along a run, every state keeps each stored entry at its own position.
proof fn lemma_run_entries_wf(
    committee: Committee,
    gc: Round,
    states: Seq<StateView>,
    inputs: Seq<CertificateView>,
    outs: Seq<Seq<CertificateView>>,
    k: int,
)
    requires
        is_run(committee, gc, states, inputs, outs),
        entries_wf(states[0]),
        0 <= k < states.len(),
    ensures
        entries_wf(states[k]),
    decreases k,
{
    if k > 0 {
        lemma_run_entries_wf(committee, gc, states, inputs, outs, k - 1);
        let c = inputs[k - 1];
        lemma_step_author_order(committee, gc, states[k - 1], c, states[k], outs[k - 1]);
    }
}

/// Over a whole run from a well-formed state, each authority's committed certificates come in
/// strictly increasing rounds, in the order they are output: within a step and across steps.
/// So no certificate is output twice.
pub proof fn lemma_run_author_order(
    committee: Committee,
    gc: Round,
    states: Seq<StateView>,
    inputs: Seq<CertificateView>,
    outs: Seq<Seq<CertificateView>>,
    k: int,
    i: int,
    l: int,
    j: int,
)
    requires
        is_run(committee, gc, states, inputs, outs),
        states[0].wf(),
        0 <= k <= l < inputs.len(),
        0 <= i < outs[k].len(),
        0 <= j < outs[l].len(),
        k < l || i < j,
        outs[k][i].origin() == outs[l][j].origin(),
    ensures
        outs[k][i].round() < outs[l][j].round(),
{
    if k < l {
        lemma_run_commits_once(committee, gc, states, inputs, outs, k, i, l, j);
    } else {
        lemma_run_entries_wf(committee, gc, states, inputs, outs, k);
        lemma_step_author_order(committee, gc, states[k], inputs[k], states[k + 1], outs[k]);
        assert(author_ordered(outs[k]));
    }
}

} // verus!
