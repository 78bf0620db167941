//! The bookkeeping of the header waiter: which headers wait for missing parents or batches,
//! which batches were already requested from which workers, and what is dropped once the
//! consensus has moved past the garbage-collection depth.
//!
//! The task around it receives the commands, waits on the store, sends the requests and
//! cancels the waits; every decision it takes comes from here.

use crate::keys::{batch_key, certificate_key, spec_batch_key, spec_certificate_key};
use crate::maps::{keep_above, keys_at_most, retain_above};
use crate::types::{copy_vec, Digest, Header, Round, WorkerId};
use std::collections::HashMap;
use vstd::prelude::*;

verus! {

broadcast use vstd::std_specs::hash::group_hash_axioms;

/// A command for the header waiter.
#[derive(Debug)]
pub enum WaiterMessage {
    /// The header misses these batches, each held by the given worker of its author; the flag
    /// tells whether the header waits for them (it does not when every missing batch carries a
    /// proof of availability: the batches are then only fetched).
    SyncBatches(Vec<(Digest, WorkerId)>, Header, bool),
    /// The header misses these parent certificates.
    SyncParents(Vec<Digest>, Header),
}

/// What the waiter task does for a command that is not a duplicate.
#[derive(Debug)]
pub struct WaitPlan {
    pub header_id: Digest,
    pub round: Round,
    /// The store keys whose values the header waits for.
    pub wait_keys: Vec<Vec<u8>>,
    /// The batches to request: for each worker of the header's author, the digests it must send.
    pub sync_requests: Vec<(WorkerId, Vec<Digest>)>,
}

/// The mathematical value of a wait plan.
#[verifier::ext_equal]
pub struct WaitPlanView {
    pub header_id: Digest,
    pub round: Round,
    pub wait_keys: Seq<Seq<u8>>,
    pub sync_requests: Seq<(WorkerId, Seq<Digest>)>,
}

/// The value of a list of requests grouped by worker.
pub open spec fn groups_view(g: Seq<(WorkerId, Vec<Digest>)>) -> Seq<(WorkerId, Seq<Digest>)> {
    g.map_values(|p: (WorkerId, Vec<Digest>)| (p.0, p.1@))
}

impl View for WaitPlan {
    type V = WaitPlanView;

    open spec fn view(&self) -> WaitPlanView {
        WaitPlanView {
            header_id: self.header_id,
            round: self.round,
            wait_keys: self.wait_keys@.map_values(|k: Vec<u8>| k@),
            sync_requests: groups_view(self.sync_requests@),
        }
    }
}

/// The first group of worker `w`, if there is one.
pub open spec fn group_index(g: Seq<(WorkerId, Seq<Digest>)>, w: WorkerId) -> Option<nat>
    decreases g.len(),
{
    if g.len() == 0 {
        None
    } else {
        match group_index(g.drop_last(), w) {
            Some(i) => Some(i),
            None => if g.last().0 == w {
                Some((g.len() - 1) as nat)
            } else {
                None
            },
        }
    }
}

proof fn lemma_group_index(g: Seq<(WorkerId, Seq<Digest>)>, w: WorkerId)
    ensures
        match group_index(g, w) {
            Some(i) => i < g.len() && g[i as int].0 == w && forall|j: int| 0 <= j < i ==> g[j].0 != w,
            None => forall|j: int| 0 <= j < g.len() ==> g[j].0 != w,
        },
    decreases g.len(),
{
    if g.len() > 0 {
        let init = g.drop_last();
        lemma_group_index(init, w);
        assert forall|j: int| 0 <= j < init.len() implies init[j] == g[j] by {}
    }
}

/// The groups with `d` added to the group of worker `w`, which is opened at the end when
/// there is none yet.
pub open spec fn group_add(g: Seq<(WorkerId, Seq<Digest>)>, w: WorkerId, d: Digest) -> Seq<(WorkerId, Seq<Digest>)> {
    match group_index(g, w) {
        Some(i) => g.update(i as int, (w, g[i as int].1.push(d))),
        None => g.push((w, seq![d])),
    }
}

/// The batch requests after the missing batches of a header of `round` are considered in
/// order, and the requests to send: a batch that was already requested is not requested
/// again, and each new one is requested from its worker.
pub open spec fn plan_requests(
    requested: Map<Digest, Round>,
    missing: Seq<(Digest, WorkerId)>,
    round: Round,
) -> (Map<Digest, Round>, Seq<(WorkerId, Seq<Digest>)>)
    decreases missing.len(),
{
    if missing.len() == 0 {
        (requested, Seq::empty())
    } else {
        let (r, g) = plan_requests(requested, missing.drop_last(), round);
        let (d, w) = missing.last();
        if r.contains_key(d) {
            (r, g)
        } else {
            (r.insert(d, round), group_add(g, w, d))
        }
    }
}

/// A batch is requested at most once: the planned requests name only batches that were not
/// requested before, each once and from the worker the header names for it, every worker
/// gets one request, and every missing batch is marked as requested afterwards: a new request
/// with the round of the header that needed it, an earlier one with its round unchanged.
pub proof fn lemma_batches_requested_once(
    requested: Map<Digest, Round>,
    missing: Seq<(Digest, WorkerId)>,
    round: Round,
)
    ensures
        ({
            let (r, g) = plan_requests(requested, missing, round);
            &&& forall|k: Digest| #[trigger] r.contains_key(k) <==> (requested.contains_key(k)
                || exists|m: int| 0 <= m < missing.len() && #[trigger] missing[m].0 == k)
            &&& forall|k: Digest| #[trigger] requested.contains_key(k) ==> r[k] == requested[k]
            &&& forall|k: Digest| #[trigger] r.contains_key(k) && !requested.contains_key(k) ==> r[k] == round
            &&& forall|i: int, a: int|
                0 <= i < g.len() && 0 <= a < g[i].1.len() ==> {
                    &&& !requested.contains_key(#[trigger] g[i].1[a])
                    &&& r.contains_key(g[i].1[a])
                    &&& missing.contains((g[i].1[a], g[i].0))
                }
            &&& forall|i: int, a: int, j: int, b: int|
                0 <= i < g.len() && 0 <= a < g[i].1.len() && 0 <= j < g.len() && 0 <= b < g[j].1.len()
                    && (i != j || a != b) ==> #[trigger] g[i].1[a] != #[trigger] g[j].1[b]
            &&& forall|i: int, j: int| 0 <= i < j < g.len() ==> #[trigger] g[i].0 != #[trigger] g[j].0
        }),
    decreases missing.len(),
{
    if missing.len() > 0 {
        let init = missing.drop_last();
        lemma_batches_requested_once(requested, init, round);
        let (r1, g1) = plan_requests(requested, init, round);
        let (d, w) = missing.last();
        let (r, g) = plan_requests(requested, missing, round);
        assert forall|m: int| 0 <= m < init.len() implies #[trigger] init[m] == missing[m] by {}
        assert forall|k: Digest| #[trigger] r.contains_key(k) <==> (requested.contains_key(k)
            || exists|m: int| 0 <= m < missing.len() && #[trigger] missing[m].0 == k) by {
            if exists|m: int| 0 <= m < missing.len() && #[trigger] missing[m].0 == k {
                let m = choose|m: int| 0 <= m < missing.len() && #[trigger] missing[m].0 == k;
                if m < init.len() {
                    assert(init[m].0 == k);
                }
            }
            if exists|m: int| 0 <= m < init.len() && #[trigger] init[m].0 == k {
                let m = choose|m: int| 0 <= m < init.len() && #[trigger] init[m].0 == k;
                assert(missing[m].0 == k);
            }
            assert(missing[missing.len() - 1].0 == d);
        }
        assert forall|i: int, a: int| 0 <= i < g1.len() && 0 <= a < g1[i].1.len() implies missing.contains(
            (#[trigger] g1[i].1[a], g1[i].0),
        ) by {
            let m = choose|m: int| 0 <= m < init.len() && init[m] == (g1[i].1[a], g1[i].0);
            assert(missing[m] == init[m]);
        }
        if !r1.contains_key(d) {
            assert(missing[missing.len() - 1] == (d, w));
            lemma_group_index(g1, w);
            match group_index(g1, w) {
                Some(x) => {
                    assert forall|i: int, a: int| 0 <= i < g.len() && 0 <= a < g[i].1.len() implies {
                        &&& !requested.contains_key(#[trigger] g[i].1[a])
                        &&& r.contains_key(g[i].1[a])
                        &&& missing.contains((g[i].1[a], g[i].0))
                    } by {
                        if i != x || a < g1[i].1.len() {
                            assert(g[i].1[a] == g1[i].1[a]);
                            assert(g[i].0 == g1[i].0);
                        }
                    }
                    assert forall|i: int, a: int, j: int, b: int|
                        0 <= i < g.len() && 0 <= a < g[i].1.len() && 0 <= j < g.len() && 0 <= b < g[j].1.len()
                            && (i != j || a != b) implies #[trigger] g[i].1[a] != #[trigger] g[j].1[b] by {
                        let new_i = i == x && a == g1[i].1.len();
                        let new_j = j == x && b == g1[j].1.len();
                        if !new_i {
                            assert(g[i].1[a] == g1[i].1[a]);
                        }
                        if !new_j {
                            assert(g[j].1[b] == g1[j].1[b]);
                        }
                    }
                },
                None => {
                    assert forall|i: int, a: int| 0 <= i < g.len() && 0 <= a < g[i].1.len() implies {
                        &&& !requested.contains_key(#[trigger] g[i].1[a])
                        &&& r.contains_key(g[i].1[a])
                        &&& missing.contains((g[i].1[a], g[i].0))
                    } by {
                        if i < g1.len() {
                            assert(g[i] == g1[i]);
                        }
                    }
                    assert forall|i: int, a: int, j: int, b: int|
                        0 <= i < g.len() && 0 <= a < g[i].1.len() && 0 <= j < g.len() && 0 <= b < g[j].1.len()
                            && (i != j || a != b) implies #[trigger] g[i].1[a] != #[trigger] g[j].1[b] by {
                        if i < g1.len() {
                            assert(g[i] == g1[i]);
                        }
                        if j < g1.len() {
                            assert(g[j] == g1[j]);
                        }
                    }
                    assert forall|i: int, j: int| 0 <= i < j < g.len() implies #[trigger] g[i].0 != #[trigger] g[j].0 by {
                        assert(g[i] == g1[i]);
                        if j < g1.len() {
                            assert(g[j] == g1[j]);
                        }
                    }
                },
            }
        }
    }
}

/// Adds `d` to the group of worker `w`.
fn add_to_group(groups: &mut Vec<(WorkerId, Vec<Digest>)>, w: WorkerId, d: Digest)
    ensures
        groups_view(final(groups)@) == group_add(groups_view(old(groups)@), w, d),
{
    let ghost g0 = groups_view(groups@);
    proof {
        lemma_group_index(g0, w);
    }
    let mut i: usize = 0;
    while i < groups.len()
        invariant
            i <= groups.len(),
            groups@ == old(groups)@,
            g0 == groups_view(groups@),
            forall|j: int| 0 <= j < i ==> g0[j].0 != w,
            match group_index(g0, w) {
                Some(k) => k < g0.len() && g0[k as int].0 == w && forall|j: int| 0 <= j < k ==> g0[j].0 != w,
                None => forall|j: int| 0 <= j < g0.len() ==> g0[j].0 != w,
            },
        decreases groups.len() - i,
    {
        assert(g0[i as int].0 == groups@[i as int].0);
        if groups[i].0 == w {
            let mut inner = copy_vec(&groups[i].1);
            inner.push(d);
            proof {
                if let Some(k) = group_index(g0, w) {
                    if k < i {
                        assert(g0[k as int].0 != w);
                    } else if k > i {
                        assert(g0[i as int].0 == w);
                    }
                }
            }
            groups.set(i, (w, inner));
            assert(groups_view(groups@) =~= g0.update(i as int, (w, g0[i as int].1.push(d))));
            return;
        }
        i = i + 1;
    }
    let mut one: Vec<Digest> = Vec::new();
    one.push(d);
    groups.push((w, one));
    assert(groups_view(groups@) =~= g0.push((w, seq![d])));
}

/// The mathematical value of the header waiter's bookkeeping.
#[verifier::ext_equal]
pub struct HeaderWaiterView {
    pub gc_depth: Round,
    /// The batches requested from workers, with the round of the header that needed them.
    pub batch_requests: Map<Digest, Round>,
    /// The headers waiting for their parents or batches, with their rounds.
    pub pending: Map<Digest, Round>,
}

/// Waits for missing parent certificates and batches.
pub struct HeaderWaiter {
    gc_depth: Round,
    batch_requests: HashMap<Digest, Round>,
    pending: HashMap<Digest, Round>,
}

impl View for HeaderWaiter {
    type V = HeaderWaiterView;

    closed spec fn view(&self) -> HeaderWaiterView {
        HeaderWaiterView {
            gc_depth: self.gc_depth,
            batch_requests: self.batch_requests@,
            pending: self.pending@,
        }
    }
}

/// The keys that a header missing the batches `missing` waits for.
pub open spec fn batch_wait_keys(missing: Seq<(Digest, WorkerId)>) -> Seq<Seq<u8>> {
    missing.map_values(|p: (Digest, WorkerId)| spec_batch_key(p.0, p.1))
}

/// The keys that a header missing the parents `missing` waits for.
pub open spec fn parent_wait_keys(missing: Seq<Digest>) -> Seq<Seq<u8>> {
    missing.map_values(|d: Digest| spec_certificate_key(d))
}

/// A batch requested for a header outlives every garbage collection that keeps the header's
/// round, so a later header that misses the same batch does not request it again: none of the
/// later requests names a batch that the first header missed.
pub proof fn lemma_request_survives_cleanup(
    requested: Map<Digest, Round>,
    missing: Seq<(Digest, WorkerId)>,
    round: Round,
    gc_round: Round,
    later: Seq<(Digest, WorkerId)>,
    later_round: Round,
)
    requires
        round > gc_round,
    ensures
        ({
            let kept = keep_above(plan_requests(requested, missing, round).0, gc_round);
            let g = plan_requests(kept, later, later_round).1;
            &&& forall|m: int| 0 <= m < missing.len() && (!requested.contains_key(missing[m].0)
                || requested[missing[m].0] > gc_round) ==> #[trigger] kept.contains_key(missing[m].0)
            &&& forall|m: int, i: int, a: int|
                0 <= m < missing.len() && (!requested.contains_key(missing[m].0) || requested[missing[m].0]
                    > gc_round) && 0 <= i < g.len() && 0 <= a < g[i].1.len() ==> #[trigger] g[i].1[a]
                    != #[trigger] missing[m].0
        }),
{
    lemma_batches_requested_once(requested, missing, round);
    let r = plan_requests(requested, missing, round).0;
    let kept = keep_above(r, gc_round);
    lemma_batches_requested_once(kept, later, later_round);
    assert forall|m: int| 0 <= m < missing.len() && (!requested.contains_key(missing[m].0)
        || requested[missing[m].0] > gc_round) implies #[trigger] kept.contains_key(missing[m].0) by {
        assert(r.contains_key(missing[m].0));
    }
}

impl HeaderWaiter {
    /// A waiter with nothing pending.
    pub fn new(gc_depth: Round) -> (r: Self)
        ensures
            r@ == (HeaderWaiterView { gc_depth, batch_requests: Map::empty(), pending: Map::empty() }),
    {
        HeaderWaiter { gc_depth, batch_requests: HashMap::new(), pending: HashMap::new() }
    }

    /// Registers a sync command. A header that already waits is not registered twice and
    /// gets no plan. Otherwise each missing batch that was not requested before is requested
    /// from its worker, and the header, unless the command says it need not wait, waits for
    /// the store keys of what it misses.
    pub fn handle_message(&mut self, message: &WaiterMessage) -> (r: Option<WaitPlan>)
        ensures
            match message {
                WaiterMessage::SyncBatches(missing, header, wait) => if old(self)@.pending.contains_key(header.id) {
                    &&& r is None
                    &&& final(self)@ == old(self)@
                } else {
                    let (requested, groups) = plan_requests(old(self)@.batch_requests, missing@, header.round);
                    &&& final(self)@ == (HeaderWaiterView {
                        pending: if *wait {
                            old(self)@.pending.insert(header.id, header.round)
                        } else {
                            old(self)@.pending
                        },
                        batch_requests: requested,
                        ..old(self)@
                    })
                    &&& r matches Some(plan) && plan@ == (WaitPlanView {
                        header_id: header.id,
                        round: header.round,
                        wait_keys: if *wait {
                            batch_wait_keys(missing@)
                        } else {
                            Seq::empty()
                        },
                        sync_requests: groups,
                    })
                },
                WaiterMessage::SyncParents(missing, header) => if old(self)@.pending.contains_key(header.id) {
                    &&& r is None
                    &&& final(self)@ == old(self)@
                } else {
                    &&& final(self)@ == (HeaderWaiterView {
                        pending: old(self)@.pending.insert(header.id, header.round),
                        ..old(self)@
                    })
                    &&& r matches Some(plan) && plan@ == (WaitPlanView {
                        header_id: header.id,
                        round: header.round,
                        wait_keys: parent_wait_keys(missing@),
                        sync_requests: Seq::empty(),
                    })
                },
            },
    {
        match message {
            WaiterMessage::SyncBatches(missing, header, wait) => {
                if self.pending.contains_key(&header.id) {
                    return None;
                }
                if *wait {
                    self.pending.insert(header.id, header.round);
                }
                let mut wait_keys: Vec<Vec<u8>> = Vec::new();
                let mut groups: Vec<(WorkerId, Vec<Digest>)> = Vec::new();
                let ghost requested0 = self.batch_requests@;
                let mut i: usize = 0;
                while i < missing.len()
                    invariant
                        i <= missing.len(),
                        self.pending@ == if *wait {
                            old(self)@.pending.insert(header.id, header.round)
                        } else {
                            old(self)@.pending
                        },
                        self.gc_depth == old(self)@.gc_depth,
                        wait_keys@.map_values(|k: Vec<u8>| k@) == batch_wait_keys(missing@.subrange(0, i as int)),
                        (self.batch_requests@, groups_view(groups@)) == plan_requests(
                            requested0,
                            missing@.subrange(0, i as int),
                            header.round,
                        ),
                    decreases missing.len() - i,
                {
                    let (d, w) = missing[i];
                    let ghost prev = missing@.subrange(0, i as int);
                    proof {
                        assert(missing@.subrange(0, i as int + 1).drop_last() =~= prev);
                        assert(missing@.subrange(0, i as int + 1).last() == (d, w));
                    }
                    let ghost keys0 = wait_keys@;
                    let key = batch_key(d, w);
                    wait_keys.push(key);
                    proof {
                        assert(wait_keys@.map_values(|k: Vec<u8>| k@) =~= keys0.map_values(|k: Vec<u8>| k@).push(key@));
                        assert(batch_wait_keys(missing@.subrange(0, i as int + 1)) =~= batch_wait_keys(prev).push(spec_batch_key(d, w)));
                    }
                    if !self.batch_requests.contains_key(&d) {
                        self.batch_requests.insert(d, header.round);
                        add_to_group(&mut groups, w, d);
                    }
                    i = i + 1;
                }
                assert(missing@.subrange(0, missing.len() as int) =~= missing@);
                if !*wait {
                    wait_keys = Vec::new();
                    assert(wait_keys@.map_values(|k: Vec<u8>| k@) =~= Seq::<Seq<u8>>::empty());
                }
                Some(WaitPlan { header_id: header.id, round: header.round, wait_keys, sync_requests: groups })
            },
            WaiterMessage::SyncParents(missing, header) => {
                if self.pending.contains_key(&header.id) {
                    return None;
                }
                self.pending.insert(header.id, header.round);
                let mut wait_keys: Vec<Vec<u8>> = Vec::new();
                let mut i: usize = 0;
                while i < missing.len()
                    invariant
                        i <= missing.len(),
                        self@ == (HeaderWaiterView {
                            pending: old(self)@.pending.insert(header.id, header.round),
                            ..old(self)@
                        }),
                        wait_keys@.map_values(|k: Vec<u8>| k@) == parent_wait_keys(missing@.subrange(0, i as int)),
                    decreases missing.len() - i,
                {
                    let ghost keys0 = wait_keys@;
                    let key = certificate_key(missing[i]);
                    wait_keys.push(key);
                    proof {
                        assert(missing@.subrange(0, i as int + 1) =~= missing@.subrange(0, i as int).push(missing@[i as int]));
                        assert(wait_keys@.map_values(|k: Vec<u8>| k@) =~= keys0.map_values(|k: Vec<u8>| k@).push(key@));
                        assert(parent_wait_keys(missing@.subrange(0, i as int + 1)) =~= parent_wait_keys(
                            missing@.subrange(0, i as int),
                        ).push(spec_certificate_key(missing@[i as int])));
                    }
                    i = i + 1;
                }
                assert(missing@.subrange(0, missing.len() as int) =~= missing@);
                let sync_requests: Vec<(WorkerId, Vec<Digest>)> = Vec::new();
                assert(groups_view(sync_requests@) =~= Seq::<(WorkerId, Seq<Digest>)>::empty());
                Some(WaitPlan { header_id: header.id, round: header.round, wait_keys, sync_requests })
            },
        }
    }

    /// A header got everything it waited for: it no longer waits, and its batches are no
    /// longer outstanding requests.
    pub fn header_ready(&mut self, header: &Header)
        ensures
            final(self)@ == (HeaderWaiterView {
                pending: old(self)@.pending.remove(header.id),
                batch_requests: old(self)@.batch_requests.remove_keys(header.payload@.to_set()),
                ..old(self)@
            }),
    {
        self.pending.remove(&header.id);
        let ghost requested0 = self.batch_requests@;
        let mut i: usize = 0;
        while i < header.payload.len()
            invariant
                i <= header.payload.len(),
                self.pending@ == old(self)@.pending.remove(header.id),
                self.gc_depth == old(self)@.gc_depth,
                self.batch_requests@ == requested0.remove_keys(header.payload@.subrange(0, i as int).to_set()),
            decreases header.payload.len() - i,
        {
            let d = header.payload[i];
            self.batch_requests.remove(&d);
            proof {
                let next = header.payload@.subrange(0, i as int + 1);
                assert(next =~= header.payload@.subrange(0, i as int).push(d));
                assert(next.to_set() =~= header.payload@.subrange(0, i as int).to_set().insert(d)) by {
                    broadcast use vstd::seq_lib::group_seq_properties;
                }
                assert(self.batch_requests@ =~= requested0.remove_keys(next.to_set()));
            }
            i = i + 1;
        }
        assert(header.payload@.subrange(0, header.payload.len() as int) =~= header.payload@);
    }

    /// Garbage-collects once the consensus has reached `consensus_round`: when it is beyond
    /// the garbage-collection depth, the headers and batch requests of rounds at most
    /// `consensus_round - gc_depth` are dropped, and the dropped headers are returned so that
    /// their waits are cancelled.
    pub fn cleanup(&mut self, consensus_round: Round) -> (r: Vec<Digest>)
        ensures
            consensus_round > old(self)@.gc_depth ==> {
                let gc_round = (consensus_round - old(self)@.gc_depth) as Round;
                &&& final(self)@ == (HeaderWaiterView {
                    pending: keep_above(old(self)@.pending, gc_round),
                    batch_requests: keep_above(old(self)@.batch_requests, gc_round),
                    ..old(self)@
                })
                &&& r@.to_set() == keys_at_most(old(self)@.pending, gc_round)
                &&& r@.no_duplicates()
            },
            consensus_round <= old(self)@.gc_depth ==> final(self)@ == old(self)@ && r@ == Seq::<Digest>::empty(),
    {
        if consensus_round > self.gc_depth {
            let gc_round = consensus_round - self.gc_depth;
            let canceled = retain_above(&mut self.pending, gc_round);
            let _ = retain_above(&mut self.batch_requests, gc_round);
            canceled
        } else {
            Vec::new()
        }
    }
}

} // verus!
