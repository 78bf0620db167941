//! The parent graph of the DAG as the consensus walks it.
//!
//! A walk starts at one certificate and moves from a certificate to the certificates that its
//! parent digests name in the certificate index. The walk keeps track of digests: a digest
//! stands for the certificate that the index holds for it, and the start's own digest stands
//! for the start itself.

use crate::dag::{CommitStatus, DagEntryView, StateView};
use crate::types::{CertificateView, Digest, Round};
use vstd::prelude::*;

verus! {

/// The entry that a certificate of `child_round` finds for its parent digest `p`: the indexed
/// entry for `p`, when it is of an earlier round (and never below round 2).
pub open spec fn parent_entry(s: StateView, child_round: Round, p: Digest) -> Option<DagEntryView> {
    if child_round <= 1 {
        None
    } else {
        match s.find_certificate_spec(p) {
            Some(e) => if e.certificate.round() < child_round {
                Some(e)
            } else {
                None
            },
            None => None,
        }
    }
}

/// The certificate that digest `d` stands for in a walk from `start`.
pub open spec fn node_cert(s: StateView, start: CertificateView, d: Digest) -> CertificateView {
    if d == start.digest {
        start
    } else {
        s.find_certificate_spec(d).unwrap().certificate
    }
}

/// The walk from `d` may step to `q`. A pruned walk only steps to parents that the fast path
/// did not find zero-valent and that are not committed yet.
pub open spec fn parent_ok(s: StateView, start: CertificateView, pruned: bool, d: Digest, q: Digest) -> bool {
    match parent_entry(s, node_cert(s, start, d).round(), q) {
        Some(e) => pruned ==> (e.status != CommitStatus::ZeroValent && !s.committed(e.certificate)),
        None => false,
    }
}

pub open spec fn edge(s: StateView, start: CertificateView, pruned: bool, d: Digest, q: Digest) -> bool {
    node_cert(s, start, d).header.parents.contains(q) && parent_ok(s, start, pruned, d, q)
}

pub open spec fn path_step(s: StateView, start: CertificateView, pruned: bool, path: Seq<Digest>, i: int) -> bool {
    edge(s, start, pruned, path[i], path[i + 1])
}

/// `path` is a walk from the start's digest.
pub open spec fn is_path(s: StateView, start: CertificateView, pruned: bool, path: Seq<Digest>) -> bool {
    &&& path.len() > 0
    &&& path[0] == start.digest
    &&& forall|i: int| 0 <= i < path.len() - 1 ==> #[trigger] path_step(s, start, pruned, path, i)
}

/// Some walk from `start` ends at digest `d`.
pub open spec fn reaches(s: StateView, start: CertificateView, pruned: bool, d: Digest) -> bool {
    exists|path: Seq<Digest>| #[trigger] is_path(s, start, pruned, path) && path.last() == d
}

pub proof fn lemma_reaches_start(s: StateView, start: CertificateView, pruned: bool)
    ensures
        reaches(s, start, pruned, start.digest),
{
    let path = seq![start.digest];
    assert(is_path(s, start, pruned, path));
}

pub proof fn lemma_reaches_step(s: StateView, start: CertificateView, pruned: bool, d: Digest, q: Digest)
    requires
        reaches(s, start, pruned, d),
        edge(s, start, pruned, d, q),
    ensures
        reaches(s, start, pruned, q),
{
    let path = choose|path: Seq<Digest>| #[trigger] is_path(s, start, pruned, path) && path.last() == d;
    let p2 = path.push(q);
    assert forall|i: int| 0 <= i < p2.len() - 1 implies #[trigger] path_step(s, start, pruned, p2, i) by {
        if i < path.len() - 1 {
            assert(path_step(s, start, pruned, path, i));
        }
    }
    assert(is_path(s, start, pruned, p2));
}

/// A set of digests that holds the start and is closed under the walk's steps holds every
/// digest that a walk reaches.
pub proof fn lemma_closed_holds_reached(
    s: StateView,
    start: CertificateView,
    pruned: bool,
    v: Set<Digest>,
    d: Digest,
)
    requires
        v.contains(start.digest),
        forall|x: Digest, q: Digest| #[trigger] v.contains(x) && #[trigger] edge(s, start, pruned, x, q) ==> v.contains(q),
        reaches(s, start, pruned, d),
    ensures
        v.contains(d),
{
    let path = choose|path: Seq<Digest>| #[trigger] is_path(s, start, pruned, path) && path.last() == d;
    lemma_path_in_closed(s, start, pruned, v, path, path.len() - 1);
}

proof fn lemma_path_in_closed(
    s: StateView,
    start: CertificateView,
    pruned: bool,
    v: Set<Digest>,
    path: Seq<Digest>,
    k: int,
)
    requires
        v.contains(start.digest),
        forall|x: Digest, q: Digest| #[trigger] v.contains(x) && #[trigger] edge(s, start, pruned, x, q) ==> v.contains(q),
        is_path(s, start, pruned, path),
        0 <= k < path.len(),
    ensures
        v.contains(path[k]),
    decreases k,
{
    if k > 0 {
        lemma_path_in_closed(s, start, pruned, v, path, k - 1);
        assert(path_step(s, start, pruned, path, k - 1));
    }
}

} // verus!
