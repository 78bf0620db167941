//! The committee: the authorities in their fixed order, their stakes, and the protocol
//! thresholds and lengths that the rest of the crate reads.

use crate::types::{PublicKey, Round, Stake};
use vstd::prelude::*;

verus! {

/// An authority and its voting power.
#[derive(Clone, Copy, Debug, PartialEq, Eq)]
pub struct Authority {
    pub name: PublicKey,
    pub stake: Stake,
}

/// The committee of authorities, listed in increasing order of their names.
#[derive(Clone, Debug)]
pub struct Committee {
    pub authorities: Vec<Authority>,
    /// The stake needed to form a certificate from votes.
    pub quorum_threshold: Stake,
    /// The stake that guarantees at least one honest authority.
    pub validity_threshold: Stake,
    /// The stake of solid-step support that makes a certificate one-valent on the fast path.
    pub fast_path_threshold: Stake,
    /// The number of rounds of a solid step.
    pub solid_step_length: Round,
    /// The number of rounds of a solid wave.
    pub solid_wave_length: Round,
    pub fast_coin_candidate_threshold: usize,
    pub solid_candidate_threshold: usize,
}

/// The stake of `name` in `auths`, or 0 when it is not there.
pub open spec fn stake_in(auths: Seq<Authority>, name: PublicKey) -> nat
    decreases auths.len(),
{
    if auths.len() == 0 {
        0
    } else if auths.last().name == name {
        auths.last().stake as nat
    } else {
        stake_in(auths.drop_last(), name)
    }
}

/// The sum of the stakes of the authorities of `auths` that satisfy `pred`.
pub open spec fn stake_where(auths: Seq<Authority>, pred: spec_fn(PublicKey) -> bool) -> nat
    decreases auths.len(),
{
    if auths.len() == 0 {
        0
    } else {
        stake_where(auths.drop_last(), pred) + if pred(auths.last().name) {
            auths.last().stake as nat
        } else {
            0
        }
    }
}

/// The sum of all stakes of `auths`.
pub open spec fn total_stake(auths: Seq<Authority>) -> nat {
    stake_where(auths, |k: PublicKey| true)
}

/// The names of `auths`, in order.
pub open spec fn names(auths: Seq<Authority>) -> Seq<PublicKey> {
    auths.map_values(|a: Authority| a.name)
}

/// The first position of `name` in `auths`, if it occurs.
pub open spec fn position_of(auths: Seq<Authority>, name: PublicKey) -> Option<nat>
    decreases auths.len(),
{
    if auths.len() == 0 {
        None
    } else {
        match position_of(auths.drop_last(), name) {
            Some(i) => Some(i),
            None => if auths.last().name == name {
                Some((auths.len() - 1) as nat)
            } else {
                None
            },
        }
    }
}

/// `position_of` gives the first position that carries the name, and nothing when none does.
pub proof fn lemma_position_of(auths: Seq<Authority>, name: PublicKey)
    ensures
        match position_of(auths, name) {
            Some(i) => i < auths.len() && auths[i as int].name == name
                && forall|j: int| 0 <= j < i ==> auths[j].name != name,
            None => forall|j: int| 0 <= j < auths.len() ==> auths[j].name != name,
        },
    decreases auths.len(),
{
    if auths.len() > 0 {
        let init = auths.drop_last();
        lemma_position_of(init, name);
        assert forall|j: int| 0 <= j < init.len() implies init[j] == auths[j] by {}
    }
}

/// The names strictly increase along `auths`.
pub open spec fn names_increasing(auths: Seq<Authority>) -> bool {
    forall|i: int, j: int| 0 <= i < j < auths.len() ==> auths[i].name < auths[j].name
}

impl Committee {
    /// The committee lists its authorities once each, in increasing order, and all its stakes
    /// together fit in a `Stake`.
    pub open spec fn wf(&self) -> bool {
        &&& names_increasing(self.authorities@)
        &&& total_stake(self.authorities@) <= Stake::MAX
    }

    pub open spec fn spec_stake(&self, name: PublicKey) -> nat {
        stake_in(self.authorities@, name)
    }

    /// The stake of an authority (0 for a name outside the committee).
    pub fn stake(&self, name: PublicKey) -> (r: Stake)
        ensures
            r == self.spec_stake(name),
    {
        let mut i: usize = self.authorities.len();
        assert(self.authorities@.subrange(0, i as int) =~= self.authorities@);
        while i > 0
            invariant
                i <= self.authorities.len(),
                stake_in(self.authorities@, name) == stake_in(self.authorities@.subrange(0, i as int), name),
            decreases i,
        {
            let a = self.authorities[i - 1];
            proof {
                let s = self.authorities@.subrange(0, i as int);
                assert(s.last() == a);
                assert(s.drop_last() =~= self.authorities@.subrange(0, i - 1));
            }
            if a.name == name {
                return a.stake;
            }
            i = i - 1;
        }
        0
    }

    /// The position of an authority in the committee order.
    pub fn authority_index(&self, name: PublicKey) -> (r: Option<usize>)
        ensures
            match r {
                Some(i) => position_of(self.authorities@, name) == Some(i as nat),
                None => position_of(self.authorities@, name) is None,
            },
            match r {
                Some(i) => i < self.authorities@.len() && self.authorities@[i as int].name == name
                    && forall|j: int| 0 <= j < i ==> self.authorities@[j].name != name,
                None => forall|j: int| 0 <= j < self.authorities@.len() ==> self.authorities@[j].name != name,
            },
    {
        proof {
            lemma_position_of(self.authorities@, name);
        }
        let mut i: usize = 0;
        while i < self.authorities.len()
            invariant
                i <= self.authorities.len(),
                forall|j: int| 0 <= j < i ==> self.authorities@[j].name != name,
            decreases self.authorities.len() - i,
        {
            if self.authorities[i].name == name {
                proof {
                    lemma_position_of(self.authorities@, name);
                    if let Some(k) = position_of(self.authorities@, name) {
                        if k < i {
                            assert(self.authorities@[k as int].name != name);
                        }
                    } else {
                        assert(self.authorities@[i as int].name == name);
                    }
                }
                return Some(i);
            }
            i = i + 1;
        }
        None
    }

    /// The number of bytes of a bitmap with one bit per authority.
    pub fn authority_bitmap_len(&self) -> (r: usize)
        ensures
            r as int == (self.authorities@.len() + 7) / 8,
    {
        let n = self.authorities.len();
        n / 8 + if n % 8 == 0 { 0 } else { 1 }
    }
}

/// Adding an authority that was not selected adds its stake to the selected sum.
pub proof fn lemma_stake_where_insert(
    auths: Seq<Authority>,
    p: spec_fn(PublicKey) -> bool,
    q: spec_fn(PublicKey) -> bool,
    name: PublicKey,
)
    requires
        names_increasing(auths),
        !p(name),
        forall|k: PublicKey| #[trigger] q(k) == (p(k) || k == name),
    ensures
        stake_where(auths, q) == stake_where(auths, p) + stake_in(auths, name),
    decreases auths.len(),
{
    if auths.len() > 0 {
        let init = auths.drop_last();
        assert(names_increasing(init));
        lemma_stake_where_insert(init, p, q, name);
        if auths.last().name == name {
            assert forall|i: int| 0 <= i < init.len() implies init[i].name != name by {
                assert(auths[i].name < auths[auths.len() - 1].name);
            }
            lemma_stake_in_absent(init, name);
        }
    }
}

/// A name that no authority of `auths` carries has stake 0 there.
pub proof fn lemma_stake_in_absent(auths: Seq<Authority>, name: PublicKey)
    requires
        forall|i: int| 0 <= i < auths.len() ==> auths[i].name != name,
    ensures
        stake_in(auths, name) == 0,
    decreases auths.len(),
{
    if auths.len() > 0 {
        assert(auths[auths.len() - 1].name != name);
        lemma_stake_in_absent(auths.drop_last(), name);
    }
}

/// A selected sum never exceeds the total stake.
pub proof fn lemma_stake_where_le_total(auths: Seq<Authority>, p: spec_fn(PublicKey) -> bool)
    ensures
        stake_where(auths, p) <= total_stake(auths),
    decreases auths.len(),
{
    if auths.len() > 0 {
        lemma_stake_where_le_total(auths.drop_last(), p);
    }
}

/// Selected sums grow with the selection.
pub proof fn lemma_stake_where_mono(
    auths: Seq<Authority>,
    p: spec_fn(PublicKey) -> bool,
    q: spec_fn(PublicKey) -> bool,
)
    requires
        forall|k: PublicKey| #[trigger] p(k) ==> q(k),
    ensures
        stake_where(auths, p) <= stake_where(auths, q),
    decreases auths.len(),
{
    if auths.len() > 0 {
        lemma_stake_where_mono(auths.drop_last(), p, q);
    }
}

/// Selected sums only depend on the selection of the names that occur.
pub proof fn lemma_stake_where_ext(
    auths: Seq<Authority>,
    p: spec_fn(PublicKey) -> bool,
    q: spec_fn(PublicKey) -> bool,
)
    requires
        forall|i: int| 0 <= i < auths.len() ==> p(#[trigger] auths[i].name) == q(auths[i].name),
    ensures
        stake_where(auths, p) == stake_where(auths, q),
    decreases auths.len(),
{
    if auths.len() > 0 {
        let init = auths.drop_last();
        assert forall|i: int| 0 <= i < init.len() implies p(#[trigger] init[i].name) == q(init[i].name) by {
            assert(init[i] == auths[i]);
        }
        assert(p(auths[auths.len() - 1].name) == q(auths[auths.len() - 1].name));
        lemma_stake_where_ext(init, p, q);
    }
}

} // verus!

verus! {

/// A selected sum over a prefix never exceeds the selected sum over the whole.
pub proof fn lemma_stake_where_prefix(auths: Seq<Authority>, p: spec_fn(PublicKey) -> bool, i: int)
    requires
        0 <= i <= auths.len(),
    ensures
        stake_where(auths.subrange(0, i), p) <= stake_where(auths, p),
    decreases auths.len(),
{
    if i < auths.len() {
        let init = auths.drop_last();
        lemma_stake_where_prefix(init, p, i);
        assert(init.subrange(0, i) =~= auths.subrange(0, i));
    } else {
        assert(auths.subrange(0, i) =~= auths);
    }
}

/// Extending a prefix by one authority adds its stake when it is selected.
pub proof fn lemma_stake_where_extend(auths: Seq<Authority>, p: spec_fn(PublicKey) -> bool, i: int)
    requires
        0 <= i < auths.len(),
    ensures
        stake_where(auths.subrange(0, i + 1), p) == stake_where(auths.subrange(0, i), p) + if p(auths[i].name) {
            auths[i].stake as nat
        } else {
            0
        },
{
    assert(auths.subrange(0, i + 1).drop_last() =~= auths.subrange(0, i));
}

} // verus!
