//! The pieces a proposal is built from: the parents it points to, the unions of the solid
//! vertices its parents summarise, and the bitmap of the authors its parents reach.

use crate::types::{contains_digest, Digest, Round};
use vstd::prelude::*;

verus! {

/// The parents of the next proposal and the summaries gathered from them.
#[derive(Debug)]
pub struct ProposalParents {
    /// The digests of the parent certificates, in the order they were accepted.
    pub parents: Vec<Digest>,
    /// The union of the parents' solid-step summaries, each digest once.
    pub solid_step_union: Vec<Digest>,
    /// The union of the parents' solid-wave summaries, each digest once.
    pub solid_wave_union: Vec<Digest>,
    /// The round whose authors the bitmap tracks (0 when none is tracked).
    pub wave_back_link_target_round: Round,
    /// One bit per authority of the committee order: reached through the parents.
    pub wave_back_link_author_bitmap: Vec<u8>,
}

/// The mathematical value of proposal parents.
#[verifier::ext_equal]
pub struct ProposalParentsView {
    pub parents: Seq<Digest>,
    pub solid_step_union: Seq<Digest>,
    pub solid_wave_union: Seq<Digest>,
    pub wave_back_link_target_round: Round,
    pub wave_back_link_author_bitmap: Seq<u8>,
}

impl View for ProposalParents {
    type V = ProposalParentsView;

    open spec fn view(&self) -> ProposalParentsView {
        ProposalParentsView {
            parents: self.parents@,
            solid_step_union: self.solid_step_union@,
            solid_wave_union: self.solid_wave_union@,
            wave_back_link_target_round: self.wave_back_link_target_round,
            wave_back_link_author_bitmap: self.wave_back_link_author_bitmap@,
        }
    }
}

/// `u` followed by the items of `items` that are not already there, each once, in order.
pub open spec fn seq_union(u: Seq<Digest>, items: Seq<Digest>) -> Seq<Digest>
    decreases items.len(),
{
    if items.len() == 0 {
        u
    } else {
        let w = seq_union(u, items.drop_last());
        if w.contains(items.last()) {
            w
        } else {
            w.push(items.last())
        }
    }
}

/// A union holds exactly the digests of both sides, keeps `u` as its prefix, and repeats
/// nothing when `u` repeats nothing.
pub proof fn lemma_seq_union(u: Seq<Digest>, items: Seq<Digest>)
    ensures
        seq_union(u, items).to_set() == u.to_set().union(items.to_set()),
        seq_union(u, items).len() >= u.len(),
        seq_union(u, items).subrange(0, u.len() as int) == u,
        u.no_duplicates() ==> seq_union(u, items).no_duplicates(),
    decreases items.len(),
{
    broadcast use vstd::seq_lib::group_seq_properties;
    if items.len() == 0 {
        assert(items.to_set() =~= Set::<Digest>::empty());
        assert(u.to_set().union(items.to_set()) =~= u.to_set());
        assert(u.subrange(0, u.len() as int) =~= u);
    } else {
        let init = items.drop_last();
        let w = seq_union(u, init);
        lemma_seq_union(u, init);
        assert(items =~= init.push(items.last()));
        assert(items.to_set() =~= init.to_set().insert(items.last()));
        if w.contains(items.last()) {
            assert(w.to_set().contains(items.last()));
            assert(w.to_set() =~= u.to_set().union(items.to_set()));
        } else {
            assert(w.push(items.last()).to_set() =~= w.to_set().insert(items.last()));
            assert(w.push(items.last()).to_set() =~= u.to_set().union(items.to_set()));
            assert(w.push(items.last()).subrange(0, u.len() as int) =~= w.subrange(0, u.len() as int));
        }
    }
}

/// Appends to `u` the digests of `items` that it does not hold yet.
pub fn extend_union(u: &mut Vec<Digest>, items: &Vec<Digest>)
    ensures
        final(u)@ == seq_union(old(u)@, items@),
{
    let mut i: usize = 0;
    while i < items.len()
        invariant
            i <= items.len(),
            u@ == seq_union(old(u)@, items@.subrange(0, i as int)),
        decreases items.len() - i,
    {
        proof {
            let next = items@.subrange(0, i as int + 1);
            assert(next.drop_last() =~= items@.subrange(0, i as int));
            assert(next.last() == items@[i as int]);
        }
        if !contains_digest(u, items[i]) {
            u.push(items[i]);
        }
        i = i + 1;
    }
    assert(items@.subrange(0, items.len() as int) =~= items@);
}

/// The bitmap with the bit of the authority at `index` set (bit `index % 8` of byte
/// `index / 8`); an index beyond the bitmap leaves it as it is.
pub open spec fn with_author_bit(bitmap: Seq<u8>, index: nat) -> Seq<u8> {
    if index / 8 < bitmap.len() {
        bitmap.update((index / 8) as int, bitmap[(index / 8) as int] | (1u8 << ((index % 8) as u8)))
    } else {
        bitmap
    }
}

/// Whether the bit of the authority at `index` (bit `index % 8` of byte `index / 8`) is set.
pub open spec fn has_author_bit(bitmap: Seq<u8>, index: nat) -> bool {
    &&& index / 8 < bitmap.len()
    &&& bitmap[(index / 8) as int] & (1u8 << ((index % 8) as u8)) != 0
}

proof fn lemma_or_sets_bit(b: u8, k: u8)
    requires
        k < 8,
    ensures
        (b | (1u8 << k)) & (1u8 << k) != 0,
{
    assert((b | (1u8 << k)) & (1u8 << k) != 0) by (bit_vector)
        requires
            k < 8,
    ;
}

proof fn lemma_or_keeps_bit(b: u8, o: u8, m: u8)
    requires
        b & m != 0 || o & m != 0,
    ensures
        (b | o) & m != 0,
{
    assert((b | o) & m != 0) by (bit_vector)
        requires
            b & m != 0 || o & m != 0,
    ;
}

/// Setting an authority's bit sets it, when the bitmap reaches that far, and keeps every bit
/// that was set.
pub proof fn lemma_with_author_bit(bitmap: Seq<u8>, index: nat)
    ensures
        index / 8 < bitmap.len() ==> has_author_bit(with_author_bit(bitmap, index), index),
        with_author_bit(bitmap, index).len() == bitmap.len(),
        forall|j: nat| has_author_bit(bitmap, j) ==> #[trigger] has_author_bit(with_author_bit(bitmap, index), j),
{
    let n = with_author_bit(bitmap, index);
    if index / 8 < bitmap.len() {
        let k = (index % 8) as u8;
        lemma_or_sets_bit(bitmap[(index / 8) as int], k);
        assert forall|j: nat| has_author_bit(bitmap, j) implies #[trigger] has_author_bit(n, j) by {
            if j / 8 == index / 8 {
                lemma_or_keeps_bit(bitmap[(j / 8) as int], 1u8 << k, 1u8 << ((j % 8) as u8));
            }
        }
    }
}

/// Merging in another bitmap keeps every bit that was set, and sets each bit of `other` that
/// falls inside the bitmap.
pub proof fn lemma_merged_bitmap(bitmap: Seq<u8>, other: Seq<u8>)
    ensures
        merged_bitmap(bitmap, other).len() == bitmap.len(),
        forall|j: nat| has_author_bit(bitmap, j) ==> #[trigger] has_author_bit(merged_bitmap(bitmap, other), j),
        forall|j: nat| j / 8 < bitmap.len() && has_author_bit(other, j) ==> #[trigger] has_author_bit(merged_bitmap(bitmap, other), j),
{
    let n = merged_bitmap(bitmap, other);
    assert forall|j: nat| has_author_bit(bitmap, j) implies #[trigger] has_author_bit(n, j) by {
        let i = (j / 8) as int;
        let o: u8 = if i < other.len() { other[i] } else { 0u8 };
        lemma_or_keeps_bit(bitmap[i], o, 1u8 << ((j % 8) as u8));
    }
    assert forall|j: nat| j / 8 < bitmap.len() && has_author_bit(other, j) implies #[trigger] has_author_bit(n, j) by {
        let i = (j / 8) as int;
        let m = 1u8 << ((j % 8) as u8);
        lemma_or_keeps_bit(bitmap[i], other[i], m);
    }
}

/// Sets the bit of the authority at `index`.
pub fn set_author_bit(bitmap: &mut Vec<u8>, index: usize)
    ensures
        final(bitmap)@ == with_author_bit(old(bitmap)@, index as nat),
{
    let byte = index / 8;
    if byte < bitmap.len() {
        let shift = (index % 8) as u8;
        let value = bitmap[byte] | (1u8 << shift);
        bitmap.set(byte, value);
    }
}

/// The bitmap with every bit of `other` added; bytes of `other` beyond the bitmap are dropped.
pub open spec fn merged_bitmap(bitmap: Seq<u8>, other: Seq<u8>) -> Seq<u8> {
    Seq::new(
        bitmap.len(),
        |i: int|
            bitmap[i] | if i < other.len() {
                other[i]
            } else {
                0u8
            },
    )
}

/// Adds every bit of `other` to `bitmap`.
pub fn merge_author_bitmaps(bitmap: &mut Vec<u8>, other: &Vec<u8>)
    ensures
        final(bitmap)@ == merged_bitmap(old(bitmap)@, other@),
{
    let mut i: usize = 0;
    while i < bitmap.len()
        invariant
            i <= bitmap.len(),
            bitmap@.len() == old(bitmap)@.len(),
            forall|j: int| 0 <= j < i ==> bitmap@[j] == merged_bitmap(old(bitmap)@, other@)[j],
            forall|j: int| i <= j < bitmap@.len() ==> bitmap@[j] == old(bitmap)@[j],
        decreases bitmap.len() - i,
    {
        let extra: u8 = if i < other.len() {
            other[i]
        } else {
            0
        };
        let value = bitmap[i] | extra;
        bitmap.set(i, value);
        i = i + 1;
    }
    assert(bitmap@ =~= merged_bitmap(old(bitmap)@, other@));
}

/// A bitmap of `len` zero bytes.
pub fn zero_bitmap(len: usize) -> (r: Vec<u8>)
    ensures
        r@ == Seq::new(len as nat, |i: int| 0u8),
{
    let mut r: Vec<u8> = Vec::new();
    let mut i: usize = 0;
    while i < len
        invariant
            i <= len,
            r@ == Seq::new(i as nat, |k: int| 0u8),
        decreases len - i,
    {
        r.push(0);
        i = i + 1;
        assert(r@ =~= Seq::new(i as nat, |k: int| 0u8));
    }
    r
}

/// The number of set bits of `b`.
pub open spec fn ones(b: nat) -> nat
    decreases b,
{
    if b == 0 {
        0
    } else {
        b % 2 + ones(b / 2)
    }
}

/// The number of set bits of a bitmap.
pub open spec fn popcount(bitmap: Seq<u8>) -> nat
    decreases bitmap.len(),
{
    if bitmap.len() == 0 {
        0
    } else {
        popcount(bitmap.drop_last()) + ones(bitmap.last() as nat)
    }
}

proof fn lemma_ones_le(b: nat)
    ensures
        ones(b) <= b,
    decreases b,
{
    if b > 0 {
        lemma_ones_le(b / 2);
    }
}

proof fn lemma_popcount_prefix(bitmap: Seq<u8>, i: int)
    requires
        0 <= i <= bitmap.len(),
    ensures
        popcount(bitmap.subrange(0, i)) <= popcount(bitmap),
    decreases bitmap.len(),
{
    if i < bitmap.len() {
        lemma_popcount_prefix(bitmap.drop_last(), i);
        assert(bitmap.drop_last().subrange(0, i) =~= bitmap.subrange(0, i));
    } else {
        assert(bitmap.subrange(0, i) =~= bitmap);
    }
}

/// The number of set bits of one byte.
pub fn byte_ones(b: u8) -> (r: usize)
    ensures
        r == ones(b as nat),
{
    let mut x: u8 = b;
    let mut count: usize = 0;
    proof {
        lemma_ones_le(b as nat);
    }
    while x > 0
        invariant
            count + ones(x as nat) == ones(b as nat),
            ones(b as nat) <= 255,
        decreases x,
    {
        count = count + (x % 2) as usize;
        x = x / 2;
    }
    count
}

/// The number of set bits of a bitmap.
pub fn bitmap_popcount(bitmap: &Vec<u8>) -> (r: usize)
    requires
        popcount(bitmap@) <= usize::MAX,
    ensures
        r == popcount(bitmap@),
{
    let mut total: usize = 0;
    let mut i: usize = 0;
    while i < bitmap.len()
        invariant
            i <= bitmap.len(),
            total == popcount(bitmap@.subrange(0, i as int)),
            popcount(bitmap@) <= usize::MAX,
        decreases bitmap.len() - i,
    {
        proof {
            let next = bitmap@.subrange(0, i as int + 1);
            assert(next.drop_last() =~= bitmap@.subrange(0, i as int));
            lemma_popcount_prefix(bitmap@, i as int + 1);
        }
        total = total + byte_ones(bitmap[i]);
        i = i + 1;
    }
    assert(bitmap@.subrange(0, bitmap.len() as int) =~= bitmap@);
    total
}

} // verus!
