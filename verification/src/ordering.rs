//! Sorting certificates by round.

use crate::types::{Certificate, CertificateView};
use vstd::prelude::*;

verus! {

/// The values of a sequence of certificates.
pub open spec fn views(v: Seq<Certificate>) -> Seq<CertificateView> {
    v.map_values(|c: Certificate| c@)
}

/// Rounds never decrease along `s`.
pub open spec fn sorted_by_round(s: Seq<CertificateView>) -> bool {
    forall|i: int, j: int| 0 <= i < j < s.len() ==> s[i].round() <= s[j].round()
}

/// No two certificates of `s` share a digest.
pub open spec fn distinct_digests(s: Seq<CertificateView>) -> bool {
    forall|i: int, j: int| 0 <= i < j < s.len() ==> s[i].digest != s[j].digest
}

/// `perm` maps the positions of `r` one to one onto the positions of `v`, and each certificate
/// of `r` is the one of `v` at the mapped position.
pub open spec fn permutes(r: Seq<CertificateView>, v: Seq<CertificateView>, perm: Seq<int>, inv: Seq<int>) -> bool {
    &&& r.len() == v.len()
    &&& perm.len() == v.len()
    &&& forall|k: int| 0 <= k < r.len() ==> 0 <= #[trigger] perm[k] < v.len() && r[k] == v[perm[k]]
    &&& forall|k: int, l: int| 0 <= k < r.len() && 0 <= l < r.len() && k != l ==> #[trigger] perm[k] != #[trigger] perm[l]
    &&& inv.len() == v.len()
    &&& forall|j: int| 0 <= j < v.len() ==> 0 <= #[trigger] inv[j] < r.len() && perm[inv[j]] == j
}

/// `s` with `c` inserted before the first certificate of a later round.
pub open spec fn insert_by_round(s: Seq<CertificateView>, c: CertificateView) -> Seq<CertificateView>
    decreases s.len(),
{
    if s.len() == 0 {
        seq![c]
    } else if s[0].round() > c.round() {
        seq![c] + s
    } else {
        seq![s[0]] + insert_by_round(s.drop_first(), c)
    }
}

/// `x` sorted by round, certificates of the same round in their order in `x`.
pub open spec fn stable_sort_by_round(x: Seq<CertificateView>) -> Seq<CertificateView>
    decreases x.len(),
{
    if x.len() == 0 {
        Seq::empty()
    } else {
        insert_by_round(stable_sort_by_round(x.drop_last()), x.last())
    }
}

/// Inserting at the first position of a later round is `insert_by_round`.
proof fn lemma_insert_by_round(s: Seq<CertificateView>, p: int, c: CertificateView)
    requires
        0 <= p <= s.len(),
        forall|a: int| 0 <= a < p ==> s[a].round() <= c.round(),
        p < s.len() ==> s[p].round() > c.round(),
    ensures
        insert_by_round(s, c) == s.insert(p, c),
    decreases s.len(),
{
    if s.len() == 0 {
        assert(s.insert(p, c) =~= seq![c]);
    } else if p == 0 {
        assert(s.insert(p, c) =~= seq![c] + s);
    } else {
        let t = s.drop_first();
        assert forall|a: int| 0 <= a < p - 1 implies t[a].round() <= c.round() by {
            assert(t[a] == s[a + 1]);
        }
        if p < s.len() {
            assert(t[p - 1] == s[p]);
        }
        lemma_insert_by_round(t, p - 1, c);
        assert(s.insert(p, c) =~= seq![s[0]] + t.insert(p - 1, c));
    }
}

spec fn rounds_sorted(v: Seq<Certificate>) -> bool {
    forall|i: int, j: int| 0 <= i < j < v.len() ==> v[i].header.round <= v[j].header.round
}

proof fn lemma_insert_sorted(out0: Seq<Certificate>, p: int, x: Certificate)
    requires
        rounds_sorted(out0),
        0 <= p <= out0.len(),
        forall|a: int| 0 <= a < p ==> out0[a].header.round <= x.header.round,
        p < out0.len() ==> out0[p].header.round > x.header.round,
    ensures
        rounds_sorted(out0.insert(p, x)),
{
    let out = out0.insert(p, x);
    out0.insert_ensures(p, x);
    assert forall|a: int, b: int| 0 <= a < b < out.len() implies out[a].header.round <= out[b].header.round by {
        if a < p && b > p {
            assert(out[a] == out0[a]);
            assert(out[b] == out0[b - 1]);
        } else if a == p {
            assert(out[b] == out0[b - 1]);
            assert(out0[p].header.round <= out0[b - 1].header.round);
        } else if b == p {
            assert(out[a] == out0[a]);
        } else if a > p {
            assert(out[a] == out0[a - 1]);
            assert(out[b] == out0[b - 1]);
        } else {
            assert(out[a] == out0[a]);
            assert(out[b] == out0[b]);
        }
    }
}

proof fn lemma_permuted(out: Seq<Certificate>, v: Seq<Certificate>, perm: Seq<int>, inv: Seq<int>)
    requires
        out.len() == v.len(),
        perm.len() == v.len(),
        inv.len() == v.len(),
        rounds_sorted(out),
        forall|k: int| 0 <= k < v.len() ==> 0 <= #[trigger] perm[k] < v.len() && out[k]@ == v[perm[k]]@,
        forall|k: int, l: int| 0 <= k < v.len() && 0 <= l < v.len() && k != l ==> #[trigger] perm[k] != #[trigger] perm[l],
        forall|j: int| 0 <= j < v.len() ==> 0 <= #[trigger] inv[j] < v.len() && perm[inv[j]] == j,
    ensures
        sorted_by_round(views(out)),
        permutes(views(out), views(v), perm, inv),
        distinct_digests(views(v)) ==> distinct_digests(views(out)),
{
    let rv = views(out);
    let vv = views(v);
    assert forall|a: int, b: int| 0 <= a < b < rv.len() implies rv[a].round() <= rv[b].round() by {
        assert(out[a].header.round <= out[b].header.round);
    }
    if distinct_digests(vv) {
        assert forall|a: int, b: int| 0 <= a < b < rv.len() implies rv[a].digest != rv[b].digest by {
            assert(perm[a] != perm[b]);
            assert(rv[a] == vv[perm[a]]);
            assert(rv[b] == vv[perm[b]]);
            if perm[a] < perm[b] {
                assert(vv[perm[a]].digest != vv[perm[b]].digest);
            } else {
                assert(vv[perm[b]].digest != vv[perm[a]].digest);
            }
        }
    }
}

/// Sorts certificates by round; certificates of the same round keep their order.
pub fn sort_by_round(v: &Vec<Certificate>) -> (r: (Vec<Certificate>, Ghost<(Seq<int>, Seq<int>)>))
    ensures
        views(r.0@) == stable_sort_by_round(views(v@)),
        sorted_by_round(views(r.0@)),
        permutes(views(r.0@), views(v@), r.1@.0, r.1@.1),
        distinct_digests(views(v@)) ==> distinct_digests(views(r.0@)),
{
    let mut out: Vec<Certificate> = Vec::new();
    let ghost mut perm: Seq<int> = Seq::empty();
    let ghost mut inv: Seq<int> = Seq::empty();
    let mut i: usize = 0;
    while i < v.len()
        invariant
            i <= v.len(),
            out@.len() == i,
            perm.len() == i,
            inv.len() == i,
            rounds_sorted(out@),
            views(out@) == stable_sort_by_round(views(v@).subrange(0, i as int)),
            forall|k: int| 0 <= k < i ==> 0 <= #[trigger] perm[k] < i && out@[k]@ == v@[perm[k]]@,
            forall|k: int, l: int| 0 <= k < i && 0 <= l < i && k != l ==> #[trigger] perm[k] != #[trigger] perm[l],
            forall|j: int| 0 <= j < i ==> 0 <= #[trigger] inv[j] < i && perm[inv[j]] == j,
        decreases v.len() - i,
    {
        let x = v[i].copy();
        let round = x.header.round;
        let mut p: usize = 0;
        while p < out.len() && out[p].header.round <= round
            invariant
                p <= out@.len(),
                forall|k: int| 0 <= k < p ==> out@[k].header.round <= round,
            decreases out@.len() - p,
        {
            p = p + 1;
        }
        let ghost out0 = out@;
        let ghost xv = x;
        out.insert(p, x);
        proof {
            let ov = views(out0);
            assert forall|a: int| 0 <= a < p implies ov[a].round() <= xv@.round() by {}
            lemma_insert_by_round(ov, p as int, xv@);
            assert(views(out@) =~= ov.insert(p as int, xv@));
            assert(views(v@).subrange(0, i as int + 1).drop_last() =~= views(v@).subrange(0, i as int));
            assert(views(v@).subrange(0, i as int + 1).last() == xv@);
            lemma_insert_sorted(out0, p as int, xv);
            out0.insert_ensures(p as int, xv);
            let perm0 = perm;
            let inv0 = inv;
            perm = perm0.insert(p as int, i as int);
            perm0.insert_ensures(p as int, i as int);
            inv = Seq::new((i + 1) as nat, |j: int| if j == i { p as int } else if inv0[j] >= p { inv0[j] + 1 } else { inv0[j] });
            assert forall|k: int| 0 <= k < i + 1 implies 0 <= #[trigger] perm[k] < i + 1 && out@[k]@ == v@[perm[k]]@ by {
                if k < p {
                    assert(perm[k] == perm0[k]);
                    assert(out@[k] == out0[k]);
                } else if k > p {
                    assert(perm[k] == perm0[k - 1]);
                    assert(out@[k] == out0[k - 1]);
                }
            }
            assert forall|k: int, l: int| 0 <= k < i + 1 && 0 <= l < i + 1 && k != l implies #[trigger] perm[k] != #[trigger] perm[l] by {
                let k0 = if k < p { k } else { k - 1 };
                let l0 = if l < p { l } else { l - 1 };
                if k != p && l != p {
                    assert(perm[k] == perm0[k0]);
                    assert(perm[l] == perm0[l0]);
                } else if k == p {
                    assert(perm[l] == perm0[l0]);
                } else {
                    assert(perm[k] == perm0[k0]);
                }
            }
            assert forall|j: int| 0 <= j < i + 1 implies 0 <= #[trigger] inv[j] < i + 1 && perm[inv[j]] == j by {
                if j < i {
                    let q = inv0[j];
                    if q >= p {
                        assert(perm[q + 1] == perm0[q]);
                    } else {
                        assert(perm[q] == perm0[q]);
                    }
                }
            }
        }
        i = i + 1;
    }
    proof {
        lemma_permuted(out@, v@, perm, inv);
        assert(views(v@).subrange(0, v@.len() as int) =~= views(v@));
    }
    (out, Ghost((perm, inv)))
}

} // verus!
