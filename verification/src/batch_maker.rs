//! The choice of the workers a batch is broadcast to: a window of the workers that rotates
//! over successive batches.

use crate::types::{PublicKey, WorkerId};
use vstd::prelude::*;

verus! {

/// Seals batches and picks the workers they are broadcast to.
pub struct BatchMaker;

impl BatchMaker {
    /// Picks `count` workers (all of them when there are fewer), starting at position
    /// `start` (taken modulo the number of workers) and wrapping around; returns their names
    /// and addresses, and the position to start from next time.
    pub fn select_workers_for_broadcast<A: Copy>(
        workers: &Vec<(PublicKey, WorkerId, A)>,
        count: usize,
        start: usize,
    ) -> (r: (Vec<(PublicKey, A)>, usize))
        ensures
            workers.len() == 0 ==> r.0@.len() == 0 && r.1 == 0,
            workers.len() > 0 ==> {
                let n = workers.len() as int;
                let k = if count < n { count as int } else { n };
                let s = start as int % n;
                &&& r.0@.len() == k
                &&& forall|i: int|
                    0 <= i < k ==> #[trigger] r.0@[i] == (workers@[(s + i) % n].0, workers@[(s + i) % n].2)
                &&& r.1 == (s + k) % n
            },
    {
        let n = workers.len();
        let mut selected: Vec<(PublicKey, A)> = Vec::new();
        if n == 0 {
            return (selected, 0);
        }
        let k = if count < n {
            count
        } else {
            n
        };
        let s = start % n;
        let mut i: usize = 0;
        let mut pos: usize = s;
        proof {
            vstd::arithmetic::div_mod::lemma_small_mod(s as nat, n as nat);
        }
        while i < k
            invariant
                n == workers.len(),
                n > 0,
                k <= n,
                s < n,
                s as int == start as int % n as int,
                i <= k,
                pos < n,
                pos as int == (s + i) % (n as int),
                selected@.len() == i,
                forall|j: int|
                    0 <= j < i ==> #[trigger] selected@[j] == (workers@[(s + j) % (n as int)].0, workers@[(s + j) % (
                    n as int)].2),
            decreases k - i,
        {
            let w = workers[pos];
            selected.push((w.0, w.2));
            proof {
                let m = n as int;
                let x = s + i;
                if x < m {
                    vstd::arithmetic::div_mod::lemma_small_mod(x as nat, m as nat);
                    if x + 1 < m {
                        vstd::arithmetic::div_mod::lemma_small_mod((x + 1) as nat, m as nat);
                    } else {
                        vstd::arithmetic::div_mod::lemma_mod_multiples_vanish(1, 0, m);
                    }
                } else {
                    vstd::arithmetic::div_mod::lemma_mod_multiples_vanish(1, x - m, m);
                    vstd::arithmetic::div_mod::lemma_mod_multiples_vanish(1, x + 1 - m, m);
                    vstd::arithmetic::div_mod::lemma_small_mod((x - m) as nat, m as nat);
                    vstd::arithmetic::div_mod::lemma_small_mod((x + 1 - m) as nat, m as nat);
                }
                assert((s + i + 1) % m == if pos + 1 == n { 0 } else { pos + 1 });
            }
            pos = if pos + 1 == n {
                0
            } else {
                pos + 1
            };
            i = i + 1;
        }
        (selected, pos)
    }
}

} // verus!
