//! The frequency table: occurrence counts of every adjacent pair of one
//! buffer snapshot, and the deterministic choice of the most frequent pair.

use vstd::prelude::*;

use crate::pair::{lemma_pair_count_extend, lemma_pair_count_le, pair_count, pair_rank, Pair};

verus! {

/// The number of distinct pairs: every pair has a rank below this bound.
pub open spec fn rank_bound() -> int {
    65536
}

/// Occurrence counts of every adjacent pair for one fixed buffer snapshot.
/// The count of a pair sits at the index of the pair's rank.
pub struct CountsTable {
    counts: Vec<usize>,
}

impl CountsTable {
    /// The table has one slot for every possible pair.
    pub closed spec fn wf(self) -> bool {
        self.counts@.len() == rank_bound()
    }

    /// The recorded count of one pair.
    pub closed spec fn count(self, p: Pair) -> nat {
        self.counts@[pair_rank(p)] as nat
    }

    /// The pair `p` is at least as frequent as every pair in the table, and
    /// of the pairs that share its count it has the greatest rank. At most
    /// one pair satisfies this, which makes the choice deterministic.
    pub open spec fn is_top(self, p: Pair) -> bool {
        forall|q: Pair|
            #[trigger] self.count(q) < self.count(p) || (self.count(q) == self.count(p)
                && pair_rank(q) <= pair_rank(p))
    }

    /// Create a frequency table from input bytes: every adjacent position
    /// of the buffer is counted under the pair that stands there.
    pub fn new(bytes: &[u8]) -> (t: Self)
        ensures
            t.wf(),
            forall|p: Pair| #[trigger] t.count(p) == pair_count(bytes@, p),
    {
        let mut counts: Vec<usize> = Vec::new();
        let mut k: usize = 0;
        while k < 65536
            invariant
                k <= 65536,
                counts@.len() == k,
                forall|j: int| 0 <= j < k ==> counts@[j] == 0,
            decreases 65536 - k,
        {
            counts.push(0);
            k += 1;
        }
        proof {
            assert forall|p: Pair| 0 <= #[trigger] pair_rank(p) < rank_bound() by {}
        }
        if bytes.len() >= 2 {
            let mut i: usize = 0;
            proof {
                assert forall|p: Pair| #[trigger] pair_count(bytes@.take(1), p) == 0 by {
                    lemma_pair_count_le(bytes@.take(1), p);
                }
            }
            while i < bytes.len() - 1
                invariant
                    bytes@.len() >= 2,
                    i <= bytes@.len() - 1,
                    counts@.len() == rank_bound(),
                    forall|p: Pair|
                        counts@[#[trigger] pair_rank(p)] == pair_count(bytes@.take(i + 1), p),
                decreases bytes@.len() - i,
            {
                let a = bytes[i];
                let b = bytes[i + 1];
                let idx: usize = (a as usize) * 256 + (b as usize);
                proof {
                    assert(pair_rank(Pair(a, b)) == idx);
                    lemma_pair_count_le(bytes@.take(i + 1), Pair(a, b));
                    lemma_pair_count_extend(bytes@, i as int);
                }
                let c = counts[idx];
                counts[idx] = c + 1;
                proof {
                    assert forall|p: Pair|
                        counts@[#[trigger] pair_rank(p)] == pair_count(
                            bytes@.take(i + 2),
                            p,
                        ) by {
                        if pair_rank(p) == idx {
                            crate::pair::lemma_pair_rank_injective(p, Pair(a, b));
                        }
                    }
                }
                i += 1;
            }
            proof {
                assert(bytes@.take(bytes@.len() - 1 + 1) =~= bytes@);
            }
            CountsTable { counts }
        } else {
            proof {
                assert forall|p: Pair| #[trigger] pair_count(bytes@, p) == 0 by {
                    lemma_pair_count_le(bytes@, p);
                }
            }
            CountsTable { counts }
        }
    }

    /// The most frequent pair, provided it occurs more than once; ties go to
    /// the pair of greatest rank, so the result is deterministic. A pair that
    /// occurs once or not at all yields nothing: substituting it saves nothing.
    pub fn top_pair(&self) -> (r: Option<Pair>)
        requires
            self.wf(),
        ensures
            match r {
                Some(p) => self.count(p) > 1 && self.is_top(p),
                None => forall|q: Pair| #[trigger] self.count(q) <= 1,
            },
    {
        let mut best_idx: usize = 0;
        let mut best_count: usize = 0;
        let mut j: usize = 0;
        while j < 65536
            invariant
                self.wf(),
                j <= 65536,
                best_idx < 65536,
                j > 0 ==> self.counts@[best_idx as int] == best_count,
                j == 0 ==> best_count == 0,
                forall|k: int|
                    0 <= k < j ==> #[trigger] self.counts@[k] <= best_count && (self.counts@[k]
                        == best_count ==> k <= best_idx),
            decreases 65536 - j,
        {
            if self.counts[j] >= best_count {
                best_idx = j;
                best_count = self.counts[j];
            }
            j += 1;
        }
        if best_count > 1 {
            let a: u8 = (best_idx / 256) as u8;
            let b: u8 = (best_idx % 256) as u8;
            proof {
                assert(best_idx / 256 < 256);
                assert(pair_rank(Pair(a, b)) == best_idx);
                assert forall|q: Pair|
                    #[trigger] self.count(q) < self.count(Pair(a, b)) || (self.count(q)
                        == self.count(Pair(a, b)) && pair_rank(q) <= pair_rank(Pair(a, b))) by {
                    assert(0 <= pair_rank(q) < rank_bound());
                }
            }
            Some(Pair(a, b))
        } else {
            None
        }
    }
}

} // verus!
