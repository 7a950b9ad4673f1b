//! Pairs of adjacent symbols and how often they occur in a buffer.

use vstd::prelude::*;

verus! {

/// An ordered pair of two adjacent symbols, the unit of substitution.
#[derive(Clone, Copy, PartialEq, Eq, Structural, Debug, Hash)]
pub struct Pair(pub u8, pub u8);

/// Total order on pairs: first symbol major, second symbol minor.
/// Used only to make tie-breaks among equally frequent pairs deterministic.
pub open spec fn pair_rank(p: Pair) -> int {
    p.0 as int * 256 + p.1 as int
}

/// The pair `p` stands at position `i` of `s`.
pub open spec fn pair_at(s: Seq<u8>, p: Pair, i: int) -> bool {
    0 <= i && i + 1 < s.len() && s[i] == p.0 && s[i + 1] == p.1
}

/// The pair `p` occurs somewhere in `s`.
pub open spec fn has_pair(s: Seq<u8>, p: Pair) -> bool {
    exists|i: int| pair_at(s, p, i)
}

/// How many positions of `s` the pair `p` stands at (occurrences may overlap).
pub open spec fn pair_count(s: Seq<u8>, p: Pair) -> nat
    decreases s.len(),
{
    if s.len() < 2 {
        0
    } else {
        pair_count(s.drop_last(), p) + if s[s.len() - 2] == p.0 && s[s.len() - 1] == p.1 {
            1nat
        } else {
            0nat
        }
    }
}

/// Two pairs of the same rank are the same pair.
pub proof fn lemma_pair_rank_injective(p: Pair, q: Pair)
    requires
        pair_rank(p) == pair_rank(q),
    ensures
        p == q,
{
    assert(p.0 == q.0 && p.1 == q.1) by {
        assert(256 * (p.0 as int - q.0 as int) == q.1 as int - p.1 as int);
    }
}

/// A pair stands at no position of a buffer shorter than two symbols,
/// and at fewer positions than the buffer has symbols otherwise.
pub proof fn lemma_pair_count_le(s: Seq<u8>, p: Pair)
    ensures
        s.len() < 2 ==> pair_count(s, p) == 0,
        s.len() >= 1 ==> pair_count(s, p) < s.len(),
    decreases s.len(),
{
    if s.len() >= 2 {
        lemma_pair_count_le(s.drop_last(), p);
    }
}

/// Extending a prefix of `s` by one symbol adds one occurrence of `p` exactly
/// when `p` stands at the position the new symbol completes.
pub proof fn lemma_pair_count_extend(s: Seq<u8>, i: int)
    requires
        0 <= i,
        i + 2 <= s.len(),
    ensures
        forall|p: Pair|
            #[trigger] pair_count(s.take(i + 2), p) == pair_count(s.take(i + 1), p) + if s[i] == p.0
                && s[i + 1] == p.1 {
                1nat
            } else {
                0nat
            },
{
    assert(s.take(i + 2).drop_last() =~= s.take(i + 1));
    assert forall|p: Pair|
        #[trigger] pair_count(s.take(i + 2), p) == pair_count(s.take(i + 1), p) + if s[i] == p.0
            && s[i + 1] == p.1 {
            1nat
        } else {
            0nat
        } by {
        assert(s.take(i + 2).len() == i + 2);
        assert(s.take(i + 2)[i] == s[i]);
        assert(s.take(i + 2)[i + 1] == s[i + 1]);
    }
}

/// A pair counted at least once occurs somewhere.
pub proof fn lemma_pair_count_pos(s: Seq<u8>, p: Pair)
    requires
        pair_count(s, p) > 0,
    ensures
        has_pair(s, p),
    decreases s.len(),
{
    if s.len() >= 2 {
        if s[s.len() - 2] == p.0 && s[s.len() - 1] == p.1 {
            assert(pair_at(s, p, s.len() - 2));
        } else {
            lemma_pair_count_pos(s.drop_last(), p);
            let i = choose|i: int| pair_at(s.drop_last(), p, i);
            assert(pair_at(s, p, i));
        }
    }
}

} // verus!
