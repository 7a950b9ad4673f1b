//! The compression driver: repeatedly pick the most frequent pair, allocate
//! a fresh id, substitute, and record the step, until no pair occurs more
//! than once or the id range is exhausted.

use vstd::prelude::*;

use crate::allocator::{get_unused_byte, lemma_unused_byte_absent, range_lo, unused_byte};
use crate::counts::CountsTable;
use crate::expand::{expand_seq, lemma_expand_pair_replace, lemma_expand_seq_prepend};
use crate::pair::{lemma_pair_count_pos, lemma_pair_rank_injective, pair_count, pair_rank, Pair};
use crate::replace::{lemma_replace_len, lemma_replace_shrinks, replace, replace_seq};

verus! {

/// The pair that one compression step substitutes: it occurs more than once,
/// no pair occurs more often, and of the pairs that tie with it, it has the
/// greatest rank.
pub open spec fn is_top_pair(s: Seq<u8>, p: Pair) -> bool {
    pair_count(s, p) > 1 && forall|q: Pair|
        #[trigger] pair_count(s, q) < pair_count(s, p) || (pair_count(s, q) == pair_count(s, p)
            && pair_rank(q) <= pair_rank(p))
}

/// At most one pair is the top pair of a buffer.
pub proof fn lemma_top_pair_unique(s: Seq<u8>, p: Pair, q: Pair)
    requires
        is_top_pair(s, p),
        is_top_pair(s, q),
    ensures
        p == q,
{
    assert(pair_count(s, p) == pair_count(s, q));
    assert(pair_rank(p) == pair_rank(q));
    lemma_pair_rank_injective(p, q);
}

/// The pair one compression step substitutes, if any pair occurs more than
/// once.
pub open spec fn top_pair_of(s: Seq<u8>) -> Option<Pair> {
    if exists|p: Pair| is_top_pair(s, p) {
        Some(choose|p: Pair| is_top_pair(s, p))
    } else {
        None
    }
}

/// What compression produces on `s`: the final buffer and the ordered
/// replacement table. Each step substitutes the top pair with the smallest
/// unused symbol of the reserved range and records the step; compression
/// halts when no pair occurs more than once, and equally when a qualifying
/// pair remains but the id range is exhausted, since the buffer would never
/// change again.
pub open spec fn compress_seq(s: Seq<u8>) -> (Seq<u8>, Seq<(Pair, u8)>)
    decreases s.len(),
    via compress_seq_decreases
{
    match top_pair_of(s) {
        None => (s, Seq::empty()),
        Some(p) => match unused_byte(s) {
            None => (s, Seq::empty()),
            Some(id) => {
                let rest = compress_seq(replace_seq(s, p, id));
                (rest.0, seq![(p, id)] + rest.1)
            },
        },
    }
}

#[via_fn]
proof fn compress_seq_decreases(s: Seq<u8>) {
    if top_pair_of(s) is Some {
        let p = top_pair_of(s)->Some_0;
        assert(is_top_pair(s, p));
        if unused_byte(s) is Some {
            let id = unused_byte(s)->Some_0;
            lemma_pair_count_pos(s, p);
            lemma_replace_shrinks(s, p, id);
        }
    }
}

/// A buffer in which no pair occurs more than once compresses to itself,
/// with an empty table: there is no substitution worth making.
pub proof fn lemma_compress_halted(s: Seq<u8>)
    requires
        forall|q: Pair| #[trigger] pair_count(s, q) <= 1,
    ensures
        compress_seq(s) == (s, Seq::<(Pair, u8)>::empty()),
{
    assert(forall|p: Pair| !is_top_pair(s, p));
}

/// The compressed buffer and the table together never hold more entries
/// than the input has symbols: every step shrinks the buffer by at least
/// one symbol while the table grows by one entry, so compression halts and
/// makes at most as many substitution steps as the input has symbols.
pub proof fn lemma_compress_bound(s: Seq<u8>)
    ensures
        compress_seq(s).0.len() + compress_seq(s).1.len() <= s.len(),
        s.len() >= 1 ==> compress_seq(s).0.len() >= 1,
    decreases s.len(),
{
    match top_pair_of(s) {
        None => {},
        Some(p) => {
            assert(is_top_pair(s, p));
            match unused_byte(s) {
                None => {},
                Some(id) => {
                    lemma_pair_count_pos(s, p);
                    lemma_replace_shrinks(s, p, id);
                    lemma_replace_len(s, p, id);
                    lemma_compress_bound(replace_seq(s, p, id));
                },
            }
        },
    }
}

/// Expanding what compression produced restores the input exactly, for
/// every input: each step's id was absent from the buffer the step was made
/// on, so replaying the table in reverse undoes the steps one by one.
pub proof fn lemma_round_trip(s: Seq<u8>)
    ensures
        expand_seq(compress_seq(s).0, compress_seq(s).1) == s,
    decreases s.len(),
{
    match top_pair_of(s) {
        None => {},
        Some(p) => {
            assert(is_top_pair(s, p));
            match unused_byte(s) {
                None => {},
                Some(id) => {
                    lemma_pair_count_pos(s, p);
                    lemma_replace_shrinks(s, p, id);
                    lemma_unused_byte_absent(s, range_lo());
                    let shrunk = replace_seq(s, p, id);
                    let rest = compress_seq(shrunk);
                    lemma_round_trip(shrunk);
                    lemma_expand_seq_prepend(rest.0, (p, id), rest.1);
                    lemma_expand_pair_replace(s, p, id);
                },
            }
        },
    }
}

/// Compression is deterministic: its result is a function of the input
/// alone, so any two results obtained from the same input are identical,
/// buffer and table both.
pub proof fn lemma_compress_deterministic(
    s: Seq<u8>,
    r1: (Seq<u8>, Seq<(Pair, u8)>),
    r2: (Seq<u8>, Seq<(Pair, u8)>),
)
    requires
        r1 == compress_seq(s),
        r2 == compress_seq(s),
    ensures
        r1 == r2,
{
}

/// Compress a buffer: substitute the most frequent pair (ties broken by
/// rank) with the smallest symbol of the reserved range that the buffer
/// does not use, record the step, and repeat on the result until no pair
/// occurs more than once or the range is exhausted. Returns the final
/// buffer and the ordered replacement table; expanding the two restores
/// the input. Inputs shorter than two symbols come back unchanged with an
/// empty table.
pub fn compress(input: &[u8]) -> (r: (Vec<u8>, Vec<(Pair, u8)>))
    ensures
        r.0@ == compress_seq(input@).0,
        r.1@ == compress_seq(input@).1,
        expand_seq(r.0@, r.1@) == input@,
        r.0@.len() + r.1@.len() <= input@.len(),
        input@.len() < 2 ==> r.0@ == input@ && r.1@.len() == 0,
{
    let mut bytes: Vec<u8> = vstd::slice::slice_to_vec(input);
    let mut table: Vec<(Pair, u8)> = Vec::new();
    let mut done = false;
    proof {
        assert(table@ + compress_seq(bytes@).1 =~= compress_seq(bytes@).1);
    }
    while !done
        invariant
            compress_seq(input@).0 == compress_seq(bytes@).0,
            compress_seq(input@).1 == table@ + compress_seq(bytes@).1,
            done ==> compress_seq(bytes@) == (bytes@, Seq::<(Pair, u8)>::empty()),
        decreases bytes@.len() + if done {
            0int
        } else {
            1int
        },
    {
        let counts = CountsTable::new(bytes.as_slice());
        match counts.top_pair() {
            None => {
                done = true;
                proof {
                    assert forall|q: Pair| !is_top_pair(bytes@, q) by {
                        assert(counts.count(q) == pair_count(bytes@, q));
                    }
                }
            },
            Some(p) => {
                proof {
                    assert(counts.count(p) == pair_count(bytes@, p));
                    assert forall|q: Pair|
                        #[trigger] pair_count(bytes@, q) < pair_count(bytes@, p) || (pair_count(
                            bytes@,
                            q,
                        ) == pair_count(bytes@, p) && pair_rank(q) <= pair_rank(p)) by {
                        assert(counts.count(q) == pair_count(bytes@, q));
                        assert(counts.count(q) < counts.count(p) || (counts.count(q)
                            == counts.count(p) && pair_rank(q) <= pair_rank(p)));
                    }
                    assert(is_top_pair(bytes@, p));
                    let chosen = choose|q: Pair| is_top_pair(bytes@, q);
                    lemma_top_pair_unique(bytes@, p, chosen);
                    assert(top_pair_of(bytes@) == Some(p));
                }
                match get_unused_byte(bytes.as_slice()) {
                    None => {
                        done = true;
                    },
                    Some(id) => {
                        let ghost old_bytes = bytes@;
                        let ghost old_table = table@;
                        proof {
                            lemma_pair_count_pos(old_bytes, p);
                            lemma_replace_shrinks(old_bytes, p, id);
                        }
                        table.push((p, id));
                        let next = replace(bytes.as_slice(), p, id);
                        bytes = next;
                        proof {
                            assert(compress_seq(old_bytes).0 == compress_seq(bytes@).0);
                            assert(compress_seq(old_bytes).1 == seq![(p, id)] + compress_seq(
                                bytes@,
                            ).1);
                            assert(old_table + (seq![(p, id)] + compress_seq(bytes@).1)
                                =~= table@ + compress_seq(bytes@).1);
                        }
                    },
                }
            },
        }
    }
    proof {
        lemma_round_trip(input@);
        lemma_compress_bound(input@);
        assert(table@ + Seq::<(Pair, u8)>::empty() =~= table@);
        if input@.len() < 2 {
            assert forall|q: Pair| #[trigger] pair_count(input@, q) <= 1 by {
                crate::pair::lemma_pair_count_le(input@, q);
            }
            lemma_compress_halted(input@);
        }
    }
    (bytes, table)
}

} // verus!
