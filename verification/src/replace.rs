//! The substitution engine: rewrite a buffer by replacing every
//! non-overlapping occurrence of one target pair with a single symbol.

use vstd::prelude::*;

use crate::pair::{has_pair, pair_at, Pair};

verus! {

/// The result of one greedy left-to-right scan of `s`: wherever the next two
/// symbols equal `p` the single symbol `id` is emitted and both are consumed;
/// otherwise one symbol is emitted unchanged. Occurrences never overlap: the
/// run `AAA` with target `(A,A)` becomes `id` followed by one `A`.
pub open spec fn replace_seq(s: Seq<u8>, p: Pair, id: u8) -> Seq<u8>
    decreases s.len(),
{
    if s.len() < 2 {
        s
    } else if s[0] == p.0 && s[1] == p.1 {
        seq![id] + replace_seq(s.skip(2), p, id)
    } else {
        seq![s[0]] + replace_seq(s.skip(1), p, id)
    }
}

/// Substitution never lengthens a buffer and never empties a non-empty one.
pub proof fn lemma_replace_len(s: Seq<u8>, p: Pair, id: u8)
    ensures
        replace_seq(s, p, id).len() <= s.len(),
        s.len() >= 1 ==> replace_seq(s, p, id).len() >= 1,
    decreases s.len(),
{
    if s.len() >= 2 {
        if s[0] == p.0 && s[1] == p.1 {
            lemma_replace_len(s.skip(2), p, id);
        } else {
            lemma_replace_len(s.skip(1), p, id);
        }
    }
}

/// Substituting a pair that occurs somewhere strictly shrinks the buffer.
pub proof fn lemma_replace_shrinks(s: Seq<u8>, p: Pair, id: u8)
    requires
        has_pair(s, p),
    ensures
        replace_seq(s, p, id).len() < s.len(),
    decreases s.len(),
{
    let i = choose|i: int| pair_at(s, p, i);
    if s[0] == p.0 && s[1] == p.1 {
        lemma_replace_len(s.skip(2), p, id);
    } else {
        assert(pair_at(s.skip(1), p, i - 1));
        lemma_replace_shrinks(s.skip(1), p, id);
    }
}

/// Replace every non-overlapping occurrence of `replacement` in `source`
/// with the symbol `id`, scanning greedily from the left.
pub fn replace(source: &[u8], replacement: Pair, id: u8) -> (r: Vec<u8>)
    ensures
        r@ == replace_seq(source@, replacement, id),
{
    let ghost s = source@;
    let mut buffer: Vec<u8> = Vec::new();
    let mut i: usize = 0;
    proof {
        assert(s.skip(0) =~= s);
    }
    while i < source.len()
        invariant
            i <= s.len(),
            source@ == s,
            replace_seq(s, replacement, id) == buffer@ + replace_seq(
                s.skip(i as int),
                replacement,
                id,
            ),
        decreases s.len() - i,
    {
        let ghost rest = s.skip(i as int);
        if i + 1 < source.len() && source[i] == replacement.0 && source[i + 1] == replacement.1 {
            buffer.push(id);
            proof {
                assert(rest[0] == s[i as int] && rest[1] == s[i + 1]);
                assert(rest.skip(2) =~= s.skip(i + 2));
                assert(buffer@ + replace_seq(s.skip(i + 2), replacement, id) =~= (buffer@.drop_last()
                    + seq![id]) + replace_seq(rest.skip(2), replacement, id));
                assert(buffer@.drop_last() + (seq![id] + replace_seq(rest.skip(2), replacement, id))
                    =~= (buffer@.drop_last() + seq![id]) + replace_seq(rest.skip(2), replacement, id));
            }
            i += 2;
        } else {
            buffer.push(source[i]);
            proof {
                assert(rest[0] == s[i as int]);
                assert(rest.len() >= 2 ==> rest[1] == s[i + 1]);
                assert(rest.skip(1) =~= s.skip(i + 1));
                if rest.len() < 2 {
                    assert(replace_seq(rest, replacement, id) =~= seq![s[i as int]] + replace_seq(
                        rest.skip(1),
                        replacement,
                        id,
                    ));
                }
                assert(buffer@ + replace_seq(s.skip(i + 1), replacement, id) =~= (buffer@.drop_last()
                    + seq![s[i as int]]) + replace_seq(rest.skip(1), replacement, id));
                assert(buffer@.drop_last() + (seq![s[i as int]] + replace_seq(
                    rest.skip(1),
                    replacement,
                    id,
                )) =~= (buffer@.drop_last() + seq![s[i as int]]) + replace_seq(
                    rest.skip(1),
                    replacement,
                    id,
                ));
            }
            i += 1;
        }
    }
    proof {
        assert(s.skip(s.len() as int) =~= Seq::<u8>::empty());
        assert(buffer@ + replace_seq(Seq::<u8>::empty(), replacement, id) =~= buffer@);
    }
    buffer
}

} // verus!
