//! The expansion driver: replay a replacement table in reverse, turning each
//! substitution id back into the pair it stands for, until the original
//! buffer is restored.

use vstd::prelude::*;

use crate::pair::Pair;
use crate::replace::replace_seq;

verus! {

/// Undo one substitution: every occurrence of the single symbol `id` in `s`
/// becomes the two symbols of `p`. Expansion only grows the buffer, so there
/// is no overlap to resolve.
pub open spec fn expand_pair_seq(s: Seq<u8>, p: Pair, id: u8) -> Seq<u8>
    decreases s.len(),
{
    if s.len() == 0 {
        s
    } else {
        (if s[0] == id {
            seq![p.0, p.1]
        } else {
            seq![s[0]]
        }) + expand_pair_seq(s.skip(1), p, id)
    }
}

/// Replay a whole replacement table in reverse: the last substitution that
/// compression chose is the first one undone.
pub open spec fn expand_seq(s: Seq<u8>, table: Seq<(Pair, u8)>) -> Seq<u8>
    decreases table.len(),
{
    if table.len() == 0 {
        s
    } else {
        let entry = table.last();
        expand_seq(expand_pair_seq(s, entry.0, entry.1), table.drop_last())
    }
}

/// Undoing a substitution restores the buffer it was made on, provided the
/// id was absent from that buffer: every id in the substituted buffer then
/// marks a consumed occurrence of the pair, and every other symbol is an
/// original one.
pub proof fn lemma_expand_pair_replace(s: Seq<u8>, p: Pair, id: u8)
    requires
        !s.contains(id),
    ensures
        expand_pair_seq(replace_seq(s, p, id), p, id) == s,
    decreases s.len(),
{
    if s.len() == 0 {
    } else if s.len() == 1 {
        assert(s[0] != id);
        assert(s.skip(1) =~= Seq::<u8>::empty());
        assert(seq![s[0]] + expand_pair_seq(s.skip(1), p, id) =~= s);
    } else if s[0] == p.0 && s[1] == p.1 {
        let rest = s.skip(2);
        assert(!rest.contains(id)) by {
            if rest.contains(id) {
                let k = choose|k: int| 0 <= k < rest.len() && rest[k] == id;
                assert(s[k + 2] == id);
            }
        }
        lemma_expand_pair_replace(rest, p, id);
        let r = replace_seq(s, p, id);
        assert(r == seq![id] + replace_seq(rest, p, id));
        assert(r.skip(1) =~= replace_seq(rest, p, id));
        assert(r[0] == id);
        crate::replace::lemma_replace_len(rest, p, id);
        assert(expand_pair_seq(r, p, id) == seq![p.0, p.1] + rest);
        assert(seq![p.0, p.1] + rest =~= s);
    } else {
        let rest = s.skip(1);
        assert(!rest.contains(id)) by {
            if rest.contains(id) {
                let k = choose|k: int| 0 <= k < rest.len() && rest[k] == id;
                assert(s[k + 1] == id);
            }
        }
        lemma_expand_pair_replace(rest, p, id);
        let r = replace_seq(s, p, id);
        assert(r == seq![s[0]] + replace_seq(rest, p, id));
        assert(r.skip(1) =~= replace_seq(rest, p, id));
        assert(s[0] != id) by {
            assert(s.contains(id) <== s[0] == id);
        }
        assert(expand_pair_seq(r, p, id) == seq![s[0]] + rest);
        assert(seq![s[0]] + rest =~= s);
    }
}

/// Replaying a table with one more entry at its front undoes that entry
/// last: the front of the table is the substitution made first.
pub proof fn lemma_expand_seq_prepend(s: Seq<u8>, entry: (Pair, u8), table: Seq<(Pair, u8)>)
    ensures
        expand_seq(s, seq![entry] + table) == expand_pair_seq(
            expand_seq(s, table),
            entry.0,
            entry.1,
        ),
    decreases table.len(),
{
    let whole = seq![entry] + table;
    assert(whole.len() == table.len() + 1);
    if table.len() == 0 {
        assert(whole.last() == entry);
        assert(whole.drop_last() =~= Seq::<(Pair, u8)>::empty());
        assert(expand_seq(s, whole) == expand_seq(
            expand_pair_seq(s, entry.0, entry.1),
            Seq::<(Pair, u8)>::empty(),
        ));
        assert(expand_seq(s, table) == s);
    } else {
        assert(whole.last() == table.last());
        assert(whole.drop_last() =~= seq![entry] + table.drop_last());
        let mid = expand_pair_seq(s, table.last().0, table.last().1);
        lemma_expand_seq_prepend(mid, entry, table.drop_last());
        assert(expand_seq(s, whole) == expand_seq(mid, seq![entry] + table.drop_last()));
        assert(expand_seq(s, table) == expand_seq(mid, table.drop_last()));
    }
}

/// Undo one substitution: every occurrence of the symbol `id` in `buffer`
/// becomes the two symbols of `p`.
pub fn expand_pair(buffer: &[u8], p: Pair, id: u8) -> (r: Vec<u8>)
    ensures
        r@ == expand_pair_seq(buffer@, p, id),
{
    let ghost s = buffer@;
    let mut out: Vec<u8> = Vec::new();
    let mut i: usize = 0;
    proof {
        assert(s.skip(0) =~= s);
    }
    while i < buffer.len()
        invariant
            i <= s.len(),
            buffer@ == s,
            expand_pair_seq(s, p, id) == out@ + expand_pair_seq(s.skip(i as int), p, id),
        decreases s.len() - i,
    {
        let ghost rest = s.skip(i as int);
        let ghost before = out@;
        if buffer[i] == id {
            out.push(p.0);
            out.push(p.1);
            proof {
                assert(rest[0] == id);
                assert(out@ =~= before + seq![p.0, p.1]);
            }
        } else {
            out.push(buffer[i]);
            proof {
                assert(rest[0] == s[i as int]);
                assert(out@ =~= before + seq![s[i as int]]);
            }
        }
        proof {
            assert(rest.skip(1) =~= s.skip(i + 1));
            assert(before + ((if rest[0] == id {
                seq![p.0, p.1]
            } else {
                seq![rest[0]]
            }) + expand_pair_seq(rest.skip(1), p, id)) =~= out@ + expand_pair_seq(
                s.skip(i + 1),
                p,
                id,
            ));
        }
        i += 1;
    }
    proof {
        assert(s.skip(s.len() as int) =~= Seq::<u8>::empty());
        assert(out@ + expand_pair_seq(Seq::<u8>::empty(), p, id) =~= out@);
    }
    out
}

/// Reconstruct the buffer that a replacement table was produced from: replay
/// the table from its last entry to its first, undoing one substitution per
/// entry. On the output of compression this restores the original input
/// exactly.
pub fn expand(compressed: &[u8], table: &[(Pair, u8)]) -> (r: Vec<u8>)
    ensures
        r@ == expand_seq(compressed@, table@),
{
    let mut buffer: Vec<u8> = vstd::slice::slice_to_vec(compressed);
    let mut k: usize = table.len();
    proof {
        assert(table@.take(table@.len() as int) =~= table@);
    }
    while k > 0
        invariant
            k <= table@.len(),
            expand_seq(compressed@, table@) == expand_seq(buffer@, table@.take(k as int)),
        decreases k,
    {
        k -= 1;
        let entry = table[k];
        let ghost prefix = table@.take(k + 1);
        proof {
            assert(prefix.last() == table@[k as int]);
            assert(prefix.drop_last() =~= table@.take(k as int));
        }
        buffer = expand_pair(buffer.as_slice(), entry.0, entry.1);
    }
    proof {
        assert(table@.take(0) =~= Seq::<(Pair, u8)>::empty());
    }
    buffer
}

} // verus!
