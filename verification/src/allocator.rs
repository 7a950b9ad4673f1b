//! The symbol allocator: find a symbol that a buffer does not use, to serve
//! as a fresh substitution id.

use vstd::prelude::*;

verus! {

/// First candidate symbol of the reserved id range.
pub open spec fn range_lo() -> int {
    65
}

/// First symbol past the reserved id range. Ids are drawn from the bounded
/// sub-range `[range_lo, range_hi)` of the symbol space rather than from all
/// of it, so they stand out from typical input bytes.
pub open spec fn range_hi() -> int {
    92
}

/// The smallest candidate symbol at or above `x` that `s` does not contain,
/// if the range holds one.
pub open spec fn first_unused_from(s: Seq<u8>, x: int) -> Option<u8>
    decreases range_hi() - x,
{
    if x < range_lo() || x >= range_hi() {
        None
    } else if !s.contains(x as u8) {
        Some(x as u8)
    } else {
        first_unused_from(s, x + 1)
    }
}

/// The smallest symbol of the reserved id range that `s` does not contain.
pub open spec fn unused_byte(s: Seq<u8>) -> Option<u8> {
    first_unused_from(s, range_lo())
}

/// An allocated id lies in the reserved range and is absent from the buffer.
pub proof fn lemma_unused_byte_absent(s: Seq<u8>, x: int)
    ensures
        match first_unused_from(s, x) {
            Some(id) => range_lo() <= id < range_hi() && !s.contains(id),
            None => true,
        },
    decreases range_hi() - x,
{
    if range_lo() <= x < range_hi() && s.contains(x as u8) {
        lemma_unused_byte_absent(s, x + 1);
    }
}

/// Whether the buffer contains the symbol `x`.
fn contains_byte(s: &[u8], x: u8) -> (r: bool)
    ensures
        r == s@.contains(x),
{
    let mut i: usize = 0;
    while i < s.len()
        invariant
            i <= s@.len(),
            forall|k: int| 0 <= k < i ==> s@[k] != x,
        decreases s@.len() - i,
    {
        if s[i] == x {
            return true;
        }
        i += 1;
    }
    false
}

/// The smallest symbol of the reserved id range absent from `used_bytes`,
/// or nothing when the buffer occupies the whole range.
pub fn get_unused_byte(used_bytes: &[u8]) -> (r: Option<u8>)
    ensures
        r == unused_byte(used_bytes@),
{
    let mut x: u8 = 65;
    while x <= 91
        invariant
            65 <= x <= 92,
            unused_byte(used_bytes@) == first_unused_from(used_bytes@, x as int),
        decreases 92 - x,
    {
        if !contains_byte(used_bytes, x) {
            return Some(x);
        }
        x += 1;
    }
    None
}

} // verus!
