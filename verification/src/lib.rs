//! A dictionary-substitution compressor on the byte-pair principle: the most
//! frequent adjacent pair of symbols in a buffer is replaced, everywhere it
//! occurs without overlap, by a single symbol that the buffer does not use,
//! and each substitution is recorded in an ordered replacement table.
//! Replaying the table in reverse restores the original buffer exactly.

pub mod allocator;
pub mod compress;
pub mod counts;
pub mod expand;
pub mod pair;
pub mod replace;

pub use allocator::get_unused_byte;
pub use compress::compress;
pub use counts::CountsTable;
pub use expand::expand;
pub use pair::Pair;
pub use replace::replace;
