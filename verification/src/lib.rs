//! Ribbon filters with pleated construction.
//!
//! A ribbon filter is an approximate set: it answers whether a key is possibly in it, always yes
//! for a member, in little more than `R` bits per key. How often it answers yes for another key,
//! about once in `2^R` times, is measured and not proved. It is the solution of a banded linear
//! system over bits, with one equation per key. Pleating groups the keys into windows of the system
//! with one counting pass, so that solving it stays local.
//!
//! [`filter::Ribbon`] is the homogeneous filter, with rows of 64 slots; [`filter::StdRibbon`] is the
//! standard one, with rows of 128. Both can be built in arrival order, pleated, and by ranges of
//! slots. What is proved of them:
//!
//! - a filter reports every 64-bit key that it was built from, and answers yes for a key of another
//!   type that feeds a hasher the bytes of one that it was built from;
//! - a key is reported only if its row agrees with the stored words in every column, and slots that
//!   the keys leave free hold what is fixed for them;
//! - filters of the same keys are bit-identical, in whatever order and way they are built;
//! - a filter is read back from its plain bytes and from its envelope;
//! - an envelope with one wrong byte is refused. Plain bytes have no checksum: of these, only a
//!   wrong length or geometry is.
//!
//! The argument is in [`linear`]: a band has the same solutions as the equations it was made from,
//! and its solutions determine the words of the filter.

pub mod banding;
pub mod banding128;
pub mod bits;
pub mod bytes;
pub mod filter;
pub mod format;
pub mod hash;
pub mod hash128;
pub mod interleave;
pub mod key;
pub mod linear;
pub mod parallel;
pub mod parallel128;
pub mod plan;
pub mod ranges;
pub mod sizing;
pub mod std_ribbon;
pub mod tally;

pub use key::hash_key;
pub use plan::PleatPlan;
