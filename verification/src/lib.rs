//! Causal-history data structures for distributed systems: event sets that
//! record which per-actor events have been observed, clocks that map actors to
//! event sets, and a threshold engine that computes which events have been
//! observed by at least a given number of contributors.

mod above_exset;
mod above_range;
mod below_exset;
mod clock;
mod kvlist;
mod max_int;
mod maxset;
mod multiset;
mod musk;
mod seqtools;
mod tclock;
mod tset;
mod traits;

pub use above_exset::AboveExSet;
pub use above_range::{AboveRangeSet, Ranges};
pub use below_exset::BelowExSet;
pub use clock::{vclock_from_seqs, AEClock, ARClock, BEClock, Clock, Dot, VClock};
pub use max_int::MaxInt;
pub use maxset::MaxSet;
pub use multiset::MultiSet;
pub use musk::Musk;
pub use tclock::TClock;
pub use tset::TSet;
pub use traits::subtract_iter;
pub use traits::Actor;
pub use traits::Count;
pub use traits::EventSet;
