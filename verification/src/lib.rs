//! Verified core of a bivariate correlation library.
//!
//! The library computes the discrete parts of three classical correlation
//! statistics over paired observations: the tie-averaged fractional ranking
//! used by Spearman's coefficient, and the concordance classification and
//! discordant-pair count used by Kendall's tau-a. Pearson's coefficient is a
//! direct floating-point reduction with no discrete structure; it, and the
//! final division steps of the other two, belong to the (unverified) caller.
//!
//! A floating-point observation enters the library as its *order key*: a
//! `u64` whose natural order agrees with the total order on values that
//! places NaN above every number and treats all NaN as mutually equal. The
//! all-ones key is reserved for NaN, so that the few places where IEEE
//! comparison semantics matter (concordance, constancy) can recognise it.
//! The caller produces keys with the usual monotone bit-level embedding of
//! IEEE doubles; every result the library returns is either exact (counts)
//! or a doubled rank, twice the fractional rank, which is always an integer.

pub mod kendall;
pub mod order;
pub mod ranking;

pub use kendall::concordance;
pub use kendall::constant;
pub use kendall::count_discordant;
pub use kendall::pair_count;
pub use kendall::Concordance;
pub use order::cmp_key;
pub use order::KeyOrder;
pub use order::NAN_KEY;
pub use ranking::rank;
