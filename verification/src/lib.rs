//! Distance covariance, distance variance and distance correlation for
//! one-dimensional integer samples, in exact arithmetic.
//!
//! The statistics are the scaled numerators of the Székely–Rizzo–Bakirov
//! quantities: for samples of length `n`, every public routine returns the
//! integer `n⁴ · dCov²` (and its relatives), so that no rounding enters the
//! computation and every result is pinned down exactly.  Square roots, and
//! hence the final floating-point `dCor` value, are left to the caller.
//!
//! The interesting part is the fast evaluation: the grand means of a pairwise
//! distance matrix in O(n) from a sorted view, and the Frobenius inner product
//! of two distance matrices in O(n log n) by a merge sweep, both proved equal
//! to their O(n²) defining double sums.

pub mod api;
pub mod dist_corr_binary;
pub mod dist_corr_fast;
pub mod frob_inner_product;
pub mod grand_mean;
pub mod model;
pub mod ordering;
pub mod sums;

pub use api::DistCorrError;
pub use api::DistCorrelation;
pub use api::DistCovariance;
pub use api::ScaledSq;
pub use dist_corr_fast::CorStats;
