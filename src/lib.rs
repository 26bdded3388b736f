//! A Hampel filter: a sliding-window outlier detector and corrector for
//! one-dimensional series, generic over the sample type.
pub mod filter;
pub mod median;
pub mod window;
