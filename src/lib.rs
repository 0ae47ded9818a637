//! An adaptive parallel map: small inputs are mapped in place, larger ones are
//! cut into contiguous chunks whose partial results are joined in chunk order.
//!
//! The library holds the decisions and the per-chunk work, each with its
//! contract; the threads that run the chunks live with the caller.

pub mod collatz;
pub mod partition;
pub mod mapping;
