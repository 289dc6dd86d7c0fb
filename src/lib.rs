//! Float-free core of a 2D rigid-body contact engine: body kinds, unordered
//! contact keys, the pairwise detection sweep order, and the persistent,
//! order-preserving contact cache with its fresh / warm / evicted lifecycle.

pub mod cache;
pub mod key;
pub mod kind;
pub mod pipeline;
pub mod sweep;
