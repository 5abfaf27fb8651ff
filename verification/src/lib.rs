//! Enumeration of the combinations of a pool of elements, and search for the
//! combinations that score best under an objective of the caller.
//!
//! - `selections` says, as mathematics, which index sequences stand for the
//!   combinations of a pool and in which order they are generated.
//! - `combinatorics` holds the generators that walk through them, and the
//!   sweep over several combination sizes.
//! - `ranking` orders scored entries, all of them or the best few.
//! - `search` runs a sweep, filters and scores its combinations with the
//!   caller's functions, and ranks them.
//! - `counting` holds the binomial coefficients by which the enumerations
//!   are counted.

pub mod combinatorics;
pub mod counting;
pub mod ranking;
pub mod search;
pub mod selections;
