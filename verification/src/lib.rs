//! An unordered multiset ("bag"): every element is stored once, together with
//! the number of times it was inserted.

pub mod bag;
mod equality;
pub mod iter;
pub mod laws;
pub mod tally;

pub use bag::{bigram, Bag};
pub use iter::{Distinct, Frequency};
