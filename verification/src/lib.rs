//! Data-oblivious building blocks: conditional selection and exchange,
//! stable compaction, filtering, bitonic sorting and shuffling.
//!
//! The sequence of operations that a routine performs depends on the length
//! of its input alone, never on the values or on the tags applied to them.

pub mod compact;
pub mod contains;
pub mod filter;
pub mod max;
pub mod ops;
pub mod order;
pub mod pool;
pub mod pow2;
pub mod shuffle;
pub mod sort;

pub use crate::compact::compact;
pub use crate::contains::contains;
pub use crate::max::Max;
pub use crate::ops::select::ObliviousSelect;
pub use crate::ops::select_ordering::select_ordering;
pub use crate::ops::swap::swap;
pub use crate::ops::ObliviousOps;
pub use crate::shuffle::shuffle;
pub use crate::sort::{par_sort, sort};
