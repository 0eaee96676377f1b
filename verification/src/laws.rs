//! What holds of the functions of this library taken together.

pub mod byte_order;
pub mod chroms;
pub mod coalescing;
pub mod index;
pub mod lookup;
