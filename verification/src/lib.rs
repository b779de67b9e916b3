//! The order lifecycle of a dine-in restaurant: which table has a running
//! order, which menu lines belong to it, and how lines are added, merged and
//! removed while the order is open.

pub mod rows;
pub mod store;
pub mod estimator;
pub mod engine;
pub mod query;
