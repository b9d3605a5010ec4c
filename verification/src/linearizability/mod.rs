//! Checks whether a history of operations on a shared object is linearizable
//! with respect to a sequential model of the object.

pub mod bitset;
pub mod model;
pub mod entries;
pub mod checker;
pub mod history;
pub mod kv_model;
pub mod waiting;
pub mod complete;
pub mod timing;
pub mod laws;
