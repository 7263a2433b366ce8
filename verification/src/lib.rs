//! An in-memory store of customer records, keyed by `guid`, with the
//! operations of a small REST service on it and the HTTP status that each
//! of them answers with.
//!
//! - [`customer`]: the record.
//! - [`store`]: the records in their order, with `create`, `read`,
//!   `update`, `delete` and `list`.
//! - [`handlers`]: one function per request, from the store and the
//!   request to the change and the answer.
//! - [`status`]: the statuses, which come from `warp::http`.
//! - [`model`]: what each operation makes of a sequence of records, and the
//!   laws of one operation.
//! - [`history`]: runs of operations, and the laws that hold after every
//!   run.
//!
//! The store is plain data. A service that shares it among requests puts
//! it behind one lock and takes the lock around each call.

pub mod customer;
pub mod handlers;
pub mod history;
pub mod model;
pub mod status;
pub mod store;
