//! Recognition- and detection-side helpers.
pub mod deim;
pub mod page_pool;
pub mod parseq;
pub mod pool;
pub mod threads;
