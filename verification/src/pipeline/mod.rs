//! Page geometry: cropping, line segmentation and reading order.
pub mod crop;
pub mod cascade;
pub mod connect;
pub mod line_segment;
pub mod reading_order;
