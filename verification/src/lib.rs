//! Verified core of a Japanese page OCR pipeline: geometry of line crops,
//! text-line segmentation, reading order, recognition post-processing and
//! text/XML building.

pub mod chars;
pub mod postprocess;
pub mod infer;
pub mod pipeline;
pub mod output;
pub mod io;
pub mod cli;
pub mod page;
pub mod cascade;
pub mod sorting;
pub mod float32;
