//! Detection of near-uniform horizontal separator bands ("gutters") in a
//! grayscale raster, and recursive subdivision of the raster into the
//! sub-rectangles those bands delimit.
//!
//! The scanner samples rows at a small set of shear slopes to tolerate
//! slightly skewed scans, classifies a sampled line as single-color with a
//! block-averaging tolerance test, collapses runs of single-color rows into
//! cut points, and tiles the working section at those cuts. The partitioner
//! re-applies the scanner to every piece of a real split until no section
//! splits further.

pub mod buffer;
pub mod laws;
pub mod rect;
pub mod scan;
pub mod splitter;
