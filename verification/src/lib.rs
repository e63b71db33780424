//! Otsu auto-thresholding for single-channel 8-bit images: histogram
//! construction, optimal-threshold selection, binarization, and an
//! isolated-pixel noise filter, plus the command-line argument rules of the
//! `otsify` tool.

pub mod cli;
pub mod img;
