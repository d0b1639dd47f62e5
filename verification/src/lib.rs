//! Layout analysis of character boxes: the combinatorial core of grouping
//! characters into lines, cutting a page into regions, merging lines into
//! blocks, and ordering blocks for reading.
pub mod blocks;
pub mod geometry;
pub mod lines;
pub mod ordering;
pub mod segmentation;
pub mod skew;
