//! Himawari-9 full-disk imagery: from the files of the public
//! `noaa-himawari9` bucket to images of the Earth's disk.
//!
//! - [`calendar`], [`band`], [`naming`]: observation slots, the AHI bands, and
//!   the names of the files that hold them
//! - [`fetch`]: which scene is complete, how its files are downloaded, and
//!   what they decode to
//! - [`hsd`], [`blocks`]: the Himawari Standard Data format and its
//!   calibrations, and what holds of the header blocks of a file
//! - [`compose`]: the segments of a band stitched into a full disk
//! - [`render`], [`sandwich`], [`likeness`], [`palette`]: the products, and
//!   how the combined one is like the true-color image
//! - [`plan`], [`timelapse`]: what a run renders, and in which order
//! - [`track`], [`pick`]: following a storm, and choosing one
//! - [`tuning`]: the tunables that decide things
//! - [`promises`]: what callers of all of these can rely on, stated over their
//!   calls
//! - [`decimal`], [`text`], [`ieee`], [`grid`]: numerals, texts, comparisons
//!   of floating-point patterns, and grids that are computed in parallel
//!
//! Floating-point numbers are held as their bit patterns. What is decided
//! about them is decided here; their arithmetic is left to functions that the
//! caller hands in.

pub mod band;
pub mod blocks;
pub mod calendar;
pub mod compose;
pub mod decimal;
pub mod fetch;
pub mod grid;
pub mod hsd;
pub mod ieee;
pub mod likeness;
pub mod naming;
pub mod palette;
pub mod pick;
pub mod plan;
pub mod promises;
pub mod render;
pub mod sandwich;
pub mod text;
pub mod timelapse;
pub mod track;
pub mod tuning;
