//! Randomised arrangement of sample images on grid-structured pages.
//!
//! The crate fills a three-dimensional grid of samples so that no cell
//! repeats any of its already-placed neighbours on the same page
//! (`arranger`), turns a filled grid into per-cell placements on a
//! physical page and perturbs them with jitter and row skew (`img`).
//! All geometry is integer valued; angles are millidegrees and scale
//! factors are thousandths, so the whole engine is verified.

pub mod arranger;
pub mod curve;
pub mod img;
mod rng;
