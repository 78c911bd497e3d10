//! Verified core of a distributed Mandelbrot renderer: a hub splits each
//! image job into row chunks, hands them to TCP workers, collects their
//! results and assembles the final picture.

pub mod models;
pub mod tasks;
pub mod ids;
pub mod hub;
pub mod session;
pub mod registry;
pub mod gallery;
pub mod challenge;
pub mod prototype;
pub mod collect;
