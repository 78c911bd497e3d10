//! The data of the first TCP prototype, in which the hub sends one fixed
//! region to each worker. Its task carries floating-point coordinates and
//! stands in the application; its result is plain data.

use vstd::prelude::*;

verus! {

/// The iteration counts that a prototype worker computed.
#[derive(Debug)]
pub struct TaskResult {
    pub task_id: u32,
    pub worker_id: String,
    pub pixels: Vec<u32>,
}

} // verus!
