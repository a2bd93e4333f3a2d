//! A max-priority queue on a binary heap of individually boxed nodes, with its
//! behaviour stated over a mathematical model of the heap array and proved.

pub mod heap_model;
pub mod laws;
pub mod queue;

pub use queue::{PriorityQueue, PriorityQueueNode};
