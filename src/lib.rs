//! Core of an offline ray-tracing renderer:
//!
//! - [`bheap`]: the re-prioritizable binary max heap that orders pending jobs;
//! - [`schedule`]: splitting image rows into chunks, the per-chunk job
//!   skeleton, and order-independent reassembly of the results;
//! - [`queue`]: the decisions of a thread pool over that heap;
//! - [`texture`]: pixel lookup in decoded image textures;
//! - [`ratio`]: reading an aspect ratio such as `16/9`.
//!
//! The floating-point geometry and shading that run inside the jobs are
//! supplied by the caller.

pub mod bheap;
pub mod queue;
pub mod ratio;
pub mod schedule;
pub mod texture;
