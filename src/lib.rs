//! Growable arrays of fixed-layout records in device memory, and the handle
//! allocators that address them.
//!
//! Nothing here talks to a device. Each storage keeps a model of its block
//! and queues [`device::DeviceOp`]s that, run in order, make the real block
//! match the model; the contracts state what the block holds afterwards.
use vstd::prelude::*;

pub mod columnar;
pub mod dense;
pub mod device;
pub mod growable;
pub mod indirect;
pub mod mapped;
pub mod models;
pub mod sparse;

verus! {

} // verus!
