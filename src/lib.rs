//! Instanced-grass rendering: the per-chunk GPU resource cache, its deferred
//! texture-load queue, the per-frame preparation stage that decides which
//! resources must be rebuilt, and the draw registration that follows it.
//!
//! The library decides; the host performs. Every GPU object is named by a
//! [`GpuId`](cache::GpuId) issued here, and each frame stage returns the
//! [`GpuCommand`](gpu::GpuCommand)s that create the objects it referenced.
use vstd::prelude::*;

pub mod cache;
pub mod deferred;
pub mod draw;
pub mod frame;
pub mod laws;
pub mod gpu;
pub mod packer;
pub mod positions;
pub mod prepare;
pub mod region;
