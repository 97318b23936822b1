//! Console output: a framebuffer text writer.

use vstd::prelude::*;

pub mod framebuffer;

verus! {

/// Nominal framebuffer width in pixels; sizes the writer's back buffer.
pub const WIDTH: usize = 640;

/// Nominal framebuffer height in pixels; sizes the writer's back buffer.
pub const HEIGHT: usize = 400;

/// Nominal bits per pixel; sizes the writer's back buffer.
pub const BPP: usize = 32;

/// Size in bytes of the writer's back buffer.
pub const BUF_BYTES: usize = WIDTH * HEIGHT * BPP / 8;

} // verus!
