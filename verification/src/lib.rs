//! Bootstrap physical-memory subsystem of a freestanding kernel, together
//! with the byte-buffer primitives and the framebuffer text writer that the
//! kernel's console uses.
//!
//! The heart of the crate is [`mm::pmm`]: a bitmap-based physical page
//! allocator that consumes a bootloader-supplied memory map once, sites its
//! own bookkeeping bitmap inside usable memory, and then serves page-granular
//! allocation and deallocation requests.

pub mod mm;
pub mod polyfill;
pub mod stdio;
pub mod util;
