//! A small kernel's display and timing core: a compositor that stacks
//! rectangular pixel layers over one framebuffer with a per-pixel ownership
//! cache, a deadline-ordered timer queue, and the drawing routines that fill
//! layer buffers.
use vstd::prelude::*;

pub mod color;
pub mod distinct;
pub mod graphics;
pub mod interrupts;
pub mod layer;
pub mod owner;
pub mod qemu;
pub mod timer;
pub mod window;

pub use color::Color;
