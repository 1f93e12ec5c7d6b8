//! The integer core of a progressive ray tracer: RGBA frame buffers, the
//! coarse-to-fine refinement levels and their tiles, the row-major pixel
//! order of a full frame, and the scheduler that decides, step by step, what
//! a render worker paints and reports.

pub mod color;
pub mod image;
pub mod pixels;
pub mod session;
pub mod tiles;
