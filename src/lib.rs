//! Bit-aligned syncword detection for framed serial streams.
use vstd::prelude::*;

pub mod comparators;
pub mod detectors;
pub mod framebuffer;
pub mod ring;
pub mod stream;
pub mod syncwindow;

pub use self::framebuffer::FrameBuffer;
pub use self::syncwindow::{BitStream, SyncWindow};

verus! {

} // verus!
