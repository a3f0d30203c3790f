//! Frames, palettes and run statistics shared by the encoder stages.

use vstd::prelude::*;

verus! {

/// A list of RGB colors; a palette index selects one of them.
pub type Palette = Vec<[u8; 3]>;

/// An image as rows of RGBA bytes, 4 per pixel, top row first.
#[derive(Debug, Clone)]
pub struct RgbaFrame {
    pub width: u32,
    pub height: u32,
    pub pixels: Vec<u8>,
}

/// A frame reduced to palette indices, ready to be written.
#[derive(Debug, Clone)]
pub struct IndexedFrame {
    pub width: u32,
    pub height: u32,
    pub indices: Vec<u8>,
    pub palette: Palette,
    pub delay_cs: u16,
}

/// What an encoding run produced.
#[derive(Debug, Clone, Copy)]
pub struct EncodeStats {
    pub file_size_bytes: u64,
    pub frame_count: usize,
    pub duration_ms: u64,
    pub width: u32,
    pub height: u32,
}

/// Why frame data was rejected.
#[derive(Debug, Clone, Copy, PartialEq, Eq)]
pub enum FrameError {
    /// The pixel buffer does not hold exactly `width * height * 4` bytes.
    InvalidBufferLength { expected: u128, actual: usize },
    /// A frame's size differs from the first frame's.
    DimensionMismatch {
        frame: usize,
        width: u32,
        height: u32,
        expected_width: u32,
        expected_height: u32,
    },
}

/// Receives progress notices from a long encoding run; every method does
/// nothing unless an implementation says otherwise.
pub trait ProgressReporter: Send + Sync {
    fn set_stage(&self, _stage: &str) {
    }

    fn set_length(&self, _length: u64) {
    }

    fn inc(&self, _delta: u64) {
    }

    fn finish(&self, _message: &str) {
    }
}

impl RgbaFrame {
    /// Builds a frame, refusing a buffer that is not exactly
    /// `width * height * 4` bytes long.
    pub fn new(width: u32, height: u32, pixels: Vec<u8>) -> (r: Result<Self, FrameError>)
        ensures
            r is Ok <==> pixels@.len() == width * height * 4,
            r matches Ok(f) ==> f.width == width && f.height == height && f.pixels@ == pixels@,
            r matches Err(e) ==> e == (FrameError::InvalidBufferLength {
                expected: (width * height * 4) as u128,
                actual: pixels@.len() as usize,
            }),
    {
        assert(width as u128 * height as u128 * 4 <= 0xffff_ffff_ffff_ffff_ffff_ffff_ffff_ffffu128)
            by (nonlinear_arith)
            requires
                width <= u32::MAX,
                height <= u32::MAX,
        ;
        let expected: u128 = width as u128 * height as u128 * 4;
        if pixels.len() as u128 != expected {
            return Err(FrameError::InvalidBufferLength { expected, actual: pixels.len() });
        }
        Ok(RgbaFrame { width, height, pixels })
    }

    /// Number of pixels, `width * height`.
    pub fn pixel_count(&self) -> (n: usize)
        requires
            self.width * self.height <= usize::MAX,
        ensures
            n == self.width * self.height,
    {
        self.width as usize * self.height as usize
    }
}

} // verus!
