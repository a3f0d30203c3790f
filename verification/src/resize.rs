//! Scaling a frame to the output size with the `image` crate's Lanczos
//! filter.

use vstd::prelude::*;

use crate::types::RgbaFrame;

verus! {

/// `image::imageops::resize` with the Lanczos3 filter, on the frame's
/// pixels as an `RgbaImage`. The result has the requested size and four
/// bytes per pixel. What those bytes are is not stated: the filter weighs
/// pixels with `f32` `sin`, whose last bits may differ between platforms'
/// math libraries. The bounds rule out the panics of `ImageBuffer::new` on
/// the filter's intermediate (`frame.width` by `height`) and final buffers.
#[verifier::external_body]
fn resize_rgba(frame: RgbaFrame, width: u32, height: u32) -> (r: RgbaFrame)
    requires
        frame.pixels@.len() == 4 * frame.width * frame.height,
        1 <= width,
        1 <= height,
        4 * width * height <= usize::MAX,
        4 * frame.width * height <= usize::MAX,
    ensures
        r.width == width,
        r.height == height,
        r.pixels@.len() == 4 * width * height,
{
    let source = image::RgbaImage::from_raw(frame.width, frame.height, frame.pixels)
        .expect("the buffer holds width * height pixels");
    let resized = image::imageops::resize(&source, width, height, image::imageops::FilterType::Lanczos3);
    let (w, h) = resized.dimensions();
    RgbaFrame { width: w, height: h, pixels: resized.into_raw() }
}

/// The frame scaled to `width` by `height`, or the frame itself when it
/// already has that size.
pub fn resize_frame_to(frame: RgbaFrame, width: u32, height: u32) -> (r: RgbaFrame)
    requires
        frame.pixels@.len() == 4 * frame.width * frame.height,
        frame.width != width || frame.height != height ==> {
            &&& 1 <= width
            &&& 1 <= height
            &&& 4 * width * height <= usize::MAX
            &&& 4 * frame.width * height <= usize::MAX
        },
    ensures
        r.width == width,
        r.height == height,
        r.pixels@.len() == 4 * width * height,
        frame.width == width && frame.height == height ==> r == frame,
{
    if frame.width == width && frame.height == height {
        return frame;
    }
    resize_rgba(frame, width, height)
}

} // verus!
