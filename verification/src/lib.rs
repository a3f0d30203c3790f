//! Verified core of a GIF encoder: configuration checks, RGBA frame
//! handling, the integer parts of palette quantization, and the assembly
//! of GIF frames (transparency optimization, cropping, palette layout).

use vstd::prelude::*;

pub mod config;
pub mod dither;
pub mod types;
pub mod encode;
pub mod gif_stream;
pub mod input;
pub mod options;
pub mod quantize;
pub mod resize;

pub use config::{ConfigError, DitherMethod, EncodeConfig};
pub use types::{EncodeStats, FrameError, IndexedFrame, Palette, ProgressReporter, RgbaFrame};

verus! {

/// Every frame has the size of the first one.
pub open spec fn spec_same_dimensions(frames: Seq<RgbaFrame>, k: int) -> bool {
    forall|i: int| 0 <= i < k ==> #[trigger] frames[i].width == frames[0].width && frames[i].height
        == frames[0].height
}

/// Checks that all frames share the first frame's size, naming the first
/// frame that does not.
pub fn ensure_consistent_dimensions(frames: &[RgbaFrame]) -> (r: Result<(), FrameError>)
    requires
        frames@.len() > 0,
    ensures
        r is Ok <==> spec_same_dimensions(frames@, frames@.len() as int),
        r matches Err(e) ==> (e matches FrameError::DimensionMismatch {
            frame,
            width,
            height,
            expected_width,
            expected_height,
        } && 0 < frame < frames@.len() && spec_same_dimensions(frames@, frame as int)
            && !spec_same_dimensions(frames@, frame + 1) && width == frames@[frame as int].width
            && height == frames@[frame as int].height && expected_width == frames@[0].width
            && expected_height == frames@[0].height),
{
    let first = &frames[0];
    let mut idx: usize = 1;
    while idx < frames.len()
        invariant
            1 <= idx <= frames@.len(),
            first == frames@[0],
            spec_same_dimensions(frames@, idx as int),
        decreases frames@.len() - idx,
    {
        let frame = &frames[idx];
        if frame.width != first.width || frame.height != first.height {
            assert(!spec_same_dimensions(frames@, idx + 1));
            return Err(
                FrameError::DimensionMismatch {
                    frame: idx,
                    width: frame.width,
                    height: frame.height,
                    expected_width: first.width,
                    expected_height: first.height,
                },
            );
        }
        assert(spec_same_dimensions(frames@, idx + 1)) by {
            assert forall|i: int| 0 <= i < idx + 1 implies #[trigger] frames@[i].width
                == frames@[0].width && frames@[i].height == frames@[0].height by {
                if i < idx {
                    assert(frames@[i].width == frames@[0].width);
                }
            }
        }
        idx += 1;
    }
    Ok(())
}

} // verus!
