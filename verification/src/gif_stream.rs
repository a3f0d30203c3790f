//! Writing frames through the `gif` crate's encoder into a byte buffer, and
//! the byte layout of the blocks that encoder emits.

use vstd::prelude::*;

use gif::{DisposalMethod, Encoder, EncodingError, Frame, Repeat};
use std::borrow::Cow;

verus! {

#[verifier::external_type_specification]
#[verifier::external_body]
pub struct ExEncodingError(EncodingError);

#[verifier::external_type_specification]
#[verifier::external_body]
pub struct ExIoError(std::io::Error);

/// What happens to a frame's area before the next frame is drawn.
#[derive(Debug, Clone, Copy, PartialEq, Eq, Structural)]
pub enum FrameDisposal {
    /// The decoder may do as it likes.
    Any,
    /// The frame stays in place.
    Keep,
}

/// One frame as it is handed to the GIF encoder.
#[derive(Debug)]
pub(crate) struct GifFrame {
    pub left: u16,
    pub top: u16,
    pub width: u16,
    pub height: u16,
    /// Delay in hundredths of a second.
    pub delay: u16,
    pub dispose: FrameDisposal,
    pub transparent: Option<u8>,
    /// Local color table as `r, g, b` bytes.
    pub palette: Vec<u8>,
    /// One palette index per pixel, row by row.
    pub buffer: Vec<u8>,
}

/// A GIF encoder writing into memory.
#[verifier::external_body]
pub struct GifStream {
    encoder: Encoder<Vec<u8>>,
}

/// The bytes a GIF stream has written so far.
pub uninterp spec fn gif_stream_bytes(stream: GifStream) -> Seq<u8>;

/// The LZW-compressed image data block (minimum code size, data sub-blocks,
/// terminator) that the encoder writes for a buffer of palette indices.
pub uninterp spec fn gif_image_data(buffer: Seq<u8>) -> Seq<u8>;

/// A 16-bit value, low byte first.
pub open spec fn le16(v: u16) -> Seq<u8> {
    seq![(v % 256) as u8, (v / 256) as u8]
}

/// `n` zero bytes.
pub open spec fn zeros(n: int) -> Seq<u8> {
    Seq::new(n as nat, |i: int| 0u8)
}

/// "GIF89a", the logical screen descriptor for a `width` by `height` canvas
/// with no background color or aspect ratio, and an all-black two-entry
/// global color table.
pub open spec fn spec_gif_header(width: u16, height: u16) -> Seq<u8> {
    seq![0x47u8, 0x49u8, 0x46u8, 0x38u8, 0x39u8, 0x61u8] + le16(width) + le16(height) + seq![
        0x80u8,
        0u8,
        0u8,
    ] + zeros(6)
}

/// The NETSCAPE2.0 application extension that makes the animation loop
/// forever.
pub open spec fn spec_loop_forever_block() -> Seq<u8> {
    seq![
        0x21u8,
        0xFFu8,
        0x0Bu8,
        0x4Eu8,
        0x45u8,
        0x54u8,
        0x53u8,
        0x43u8,
        0x41u8,
        0x50u8,
        0x45u8,
        0x32u8,
        0x2Eu8,
        0x30u8,
        0x03u8,
        0x01u8,
        0x00u8,
        0x00u8,
        0x00u8,
    ]
}

/// The GIF trailer byte.
pub open spec fn spec_gif_trailer() -> Seq<u8> {
    seq![0x3Bu8]
}

/// The disposal method's code in the control extension.
pub open spec fn spec_disposal_code(d: FrameDisposal) -> int {
    match d {
        FrameDisposal::Any => 0,
        FrameDisposal::Keep => 1,
    }
}

/// The graphic control extension: delay, disposal and transparent index.
pub open spec fn spec_control_block(delay: u16, dispose: FrameDisposal, transparent: Option<u8>) -> Seq<u8> {
    let flags: int = (if transparent is Some {
        1int
    } else {
        0int
    }) + 4 * spec_disposal_code(dispose);
    let index: u8 = match transparent {
        Some(t) => t,
        None => 0u8,
    };
    seq![0x21u8, 0xF9u8, 0x04u8, flags as u8] + le16(delay) + seq![index, 0u8]
}

/// Entries in the color table written for `n` colors (`n <= 256`): the next
/// power of two, at least 2.
pub open spec fn spec_table_len(n: int) -> int {
    if n <= 2 {
        2
    } else if n <= 4 {
        4
    } else if n <= 8 {
        8
    } else if n <= 16 {
        16
    } else if n <= 32 {
        32
    } else if n <= 64 {
        64
    } else if n <= 128 {
        128
    } else {
        256
    }
}

/// The size field of a color table of `spec_table_len(n)` entries, that is
/// its base-two logarithm minus one.
pub open spec fn spec_table_flag(n: int) -> int {
    if n <= 2 {
        0
    } else if n <= 4 {
        1
    } else if n <= 8 {
        2
    } else if n <= 16 {
        3
    } else if n <= 32 {
        4
    } else if n <= 64 {
        5
    } else if n <= 128 {
        6
    } else {
        7
    }
}

/// The image descriptor followed by the local color table, padded with
/// black entries to its power-of-two size.
pub open spec fn spec_descriptor_block(
    left: u16,
    top: u16,
    width: u16,
    height: u16,
    palette: Seq<u8>,
) -> Seq<u8> {
    let n = palette.len() as int / 3;
    seq![0x2Cu8] + le16(left) + le16(top) + le16(width) + le16(height) + seq![
        (0x80 + spec_table_flag(n)) as u8,
    ] + palette.take(3 * n) + zeros(3 * (spec_table_len(n) - n))
}

/// Everything the encoder writes for one frame.
pub open spec fn spec_frame_block(
    left: u16,
    top: u16,
    width: u16,
    height: u16,
    delay: u16,
    dispose: FrameDisposal,
    transparent: Option<u8>,
    palette: Seq<u8>,
    buffer: Seq<u8>,
) -> Seq<u8> {
    spec_control_block(delay, dispose, transparent) + spec_descriptor_block(
        left,
        top,
        width,
        height,
        palette,
    ) + gif_image_data(buffer)
}

/// `gif::Encoder::new` with an empty `Vec<u8>` as writer and no global
/// palette. An empty palette always passes the encoder's color-table check
/// and writing to a `Vec<u8>` cannot fail, so it succeeds; the stream then
/// holds the header, the screen descriptor and the two-entry black global
/// table that the encoder writes in that case.
#[verifier::external_body]
pub(crate) fn gif_stream_new(width: u16, height: u16) -> (r: Result<GifStream, EncodingError>)
    ensures
        r is Ok,
        r matches Ok(s) ==> gif_stream_bytes(s) == spec_gif_header(width, height),
{
    match Encoder::new(Vec::new(), width, height, &[]) {
        Ok(encoder) => Ok(GifStream { encoder }),
        Err(e) => Err(e),
    }
}

/// `gif::Encoder::set_repeat(Repeat::Infinite)`: writing to the stream's
/// `Vec<u8>` cannot fail, so it succeeds, and the stream has the looping
/// extension appended.
#[verifier::external_body]
pub(crate) fn gif_stream_loop_forever(stream: &mut GifStream) -> (r: Result<(), EncodingError>)
    ensures
        r is Ok,
        r is Ok ==> gif_stream_bytes(*final(stream)) == gif_stream_bytes(*old(stream))
            + spec_loop_forever_block(),
{
    stream.encoder.set_repeat(Repeat::Infinite)
}

/// `gif::Encoder::write_frame` for a frame with a local palette, not
/// interlaced and not waiting for user input; a frame with no pixels must
/// come with an empty buffer, which the encoder asserts in debug builds.
/// It fails exactly when the buffer is shorter than `width * height` or the
/// palette holds more than 256 colors: writing to the stream's `Vec<u8>`
/// cannot fail, and the scratch buffer it reserves for the compressed data
/// is taken to be granted, as every allocation in this library is. On
/// success the stream has the frame's control extension, descriptor, color
/// table and compressed image data appended. What the stream holds after a
/// failure is not stated.
#[verifier::external_body]
pub(crate) fn gif_stream_write_frame(stream: &mut GifStream, frame: GifFrame) -> (r: Result<
    (),
    EncodingError,
>)
    requires
        (frame.width > 0 && frame.height > 0) || frame.buffer@.len() == 0,
    ensures
        frame.buffer@.len() < frame.width * frame.height ==> r is Err,
        frame.palette@.len() / 3 > 256 ==> r is Err,
        frame.buffer@.len() >= frame.width * frame.height && frame.palette@.len() / 3 <= 256
            ==> r is Ok,
        r is Ok ==> gif_stream_bytes(*final(stream)) == gif_stream_bytes(*old(stream))
            + spec_control_block(frame.delay, frame.dispose, frame.transparent)
            + spec_descriptor_block(frame.left, frame.top, frame.width, frame.height, frame.palette@)
            + gif_image_data(frame.buffer@),
{
    let dispose = match frame.dispose {
        FrameDisposal::Any => DisposalMethod::Any,
        FrameDisposal::Keep => DisposalMethod::Keep,
    };
    let gif_frame = Frame {
        left: frame.left, top: frame.top, width: frame.width, height: frame.height,
        delay: frame.delay, dispose, transparent: frame.transparent,
        palette: Some(frame.palette), buffer: Cow::Owned(frame.buffer), ..Frame::default()
    };
    stream.encoder.write_frame(&gif_frame)
}

/// `gif::Encoder::into_inner`: writes the trailer into the `Vec<u8>`, which
/// cannot fail, and hands back the bytes.
#[verifier::external_body]
pub(crate) fn gif_stream_finish(stream: GifStream) -> (r: Result<Vec<u8>, std::io::Error>)
    ensures
        r is Ok,
        r matches Ok(bytes) ==> bytes@ == gif_stream_bytes(stream) + spec_gif_trailer(),
{
    let GifStream { encoder } = stream;
    encoder.into_inner()
}

} // verus!
