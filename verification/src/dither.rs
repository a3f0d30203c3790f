//! Ordered (Bayer) dithering onto a palette.

use vstd::prelude::*;

use crate::types::{Palette, RgbaFrame};

verus! {

/// The 8x8 Bayer threshold matrix, values `0..=63`.
pub const BAYER_8X8: [[u8; 8]; 8] = [
    [0, 48, 12, 60, 3, 51, 15, 63],
    [32, 16, 44, 28, 35, 19, 47, 31],
    [8, 56, 4, 52, 11, 59, 7, 55],
    [40, 24, 36, 20, 43, 27, 39, 23],
    [2, 50, 14, 62, 1, 49, 13, 61],
    [34, 18, 46, 30, 33, 17, 45, 29],
    [10, 58, 6, 54, 9, 57, 5, 53],
    [42, 26, 38, 22, 41, 25, 37, 21],
];

/// Threshold level of pixel `(x, y)`.
pub open spec fn bayer_level(x: int, y: int) -> u8 {
    BAYER_8X8[y % 8][x % 8]
}

/// A channel shifted by the ordered-dither offset `32 * (level / 63 - 1/2)`
/// and kept in `0..=255`. The offset is an integer only for levels 0 and 63
/// and is at least 1/63 away from one otherwise, so rounding the shifted
/// value down gives the channel plus `32 * level / 63 - 16` in integer
/// division.
pub open spec fn spec_bayer_channel(channel: u8, level: u8) -> u8 {
    let v = channel + (32 * level) / 63 - 16;
    if v < 0 {
        0
    } else if v > 255 {
        255
    } else {
        v as u8
    }
}

/// The dithered color of pixel `(x, y)` in a `w`-wide RGBA buffer.
pub open spec fn bayer_rgb(pixels: Seq<u8>, w: int, x: int, y: int) -> (u8, u8, u8) {
    let i = y * w + x;
    let level = bayer_level(x, y);
    (
        spec_bayer_channel(pixels[4 * i], level),
        spec_bayer_channel(pixels[4 * i + 1], level),
        spec_bayer_channel(pixels[4 * i + 2], level),
    )
}

/// The index chosen for pixel `(x, y)` of a `w`-wide frame.
pub open spec fn index_at(indices: Seq<u8>, w: int, x: int, y: int) -> u8 {
    indices[y * w + x]
}

fn bayer_channel(channel: u8, level: u8) -> (r: u8)
    ensures
        r == spec_bayer_channel(channel, level),
{
    let v: i32 = channel as i32 + (32 * level as i32) / 63 - 16;
    if v < 0 {
        0
    } else if v > 255 {
        255
    } else {
        v as u8
    }
}

proof fn lemma_pixel_index(w: int, h: int, x: int, y: int)
    requires
        0 <= x < w,
        0 <= y < h,
    ensures
        0 <= y * w + x < w * h,
        y * w + x + 1 <= w * h,
        4 * (y * w + x) + 4 <= 4 * (w * h),
{
    assert(y * w + x < w * h) by (nonlinear_arith)
        requires
            0 <= x < w,
            0 <= y < h,
    ;
    assert(0 <= y * w) by (nonlinear_arith)
        requires
            0 <= y,
            0 <= x < w,
    ;
}

/// Ordered dithering: each pixel is shifted by its Bayer threshold and then
/// mapped to a palette index by `nearest`. An empty frame or palette maps
/// every pixel to index 0.
pub fn bayer_dither<F: Fn(u8, u8, u8) -> u8>(
    frame: &RgbaFrame,
    palette: &Palette,
    nearest: &F,
) -> (indices: Vec<u8>)
    requires
        frame.width * frame.height <= usize::MAX,
        frame.width * frame.height > 0 && palette@.len() > 0 ==> frame.pixels@.len() >= 4
            * frame.width * frame.height,
        forall|r: u8, g: u8, b: u8| #[trigger] call_requires(*nearest, (r, g, b)),
    ensures
        indices@.len() == frame.width * frame.height,
        frame.width * frame.height == 0 || palette@.len() == 0 ==> forall|i: int|
            0 <= i < indices@.len() ==> #[trigger] indices@[i] == 0,
        palette@.len() > 0 ==> forall|x: int, y: int|
            0 <= x < frame.width && 0 <= y < frame.height ==> call_ensures(
                *nearest,
                bayer_rgb(frame.pixels@, frame.width as int, x, y),
                #[trigger] index_at(indices@, frame.width as int, x, y),
            ),
        palette@.len() > 0 && (forall|r: u8, g: u8, b: u8, v: u8| #[trigger] call_ensures(
            *nearest,
            (r, g, b),
            v,
        ) ==> v < palette@.len()) ==> forall|i: int|
            0 <= i < indices@.len() ==> #[trigger] indices@[i] < palette@.len(),
{
    let pixel_count = frame.pixel_count();
    if pixel_count == 0 || palette.len() == 0 {
        let mut zeros: Vec<u8> = Vec::new();
        let mut k: usize = 0;
        while k < pixel_count
            invariant
                0 <= k <= pixel_count,
                zeros@.len() == k,
                forall|i: int| 0 <= i < k ==> #[trigger] zeros@[i] == 0,
            decreases pixel_count - k,
        {
            zeros.push(0);
            k += 1;
        }
        proof {
            if frame.width * frame.height == 0 {
                assert(frame.width == 0 || frame.height == 0) by (nonlinear_arith)
                    requires
                        frame.width * frame.height == 0,
                ;
            }
        }
        return zeros;
    }
    let width = frame.width as usize;
    let height = frame.height as usize;
    let ghost p = frame.pixels@;
    let ghost w = width as int;
    let ghost h = height as int;
    assert(p.len() == frame.pixels.len());
    let mut indices: Vec<u8> = Vec::new();
    let mut y: usize = 0;
    while y < height
        invariant
            p == frame.pixels@,
            w == width,
            h == height,
            w == frame.width,
            h == frame.height,
            p.len() >= 4 * w * h,
            p.len() <= usize::MAX,
            w * h <= usize::MAX,
            0 <= y <= h,
            indices@.len() == y * w,
            forall|r: u8, g: u8, b: u8| #[trigger] call_requires(*nearest, (r, g, b)),
            forall|xx: int, yy: int|
                0 <= xx < w && 0 <= yy < y ==> call_ensures(
                    *nearest,
                    bayer_rgb(p, w, xx, yy),
                    #[trigger] index_at(indices@, w, xx, yy),
                ),
        decreases height - y,
    {
        let mut x: usize = 0;
        while x < width
            invariant
                p == frame.pixels@,
                w == width,
                h == height,
                p.len() >= 4 * w * h,
                p.len() <= usize::MAX,
                w * h <= usize::MAX,
                0 <= y < h,
                0 <= x <= w,
                indices@.len() == y * w + x,
                forall|r: u8, g: u8, b: u8| #[trigger] call_requires(*nearest, (r, g, b)),
                forall|xx: int, yy: int|
                    0 <= xx < w && 0 <= yy < h && (yy < y || (yy == y && xx < x)) ==> call_ensures(
                        *nearest,
                        bayer_rgb(p, w, xx, yy),
                        #[trigger] index_at(indices@, w, xx, yy),
                    ),
            decreases width - x,
        {
            proof {
                lemma_pixel_index(w, h, x as int, y as int);
            }
            assert(4 * (w * h) == 4 * w * h) by (nonlinear_arith);
            let idx = (y * width + x) * 4;
            let level = BAYER_8X8[y % 8][x % 8];
            let r = bayer_channel(frame.pixels[idx], level);
            let g = bayer_channel(frame.pixels[idx + 1], level);
            let b = bayer_channel(frame.pixels[idx + 2], level);
            let chosen = nearest(r, g, b);
            let ghost before = indices@;
            indices.push(chosen);
            proof {
                assert forall|xx: int, yy: int|
                    0 <= xx < w && 0 <= yy < h && (yy < y || (yy == y && xx < x + 1))
                        implies call_ensures(
                        *nearest,
                        bayer_rgb(p, w, xx, yy),
                        #[trigger] index_at(indices@, w, xx, yy),
                    ) by {
                    lemma_pixel_index(w, h, xx, yy);
                    if yy < y {
                        assert(yy * w + xx < y * w) by (nonlinear_arith)
                            requires
                                0 <= xx < w,
                                0 <= yy < y,
                        ;
                        assert(index_at(indices@, w, xx, yy) == index_at(before, w, xx, yy));
                    } else if xx < x {
                        assert(index_at(indices@, w, xx, yy) == index_at(before, w, xx, yy));
                    } else {
                        assert(index_at(indices@, w, xx, yy) == chosen);
                    }
                }
            }
            x += 1;
        }
        proof {
            assert((y + 1) * w == y * w + w) by (nonlinear_arith);
        }
        y += 1;
    }
    proof {
        assert(h * w == w * h) by (nonlinear_arith);
        if forall|r: u8, g: u8, b: u8, v: u8| #[trigger] call_ensures(*nearest, (r, g, b), v) ==> v
            < palette@.len() {
            assert forall|i: int| 0 <= i < indices@.len() implies #[trigger] indices@[i]
                < palette@.len() by {
                let x = i % w;
                let y = i / w;
                assert(i == y * w + x && 0 <= x < w && 0 <= y < h) by (nonlinear_arith)
                    requires
                        w > 0,
                        0 <= i < w * h,
                        x == i % w,
                        y == i / w,
                ;
                assert(index_at(indices@, w, x, y) == indices@[i]);
                let (r, g, b) = bayer_rgb(p, w, x, y);
                assert(call_ensures(*nearest, (r, g, b), index_at(indices@, w, x, y)));
            }
        }
    }
    indices
}

/// Ordered dithering moves each channel by at most 16.
pub proof fn lemma_bayer_offset_bounded(channel: u8, level: u8)
    requires
        level <= 63,
    ensures
        -16 <= spec_bayer_channel(channel, level) - channel <= 16,
{
    assert(0 <= (32 * level) / 63 <= 32);
}

// ---------------------------------------------------------------------------
// Error diffusion: scan order and kernel
// ---------------------------------------------------------------------------

/// The pixel visited at `step` when rows are scanned top to bottom, even
/// rows left to right and odd rows right to left.
pub open spec fn spec_scan_position(width: int, step: int) -> (int, int) {
    let y = step / width;
    let r = step % width;
    if y % 2 == 0 {
        (r, y)
    } else {
        (width - 1 - r, y)
    }
}

/// The step at which pixel `(x, y)` is visited in that scan.
pub open spec fn spec_scan_step(width: int, x: int, y: int) -> int {
    y * width + if y % 2 == 0 {
        x
    } else {
        width - 1 - x
    }
}

/// The Floyd-Steinberg kernel at `(x, y)`, each neighbor with its share of
/// the error in sixteenths: 7 to the next pixel in the scan direction, and
/// 3, 5 and 1 to the pixels below, behind, straight down and ahead.
pub open spec fn spec_diffusion_kernel(x: int, y: int) -> Seq<(int, int, u8)> {
    let d: int = if y % 2 == 0 {
        1
    } else {
        -1
    };
    seq![(x + d, y, 7u8), (x - d, y + 1, 3u8), (x, y + 1, 5u8), (x + d, y + 1, 1u8)]
}

/// Whether a kernel entry lies inside a `width` x `height` frame.
pub open spec fn in_frame(width: int, height: int, t: (int, int, u8)) -> bool {
    0 <= t.0 < width && 0 <= t.1 < height
}

/// The entry as a one-element sequence when it lies inside the frame.
pub open spec fn keep_in_frame(width: int, height: int, t: (int, int, u8)) -> Seq<(int, int, u8)> {
    if in_frame(width, height, t) {
        seq![t]
    } else {
        Seq::empty()
    }
}

/// The kernel entries at `(x, y)` that lie inside the frame, in kernel order.
pub open spec fn spec_diffusion_targets(width: int, height: int, x: int, y: int) -> Seq<(int, int, u8)> {
    let k = spec_diffusion_kernel(x, y);
    keep_in_frame(width, height, k[0]) + keep_in_frame(width, height, k[1]) + keep_in_frame(
        width,
        height,
        k[2],
    ) + keep_in_frame(width, height, k[3])
}

/// Sum of the shares of a list of kernel entries.
pub open spec fn share_total(t: Seq<(int, int, u8)>) -> int
    decreases t.len(),
{
    if t.len() == 0 {
        0
    } else {
        share_total(t.drop_last()) + t.last().2
    }
}

/// A target as integers.
pub open spec fn target_view(t: (usize, usize, u8)) -> (int, int, u8) {
    (t.0 as int, t.1 as int, t.2)
}

/// The pixel visited at `step` of the alternating scan.
pub fn scan_position(width: usize, step: usize) -> (p: (usize, usize))
    requires
        width > 0,
    ensures
        (p.0 as int, p.1 as int) == spec_scan_position(width as int, step as int),
{
    let y = step / width;
    let r = step % width;
    if y % 2 == 0 {
        (r, y)
    } else {
        (width - 1 - r, y)
    }
}

/// The neighbors of `(x, y)` that receive a share of its error, with their
/// shares in sixteenths; neighbors outside the frame are left out.
pub fn diffusion_targets(width: usize, height: usize, x: usize, y: usize) -> (t: Vec<
    (usize, usize, u8),
>)
    requires
        x < width,
        y < height,
    ensures
        t@.map_values(|c: (usize, usize, u8)| target_view(c)) == spec_diffusion_targets(
            width as int,
            height as int,
            x as int,
            y as int,
        ),
{
    let ghost (w, h, xi, yi) = (width as int, height as int, x as int, y as int);
    let ghost k = spec_diffusion_kernel(xi, yi);
    let forward = y % 2 == 0;
    let mut t: Vec<(usize, usize, u8)> = Vec::new();
    if forward {
        if x + 1 < width {
            t.push((x + 1, y, 7));
        }
    } else {
        if x > 0 {
            t.push((x - 1, y, 7));
        }
    }
    assert(t@.map_values(|c: (usize, usize, u8)| target_view(c)) =~= keep_in_frame(w, h, k[0]));
    let ghost t0 = t@;
    if y + 1 < height {
        if forward {
            if x > 0 {
                t.push((x - 1, y + 1, 3));
            }
        } else {
            if x + 1 < width {
                t.push((x + 1, y + 1, 3));
            }
        }
    }
    assert(t@.map_values(|c: (usize, usize, u8)| target_view(c)) =~= keep_in_frame(w, h, k[0])
        + keep_in_frame(w, h, k[1]));
    if y + 1 < height {
        t.push((x, y + 1, 5));
    }
    assert(t@.map_values(|c: (usize, usize, u8)| target_view(c)) =~= keep_in_frame(w, h, k[0])
        + keep_in_frame(w, h, k[1]) + keep_in_frame(w, h, k[2]));
    if y + 1 < height {
        if forward {
            if x + 1 < width {
                t.push((x + 1, y + 1, 1));
            }
        } else {
            if x > 0 {
                t.push((x - 1, y + 1, 1));
            }
        }
    }
    assert(t@.map_values(|c: (usize, usize, u8)| target_view(c)) =~= keep_in_frame(w, h, k[0])
        + keep_in_frame(w, h, k[1]) + keep_in_frame(w, h, k[2]) + keep_in_frame(w, h, k[3]));
    t
}

/// The alternating scan visits every pixel of a `width` x `height` frame
/// exactly once: step `s` lands on a pixel of the frame whose own step is
/// `s`, and every pixel's step lies in `0..width * height` and leads back
/// to it.
pub proof fn lemma_scan_visits_each_pixel_once(width: int, height: int, step: int, x: int, y: int)
    requires
        width > 0,
        height > 0,
    ensures
        0 <= step < width * height ==> {
            let p = spec_scan_position(width, step);
            &&& 0 <= p.0 < width
            &&& 0 <= p.1 < height
            &&& spec_scan_step(width, p.0, p.1) == step
        },
        0 <= x < width && 0 <= y < height ==> {
            let s = spec_scan_step(width, x, y);
            &&& 0 <= s < width * height
            &&& spec_scan_position(width, s) == (x, y)
        },
{
    if 0 <= step < width * height {
        let yy = step / width;
        let r = step % width;
        assert(step == yy * width + r && 0 <= r < width) by (nonlinear_arith)
            requires
                width > 0,
                yy == step / width,
                r == step % width,
        ;
        assert(0 <= yy < height) by (nonlinear_arith)
            requires
                width > 0,
                0 <= step < width * height,
                step == yy * width + r,
                0 <= r < width,
        ;
    }
    if 0 <= x < width && 0 <= y < height {
        let c = if y % 2 == 0 {
            x
        } else {
            width - 1 - x
        };
        let s = y * width + c;
        assert(0 <= s < width * height) by (nonlinear_arith)
            requires
                0 <= c < width,
                0 <= y < height,
                s == y * width + c,
        ;
        assert(s / width == y && s % width == c) by (nonlinear_arith)
            requires
                width > 0,
                0 <= c < width,
                s == y * width + c,
        ;
    }
}

/// Error only flows forward: every neighbor that receives a share of the
/// error at `(x, y)` lies inside the frame and is visited after `(x, y)`.
pub proof fn lemma_diffusion_reaches_only_later_pixels(width: int, height: int, x: int, y: int)
    requires
        0 <= x < width,
        0 <= y < height,
    ensures
        forall|i: int|
            0 <= i < spec_diffusion_targets(width, height, x, y).len() ==> {
                let t = #[trigger] spec_diffusion_targets(width, height, x, y)[i];
                &&& in_frame(width, height, t)
                &&& spec_scan_step(width, t.0, t.1) > spec_scan_step(width, x, y)
            },
{
    let k = spec_diffusion_kernel(x, y);
    let ts = spec_diffusion_targets(width, height, x, y);
    let a = keep_in_frame(width, height, k[0]);
    let b = keep_in_frame(width, height, k[1]);
    let c = keep_in_frame(width, height, k[2]);
    assert((y + 1) * width == y * width + width) by (nonlinear_arith);
    assert forall|i: int| 0 <= i < ts.len() implies {
        let t = #[trigger] ts[i];
        &&& in_frame(width, height, t)
        &&& spec_scan_step(width, t.0, t.1) > spec_scan_step(width, x, y)
    } by {
        let j: int = if i < a.len() {
            0
        } else if i < a.len() + b.len() {
            1
        } else if i < a.len() + b.len() + c.len() {
            2
        } else {
            3
        };
        assert(ts[i] == k[j] && in_frame(width, height, k[j]));
    }
}

/// The shares handed on from one pixel add up to at most 16/16, and to
/// exactly 16/16 where the whole kernel lies inside the frame.
pub proof fn lemma_diffusion_shares(width: int, height: int, x: int, y: int)
    requires
        0 <= x < width,
        0 <= y < height,
    ensures
        share_total(spec_diffusion_targets(width, height, x, y)) <= 16,
        1 <= x && x + 1 < width && y + 1 < height ==> share_total(
            spec_diffusion_targets(width, height, x, y),
        ) == 16,
{
    let k = spec_diffusion_kernel(x, y);
    let a = keep_in_frame(width, height, k[0]);
    let b = keep_in_frame(width, height, k[1]);
    let c = keep_in_frame(width, height, k[2]);
    let d = keep_in_frame(width, height, k[3]);
    lemma_share_total_append(a, b);
    lemma_share_total_append(a + b, c);
    lemma_share_total_append(a + b + c, d);
    reveal_with_fuel(share_total, 2);
}

/// The share total of two lists taken together is the sum of their totals.
proof fn lemma_share_total_append(s: Seq<(int, int, u8)>, t: Seq<(int, int, u8)>)
    ensures
        share_total(s + t) == share_total(s) + share_total(t),
    decreases t.len(),
{
    if t.len() > 0 {
        lemma_share_total_append(s, t.drop_last());
        assert((s + t).drop_last() =~= s + t.drop_last());
    } else {
        assert(s + t =~= s);
    }
}

} // verus!
