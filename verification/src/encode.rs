//! Assembly of GIF frames from indexed frames: transparency for pixels that
//! did not change since the previous frame, cropping to the changed region,
//! and the power-of-two palette layout that GIF color tables need.

use vstd::prelude::*;

use crate::config::EncodeConfig;
use crate::gif_stream::{
    gif_stream_bytes, gif_stream_finish, gif_stream_loop_forever, gif_stream_new,
    gif_stream_write_frame, spec_frame_block, spec_gif_header, spec_gif_trailer,
    spec_loop_forever_block, spec_table_len, FrameDisposal, GifFrame, GifStream,
};
use crate::types::{EncodeStats, IndexedFrame, Palette, RgbaFrame};

verus! {

/// Why a frame could not be assembled or written.
#[derive(Debug, Clone, Copy, PartialEq, Eq)]
pub enum EncodeError {
    /// There is no frame to write.
    NoFrames,
    /// Indexed and source frames differ in number.
    FrameCountMismatch { indexed: usize, source: usize },
    /// The first frame is wider or taller than a GIF allows.
    DimensionsTooLarge { width: u32, height: u32 },
    /// A frame's size differs from the first frame's.
    FrameDimensionMismatch { frame: usize },
    /// A frame's index buffer does not hold one index per pixel.
    InvalidIndexBufferLength { frame: usize, expected: usize, actual: usize },
    /// The index buffer given for cropping does not match the frame size.
    CropBufferLength { actual: usize, width: u32, height: u32 },
    /// The changed region is wider or taller than a GIF frame allows.
    CroppedTooLarge { width: usize, height: usize },
    /// The GIF writer reported an error; writing into memory, as this
    /// library does, never reports one.
    GifWrite,
}

/// A frame reduced to the smallest rectangle that holds every changed pixel.
#[derive(Debug)]
pub struct CroppedFrame {
    pub left: u16,
    pub top: u16,
    pub width: u16,
    pub height: u16,
    pub indices: Vec<u8>,
}

// ---------------------------------------------------------------------------
// Small color helpers
// ---------------------------------------------------------------------------

/// Squared Euclidean distance of two RGB colors.
pub open spec fn spec_rgb_distance_sq(a: [u8; 3], b: [u8; 3]) -> int {
    (a[0] - b[0]) * (a[0] - b[0]) + (a[1] - b[1]) * (a[1] - b[1]) + (a[2] - b[2]) * (a[2] - b[2])
}

/// Absolute difference of two bytes.
pub open spec fn byte_diff(a: u8, b: u8) -> int {
    if a >= b {
        a - b
    } else {
        b - a
    }
}

/// Two RGBA pixels match: exactly when the tolerance is 0, otherwise each of
/// the four channels differs by at most the tolerance.
pub open spec fn spec_pixels_similar(p: Seq<u8>, q: Seq<u8>, tolerance: u8) -> bool {
    if tolerance == 0 {
        p == q
    } else {
        forall|c: int| 0 <= c < 4 ==> #[trigger] byte_diff(p[c], q[c]) <= tolerance
    }
}

/// Largest per-channel difference still treated as "unchanged": 12 at the
/// lowest quality, falling linearly to 0 at quality 100.
pub open spec fn spec_transparency_tolerance(quality: u8) -> u8 {
    let q: int = if quality < 1 {
        1
    } else if quality > 100 {
        100
    } else {
        quality as int
    };
    ((100 - q) * 12 / 99) as u8
}

/// Squared Euclidean distance of two RGB colors.
pub fn rgb_distance_sq(a: [u8; 3], b: [u8; 3]) -> (d: u32)
    ensures
        d == spec_rgb_distance_sq(a, b),
        d <= 3 * 255 * 255,
{
    let dr: i32 = a[0] as i32 - b[0] as i32;
    let dg: i32 = a[1] as i32 - b[1] as i32;
    let db: i32 = a[2] as i32 - b[2] as i32;
    assert(dr * dr <= 255 * 255) by (nonlinear_arith)
        requires
            -255 <= dr <= 255,
    ;
    assert(dg * dg <= 255 * 255) by (nonlinear_arith)
        requires
            -255 <= dg <= 255,
    ;
    assert(db * db <= 255 * 255) by (nonlinear_arith)
        requires
            -255 <= db <= 255,
    ;
    assert(dr * dr >= 0 && dg * dg >= 0 && db * db >= 0) by (nonlinear_arith);
    (dr * dr + dg * dg + db * db) as u32
}

/// Compares two RGBA pixels within `tolerance` per channel; with tolerance 0
/// the two slices must be equal.
pub fn pixels_similar(previous: &[u8], current: &[u8], tolerance: u8) -> (r: bool)
    requires
        tolerance > 0 ==> previous@.len() >= 4 && current@.len() >= 4,
    ensures
        r == spec_pixels_similar(previous@, current@, tolerance),
{
    if tolerance == 0 {
        if previous.len() != current.len() {
            assert(previous@.len() != current@.len());
            return false;
        }
        let mut i: usize = 0;
        while i < previous.len()
            invariant
                tolerance == 0,
                previous@.len() == current@.len(),
                0 <= i <= previous@.len(),
                forall|k: int| 0 <= k < i ==> previous@[k] == current@[k],
            decreases previous@.len() - i,
        {
            if previous[i] != current[i] {
                assert(previous@[i as int] != current@[i as int]);
                return false;
            }
            i += 1;
        }
        assert(previous@ =~= current@);
        return true;
    }
    let tol: i16 = tolerance as i16;
    let d0: i16 = previous[0] as i16 - current[0] as i16;
    let d1: i16 = previous[1] as i16 - current[1] as i16;
    let d2: i16 = previous[2] as i16 - current[2] as i16;
    let d3: i16 = previous[3] as i16 - current[3] as i16;
    let a0: i16 = if d0 < 0 { -d0 } else { d0 };
    let a1: i16 = if d1 < 0 { -d1 } else { d1 };
    let a2: i16 = if d2 < 0 { -d2 } else { d2 };
    let a3: i16 = if d3 < 0 { -d3 } else { d3 };
    let r = a0 <= tol && a1 <= tol && a2 <= tol && a3 <= tol;
    proof {
        let p = previous@;
        let q = current@;
        assert(a0 == byte_diff(p[0], q[0]));
        assert(a1 == byte_diff(p[1], q[1]));
        assert(a2 == byte_diff(p[2], q[2]));
        assert(a3 == byte_diff(p[3], q[3]));
        if r {
            assert forall|c: int| 0 <= c < 4 implies #[trigger] byte_diff(p[c], q[c])
                <= tolerance by {
                if c == 0 {
                } else if c == 1 {
                } else if c == 2 {
                } else {
                }
            }
        }
    }
    r
}

/// Per-channel tolerance derived from the quality setting.
pub fn transparency_tolerance_from_quality(quality: u8) -> (t: u8)
    ensures
        t == spec_transparency_tolerance(quality),
        t <= 12,
{
    let q: u32 = if quality < 1 {
        1
    } else if quality > 100 {
        100
    } else {
        quality as u32
    };
    (((100 - q) * 12) / 99) as u8
}

// ---------------------------------------------------------------------------
// Palette index statistics
// ---------------------------------------------------------------------------

/// How often `v` occurs in `s`.
pub open spec fn spec_count(s: Seq<u8>, v: int) -> nat
    decreases s.len(),
{
    if s.len() == 0 {
        0
    } else {
        spec_count(s.drop_last(), v) + if s.last() as int == v {
            1nat
        } else {
            0nat
        }
    }
}

/// Among the first `n` palette entries, the first one used least often.
pub open spec fn spec_least_used_upto(indices: Seq<u8>, n: nat) -> nat
    decreases n,
{
    if n <= 1 {
        0
    } else {
        let best = spec_least_used_upto(indices, (n - 1) as nat);
        if spec_count(indices, n - 1) < spec_count(indices, best as int) {
            (n - 1) as nat
        } else {
            best
        }
    }
}

proof fn lemma_least_used_bound(indices: Seq<u8>, n: nat)
    ensures
        n >= 1 ==> spec_least_used_upto(indices, n) < n,
        n == 0 ==> spec_least_used_upto(indices, n) == 0,
    decreases n,
{
    if n > 1 {
        lemma_least_used_bound(indices, (n - 1) as nat);
    }
}

/// The least used entry is used no more often than any other, and strictly
/// less often than every entry before it.
pub proof fn lemma_least_used_is_minimal(indices: Seq<u8>, n: nat)
    requires
        n >= 1,
    ensures
        spec_least_used_upto(indices, n) < n,
        forall|j: int|
            0 <= j < n ==> spec_count(indices, spec_least_used_upto(indices, n) as int)
                <= #[trigger] spec_count(indices, j),
        forall|j: int|
            0 <= j < spec_least_used_upto(indices, n) ==> spec_count(
                indices,
                spec_least_used_upto(indices, n) as int,
            ) < #[trigger] spec_count(indices, j),
    decreases n,
{
    if n > 1 {
        lemma_least_used_is_minimal(indices, (n - 1) as nat);
    }
}

proof fn lemma_count_push(s: Seq<u8>, b: u8, v: int)
    ensures
        spec_count(s.push(b), v) == spec_count(s, v) + if b as int == v {
            1nat
        } else {
            0nat
        },
{
    assert(s.push(b).drop_last() =~= s);
}

proof fn lemma_count_le_len(s: Seq<u8>, v: int)
    ensures
        spec_count(s, v) <= s.len(),
    decreases s.len(),
{
    if s.len() > 0 {
        lemma_count_le_len(s.drop_last(), v);
    }
}

/// The first palette entry that occurs least often in `indices`; 0 for an
/// empty palette.
pub fn least_used_palette_index(indices: &[u8], palette_len: usize) -> (r: usize)
    ensures
        r == spec_least_used_upto(indices@, palette_len as nat),
        palette_len >= 1 ==> r < palette_len,
{
    let mut counts: Vec<usize> = Vec::new();
    let mut k: usize = 0;
    while k < palette_len
        invariant
            0 <= k <= palette_len,
            counts@.len() == k,
            forall|j: int| 0 <= j < k ==> counts@[j] == 0,
        decreases palette_len - k,
    {
        counts.push(0);
        k += 1;
    }
    let mut i: usize = 0;
    while i < indices.len()
        invariant
            0 <= i <= indices@.len(),
            counts@.len() == palette_len,
            forall|j: int|
                0 <= j < palette_len ==> #[trigger] counts@[j] == spec_count(
                    indices@.take(i as int),
                    j,
                ),
        decreases indices@.len() - i,
    {
        let idx = indices[i] as usize;
        proof {
            assert(indices@.take(i + 1) =~= indices@.take(i as int).push(indices@[i as int]));
            assert forall|j: int| 0 <= j < palette_len implies spec_count(indices@.take(i + 1), j)
                == spec_count(indices@.take(i as int), j) + if indices@[i as int] as int == j {
                1nat
            } else {
                0nat
            } by {
                lemma_count_push(indices@.take(i as int), indices@[i as int], j);
            }
        }
        if idx < palette_len {
            proof {
                lemma_count_le_len(indices@.take(i as int), idx as int);
            }
            let c = counts[idx];
            counts.set(idx, c + 1);
        }
        i += 1;
    }
    assert(indices@.take(indices@.len() as int) =~= indices@);
    if palette_len == 0 {
        return 0;
    }
    let mut best: usize = 0;
    let mut n: usize = 1;
    while n < palette_len
        invariant
            1 <= n <= palette_len,
            counts@.len() == palette_len,
            forall|j: int| 0 <= j < palette_len ==> #[trigger] counts@[j] == spec_count(indices@, j),
            best == spec_least_used_upto(indices@, n as nat),
            best < n,
        decreases palette_len - n,
    {
        if counts[n] < counts[best] {
            best = n;
        }
        n += 1;
        proof {
            lemma_least_used_bound(indices@, n as nat);
        }
    }
    best
}

/// Scanning the first `k` entries, the entry other than `index` closest to
/// palette entry `index` (the first one on ties), if any.
pub open spec fn spec_nearest_neighbor_upto(palette: Seq<[u8; 3]>, index: int, k: nat) -> Option<
    nat,
>
    decreases k,
{
    if k == 0 {
        None
    } else {
        let prev = spec_nearest_neighbor_upto(palette, index, (k - 1) as nat);
        if k - 1 == index {
            prev
        } else {
            match prev {
                None => Some((k - 1) as nat),
                Some(b) => if spec_rgb_distance_sq(palette[index], palette[k - 1])
                    < spec_rgb_distance_sq(palette[index], palette[b as int]) {
                    Some((k - 1) as nat)
                } else {
                    prev
                },
            }
        }
    }
}

/// The palette entry other than `index` closest to entry `index` in RGB
/// space (the first one on ties); `None` for a palette of at most one entry
/// or an index outside the palette.
pub open spec fn spec_nearest_palette_neighbor(palette: Seq<[u8; 3]>, index: int) -> Option<nat> {
    if palette.len() <= 1 || index < 0 || index >= palette.len() {
        None
    } else {
        spec_nearest_neighbor_upto(palette, index, palette.len())
    }
}

proof fn lemma_neighbor_bound(palette: Seq<[u8; 3]>, index: int, k: nat)
    ensures
        spec_nearest_neighbor_upto(palette, index, k) matches Some(b) ==> b < k && b != index,
        k >= 2 && 0 <= index < k ==> spec_nearest_neighbor_upto(palette, index, k) is Some,
        k >= 1 && index != 0 ==> spec_nearest_neighbor_upto(palette, index, k) is Some,
    decreases k,
{
    if k > 0 {
        lemma_neighbor_bound(palette, index, (k - 1) as nat);
    }
}

proof fn lemma_neighbor_minimal_upto(palette: Seq<[u8; 3]>, index: int, k: nat)
    ensures
        spec_nearest_neighbor_upto(palette, index, k) is None ==> k == 0 || (k == 1 && index
            == 0),
        spec_nearest_neighbor_upto(palette, index, k) matches Some(b) ==> forall|j: int|
            0 <= j < k && j != index ==> spec_rgb_distance_sq(palette[index], palette[b as int])
                <= #[trigger] spec_rgb_distance_sq(palette[index], palette[j]),
        spec_nearest_neighbor_upto(palette, index, k) matches Some(b) ==> forall|j: int|
            0 <= j < b && j != index ==> spec_rgb_distance_sq(palette[index], palette[b as int])
                < #[trigger] spec_rgb_distance_sq(palette[index], palette[j]),
    decreases k,
{
    if k > 0 {
        lemma_neighbor_minimal_upto(palette, index, (k - 1) as nat);
        lemma_neighbor_bound(palette, index, (k - 1) as nat);
    }
}

/// The neighbor found for entry `index` is nearest: no other entry is
/// closer to it, and every entry before it is strictly farther.
pub proof fn lemma_nearest_neighbor_is_minimal(palette: Seq<[u8; 3]>, index: int)
    ensures
        spec_nearest_palette_neighbor(palette, index) matches Some(b) ==> {
            &&& 0 <= b < palette.len() && b != index
            &&& forall|j: int|
                0 <= j < palette.len() && j != index ==> spec_rgb_distance_sq(
                    palette[index],
                    palette[b as int],
                ) <= #[trigger] spec_rgb_distance_sq(palette[index], palette[j])
            &&& forall|j: int|
                0 <= j < b && j != index ==> spec_rgb_distance_sq(palette[index], palette[b as int])
                    < #[trigger] spec_rgb_distance_sq(palette[index], palette[j])
        },
        spec_nearest_palette_neighbor(palette, index) is None <==> (palette.len() <= 1 || index < 0
            || index >= palette.len()),
{
    if !(palette.len() <= 1 || index < 0 || index >= palette.len()) {
        lemma_neighbor_minimal_upto(palette, index, palette.len());
        lemma_neighbor_bound(palette, index, palette.len());
    }
}

/// Nearest other palette entry to entry `index`, by squared RGB distance.
pub fn nearest_palette_neighbor(palette: &Palette, index: usize) -> (r: Option<usize>)
    ensures
        r == (match spec_nearest_palette_neighbor(palette@, index as int) {
            Some(b) => Some(b as usize),
            None => None,
        }),
        r matches Some(b) ==> b < palette@.len() && b != index,
{
    if palette.len() <= 1 || index >= palette.len() {
        return None;
    }
    let target = palette[index];
    let mut best_idx: Option<usize> = None;
    let mut best_distance: u32 = u32::MAX;
    let mut idx: usize = 0;
    while idx < palette.len()
        invariant
            palette@.len() >= 2,
            index < palette@.len(),
            target == palette@[index as int],
            0 <= idx <= palette@.len(),
            best_idx == (match spec_nearest_neighbor_upto(palette@, index as int, idx as nat) {
                Some(b) => Some(b as usize),
                None => None,
            }),
            best_idx matches Some(b) ==> best_distance == spec_rgb_distance_sq(
                target,
                palette@[b as int],
            ) && b < idx,
            best_idx is None ==> best_distance == u32::MAX,
        decreases palette@.len() - idx,
    {
        proof {
            lemma_neighbor_bound(palette@, index as int, idx as nat);
        }
        if idx != index {
            let distance = rgb_distance_sq(target, palette[idx]);
            if distance < best_distance {
                best_distance = distance;
                best_idx = Some(idx);
            }
        }
        idx += 1;
    }
    proof {
        lemma_neighbor_bound(palette@, index as int, palette@.len());
    }
    best_idx
}

// ---------------------------------------------------------------------------
// Palette layout for GIF color tables
// ---------------------------------------------------------------------------

/// The colors written to a GIF color table: the palette (black when it is
/// empty), cut to 256 entries and padded with copies of its last color up
/// to a power of two of at least 2.
pub open spec fn spec_gif_colors(palette: Seq<[u8; 3]>) -> Seq<[u8; 3]> {
    let c = if palette.len() == 0 {
        seq![[0u8, 0u8, 0u8]]
    } else if palette.len() > 256 {
        palette.take(256)
    } else {
        palette
    };
    c + Seq::new((spec_table_len(c.len() as int) - c.len()) as nat, |i: int| c.last())
}

/// The colors as consecutive `r, g, b` bytes.
pub open spec fn spec_flatten_colors(colors: Seq<[u8; 3]>) -> Seq<u8>
    decreases colors.len(),
{
    if colors.len() == 0 {
        Seq::empty()
    } else {
        let c = colors.last();
        spec_flatten_colors(colors.drop_last()) + seq![c[0], c[1], c[2]]
    }
}

proof fn lemma_flatten_len(colors: Seq<[u8; 3]>)
    ensures
        spec_flatten_colors(colors).len() == 3 * colors.len(),
    decreases colors.len(),
{
    if colors.len() > 0 {
        lemma_flatten_len(colors.drop_last());
    }
}

/// Bytes of the color table written for a palette.
pub open spec fn spec_flatten_palette(palette: Seq<[u8; 3]>) -> Seq<u8> {
    spec_flatten_colors(spec_gif_colors(palette))
}

/// Size facts about the color table written for a palette.
pub proof fn lemma_flatten_palette_size(palette: Seq<[u8; 3]>)
    ensures
        spec_gif_colors(palette).len() == spec_table_len(spec_gif_colors(palette).len() as int),
        2 <= spec_gif_colors(palette).len() <= 256,
        spec_flatten_palette(palette).len() == 3 * spec_gif_colors(palette).len(),
{
    lemma_flatten_len(spec_gif_colors(palette));
}

/// The color written at entry `k` of a color table.
pub open spec fn table_entry(bytes: Seq<u8>, k: int) -> [u8; 3] {
    [bytes[3 * k], bytes[3 * k + 1], bytes[3 * k + 2]]
}

proof fn lemma_flatten_entries(colors: Seq<[u8; 3]>)
    ensures
        forall|k: int|
            0 <= k < colors.len() ==> #[trigger] table_entry(spec_flatten_colors(colors), k)
                == colors[k],
    decreases colors.len(),
{
    if colors.len() > 0 {
        let d = colors.drop_last();
        lemma_flatten_entries(d);
        lemma_flatten_len(d);
        let f = spec_flatten_colors(colors);
        let fd = spec_flatten_colors(d);
        assert forall|k: int| 0 <= k < colors.len() implies #[trigger] table_entry(f, k)
            == colors[k] by {
            if k < d.len() {
                assert(3 * k + 2 < 3 * d.len());
                assert(table_entry(fd, k) == d[k]);
                assert(table_entry(f, k) =~= table_entry(fd, k));
            } else {
                let c = colors.last();
                assert(table_entry(f, k) =~= c);
            }
        }
    }
}

/// The layout of the color table written for a palette: entry `k` is the
/// palette's color `k` for every kept color (at most 256), and every later
/// entry repeats the last kept color; an empty palette gives black entries.
pub proof fn lemma_color_table_layout(palette: Seq<[u8; 3]>)
    ensures
        ({
            let bytes = spec_flatten_palette(palette);
            let kept: int = if palette.len() > 256 {
                256
            } else {
                palette.len() as int
            };
            let n = spec_gif_colors(palette).len() as int;
            &&& n == spec_table_len(if kept == 0 {
                1
            } else {
                kept
            })
            &&& bytes.len() == 3 * n
            &&& palette.len() == 0 ==> forall|k: int| 0 <= k < n ==> #[trigger] table_entry(bytes, k)
                == [0u8, 0u8, 0u8]
            &&& palette.len() > 0 ==> forall|k: int|
                0 <= k < n ==> #[trigger] table_entry(bytes, k) == if k < kept {
                    palette[k]
                } else {
                    palette[kept - 1]
                }
        }),
{
    let colors = spec_gif_colors(palette);
    lemma_flatten_palette_size(palette);
    lemma_flatten_entries(colors);
    let kept: int = if palette.len() > 256 {
        256
    } else {
        palette.len() as int
    };
    let n = colors.len() as int;
    assert forall|k: int| 0 <= k < n implies #[trigger] table_entry(spec_flatten_palette(palette), k)
        == colors[k] by {
        assert(table_entry(spec_flatten_colors(colors), k) == colors[k]);
    }
}

/// Lays the palette out as a GIF color table: cut to 256 colors, padded
/// with its last color to a power of two (at least 2), then flattened.
pub fn flatten_palette_for_gif(palette: &Palette) -> (bytes: Vec<u8>)
    ensures
        bytes@ == spec_flatten_palette(palette@),
        bytes@.len() == 3 * spec_gif_colors(palette@).len(),
        2 <= spec_gif_colors(palette@).len() <= 256,
{
    let mut colors: Vec<[u8; 3]> = Vec::new();
    if palette.len() == 0 {
        colors.push([0, 0, 0]);
    } else {
        let n = if palette.len() > 256 {
            256
        } else {
            palette.len()
        };
        let mut i: usize = 0;
        while i < n
            invariant
                n <= palette@.len(),
                0 <= i <= n,
                colors@ =~= palette@.take(i as int),
            decreases n - i,
        {
            colors.push(palette[i]);
            i += 1;
        }
    }
    let ghost base = colors@;
    let count = colors.len();
    let target: usize = if count <= 2 {
        2
    } else if count <= 4 {
        4
    } else if count <= 8 {
        8
    } else if count <= 16 {
        16
    } else if count <= 32 {
        32
    } else if count <= 64 {
        64
    } else if count <= 128 {
        128
    } else {
        256
    };
    let fallback = colors[count - 1];
    while colors.len() < target
        invariant
            count == base.len(),
            1 <= count <= 256,
            target == spec_table_len(count as int),
            count <= colors@.len() <= target,
            fallback == base.last(),
            colors@ =~= base + Seq::new((colors@.len() - count) as nat, |i: int| base.last()),
        decreases target - colors@.len(),
    {
        colors.push(fallback);
    }
    assert(colors@ =~= spec_gif_colors(palette@));
    let mut bytes: Vec<u8> = Vec::new();
    let mut k: usize = 0;
    while k < colors.len()
        invariant
            0 <= k <= colors@.len(),
            bytes@ == spec_flatten_colors(colors@.take(k as int)),
        decreases colors@.len() - k,
    {
        let c = colors[k];
        proof {
            assert(colors@.take(k + 1).drop_last() =~= colors@.take(k as int));
        }
        bytes.push(c[0]);
        bytes.push(c[1]);
        bytes.push(c[2]);
        proof {
            assert(bytes@ =~= spec_flatten_colors(colors@.take(k as int)) + seq![c[0], c[1], c[2]]);
        }
        k += 1;
    }
    assert(colors@.take(colors@.len() as int) =~= colors@);
    proof {
        lemma_flatten_palette_size(palette@);
    }
    bytes
}

// ---------------------------------------------------------------------------
// Cropping to the changed region
// ---------------------------------------------------------------------------

/// Pixel `(x, y)` of a `w`-wide index buffer is not the transparent index.
pub open spec fn changed_at(s: Seq<u8>, w: int, t: u8, x: int, y: int) -> bool {
    s[y * w + x] != t
}

/// Some pixel of the `w` by `h` frame is not transparent.
pub open spec fn any_changed(s: Seq<u8>, w: int, h: int, t: u8) -> bool {
    exists|x: int, y: int| 0 <= x < w && 0 <= y < h && #[trigger] changed_at(s, w, t, x, y)
}

/// `[x0, x1] x [y0, y1]` is the smallest rectangle holding every pixel that
/// is not transparent.
pub open spec fn is_changed_box(
    s: Seq<u8>,
    w: int,
    h: int,
    t: u8,
    x0: int,
    y0: int,
    x1: int,
    y1: int,
) -> bool {
    &&& 0 <= x0 <= x1 < w
    &&& 0 <= y0 <= y1 < h
    &&& forall|x: int, y: int|
        0 <= x < w && 0 <= y < h && #[trigger] changed_at(s, w, t, x, y) ==> x0 <= x <= x1 && y0
            <= y <= y1
    &&& exists|y: int| 0 <= y < h && #[trigger] changed_at(s, w, t, x0, y)
    &&& exists|y: int| 0 <= y < h && #[trigger] changed_at(s, w, t, x1, y)
    &&& exists|x: int| 0 <= x < w && #[trigger] changed_at(s, w, t, x, y0)
    &&& exists|x: int| 0 <= x < w && #[trigger] changed_at(s, w, t, x, y1)
}

/// The changed box, when some pixel changed.
pub open spec fn spec_changed_box(s: Seq<u8>, w: int, h: int, t: u8) -> (int, int, int, int) {
    choose|b: (int, int, int, int)| is_changed_box(s, w, h, t, b.0, b.1, b.2, b.3)
}

/// Rows `top .. top + rows` of a `fw`-wide buffer, each cut to the columns
/// `left .. left + cw`, one after another.
pub open spec fn crop_rows(s: Seq<u8>, fw: int, left: int, cw: int, top: int, rows: int) -> Seq<
    u8,
>
    decreases rows,
{
    if rows <= 0 {
        Seq::empty()
    } else {
        let start = (top + rows - 1) * fw + left;
        crop_rows(s, fw, left, cw, top, rows - 1) + s.subrange(start, start + cw)
    }
}

/// What cropping returns, as `(left, top, width, height, indices)`, for a
/// buffer of `w * h` indices whose changed box (if any) fits a GIF frame.
pub open spec fn spec_crop(w: u32, h: u32, s: Seq<u8>, transparent: Option<u8>) -> (
    u16,
    u16,
    u16,
    u16,
    Seq<u8>,
) {
    match transparent {
        None => (0, 0, w as u16, h as u16, s),
        Some(t) => if !any_changed(s, w as int, h as int, t) {
            (0, 0, 1, 1, seq![t])
        } else {
            let b = spec_changed_box(s, w as int, h as int, t);
            (
                b.0 as u16,
                b.1 as u16,
                (b.2 - b.0 + 1) as u16,
                (b.3 - b.1 + 1) as u16,
                crop_rows(s, w as int, b.0, b.2 - b.0 + 1, b.1, b.3 - b.1 + 1),
            )
        },
    }
}

/// The changed box is too wide or too tall for a GIF frame.
pub open spec fn spec_crop_too_large(w: u32, h: u32, s: Seq<u8>, transparent: Option<u8>) -> bool {
    match transparent {
        None => false,
        Some(t) => any_changed(s, w as int, h as int, t) && ({
            let b = spec_changed_box(s, w as int, h as int, t);
            b.2 - b.0 + 1 > u16::MAX || b.3 - b.1 + 1 > u16::MAX
        }),
    }
}


proof fn first_true(p: spec_fn(int) -> bool, n: int) -> (m: int)
    requires
        exists|x: int| 0 <= x < n && #[trigger] p(x),
    ensures
        0 <= m < n,
        p(m),
        forall|x: int| 0 <= x < m ==> !#[trigger] p(x),
    decreases n,
{
    if exists|x: int| 0 <= x < n - 1 && #[trigger] p(x) {
        first_true(p, n - 1)
    } else {
        n - 1
    }
}

proof fn last_true(p: spec_fn(int) -> bool, n: int) -> (m: int)
    requires
        exists|x: int| 0 <= x < n && #[trigger] p(x),
    ensures
        0 <= m < n,
        p(m),
        forall|x: int| m < x < n ==> !#[trigger] p(x),
    decreases n,
{
    if p(n - 1) {
        n - 1
    } else {
        let w = choose|x: int| 0 <= x < n && #[trigger] p(x);
        assert(0 <= w < n - 1);
        last_true(p, n - 1)
    }
}

/// Column `x` holds a changed pixel.
#[verifier::opaque]
pub open spec fn column_changed(s: Seq<u8>, w: int, h: int, t: u8, x: int) -> bool {
    exists|y: int| 0 <= y < h && #[trigger] changed_at(s, w, t, x, y)
}

/// Row `y` holds a changed pixel.
#[verifier::opaque]
pub open spec fn row_changed(s: Seq<u8>, w: int, h: int, t: u8, y: int) -> bool {
    exists|x: int| 0 <= x < w && #[trigger] changed_at(s, w, t, x, y)
}

/// A frame with a changed pixel has a changed box, the smallest rectangle
/// holding every changed pixel with a changed pixel on each of its sides,
/// and `spec_changed_box` is that box.
pub proof fn lemma_changed_box_exists(s: Seq<u8>, w: int, h: int, t: u8)
    requires
        any_changed(s, w, h, t),
    ensures
        exists|b: (int, int, int, int)| is_changed_box(s, w, h, t, b.0, b.1, b.2, b.3),
        is_changed_box(
            s,
            w,
            h,
            t,
            spec_changed_box(s, w, h, t).0,
            spec_changed_box(s, w, h, t).1,
            spec_changed_box(s, w, h, t).2,
            spec_changed_box(s, w, h, t).3,
        ),
{
    let px = |x: int| column_changed(s, w, h, t, x);
    let py = |y: int| row_changed(s, w, h, t, y);
    let (wx, wy) = choose|x: int, y: int|
        0 <= x < w && 0 <= y < h && #[trigger] changed_at(s, w, t, x, y);
    assert(px(wx)) by {
        reveal(column_changed);
    }
    assert(py(wy)) by {
        reveal(row_changed);
    }
    let x0 = first_true(px, w);
    let x1 = last_true(px, w);
    let y0 = first_true(py, h);
    let y1 = last_true(py, h);
    assert forall|x: int, y: int|
        0 <= x < w && 0 <= y < h && #[trigger] changed_at(s, w, t, x, y) implies x0 <= x <= x1 && y0
        <= y <= y1 by {
        assert(px(x)) by {
            reveal(column_changed);
        }
        assert(py(y)) by {
            reveal(row_changed);
        }
    }
    assert(x0 <= x1) by {
        if x1 < x0 {
            assert(!px(x1));
        }
    }
    assert(y0 <= y1) by {
        if y1 < y0 {
            assert(!py(y1));
        }
    }
    assert(column_changed(s, w, h, t, x0) && column_changed(s, w, h, t, x1));
    assert(row_changed(s, w, h, t, y0) && row_changed(s, w, h, t, y1));
    reveal(column_changed);
    reveal(row_changed);
    let bb = (x0, y0, x1, y1);
    assert(is_changed_box(s, w, h, t, bb.0, bb.1, bb.2, bb.3));
}

/// A changed box is unique.
pub proof fn lemma_changed_box_unique(
    s: Seq<u8>,
    w: int,
    h: int,
    t: u8,
    a: (int, int, int, int),
    b: (int, int, int, int),
)
    requires
        is_changed_box(s, w, h, t, a.0, a.1, a.2, a.3),
        is_changed_box(s, w, h, t, b.0, b.1, b.2, b.3),
    ensures
        a == b,
{
    let ya0 = choose|y: int| 0 <= y < h && #[trigger] changed_at(s, w, t, a.0, y);
    let yb0 = choose|y: int| 0 <= y < h && #[trigger] changed_at(s, w, t, b.0, y);
    let ya2 = choose|y: int| 0 <= y < h && #[trigger] changed_at(s, w, t, a.2, y);
    let yb2 = choose|y: int| 0 <= y < h && #[trigger] changed_at(s, w, t, b.2, y);
    let xa1 = choose|x: int| 0 <= x < w && #[trigger] changed_at(s, w, t, x, a.1);
    let xb1 = choose|x: int| 0 <= x < w && #[trigger] changed_at(s, w, t, x, b.1);
    let xa3 = choose|x: int| 0 <= x < w && #[trigger] changed_at(s, w, t, x, a.3);
    let xb3 = choose|x: int| 0 <= x < w && #[trigger] changed_at(s, w, t, x, b.3);
    assert(changed_at(s, w, t, a.0, ya0));
    assert(changed_at(s, w, t, b.0, yb0));
    assert(changed_at(s, w, t, a.2, ya2));
    assert(changed_at(s, w, t, b.2, yb2));
    assert(changed_at(s, w, t, xa1, a.1));
    assert(changed_at(s, w, t, xb1, b.1));
    assert(changed_at(s, w, t, xa3, a.3));
    assert(changed_at(s, w, t, xb3, b.3));
}

/// Pixel `(x, y)` of a `w`-wide frame comes before `(x_lim, y_lim)` in row
/// order.
pub open spec fn scanned(w: int, x_lim: int, y_lim: int, x: int, y: int) -> bool {
    0 <= x < w && 0 <= y && (y < y_lim || (y == y_lim && x < x_lim))
}

/// What the search for the changed box knows after scanning every pixel
/// before `(x_lim, y_lim)`: whether a changed pixel was seen, and if so the
/// smallest box holding all changed pixels seen, each side touching one.
pub open spec fn scan_state(
    s: Seq<u8>,
    w: int,
    t: u8,
    x_lim: int,
    y_lim: int,
    found: bool,
    min_x: int,
    min_y: int,
    max_x: int,
    max_y: int,
) -> bool {
    &&& found <==> exists|x: int, y: int| scanned(w, x_lim, y_lim, x, y) && #[trigger] changed_at(
        s,
        w,
        t,
        x,
        y,
    )
    &&& found ==> {
        &&& forall|x: int, y: int|
            scanned(w, x_lim, y_lim, x, y) && #[trigger] changed_at(s, w, t, x, y) ==> min_x <= x
                <= max_x && min_y <= y <= max_y
        &&& exists|y: int| scanned(w, x_lim, y_lim, min_x, y) && #[trigger] changed_at(s, w, t, min_x, y)
        &&& exists|y: int| scanned(w, x_lim, y_lim, max_x, y) && #[trigger] changed_at(s, w, t, max_x, y)
        &&& exists|x: int| scanned(w, x_lim, y_lim, x, min_y) && #[trigger] changed_at(s, w, t, x, min_y)
        &&& exists|x: int| scanned(w, x_lim, y_lim, x, max_y) && #[trigger] changed_at(s, w, t, x, max_y)
    }
}

proof fn lemma_row_index(w: int, h: int, x: int, y: int)
    requires
        0 <= x < w,
        0 <= y < h,
    ensures
        0 <= y * w + x < w * h,
        y * w + x + (w - x) <= w * h,
{
    assert(y * w + x < w * h) by (nonlinear_arith)
        requires
            0 <= x < w,
            0 <= y < h,
    ;
    assert(0 <= y * w) by (nonlinear_arith)
        requires
            0 <= y,
            0 <= x < w,
    ;
    assert((y + 1) * w <= h * w) by (nonlinear_arith)
        requires
            0 <= x < w,
            0 <= y < h,
    ;
    assert((y + 1) * w == y * w + w) by (nonlinear_arith);
    assert(h * w == w * h) by (nonlinear_arith);
}

proof fn lemma_next_row(w: int, h: int, y: int)
    requires
        0 <= w,
        0 <= y < h,
    ensures
        y * w + w <= w * h,
        0 <= y * w,
{
    assert((y + 1) * w <= h * w) by (nonlinear_arith)
        requires
            0 <= w,
            0 <= y < h,
    ;
    assert((y + 1) * w == y * w + w) by (nonlinear_arith);
    assert(h * w == w * h) by (nonlinear_arith);
    assert(0 <= y * w) by (nonlinear_arith)
        requires
            0 <= w,
            0 <= y,
    ;
}

/// Cuts the index buffer down to the smallest rectangle holding every pixel
/// that is not `transparent_index`; a frame with nothing changed becomes one
/// transparent pixel, and without a transparent index the frame is kept
/// whole.
pub fn crop_to_changed_region(
    frame_width: u32,
    frame_height: u32,
    indices: &[u8],
    transparent_index: Option<u8>,
) -> (r: Result<CroppedFrame, EncodeError>)
    ensures
        r is Ok <==> indices@.len() == frame_width * frame_height && !spec_crop_too_large(
            frame_width,
            frame_height,
            indices@,
            transparent_index,
        ),
        indices@.len() != frame_width * frame_height ==> r == Err::<CroppedFrame, EncodeError>(
            EncodeError::CropBufferLength {
                actual: indices@.len() as usize,
                width: frame_width,
                height: frame_height,
            },
        ),
        r matches Ok(c) ==> (c.left, c.top, c.width, c.height, c.indices@) == spec_crop(
            frame_width,
            frame_height,
            indices@,
            transparent_index,
        ),
        r matches Err(e) ==> e is CropBufferLength || e is CroppedTooLarge,
        indices@.len() == frame_width * frame_height && frame_width <= 65535 && frame_height
            <= 65535 ==> r is Ok,
        frame_width <= 65535 && frame_height <= 65535 ==> (r matches Ok(c) ==> (c.width > 0
            && c.height > 0) || c.indices@.len() == 0),
        frame_width <= 65535 && frame_height <= 65535 ==> (r matches Ok(c) ==> c.indices@.len()
            == c.width * c.height),
{
    let full_width = frame_width as usize;
    let full_height = frame_height as usize;
    assert(frame_width as u64 * frame_height as u64 <= 0xffff_ffff_ffff_ffffu64) by (nonlinear_arith)
        requires
            frame_width <= u32::MAX,
            frame_height <= u32::MAX,
    ;
    let expected: u64 = frame_width as u64 * frame_height as u64;
    if indices.len() as u64 != expected {
        return Err(EncodeError::CropBufferLength {
            actual: indices.len(),
            width: frame_width,
            height: frame_height,
        });
    }
    let transparent = match transparent_index {
        None => {
            let mut copy: Vec<u8> = Vec::new();
            let mut i: usize = 0;
            while i < indices.len()
                invariant
                    0 <= i <= indices@.len(),
                    copy@ =~= indices@.take(i as int),
                decreases indices@.len() - i,
            {
                copy.push(indices[i]);
                i += 1;
            }
            assert(indices@.take(indices@.len() as int) =~= indices@);
            proof {
                if frame_width == 0 || frame_height == 0 {
                    assert(frame_width * frame_height == 0) by (nonlinear_arith)
                        requires
                            frame_width == 0 || frame_height == 0,
                    ;
                }
            }
            return Ok(
                CroppedFrame {
                    left: 0,
                    top: 0,
                    width: frame_width as u16,
                    height: frame_height as u16,
                    indices: copy,
                },
            );
        },
        Some(t) => t,
    };
    let ghost s = indices@;
    let ghost w = full_width as int;
    let ghost h = full_height as int;
    assert(s.len() == indices.len());
    assert(s.len() <= usize::MAX);
    let mut min_x: usize = full_width;
    let mut min_y: usize = full_height;
    let mut max_x: usize = 0;
    let mut max_y: usize = 0;
    let mut found = false;
    let mut y: usize = 0;
    let mut row_start: usize = 0;
    while y < full_height
        invariant
            s == indices@,
            w == full_width,
            h == full_height,
            s.len() == w * h,
            s.len() <= usize::MAX,
            0 <= y <= h,
            row_start == y * w,
            scan_state(s, w, transparent, 0, y as int, found, min_x as int, min_y as int, max_x as int, max_y as int),
            !found ==> min_x == w && min_y == h && max_x == 0 && max_y == 0,
        decreases full_height - y,
    {
        let mut x: usize = 0;
        proof {
            assert forall|xx: int, yy: int| scanned(w, 0, y as int, xx, yy) <==> scanned(w, x as int, y as int, xx, yy) by {}
        }
        while x < full_width
            invariant
                s == indices@,
                w == full_width,
                h == full_height,
                s.len() == w * h,
                s.len() <= usize::MAX,
                0 <= y < h,
                0 <= x <= w,
                row_start == y * w,
                scan_state(s, w, transparent, x as int, y as int, found, min_x as int, min_y as int, max_x as int, max_y as int),
                !found ==> min_x == w && min_y == h && max_x == 0 && max_y == 0,
            decreases full_width - x,
        {
            proof {
                lemma_row_index(w, h, x as int, y as int);
            }
            let idx = row_start + x;
            let ghost old_found = found;
            let ghost (omx, omy, oMx, oMy) = (min_x as int, min_y as int, max_x as int, max_y as int);
            if indices[idx] != transparent {
                assert(changed_at(s, w, transparent, x as int, y as int));
                found = true;
                if x < min_x {
                    min_x = x;
                }
                if y < min_y {
                    min_y = y;
                }
                if x > max_x {
                    max_x = x;
                }
                if y > max_y {
                    max_y = y;
                }
                proof {
                    let nx = x as int;
                    let ny = y as int;
                    assert forall|xx: int, yy: int|
                        scanned(w, nx + 1, ny, xx, yy) && #[trigger] changed_at(s, w, transparent, xx, yy)
                        implies min_x <= xx <= max_x && min_y <= yy <= max_y by {
                        if !(xx == nx && yy == ny) {
                            assert(scanned(w, nx, ny, xx, yy));
                        }
                    }
                    if old_found {
                        if min_x == nx {
                            assert(scanned(w, nx + 1, ny, nx, ny));
                        } else {
                            let yy = choose|yy: int| scanned(w, nx, ny, omx, yy) && #[trigger] changed_at(s, w, transparent, omx, yy);
                            assert(scanned(w, nx + 1, ny, omx, yy));
                        }
                        if max_x == nx {
                            assert(scanned(w, nx + 1, ny, nx, ny));
                        } else {
                            let yy = choose|yy: int| scanned(w, nx, ny, oMx, yy) && #[trigger] changed_at(s, w, transparent, oMx, yy);
                            assert(scanned(w, nx + 1, ny, oMx, yy));
                        }
                        if min_y == ny {
                            assert(scanned(w, nx + 1, ny, nx, ny));
                        } else {
                            let xx = choose|xx: int| scanned(w, nx, ny, xx, omy) && #[trigger] changed_at(s, w, transparent, xx, omy);
                            assert(scanned(w, nx + 1, ny, xx, omy));
                        }
                        if max_y == ny {
                            assert(scanned(w, nx + 1, ny, nx, ny));
                        } else {
                            let xx = choose|xx: int| scanned(w, nx, ny, xx, oMy) && #[trigger] changed_at(s, w, transparent, xx, oMy);
                            assert(scanned(w, nx + 1, ny, xx, oMy));
                        }
                    } else {
                        assert(scanned(w, nx + 1, ny, nx, ny));
                    }
                    assert(scanned(w, nx + 1, ny, nx, ny));
                }
            } else {
                proof {
                    let nx = x as int;
                    let ny = y as int;
                    assert(!changed_at(s, w, transparent, nx, ny));
                    assert forall|xx: int, yy: int|
                        scanned(w, nx + 1, ny, xx, yy) && #[trigger] changed_at(s, w, transparent, xx, yy)
                        implies scanned(w, nx, ny, xx, yy) by {
                    }
                    if found {
                        let y1 = choose|yy: int| scanned(w, nx, ny, omx, yy) && #[trigger] changed_at(s, w, transparent, omx, yy);
                        assert(scanned(w, nx + 1, ny, omx, y1));
                        let y2 = choose|yy: int| scanned(w, nx, ny, oMx, yy) && #[trigger] changed_at(s, w, transparent, oMx, yy);
                        assert(scanned(w, nx + 1, ny, oMx, y2));
                        let x1 = choose|xx: int| scanned(w, nx, ny, xx, omy) && #[trigger] changed_at(s, w, transparent, xx, omy);
                        assert(scanned(w, nx + 1, ny, x1, omy));
                        let x2 = choose|xx: int| scanned(w, nx, ny, xx, oMy) && #[trigger] changed_at(s, w, transparent, xx, oMy);
                        assert(scanned(w, nx + 1, ny, x2, oMy));
                    }
                }
            }
            x += 1;
        }
        proof {
            assert forall|xx: int, yy: int| scanned(w, w, y as int, xx, yy) <==> scanned(w, 0, y + 1, xx, yy) by {}
            lemma_next_row(w, h, y as int);
        }
        y += 1;
        row_start = row_start + full_width;
        proof {
            assert(row_start == y * w) by (nonlinear_arith)
                requires
                    row_start == (y - 1) * w + w,
            ;
        }
    }
    proof {
        assert forall|xx: int, yy: int| 0 <= xx < w && 0 <= yy < h implies (scanned(w, 0, h, xx, yy)) by {}
        assert forall|xx: int, yy: int| scanned(w, 0, h, xx, yy) implies 0 <= xx < w && 0 <= yy < h by {}
    }
    if !found {
        proof {
            assert(!any_changed(s, w, h, transparent));
        }
        let mut single: Vec<u8> = Vec::new();
        single.push(transparent);
        assert(single@.len() == 1);
        assert(1u16 * 1u16 == 1);
        return Ok(CroppedFrame { left: 0, top: 0, width: 1, height: 1, indices: single });
    }
    proof {
        assert(any_changed(s, w, h, transparent));
        let x0 = choose|yy: int| scanned(w, 0, h, min_x as int, yy) && #[trigger] changed_at(s, w, transparent, min_x as int, yy);
        let x1 = choose|yy: int| scanned(w, 0, h, max_x as int, yy) && #[trigger] changed_at(s, w, transparent, max_x as int, yy);
        let y0 = choose|xx: int| scanned(w, 0, h, xx, min_y as int) && #[trigger] changed_at(s, w, transparent, xx, min_y as int);
        let y1 = choose|xx: int| scanned(w, 0, h, xx, max_y as int) && #[trigger] changed_at(s, w, transparent, xx, max_y as int);
        assert(min_x <= max_x);
        assert(min_y <= max_y);
        assert(is_changed_box(s, w, h, transparent, min_x as int, min_y as int, max_x as int, max_y as int));
        let bb = (min_x as int, min_y as int, max_x as int, max_y as int);
        assert(is_changed_box(s, w, h, transparent, bb.0, bb.1, bb.2, bb.3));
        let b = spec_changed_box(s, w, h, transparent);
        lemma_changed_box_unique(s, w, h, transparent, b, bb);
    }
    let cropped_width = max_x - min_x + 1;
    let cropped_height = max_y - min_y + 1;
    if cropped_width > 65535 || cropped_height > 65535 {
        return Err(EncodeError::CroppedTooLarge { width: cropped_width, height: cropped_height });
    }
    let mut cropped: Vec<u8> = Vec::new();
    let mut row: usize = min_y;
    while row <= max_y
        invariant
            s == indices@,
            w == full_width,
            h == full_height,
            s.len() == w * h,
            s.len() <= usize::MAX,
            min_x <= max_x < w,
            min_y <= row <= max_y + 1,
            max_y < h,
            cropped_width == max_x - min_x + 1,
            cropped@ == crop_rows(s, w, min_x as int, cropped_width as int, min_y as int, row - min_y),
        decreases max_y + 1 - row,
    {
        proof {
            lemma_row_index(w, h, min_x as int, row as int);
            assert(row * w <= (h - 1) * w) by (nonlinear_arith)
                requires
                    row < h,
                    0 <= w,
            ;
        }
        let start = row * full_width + min_x;
        let mut k: usize = 0;
        while k < cropped_width
            invariant
                s == indices@,
                s.len() == w * h,
                s.len() <= usize::MAX,
                start == row * w + min_x,
                start + cropped_width <= s.len(),
                0 <= k <= cropped_width,
                cropped@ == crop_rows(s, w, min_x as int, cropped_width as int, min_y as int, row - min_y) + s.subrange(start as int, start + k),
            decreases cropped_width - k,
        {
            cropped.push(indices[start + k]);
            proof {
                assert(s.subrange(start as int, start + k + 1) =~= s.subrange(start as int, start + k).push(s[start + k]));
            }
            k += 1;
        }
        proof {
            assert(crop_rows(s, w, min_x as int, cropped_width as int, min_y as int, row + 1 - min_y)
                == crop_rows(s, w, min_x as int, cropped_width as int, min_y as int, row - min_y) + s.subrange(start as int, start + cropped_width));
        }
        row += 1;
    }
    proof {
        assert((max_y + 1) * w <= h * w) by (nonlinear_arith)
            requires
                max_y < h,
                0 <= w,
        ;
        assert(h * w == w * h) by (nonlinear_arith);
        lemma_crop_rows_index(s, w, min_x as int, cropped_width as int, min_y as int, cropped_height as int);
        assert(cropped_height * cropped_width == cropped_width * cropped_height) by (nonlinear_arith);
    }
    Ok(
        CroppedFrame {
            left: min_x as u16,
            top: min_y as u16,
            width: cropped_width as u16,
            height: cropped_height as u16,
            indices: cropped,
        },
    )
}

// ---------------------------------------------------------------------------
// Transparency for unchanged pixels
// ---------------------------------------------------------------------------

/// Number of RGBA pixels that both buffers hold.
pub open spec fn zip_len(previous: Seq<u8>, current: Seq<u8>) -> int {
    let a = previous.len() / 4;
    let b = current.len() / 4;
    if a <= b {
        a as int
    } else {
        b as int
    }
}

/// Pixel `i` is unchanged between the two RGBA buffers.
pub open spec fn similar_at(previous: Seq<u8>, current: Seq<u8>, tolerance: u8, i: int) -> bool {
    spec_pixels_similar(
        previous.subrange(4 * i, 4 * i + 4),
        current.subrange(4 * i, 4 * i + 4),
        tolerance,
    )
}

/// Some pixel is unchanged between the two RGBA buffers.
pub open spec fn any_similar(previous: Seq<u8>, current: Seq<u8>, tolerance: u8) -> bool {
    exists|i: int| 0 <= i < zip_len(previous, current) && #[trigger] similar_at(previous, current, tolerance, i)
}

/// `indices` with every occurrence of `victim` replaced by `replacement`.
pub open spec fn spec_replace_index(indices: Seq<u8>, victim: int, replacement: u8) -> Seq<u8> {
    Seq::new(
        indices.len(),
        |k: int|
            if indices[k] as int == victim {
                replacement
            } else {
                indices[k]
            },
    )
}

/// `indices` with every unchanged pixel set to `transparent`.
pub open spec fn spec_mark_unchanged(
    indices: Seq<u8>,
    previous: Seq<u8>,
    current: Seq<u8>,
    tolerance: u8,
    transparent: u8,
) -> Seq<u8> {
    Seq::new(
        indices.len(),
        |k: int|
            if k < zip_len(previous, current) && similar_at(previous, current, tolerance, k) {
                transparent
            } else {
                indices[k]
            },
    )
}

/// Outcome of the transparency step as `(palette, indices, transparent)`.
/// Nothing changes when the frames differ in size, the index buffer does
/// not hold one index per pixel, or no pixel is unchanged. Otherwise a
/// palette with room gets a new black entry as the transparent index; a full
/// palette gives up its least used entry, whose pixels move to that entry's
/// nearest neighbor. Every unchanged pixel then takes the transparent index.
pub open spec fn spec_transparency(
    palette: Seq<[u8; 3]>,
    indices: Seq<u8>,
    previous: RgbaFrame,
    current: RgbaFrame,
    tolerance: u8,
) -> (Seq<[u8; 3]>, Seq<u8>, Option<u8>) {
    let p = previous.pixels@;
    let c = current.pixels@;
    if previous.width != current.width || previous.height != current.height || indices.len()
        != current.width * current.height || !any_similar(p, c, tolerance) {
        (palette, indices, None)
    } else if palette.len() < 256 {
        let t = palette.len() as u8;
        (palette.push([0u8, 0u8, 0u8]), spec_mark_unchanged(indices, p, c, tolerance, t), Some(t))
    } else {
        let victim = spec_least_used_upto(indices, palette.len());
        let replacement = match spec_nearest_palette_neighbor(palette, victim as int) {
            Some(r) => r,
            None => victim,
        };
        let t = victim as u8;
        (
            palette.update(victim as int, [0u8, 0u8, 0u8]),
            spec_mark_unchanged(
                spec_replace_index(indices, victim as int, replacement as u8),
                p,
                c,
                tolerance,
                t,
            ),
            Some(t),
        )
    }
}

/// Gives pixels that did not change since the previous frame a transparent
/// palette index, so the previous frame shows through; returns that index.
pub fn apply_transparency_optimization(
    palette: &mut Palette,
    indices: &mut Vec<u8>,
    previous: &RgbaFrame,
    current: &RgbaFrame,
    tolerance: u8,
) -> (r: Option<u8>)
    ensures
        (final(palette)@, final(indices)@, r) == spec_transparency(
            old(palette)@,
            old(indices)@,
            *previous,
            *current,
            tolerance,
        ),
{
    if previous.width != current.width || previous.height != current.height {
        return None;
    }
    assert(current.width as u64 * current.height as u64 <= 0xffff_ffff_ffff_ffffu64)
        by (nonlinear_arith)
        requires
            current.width <= u32::MAX,
            current.height <= u32::MAX,
    ;
    let pixel_count: u64 = current.width as u64 * current.height as u64;
    if indices.len() as u64 != pixel_count {
        return None;
    }
    let ghost p = previous.pixels@;
    let ghost c = current.pixels@;
    let prev_n = previous.pixels.len() / 4;
    let curr_n = current.pixels.len() / 4;
    let n = if prev_n <= curr_n {
        prev_n
    } else {
        curr_n
    };
    let mut found = false;
    let mut i: usize = 0;
    while i < n
        invariant
            p == previous.pixels@,
            c == current.pixels@,
            p.len() <= usize::MAX,
            c.len() <= usize::MAX,
            n == zip_len(p, c),
            0 <= i <= n,
            found <==> exists|j: int| 0 <= j < i && #[trigger] similar_at(p, c, tolerance, j),
        decreases n - i,
    {
        let a = &previous.pixels[4 * i..4 * i + 4];
        let b = &current.pixels[4 * i..4 * i + 4];
        if pixels_similar(a, b, tolerance) {
            assert(similar_at(p, c, tolerance, i as int));
            found = true;
        }
        i += 1;
    }
    if !found {
        assert(!any_similar(p, c, tolerance));
        return None;
    }
    let ghost old_palette = palette@;
    let ghost old_indices = indices@;
    let transparent: u8;
    if palette.len() < 256 {
        palette.push([0, 0, 0]);
        transparent = (palette.len() - 1) as u8;
    } else {
        let victim = least_used_palette_index(indices.as_slice(), palette.len());
        let replacement = match nearest_palette_neighbor(palette, victim) {
            Some(r) => r,
            None => victim,
        };
        proof {
            let spec_r = match spec_nearest_palette_neighbor(old_palette, victim as int) {
                Some(r) => r,
                None => victim as nat,
            };
            lemma_neighbor_bound(old_palette, victim as int, old_palette.len());
            assert(replacement as nat == spec_r);
            assert(replacement as u8 == spec_r as u8);
        }
        let mut k: usize = 0;
        while k < indices.len()
            invariant
                indices@.len() == old_indices.len(),
                0 <= k <= indices@.len(),
                forall|j: int| 0 <= j < k ==> #[trigger] indices@[j] == spec_replace_index(old_indices, victim as int, replacement as u8)[j],
                forall|j: int| k <= j < indices@.len() ==> #[trigger] indices@[j] == old_indices[j],
            decreases indices@.len() - k,
        {
            if indices[k] as usize == victim {
                indices.set(k, replacement as u8);
            }
            k += 1;
        }
        assert(indices@ =~= spec_replace_index(old_indices, victim as int, replacement as u8));
        palette.set(victim, [0, 0, 0]);
        transparent = victim as u8;
    }
    let ghost base = indices@;
    let m = if n <= indices.len() {
        n
    } else {
        indices.len()
    };
    let mut i: usize = 0;
    while i < m
        invariant
            p == previous.pixels@,
            c == current.pixels@,
            p.len() <= usize::MAX,
            c.len() <= usize::MAX,
            n == zip_len(p, c),
            m <= n,
            m <= base.len(),
            m == n || m == base.len(),
            indices@.len() == base.len(),
            0 <= i <= m,
            forall|j: int| 0 <= j < i ==> #[trigger] indices@[j] == spec_mark_unchanged(base, p, c, tolerance, transparent)[j],
            forall|j: int| i <= j < indices@.len() ==> #[trigger] indices@[j] == base[j],
        decreases m - i,
    {
        let a = &previous.pixels[4 * i..4 * i + 4];
        let b = &current.pixels[4 * i..4 * i + 4];
        if pixels_similar(a, b, tolerance) {
            indices.set(i, transparent);
        }
        i += 1;
    }
    assert(indices@ =~= spec_mark_unchanged(base, p, c, tolerance, transparent));
    proof {
        let sp = spec_transparency(old_palette, old_indices, *previous, *current, tolerance);
        assert(any_similar(p, c, tolerance));
        if old_palette.len() < 256 {
            assert(base == old_indices);
            assert(sp.0 == palette@);
            assert(sp.2 == Some(transparent));
            assert(sp.1 == indices@);
        } else {
            assert(sp.0 == palette@);
            assert(sp.2 == Some(transparent));
            assert(sp.1 == indices@);
        }
    }
    Some(transparent)
}

// ---------------------------------------------------------------------------
// Writing a whole animation
// ---------------------------------------------------------------------------

/// Palette, indices and transparent index of frame `i` after the
/// transparency step, which runs from the second frame on when enabled.
pub open spec fn spec_frame_parts(
    indexed: Seq<IndexedFrame>,
    source: Seq<RgbaFrame>,
    config: EncodeConfig,
    i: int,
) -> (Seq<[u8; 3]>, Seq<u8>, Option<u8>) {
    let f = indexed[i];
    if config.transparency_optimization && i > 0 {
        spec_transparency(
            f.palette@,
            f.indices@,
            source[i - 1],
            source[i],
            spec_transparency_tolerance(config.quality),
        )
    } else {
        (f.palette@, f.indices@, None)
    }
}

/// The bytes written for frame `i`: its control extension (keeping the
/// previous frame under a transparent one), its descriptor and color table,
/// and its compressed, cropped indices.
pub open spec fn spec_frame_bytes(
    indexed: Seq<IndexedFrame>,
    source: Seq<RgbaFrame>,
    config: EncodeConfig,
    i: int,
) -> Seq<u8> {
    let f = indexed[i];
    let parts = spec_frame_parts(indexed, source, config, i);
    let crop = spec_crop(f.width, f.height, parts.1, parts.2);
    spec_frame_block(
        crop.0,
        crop.1,
        crop.2,
        crop.3,
        f.delay_cs,
        if parts.2 is Some {
            FrameDisposal::Keep
        } else {
            FrameDisposal::Any
        },
        parts.2,
        spec_flatten_palette(parts.0),
        crop.4,
    )
}

/// The bytes written for frames `0 .. k`, one after another.
pub open spec fn spec_frames_bytes(
    indexed: Seq<IndexedFrame>,
    source: Seq<RgbaFrame>,
    config: EncodeConfig,
    k: int,
) -> Seq<u8>
    decreases k,
{
    if k <= 0 {
        Seq::empty()
    } else {
        spec_frames_bytes(indexed, source, config, k - 1) + spec_frame_bytes(
            indexed,
            source,
            config,
            k - 1,
        )
    }
}

/// The whole GIF file for the frames.
pub open spec fn spec_gif_file(
    indexed: Seq<IndexedFrame>,
    source: Seq<RgbaFrame>,
    config: EncodeConfig,
) -> Seq<u8> {
    spec_gif_header(indexed[0].width as u16, indexed[0].height as u16) + spec_loop_forever_block()
        + spec_frames_bytes(indexed, source, config, indexed.len() as int) + spec_gif_trailer()
}

/// Total delay of frames `0 .. k` in milliseconds.
pub open spec fn spec_duration_ms(indexed: Seq<IndexedFrame>, k: int) -> int
    decreases k,
{
    if k <= 0 {
        0
    } else {
        spec_duration_ms(indexed, k - 1) + indexed[k - 1].delay_cs * 10
    }
}

proof fn lemma_duration_monotone(indexed: Seq<IndexedFrame>, j: int, k: int)
    requires
        0 <= j <= k,
    ensures
        0 <= spec_duration_ms(indexed, j) <= spec_duration_ms(indexed, k),
    decreases k,
{
    if j < k {
        lemma_duration_monotone(indexed, j, k - 1);
    }
    if k > 0 && j == k {
        lemma_duration_monotone(indexed, j - 1, k - 1);
    }
}

/// What is wrong with frame `i` of a `w` by `h` animation, if anything.
pub open spec fn spec_frame_error(indexed: Seq<IndexedFrame>, w: u32, h: u32, i: int) -> Option<
    EncodeError,
> {
    let f = indexed[i];
    if f.width != w || f.height != h {
        Some(EncodeError::FrameDimensionMismatch { frame: i as usize })
    } else if f.indices@.len() != w * h {
        Some(
            EncodeError::InvalidIndexBufferLength {
                frame: i as usize,
                expected: (w * h) as usize,
                actual: f.indices@.len() as usize,
            },
        )
    } else {
        None
    }
}

/// The error of the first bad frame among frames `0 .. k`.
pub open spec fn spec_first_frame_error(indexed: Seq<IndexedFrame>, w: u32, h: u32, k: int) -> Option<
    EncodeError,
>
    decreases k,
{
    if k <= 0 {
        None
    } else {
        match spec_first_frame_error(indexed, w, h, k - 1) {
            Some(e) => Some(e),
            None => spec_frame_error(indexed, w, h, k - 1),
        }
    }
}

/// The error the frames are refused with, checked in a fixed order, or
/// `None` when they can be written.
pub open spec fn spec_encode_error(indexed: Seq<IndexedFrame>, source: Seq<RgbaFrame>) -> Option<
    EncodeError,
> {
    if indexed.len() == 0 {
        Some(EncodeError::NoFrames)
    } else if indexed.len() != source.len() {
        Some(
            EncodeError::FrameCountMismatch {
                indexed: indexed.len() as usize,
                source: source.len() as usize,
            },
        )
    } else if indexed[0].width > 65535 || indexed[0].height > 65535 {
        Some(EncodeError::DimensionsTooLarge { width: indexed[0].width, height: indexed[0].height })
    } else {
        spec_first_frame_error(indexed, indexed[0].width, indexed[0].height, indexed.len() as int)
    }
}

proof fn lemma_first_error_kind(indexed: Seq<IndexedFrame>, w: u32, h: u32, k: int)
    ensures
        spec_first_frame_error(indexed, w, h, k) matches Some(e) ==> e is FrameDimensionMismatch
            || e is InvalidIndexBufferLength,
    decreases k,
{
    if k > 0 {
        lemma_first_error_kind(indexed, w, h, k - 1);
    }
}

proof fn lemma_first_error_stable(indexed: Seq<IndexedFrame>, w: u32, h: u32, k: int, n: int)
    requires
        0 <= k <= n,
        spec_first_frame_error(indexed, w, h, k) is Some,
    ensures
        spec_first_frame_error(indexed, w, h, n) == spec_first_frame_error(indexed, w, h, k),
    decreases n,
{
    if k < n {
        lemma_first_error_stable(indexed, w, h, k, n - 1);
    }
}

fn copy_bytes(v: &Vec<u8>) -> (r: Vec<u8>)
    ensures
        r@ == v@,
{
    let mut r: Vec<u8> = Vec::new();
    let mut i: usize = 0;
    while i < v.len()
        invariant
            0 <= i <= v@.len(),
            r@ =~= v@.take(i as int),
        decreases v@.len() - i,
    {
        r.push(v[i]);
        i += 1;
    }
    assert(v@.take(v@.len() as int) =~= v@);
    r
}

fn copy_palette(v: &Palette) -> (r: Palette)
    ensures
        r@ == v@,
{
    let mut r: Palette = Vec::new();
    let mut i: usize = 0;
    while i < v.len()
        invariant
            0 <= i <= v@.len(),
            r@ =~= v@.take(i as int),
        decreases v@.len() - i,
    {
        r.push(v[i]);
        i += 1;
    }
    assert(v@.take(v@.len() as int) =~= v@);
    r
}

/// Assembles frame `i` (transparency, cropping, color table) and writes it.
fn write_frame_to_stream(
    stream: &mut GifStream,
    indexed_frames: &[IndexedFrame],
    source_frames: &[RgbaFrame],
    config: &EncodeConfig,
    i: usize,
) -> (r: Result<(), EncodeError>)
    requires
        i < indexed_frames@.len(),
        indexed_frames@.len() == source_frames@.len(),
        indexed_frames@[i as int].width <= 65535,
        indexed_frames@[i as int].height <= 65535,
        indexed_frames@[i as int].indices@.len() == indexed_frames@[i as int].width
            * indexed_frames@[i as int].height,
    ensures
        r is Ok,
        gif_stream_bytes(*final(stream)) == gif_stream_bytes(*old(stream)) + spec_frame_bytes(
            indexed_frames@,
            source_frames@,
            *config,
            i as int,
        ),
{
    let ghost indexed = indexed_frames@;
    let ghost source = source_frames@;
    let frame = &indexed_frames[i];
    let mut palette = copy_palette(&frame.palette);
    let mut indices = copy_bytes(&frame.indices);
    let mut transparent_index: Option<u8> = None;
    let mut disposal = FrameDisposal::Any;
    if config.transparency_optimization && i > 0 {
        let tolerance = transparency_tolerance_from_quality(config.quality);
        transparent_index = apply_transparency_optimization(
            &mut palette,
            &mut indices,
            &source_frames[i - 1],
            &source_frames[i],
            tolerance,
        );
        if transparent_index.is_some() {
            disposal = FrameDisposal::Keep;
        }
    }
    let ghost parts = spec_frame_parts(indexed, source, *config, i as int);
    assert(palette@ == parts.0 && indices@ == parts.1 && transparent_index == parts.2);
    let cropped = match crop_to_changed_region(frame.width, frame.height, &indices, transparent_index) {
        Ok(c) => c,
        Err(e) => {
            assert(false);
            return Err(e);
        },
    };
    let palette_bytes = flatten_palette_for_gif(&palette);
    assert(palette_bytes@.len() / 3 <= 256);
    let gif_frame = GifFrame {
        left: cropped.left,
        top: cropped.top,
        width: cropped.width,
        height: cropped.height,
        delay: frame.delay_cs,
        dispose: disposal,
        transparent: transparent_index,
        palette: palette_bytes,
        buffer: cropped.indices,
    };
    let ghost block = spec_frame_bytes(indexed, source, *config, i as int);
    let ghost before = gif_stream_bytes(*stream);
    match gif_stream_write_frame(stream, gif_frame) {
        Ok(()) => {},
        Err(_) => return Err(EncodeError::GifWrite),
    }
    assert(gif_stream_bytes(*stream) == before + block);
    Ok(())
}

/// Frames written before the run stopped: all of them, none when the input
/// is refused as a whole, and those before the first bad frame otherwise.
pub open spec fn spec_frames_written(indexed: Seq<IndexedFrame>, source: Seq<RgbaFrame>) -> int {
    match spec_encode_error(indexed, source) {
        None => indexed.len() as int,
        Some(EncodeError::FrameDimensionMismatch { frame }) => frame as int,
        Some(EncodeError::InvalidIndexBufferLength { frame, .. }) => frame as int,
        Some(_) => 0,
    }
}

/// The progress notices of a run: a step of 1 for each frame written.
pub open spec fn spec_progress(indexed: Seq<IndexedFrame>, source: Seq<RgbaFrame>) -> Seq<u64> {
    Seq::new(spec_frames_written(indexed, source) as nat, |i: int| 1u64)
}

/// What writing an animation produced: the file with its statistics, or
/// the error, and the progress notices for the caller to pass on to its
/// reporter (`inc` with each step, in order).
#[derive(Debug)]
pub struct EncodeRun {
    pub result: Result<(Vec<u8>, EncodeStats), EncodeError>,
    pub progress: Vec<u64>,
}

/// Writes the indexed frames as a looping GIF into memory and returns the
/// file's bytes with statistics of the run, together with a progress step
/// of 1 for every frame written. Unchanged pixels become transparent from
/// the second frame on when the configuration asks for it, and every frame
/// is cropped to its changed region.
pub fn encode_indexed_frames(
    indexed_frames: &[IndexedFrame],
    source_frames: &[RgbaFrame],
    config: &EncodeConfig,
) -> (run: EncodeRun)
    requires
        spec_duration_ms(indexed_frames@, indexed_frames@.len() as int) <= u64::MAX,
    ensures
        run.progress@ == spec_progress(indexed_frames@, source_frames@),
        ({
            let r = run.result;
            &&& r matches Ok((bytes, stats)) ==> {
                &&& spec_encode_error(indexed_frames@, source_frames@) is None
                &&& bytes@ == spec_gif_file(indexed_frames@, source_frames@, *config)
                &&& stats.file_size_bytes == bytes@.len()
                &&& stats.frame_count == indexed_frames@.len()
                &&& stats.duration_ms == spec_duration_ms(indexed_frames@, indexed_frames@.len() as int)
                &&& stats.width == indexed_frames@[0].width
                &&& stats.height == indexed_frames@[0].height
            }
            &&& spec_encode_error(indexed_frames@, source_frames@) is None ==> r is Ok
            &&& spec_encode_error(indexed_frames@, source_frames@) matches Some(e) ==> r == Err::<
                (Vec<u8>, EncodeStats),
                EncodeError,
            >(e)
        }),
{
    let mut progress: Vec<u64> = Vec::new();
    let result = write_animation(indexed_frames, source_frames, config, &mut progress);
    EncodeRun { result, progress }
}

/// The whole animation, with its progress steps appended to `progress`.
fn write_animation(
    indexed_frames: &[IndexedFrame],
    source_frames: &[RgbaFrame],
    config: &EncodeConfig,
    progress: &mut Vec<u64>,
) -> (r: Result<(Vec<u8>, EncodeStats), EncodeError>)
    requires
        spec_duration_ms(indexed_frames@, indexed_frames@.len() as int) <= u64::MAX,
        old(progress)@.len() == 0,
    ensures
        final(progress)@ == spec_progress(indexed_frames@, source_frames@),
        r matches Ok((bytes, stats)) ==> {
            &&& spec_encode_error(indexed_frames@, source_frames@) is None
            &&& bytes@ == spec_gif_file(indexed_frames@, source_frames@, *config)
            &&& stats.file_size_bytes == bytes@.len()
            &&& stats.frame_count == indexed_frames@.len()
            &&& stats.duration_ms == spec_duration_ms(indexed_frames@, indexed_frames@.len() as int)
            &&& stats.width == indexed_frames@[0].width
            &&& stats.height == indexed_frames@[0].height
        },
        spec_encode_error(indexed_frames@, source_frames@) is None ==> r is Ok,
        spec_encode_error(indexed_frames@, source_frames@) matches Some(e) ==> r == Err::<
            (Vec<u8>, EncodeStats),
            EncodeError,
        >(e),
{
    if indexed_frames.len() == 0 {
        return Err(EncodeError::NoFrames);
    }
    if indexed_frames.len() != source_frames.len() {
        return Err(
            EncodeError::FrameCountMismatch {
                indexed: indexed_frames.len(),
                source: source_frames.len(),
            },
        );
    }
    let width = indexed_frames[0].width;
    let height = indexed_frames[0].height;
    if width > 65535 || height > 65535 {
        return Err(EncodeError::DimensionsTooLarge { width, height });
    }
    let ghost indexed = indexed_frames@;
    let ghost source = source_frames@;
    proof {
        lemma_first_error_kind(indexed, width, height, indexed.len() as int);
    }
    let mut stream = match gif_stream_new(width as u16, height as u16) {
        Ok(s) => s,
        Err(_) => return Err(EncodeError::GifWrite),
    };
    match gif_stream_loop_forever(&mut stream) {
        Ok(()) => {},
        Err(_) => return Err(EncodeError::GifWrite),
    }
    let ghost prefix = spec_gif_header(width as u16, height as u16) + spec_loop_forever_block();
    let mut duration_ms: u64 = 0;
    let mut i: usize = 0;
    while i < indexed_frames.len()
        invariant
            indexed == indexed_frames@,
            source == source_frames@,
            indexed.len() == source.len(),
            indexed.len() >= 1,
            width == indexed[0].width,
            height == indexed[0].height,
            width <= 65535,
            height <= 65535,
            0 <= i <= indexed.len(),
            spec_duration_ms(indexed, indexed.len() as int) <= u64::MAX,
            spec_first_frame_error(indexed, width, height, i as int) is None,
            spec_encode_error(indexed, source) == spec_first_frame_error(indexed, width, height, indexed.len() as int),
            spec_encode_error(indexed, source) matches Some(e) ==> e is FrameDimensionMismatch
                || e is InvalidIndexBufferLength,
            gif_stream_bytes(stream) == prefix + spec_frames_bytes(indexed, source, *config, i as int),
            duration_ms == spec_duration_ms(indexed, i as int),
            progress@ == Seq::new(i as nat, |j: int| 1u64),
        decreases indexed.len() - i,
    {
        let frame = &indexed_frames[i];
        if frame.width != width || frame.height != height {
            proof {
                lemma_first_error_stable(indexed, width, height, i + 1, indexed.len() as int);
            }
            return Err(EncodeError::FrameDimensionMismatch { frame: i });
        }
        assert(frame.width as usize * frame.height as usize <= 65535 * 65535) by (nonlinear_arith)
            requires
                frame.width <= 65535,
                frame.height <= 65535,
        ;
        let expected: usize = frame.width as usize * frame.height as usize;
        if frame.indices.len() != expected {
            proof {
                lemma_first_error_stable(indexed, width, height, i + 1, indexed.len() as int);
            }
            return Err(
                EncodeError::InvalidIndexBufferLength {
                    frame: i,
                    expected,
                    actual: frame.indices.len(),
                },
            );
        }
        let ghost before = gif_stream_bytes(stream);
        match write_frame_to_stream(&mut stream, indexed_frames, source_frames, config, i) {
            Ok(()) => {},
            Err(e) => return Err(e),
        }
        progress.push(1);
        proof {
            assert(progress@ =~= Seq::new((i + 1) as nat, |j: int| 1u64));
        }
        proof {
            lemma_duration_monotone(indexed, i + 1, indexed.len() as int);
            assert(prefix + spec_frames_bytes(indexed, source, *config, i + 1) =~= before
                + spec_frame_bytes(indexed, source, *config, i as int));
        }
        duration_ms = duration_ms + frame.delay_cs as u64 * 10;
        i += 1;
    }
    let bytes = match gif_stream_finish(stream) {
        Ok(b) => b,
        Err(_) => return Err(EncodeError::GifWrite),
    };
    let stats = EncodeStats {
        file_size_bytes: bytes.len() as u64,
        frame_count: indexed_frames.len(),
        duration_ms,
        width,
        height,
    };
    assert(bytes@ =~= spec_gif_file(indexed, source, *config));
    Ok((bytes, stats))
}

// ---------------------------------------------------------------------------
// Laws
// ---------------------------------------------------------------------------

/// `n` is a power of two.
pub open spec fn is_power_of_two(n: int) -> bool {
    n == 1 || n == 2 || n == 4 || n == 8 || n == 16 || n == 32 || n == 64 || n == 128 || n == 256
}

/// A GIF color table built from any palette has a power-of-two number of
/// colors between 2 and 256, three bytes each.
pub proof fn lemma_gif_palette_power_of_two(palette: Seq<[u8; 3]>)
    ensures
        is_power_of_two(spec_gif_colors(palette).len() as int),
        2 <= spec_gif_colors(palette).len() <= 256,
        spec_flatten_palette(palette).len() == 3 * spec_gif_colors(palette).len(),
        spec_flatten_palette(palette).len() % 3 == 0,
{
    lemma_flatten_palette_size(palette);
}

/// A lower quality never treats fewer pixels as unchanged: the tolerance
/// does not shrink as the quality falls, and two pixels that match under a
/// tolerance still match under any larger one.
pub proof fn lemma_lower_quality_tolerates_more(
    low: u8,
    high: u8,
    previous: Seq<u8>,
    current: Seq<u8>,
)
    requires
        low <= high,
    ensures
        spec_transparency_tolerance(high) <= spec_transparency_tolerance(low),
        spec_pixels_similar(previous, current, spec_transparency_tolerance(high))
            ==> spec_pixels_similar(previous, current, spec_transparency_tolerance(low)),
{
    let th = spec_transparency_tolerance(high);
    let tl = spec_transparency_tolerance(low);
    let qh: int = if high < 1 {
        1
    } else if high > 100 {
        100
    } else {
        high as int
    };
    let ql: int = if low < 1 {
        1
    } else if low > 100 {
        100
    } else {
        low as int
    };
    assert((100 - qh) * 12 / 99 <= (100 - ql) * 12 / 99) by (nonlinear_arith)
        requires
            1 <= ql <= qh <= 100,
    ;
    if spec_pixels_similar(previous, current, th) && th == 0 && tl > 0 {
        assert forall|c: int| 0 <= c < 4 implies #[trigger] byte_diff(previous[c], current[c])
            <= tl by {
            assert(previous[c] == current[c]);
        }
    }
}

/// With transparency on, frame `i > 0` is compared with the frame shown
/// just before it, source frame `i - 1`: it gets a transparent index
/// exactly when the two frames have the same size, its index buffer holds
/// one index per pixel and some pixel is unchanged since frame `i - 1`; the
/// pixels given that index are exactly those unchanged since frame `i - 1`.
pub proof fn lemma_frame_transparency_against_previous(
    indexed: Seq<IndexedFrame>,
    source: Seq<RgbaFrame>,
    config: EncodeConfig,
    i: int,
)
    requires
        0 < i < indexed.len(),
        i < source.len(),
        config.transparency_optimization,
        indexed[i].palette@.len() <= 256,
        forall|k: int|
            0 <= k < indexed[i].indices@.len() ==> #[trigger] indexed[i].indices@[k]
                < indexed[i].palette@.len(),
    ensures
        ({
            let parts = spec_frame_parts(indexed, source, config, i);
            let prev = source[i - 1];
            let cur = source[i];
            let tol = spec_transparency_tolerance(config.quality);
            &&& parts.2 is Some <==> (prev.width == cur.width && prev.height == cur.height
                && indexed[i].indices@.len() == cur.width * cur.height && any_similar(
                prev.pixels@,
                cur.pixels@,
                tol,
            ))
            &&& parts.2 matches Some(t) ==> forall|k: int|
                0 <= k < parts.1.len() ==> (#[trigger] parts.1[k] == t <==> k < zip_len(
                    prev.pixels@,
                    cur.pixels@,
                ) && similar_at(prev.pixels@, cur.pixels@, tol, k))
            &&& parts.1.len() == indexed[i].indices@.len()
        }),
{
    lemma_transparency_marks_exactly_unchanged(
        indexed[i].palette@,
        indexed[i].indices@,
        source[i - 1],
        source[i],
        spec_transparency_tolerance(config.quality),
    );
}

/// Without transparency, and for the first frame, no pixel is made
/// transparent: the frame keeps its palette and indices.
pub proof fn lemma_frame_without_transparency(
    indexed: Seq<IndexedFrame>,
    source: Seq<RgbaFrame>,
    config: EncodeConfig,
    i: int,
)
    requires
        0 <= i < indexed.len(),
        !config.transparency_optimization || i == 0,
    ensures
        spec_frame_parts(indexed, source, config, i) == (
            indexed[i].palette@,
            indexed[i].indices@,
            None::<u8>,
        ),
{
}

/// What is written for frame `i` depends on the source frames only through
/// frame `i` and the frame before it: two source sequences that agree there
/// give the same bytes.
pub proof fn lemma_frame_bytes_depend_on_previous_frame_only(
    indexed: Seq<IndexedFrame>,
    source: Seq<RgbaFrame>,
    other: Seq<RgbaFrame>,
    config: EncodeConfig,
    i: int,
)
    requires
        0 <= i < indexed.len(),
        i < source.len(),
        i < other.len(),
        source[i] == other[i],
        i > 0 ==> source[i - 1] == other[i - 1],
    ensures
        spec_frame_bytes(indexed, source, config, i) == spec_frame_bytes(indexed, other, config, i),
        spec_frame_parts(indexed, source, config, i) == spec_frame_parts(indexed, other, config, i),
{
}

/// When a full palette of 256 colors gives up its least used entry to
/// transparency, every pixel that used that entry and stays visible moves
/// to an entry whose color is nearest (by squared RGB distance) to the
/// given-up color among all other entries; pixels that used other entries
/// and stay visible keep them.
pub proof fn lemma_given_up_entry_moves_to_nearest_color(
    palette: Seq<[u8; 3]>,
    indices: Seq<u8>,
    previous: RgbaFrame,
    current: RgbaFrame,
    tolerance: u8,
)
    requires
        palette.len() == 256,
    ensures
        ({
            let (p2, i2, t) = spec_transparency(palette, indices, previous, current, tolerance);
            let p = previous.pixels@;
            let c = current.pixels@;
            t matches Some(v) ==> {
                &&& p2 == palette.update(v as int, [0u8, 0u8, 0u8])
                &&& i2.len() == indices.len()
                &&& forall|k: int|
                    0 <= k < indices.len() && !(k < zip_len(p, c) && similar_at(p, c, tolerance, k))
                        ==> {
                        &&& indices[k] == v ==> {
                            &&& i2[k] != v
                            &&& forall|j: int|
                                0 <= j < palette.len() && j != v ==> spec_rgb_distance_sq(
                                    palette[v as int],
                                    palette[i2[k] as int],
                                ) <= #[trigger] spec_rgb_distance_sq(palette[v as int], palette[j])
                        }
                        &&& indices[k] != v ==> i2[k] == indices[k]
                    }
            }
        }),
{
    let r = spec_transparency(palette, indices, previous, current, tolerance);
    if r.2 is Some {
        let victim = spec_least_used_upto(indices, palette.len());
        lemma_least_used_bound(indices, palette.len());
        lemma_neighbor_bound(palette, victim as int, palette.len());
        lemma_nearest_neighbor_is_minimal(palette, victim as int);
        let replacement = match spec_nearest_palette_neighbor(palette, victim as int) {
            Some(rr) => rr,
            None => victim,
        };
        assert(replacement < 256 && replacement != victim);
        assert(r.2 == Some(victim as u8));
        assert(victim as u8 as int == victim);
    }
}

proof fn lemma_crop_rows_index(s: Seq<u8>, fw: int, left: int, cw: int, top: int, rows: int)
    requires
        0 <= left,
        0 <= cw,
        0 <= top,
        0 <= rows,
        left + cw <= fw,
        (top + rows) * fw <= s.len(),
    ensures
        crop_rows(s, fw, left, cw, top, rows).len() == rows * cw,
        forall|r: int, c: int|
            0 <= r < rows && 0 <= c < cw ==> #[trigger] crop_rows(s, fw, left, cw, top, rows)[r * cw
                + c] == s[(top + r) * fw + left + c],
    decreases rows,
{
    if rows > 0 {
        assert((top + rows - 1) * fw <= (top + rows) * fw) by (nonlinear_arith)
            requires
                0 <= fw,
                0 <= top,
                1 <= rows,
        ;
        assert(0 <= (top + rows - 1) * fw) by (nonlinear_arith)
            requires
                0 <= fw,
                0 <= top,
                1 <= rows,
        ;
        assert((top + rows) * fw == (top + rows - 1) * fw + fw) by (nonlinear_arith);
        lemma_crop_rows_index(s, fw, left, cw, top, rows - 1);
        let prev = crop_rows(s, fw, left, cw, top, rows - 1);
        let start = (top + rows - 1) * fw + left;
        assert((rows - 1) * cw + cw == rows * cw) by (nonlinear_arith);
        assert forall|r: int, c: int| 0 <= r < rows && 0 <= c < cw implies #[trigger] crop_rows(
            s,
            fw,
            left,
            cw,
            top,
            rows,
        )[r * cw + c] == s[(top + r) * fw + left + c] by {
            if r < rows - 1 {
                assert(r * cw + c < (rows - 1) * cw) by (nonlinear_arith)
                    requires
                        0 <= r < rows - 1,
                        0 <= c < cw,
                ;
                assert(0 <= r * cw) by (nonlinear_arith)
                    requires
                        0 <= r,
                        0 <= cw,
                ;
            } else {
                assert(r * cw + c == (rows - 1) * cw + c);
            }
        }
    }
}

/// Cropping loses no visible pixel: for a frame that fits a GIF, every
/// pixel outside the cropped rectangle is transparent, and the cropped
/// buffer holds, at each position of the rectangle, the frame's index for
/// that pixel.
pub proof fn lemma_crop_keeps_changed_pixels(w: u32, h: u32, s: Seq<u8>, t: u8)
    requires
        s.len() == w * h,
        w <= 65535,
        h <= 65535,
    ensures
        ({
            let c = spec_crop(w, h, s, Some(t));
            let (left, top, cw, ch) = (c.0 as int, c.1 as int, c.2 as int, c.3 as int);
            &&& c.4.len() == cw * ch
            &&& left + cw <= w || !any_changed(s, w as int, h as int, t)
            &&& top + ch <= h || !any_changed(s, w as int, h as int, t)
            &&& forall|x: int, y: int|
                0 <= x < w && 0 <= y < h && !(left <= x < left + cw && top <= y < top + ch)
                    ==> #[trigger] s[y * w + x] == t
            &&& any_changed(s, w as int, h as int, t) ==> forall|x: int, y: int|
                left <= x < left + cw && top <= y < top + ch ==> c.4[(y - top) * cw + (x - left)]
                    == #[trigger] s[y * w + x]
        }),
{
    let c = spec_crop(w, h, s, Some(t));
    if !any_changed(s, w as int, h as int, t) {
        assert forall|x: int, y: int|
            0 <= x < w && 0 <= y < h && !(0 <= x < 1 && 0 <= y < 1) implies #[trigger] s[y * w + x]
            == t by {
            if s[y * w + x] != t {
                assert(changed_at(s, w as int, t, x, y));
            }
        }
    } else {
        let x0 = choose|x: int, y: int|
            0 <= x < w && 0 <= y < h && #[trigger] changed_at(s, w as int, t, x, y);
        assert(exists|b: (int, int, int, int)| is_changed_box(s, w as int, h as int, t, b.0, b.1, b.2, b.3)) by {
            lemma_changed_box_exists(s, w as int, h as int, t);
        }
        let b = spec_changed_box(s, w as int, h as int, t);
        assert(is_changed_box(s, w as int, h as int, t, b.0, b.1, b.2, b.3));
        let cw = b.2 - b.0 + 1;
        let ch = b.3 - b.1 + 1;
        assert(b.3 + 1 <= h);
        assert((b.1 + ch) * w <= h * w) by (nonlinear_arith)
            requires
                b.1 + ch <= h,
                0 <= w,
        ;
        assert(h * w == w * h) by (nonlinear_arith);
        lemma_crop_rows_index(s, w as int, b.0, cw, b.1, ch);
        assert forall|x: int, y: int|
            0 <= x < w && 0 <= y < h && !(b.0 <= x < b.0 + cw && b.1 <= y < b.1 + ch) implies #[trigger] s[y
            * w + x] == t by {
            if s[y * w + x] != t {
                assert(changed_at(s, w as int, t, x, y));
            }
        }
        assert forall|x: int, y: int|
            b.0 <= x < b.0 + cw && b.1 <= y < b.1 + ch implies c.4[(y - b.1) * cw + (x - b.0)]
            == #[trigger] s[y * w + x] by {
            assert(crop_rows(s, w as int, b.0, cw, b.1, ch)[(y - b.1) * cw + (x - b.0)] == s[(b.1 + (
            y - b.1)) * w + b.0 + (x - b.0)]);
        }
        assert(c.0 as int == b.0);
        assert(c.1 as int == b.1);
        assert(c.2 as int == cw);
        assert(c.3 as int == ch);
        assert(c.4 == crop_rows(s, w as int, b.0, cw, b.1, ch));
        assert(c.4.len() == cw * ch);
    }
}

/// For a palette of at most 256 colors whose indices all name a palette
/// entry, the transparency step keeps the palette within 256 colors and
/// the indices valid, and a pixel ends up transparent exactly when it is
/// unchanged since the previous frame.
pub proof fn lemma_transparency_marks_exactly_unchanged(
    palette: Seq<[u8; 3]>,
    indices: Seq<u8>,
    previous: RgbaFrame,
    current: RgbaFrame,
    tolerance: u8,
)
    requires
        palette.len() <= 256,
        forall|k: int| 0 <= k < indices.len() ==> #[trigger] indices[k] < palette.len(),
    ensures
        ({
            let (p2, i2, t) = spec_transparency(palette, indices, previous, current, tolerance);
            &&& p2.len() <= 256
            &&& i2.len() == indices.len()
            &&& forall|k: int| 0 <= k < i2.len() ==> #[trigger] i2[k] < p2.len()
            &&& t is None ==> p2 == palette && i2 == indices
            &&& t matches Some(t) ==> {
                &&& t < p2.len()
                &&& forall|k: int|
                    0 <= k < i2.len() ==> (#[trigger] i2[k] == t <==> k < zip_len(
                        previous.pixels@,
                        current.pixels@,
                    ) && similar_at(previous.pixels@, current.pixels@, tolerance, k))
            }
        }),
{
    let p = previous.pixels@;
    let c = current.pixels@;
    let r = spec_transparency(palette, indices, previous, current, tolerance);
    if r.2 is Some {
        if palette.len() < 256 {
            assert(r.2 == Some(palette.len() as u8));
        } else {
            let victim = spec_least_used_upto(indices, palette.len());
            lemma_least_used_bound(indices, palette.len());
            lemma_neighbor_bound(palette, victim as int, palette.len());
            let replacement = match spec_nearest_palette_neighbor(palette, victim as int) {
                Some(rr) => rr,
                None => victim,
            };
            assert(replacement < 256 && replacement != victim);
            let replaced = spec_replace_index(indices, victim as int, replacement as u8);
            assert forall|k: int| 0 <= k < replaced.len() implies #[trigger] replaced[k] != victim
                && replaced[k] < 256 by {
                if indices[k] as int == victim {
                    assert(replaced[k] == replacement as u8);
                }
            }
        }
    }
}

} // verus!
