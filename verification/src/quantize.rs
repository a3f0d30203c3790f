//! Integer parts of palette construction: quality-dependent settings, color
//! channel quantization, packed color keys, and the palette built from a
//! color histogram that already fits the color budget.

use vstd::prelude::*;

use std::collections::HashMap;

use crate::types::{Palette, RgbaFrame};

verus! {

/// `quality` limited to `1..=100`.
pub open spec fn clamp_quality(quality: u8) -> int {
    if quality < 1 {
        1
    } else if quality > 100 {
        100
    } else {
        quality as int
    }
}

/// Low bits dropped from each channel before colors are counted: none at
/// the highest quality, up to four at the lowest.
pub open spec fn spec_quality_color_shift(quality: u8) -> u8 {
    let q = clamp_quality(quality);
    if q >= 95 {
        0
    } else if q >= 85 {
        1
    } else if q >= 70 {
        2
    } else if q >= 50 {
        3
    } else {
        4
    }
}

/// Rounds of k-means refinement for a quality setting.
pub open spec fn spec_kmeans_iterations(quality: u8) -> usize {
    let q = clamp_quality(quality);
    if q >= 95 {
        6
    } else if q >= 80 {
        5
    } else if q >= 60 {
        4
    } else if q >= 40 {
        3
    } else {
        2
    }
}

/// Number of colors kept stable across frames: 6, plus one for every 8
/// points of quality below 100, at most 16.
pub open spec fn spec_desired_anchor_count(quality: u8) -> usize {
    let n = 6 + (100 - clamp_quality(quality)) / 8;
    if n > 16 {
        16
    } else {
        n as usize
    }
}

/// `channel` moved to the middle of its bucket of `2^shift` values, at most
/// 255; unchanged for shift 0.
pub open spec fn spec_quantize_channel(channel: u8, shift: u8) -> u8 {
    if shift == 0 {
        channel
    } else {
        let step = vstd::arithmetic::power2::pow2(shift as nat) as int;
        let centered = (channel as int) / step * step + step / 2;
        if centered > 255 {
            255
        } else {
            centered as u8
        }
    }
}

/// The 24-bit key `0xRRGGBB` of a color.
pub open spec fn spec_pack_rgb(r: u8, g: u8, b: u8) -> u32 {
    (r * 65536 + g * 256 + b) as u32
}

/// The color whose key is the low 24 bits of `value`.
pub open spec fn spec_unpack_rgb(value: u32) -> [u8; 3] {
    [(value / 65536 % 256) as u8, (value / 256 % 256) as u8, (value % 256) as u8]
}

/// Low bits dropped from each channel at a quality setting.
pub fn quality_color_shift(quality: u8) -> (s: u8)
    ensures
        s == spec_quality_color_shift(quality),
        s <= 4,
{
    let q = if quality < 1 {
        1
    } else if quality > 100 {
        100
    } else {
        quality
    };
    if q >= 95 {
        0
    } else if q >= 85 {
        1
    } else if q >= 70 {
        2
    } else if q >= 50 {
        3
    } else {
        4
    }
}

/// Rounds of k-means refinement at a quality setting.
pub fn kmeans_iterations_for_quality(quality: u8) -> (n: usize)
    ensures
        n == spec_kmeans_iterations(quality),
{
    let q = if quality < 1 {
        1
    } else if quality > 100 {
        100
    } else {
        quality
    };
    if q >= 95 {
        6
    } else if q >= 80 {
        5
    } else if q >= 60 {
        4
    } else if q >= 40 {
        3
    } else {
        2
    }
}

/// Number of colors kept stable across frames at a quality setting.
pub fn desired_anchor_count(quality: u8) -> (n: usize)
    ensures
        n == spec_desired_anchor_count(quality),
        6 <= n <= 16,
{
    let q: usize = if quality < 1 {
        1
    } else if quality > 100 {
        100
    } else {
        quality as usize
    };
    let n = 6 + (100 - q) / 8;
    if n > 16 {
        16
    } else {
        n
    }
}

/// Moves a channel value to the center of its `2^shift`-wide bucket.
pub fn quantize_channel(channel: u8, shift: u8) -> (r: u8)
    requires
        shift < 16,
    ensures
        r == spec_quantize_channel(channel, shift),
{
    if shift == 0 {
        return channel;
    }
    let s: u16 = shift as u16;
    let c: u16 = channel as u16;
    proof {
        vstd::bits::lemma_u16_pow2_no_overflow(s as nat);
        vstd::bits::lemma_u16_shr_is_div(c, s);
        vstd::bits::lemma_u16_shl_is_mul(1u16, s);
    }
    let step: u16 = 1u16 << s;
    let high: u16 = c >> s;
    proof {
        let p = vstd::arithmetic::power2::pow2(s as nat) as int;
        assert(high * p <= c) by (nonlinear_arith)
            requires
                high == (c as int) / p,
                p > 0,
        ;
        vstd::bits::lemma_u16_shl_is_mul(high, s);
    }
    let base: u16 = high << s;
    let centered: u16 = base + step / 2;
    if centered > 255 {
        255
    } else {
        centered as u8
    }
}

/// Packs a color into its 24-bit key `0xRRGGBB`.
pub fn pack_rgb(r: u8, g: u8, b: u8) -> (key: u32)
    ensures
        key == spec_pack_rgb(r, g, b),
        key < 0x100_0000,
{
    let key = ((r as u32) << 16) | ((g as u32) << 8) | (b as u32);
    assert(((r as u32) << 16) | ((g as u32) << 8) | (b as u32) == (r as u32) * 65536 + (g as u32)
        * 256 + (b as u32)) by (bit_vector);
    key
}

/// Splits a 24-bit key back into its red, green and blue bytes.
pub fn unpack_rgb(value: u32) -> (c: [u8; 3])
    ensures
        c == spec_unpack_rgb(value),
{
    let r = ((value >> 16) & 0xFF) as u8;
    let g = ((value >> 8) & 0xFF) as u8;
    let b = (value & 0xFF) as u8;
    assert((value >> 16) & 0xFF == value / 65536 % 256) by (bit_vector);
    assert((value >> 8) & 0xFF == value / 256 % 256) by (bit_vector);
    assert(value & 0xFF == value % 256) by (bit_vector);
    [r, g, b]
}

/// Unpacking a packed color gives the color back.
pub proof fn lemma_unpack_pack(r: u8, g: u8, b: u8)
    ensures
        spec_unpack_rgb(spec_pack_rgb(r, g, b)) == [r, g, b],
{
    let v: int = r * 65536 + g * 256 + b;
    assert(v / 65536 == r);
    assert(v / 256 == r * 256 + g);
    assert((r * 256 + g) % 256 == g);
    assert(v % 256 == b);
    assert(spec_unpack_rgb(spec_pack_rgb(r, g, b)) =~= [r, g, b]);
}

// ---------------------------------------------------------------------------
// Laws
// ---------------------------------------------------------------------------

proof fn lemma_bucket_center(c: int, step: int)
    requires
        0 <= c <= 255,
        step == 2 || step == 4 || step == 8 || step == 16 || step == 32 || step == 64 || step
            == 128 || step == 256,
    ensures
        c / step * step + step / 2 <= 255,
        (c / step * step + step / 2) / step == c / step,
{
    if step == 2 {
        assert(c / 2 * 2 + 1 <= 255 && (c / 2 * 2 + 1) / 2 == c / 2);
    } else if step == 4 {
        assert(c / 4 * 4 + 2 <= 255 && (c / 4 * 4 + 2) / 4 == c / 4);
    } else if step == 8 {
        assert(c / 8 * 8 + 4 <= 255 && (c / 8 * 8 + 4) / 8 == c / 8);
    } else if step == 16 {
        assert(c / 16 * 16 + 8 <= 255 && (c / 16 * 16 + 8) / 16 == c / 16);
    } else if step == 32 {
        assert(c / 32 * 32 + 16 <= 255 && (c / 32 * 32 + 16) / 32 == c / 32);
    } else if step == 64 {
        assert(c / 64 * 64 + 32 <= 255 && (c / 64 * 64 + 32) / 64 == c / 64);
    } else if step == 128 {
        assert(c / 128 * 128 + 64 <= 255 && (c / 128 * 128 + 64) / 128 == c / 128);
    } else {
        assert(c / 256 * 256 + 128 <= 255 && (c / 256 * 256 + 128) / 256 == c / 256);
    }
}

/// Quantizing a channel a second time with the same shift changes nothing.
pub proof fn lemma_quantize_channel_idempotent(channel: u8, shift: u8)
    requires
        shift < 16,
    ensures
        spec_quantize_channel(spec_quantize_channel(channel, shift), shift)
            == spec_quantize_channel(channel, shift),
{
    if shift > 0 {
        vstd::arithmetic::power2::lemma2_to64();
        let step = vstd::arithmetic::power2::pow2(shift as nat) as int;
        let c = channel as int;
        if shift >= 9 {
            vstd::arithmetic::power2::lemma_pow2_strictly_increases(8, shift as nat);
            assert(step > 256);
            assert(c / step == 0) by {
                vstd::arithmetic::div_mod::lemma_basic_div(c, step);
            }
            assert(255int / step == 0) by {
                vstd::arithmetic::div_mod::lemma_basic_div(255, step);
            }
        } else {
            assert(step == 2 || step == 4 || step == 8 || step == 16 || step == 32 || step == 64
                || step == 128 || step == 256);
            lemma_bucket_center(c, step);
        }
    }
}

// ---------------------------------------------------------------------------
// Palette from a histogram within the color budget
// ---------------------------------------------------------------------------

/// `entry` placed into the sequence `sorted` (ordered by count, highest
/// first) after every entry with a count at least as high.
pub open spec fn insert_by_count(sorted: Seq<(u32, u32)>, entry: (u32, u32)) -> Seq<(u32, u32)>
    decreases sorted.len(),
{
    if sorted.len() == 0 {
        seq![entry]
    } else if sorted.last().1 >= entry.1 {
        sorted.push(entry)
    } else {
        insert_by_count(sorted.drop_last(), entry).push(sorted.last())
    }
}

/// The histogram entries ordered by count, highest first, keeping the
/// given order among equal counts.
pub open spec fn sort_by_count(entries: Seq<(u32, u32)>) -> Seq<(u32, u32)>
    decreases entries.len(),
{
    if entries.len() == 0 {
        Seq::empty()
    } else {
        insert_by_count(sort_by_count(entries.drop_last()), entries.last())
    }
}

/// The palette for a histogram of `(key, count)` entries: the colors by
/// descending count, ties in the order given.
pub open spec fn spec_palette_by_frequency(entries: Seq<(u32, u32)>) -> Seq<[u8; 3]> {
    sort_by_count(entries).map_values(|e: (u32, u32)| spec_unpack_rgb(e.0))
}

proof fn lemma_insert_len(sorted: Seq<(u32, u32)>, entry: (u32, u32))
    ensures
        insert_by_count(sorted, entry).len() == sorted.len() + 1,
    decreases sorted.len(),
{
    if sorted.len() > 0 && sorted.last().1 < entry.1 {
        lemma_insert_len(sorted.drop_last(), entry);
    }
}

proof fn lemma_sort_len(entries: Seq<(u32, u32)>)
    ensures
        sort_by_count(entries).len() == entries.len(),
    decreases entries.len(),
{
    if entries.len() > 0 {
        lemma_sort_len(entries.drop_last());
        lemma_insert_len(sort_by_count(entries.drop_last()), entries.last());
    }
}

/// Inserts `entry` into `sorted` after every entry whose count is at least
/// as high.
fn insert_entry(sorted: &mut Vec<(u32, u32)>, entry: (u32, u32))
    ensures
        final(sorted)@ == insert_by_count(old(sorted)@, entry),
    decreases old(sorted)@.len(),
{
    if sorted.len() == 0 {
        sorted.push(entry);
        assert(sorted@ =~= seq![entry]);
        return;
    }
    let last = sorted[sorted.len() - 1];
    if last.1 >= entry.1 {
        sorted.push(entry);
    } else {
        let ghost before = sorted@;
        let popped = sorted.pop();
        assert(sorted@ =~= before.drop_last());
        insert_entry(sorted, entry);
        sorted.push(last);
    }
}

/// The palette for a histogram that fits the color budget: each color once,
/// most frequent first, colors of equal frequency in the order given.
pub fn palette_by_frequency(entries: &Vec<(u32, u32)>) -> (palette: Palette)
    ensures
        palette@ == spec_palette_by_frequency(entries@),
{
    let mut sorted: Vec<(u32, u32)> = Vec::new();
    let mut i: usize = 0;
    while i < entries.len()
        invariant
            0 <= i <= entries@.len(),
            sorted@ == sort_by_count(entries@.take(i as int)),
        decreases entries@.len() - i,
    {
        assert(entries@.take(i + 1).drop_last() =~= entries@.take(i as int));
        insert_entry(&mut sorted, entries[i]);
        i += 1;
    }
    assert(entries@.take(entries@.len() as int) =~= entries@);
    let mut palette: Palette = Vec::new();
    let mut k: usize = 0;
    while k < sorted.len()
        invariant
            0 <= k <= sorted@.len(),
            palette@ =~= sorted@.take(k as int).map_values(|e: (u32, u32)| spec_unpack_rgb(e.0)),
        decreases sorted@.len() - k,
    {
        let c = unpack_rgb(sorted[k].0);
        palette.push(c);
        k += 1;
    }
    assert(sorted@.take(sorted@.len() as int) =~= sorted@);
    palette
}

/// Sum of the counts of histogram entries.
pub open spec fn spec_total_count(entries: Seq<(u32, u32)>) -> int
    decreases entries.len(),
{
    if entries.len() == 0 {
        0
    } else {
        spec_total_count(entries.drop_last()) + entries.last().1
    }
}

proof fn lemma_total_push(s: Seq<(u32, u32)>, e: (u32, u32))
    ensures
        spec_total_count(s.push(e)) == spec_total_count(s) + e.1,
{
    assert(s.push(e).drop_last() =~= s);
}

proof fn lemma_total_update(s: Seq<(u32, u32)>, j: int, e: (u32, u32))
    requires
        0 <= j < s.len(),
    ensures
        spec_total_count(s.update(j, e)) == spec_total_count(s) - s[j].1 + e.1,
    decreases s.len(),
{
    if j == s.len() - 1 {
        assert(s.update(j, e).drop_last() =~= s.drop_last());
    } else {
        lemma_total_update(s.drop_last(), j, e);
        assert(s.update(j, e).drop_last() =~= s.drop_last().update(j, e));
    }
}

/// The histogram of `n` pixels counts each of them once: the counts add up
/// to `n`, every count is between 1 and `n`, and a frame with a pixel has a
/// color.
pub proof fn lemma_histogram_counts(pixels: Seq<u8>, shift: u8, n: int)
    requires
        0 <= n <= u32::MAX,
    ensures
        spec_total_count(spec_histogram(pixels, shift, n)) == n,
        spec_histogram(pixels, shift, n).len() <= n,
        n > 0 ==> spec_histogram(pixels, shift, n).len() > 0,
        forall|j: int|
            0 <= j < spec_histogram(pixels, shift, n).len() ==> 1 <= #[trigger] spec_histogram(
                pixels,
                shift,
                n,
            )[j].1 <= n,
    decreases n,
{
    if n > 0 {
        lemma_histogram_counts(pixels, shift, n - 1);
        let prev = spec_histogram(pixels, shift, n - 1);
        let k = pixel_key(pixels, shift, n - 1);
        match key_position(prev, k) {
            Some(j) => {
                assert(0 <= j < prev.len());
                assert(prev[j].1 <= n - 1);
                lemma_total_update(prev, j, (k, (prev[j].1 + 1) as u32));
            },
            None => {
                lemma_total_push(prev, (k, 1u32));
            },
        }
    }
}

/// Entries ordered by count, highest first.
pub open spec fn sorted_by_count(s: Seq<(u32, u32)>) -> bool {
    forall|i: int, j: int| 0 <= i < j < s.len() ==> #[trigger] s[i].1 >= #[trigger] s[j].1
}

proof fn lemma_insert_sorted(sorted: Seq<(u32, u32)>, entry: (u32, u32))
    requires
        sorted_by_count(sorted),
    ensures
        sorted_by_count(insert_by_count(sorted, entry)),
        insert_by_count(sorted, entry).to_multiset() =~= sorted.to_multiset().insert(entry),
        forall|i: int|
            0 <= i < insert_by_count(sorted, entry).len() ==> (#[trigger] insert_by_count(
                sorted,
                entry,
            )[i].1 >= entry.1 || sorted.contains(insert_by_count(sorted, entry)[i])),
    decreases sorted.len(),
{
    broadcast use vstd::seq_lib::group_to_multiset_ensures;

    lemma_insert_len(sorted, entry);
    if sorted.len() == 0 {
        assert(seq![entry] =~= Seq::<(u32, u32)>::empty().push(entry));
    } else if sorted.last().1 >= entry.1 {
    } else {
        let d = sorted.drop_last();
        let l = sorted.last();
        assert(sorted_by_count(d));
        lemma_insert_sorted(d, entry);
        lemma_insert_len(d, entry);
        let ins = insert_by_count(d, entry);
        assert(sorted =~= d.push(l));
        assert forall|i: int| 0 <= i < ins.len() implies #[trigger] ins[i].1 >= l.1 by {
            if ins[i].1 < entry.1 {
                assert(d.contains(ins[i]));
                let k = choose|k: int| 0 <= k < d.len() && d[k] == ins[i];
                assert(sorted[k].1 >= sorted[sorted.len() - 1].1);
            }
        }
        assert forall|i: int|
            0 <= i < ins.push(l).len() implies (#[trigger] ins.push(l)[i].1 >= entry.1
            || sorted.contains(ins.push(l)[i])) by {
            if i < ins.len() {
                if !(ins[i].1 >= entry.1) {
                    let k = choose|k: int| 0 <= k < d.len() && d[k] == ins[i];
                    assert(sorted[k] == ins[i]);
                }
            } else {
                assert(sorted[sorted.len() - 1] == l);
            }
        }
        assert(ins.push(l).to_multiset() =~= d.to_multiset().insert(entry).insert(l));
        assert(sorted.to_multiset() =~= d.to_multiset().insert(l));
    }
}

/// Ordering entries by count keeps every entry, once each, and leaves them
/// ordered from the highest count down.
pub proof fn lemma_sort_by_count(entries: Seq<(u32, u32)>)
    ensures
        sorted_by_count(sort_by_count(entries)),
        sort_by_count(entries).to_multiset() =~= entries.to_multiset(),
        sort_by_count(entries).len() == entries.len(),
    decreases entries.len(),
{
    broadcast use vstd::seq_lib::group_to_multiset_ensures;

    lemma_sort_len(entries);
    if entries.len() > 0 {
        lemma_sort_by_count(entries.drop_last());
        lemma_insert_sorted(sort_by_count(entries.drop_last()), entries.last());
        assert(entries =~= entries.drop_last().push(entries.last()));
    }
}

// ---------------------------------------------------------------------------
// Mapping pixels to palette entries
// ---------------------------------------------------------------------------

/// Red, green and blue of pixel `i` of an RGBA buffer.
pub open spec fn pixel_rgb(pixels: Seq<u8>, i: int) -> (u8, u8, u8) {
    (pixels[4 * i], pixels[4 * i + 1], pixels[4 * i + 2])
}

/// Maps every pixel to a palette index chosen by `nearest`, asking it once
/// per distinct color. An empty palette maps every pixel to index 0.
pub fn map_to_palette<F: Fn(u8, u8, u8) -> u8>(
    frame: &RgbaFrame,
    palette: &Palette,
    nearest: &F,
) -> (indices: Vec<u8>)
    requires
        palette@.len() == 0 ==> frame.width * frame.height <= usize::MAX,
        forall|r: u8, g: u8, b: u8| #[trigger] call_requires(*nearest, (r, g, b)),
    ensures
        palette@.len() == 0 ==> indices@ == Seq::new(
            (frame.width * frame.height) as nat,
            |i: int| 0u8,
        ),
        palette@.len() > 0 ==> indices@.len() == frame.pixels@.len() / 4,
        palette@.len() > 0 ==> forall|i: int|
            0 <= i < indices@.len() ==> call_ensures(
                *nearest,
                pixel_rgb(frame.pixels@, i),
                #[trigger] indices@[i],
            ),
        palette@.len() > 0 && (forall|r: u8, g: u8, b: u8, v: u8| #[trigger] call_ensures(
            *nearest,
            (r, g, b),
            v,
        ) ==> v < palette@.len()) ==> forall|i: int|
            0 <= i < indices@.len() ==> #[trigger] indices@[i] < palette@.len(),
{
    broadcast use vstd::std_specs::hash::group_hash_axioms;

    if palette.len() == 0 {
        let count = frame.pixel_count();
        let mut zeros: Vec<u8> = Vec::new();
        let mut k: usize = 0;
        while k < count
            invariant
                0 <= k <= count,
                zeros@ =~= Seq::new(k as nat, |i: int| 0u8),
            decreases count - k,
        {
            zeros.push(0);
            k += 1;
        }
        return zeros;
    }
    let ghost p = frame.pixels@;
    let n = frame.pixels.len() / 4;
    let mut cache: HashMap<u32, u8> = HashMap::new();
    let mut indices: Vec<u8> = Vec::new();
    let mut i: usize = 0;
    while i < n
        invariant
            p == frame.pixels@,
            n == p.len() / 4,
            p.len() <= usize::MAX,
            0 <= i <= n,
            indices@.len() == i,
            forall|r: u8, g: u8, b: u8| #[trigger] call_requires(*nearest, (r, g, b)),
            forall|j: int|
                0 <= j < i ==> call_ensures(*nearest, pixel_rgb(p, j), #[trigger] indices@[j]),
            forall|k: u32|
                #[trigger] cache@.contains_key(k) ==> call_ensures(
                    *nearest,
                    (spec_unpack_rgb(k)[0], spec_unpack_rgb(k)[1], spec_unpack_rgb(k)[2]),
                    cache@[k],
                ),
        decreases n - i,
    {
        let r = frame.pixels[4 * i];
        let g = frame.pixels[4 * i + 1];
        let b = frame.pixels[4 * i + 2];
        let key = pack_rgb(r, g, b);
        proof {
            lemma_unpack_pack(r, g, b);
        }
        let idx = match cache.get(&key) {
            Some(v) => *v,
            None => {
                let v = nearest(r, g, b);
                cache.insert(key, v);
                v
            },
        };
        indices.push(idx);
        i += 1;
    }
    proof {
        if forall|r: u8, g: u8, b: u8, v: u8| #[trigger] call_ensures(*nearest, (r, g, b), v) ==> v
            < palette@.len() {
            lemma_mapped_indices_in_bounds(*nearest, p, indices@, palette@.len() as int);
        }
    }
    indices
}

// ---------------------------------------------------------------------------
// Color histogram and median cut
// ---------------------------------------------------------------------------

/// The key of pixel `i` after each channel was quantized by `shift`.
pub open spec fn pixel_key(pixels: Seq<u8>, shift: u8, i: int) -> u32 {
    spec_pack_rgb(
        spec_quantize_channel(pixels[4 * i], shift),
        spec_quantize_channel(pixels[4 * i + 1], shift),
        spec_quantize_channel(pixels[4 * i + 2], shift),
    )
}

/// Position of the entry with key `k`, if there is one.
pub open spec fn key_position(entries: Seq<(u32, u32)>, k: u32) -> Option<int> {
    if exists|j: int| 0 <= j < entries.len() && #[trigger] entries[j].0 == k {
        Some(choose|j: int| 0 <= j < entries.len() && #[trigger] entries[j].0 == k)
    } else {
        None
    }
}

/// Keys and counts of the quantized colors of pixels `0 .. n`, each key
/// once, in the order the keys first occur.
pub open spec fn spec_histogram(pixels: Seq<u8>, shift: u8, n: int) -> Seq<(u32, u32)>
    decreases n,
{
    if n <= 0 {
        Seq::empty()
    } else {
        let prev = spec_histogram(pixels, shift, n - 1);
        let k = pixel_key(pixels, shift, n - 1);
        match key_position(prev, k) {
            Some(j) => prev.update(j, (k, (prev[j].1 + 1) as u32)),
            None => prev.push((k, 1u32)),
        }
    }
}

/// No key occurs twice.
pub open spec fn distinct_keys(entries: Seq<(u32, u32)>) -> bool {
    forall|i: int, j: int|
        0 <= i < entries.len() && 0 <= j < entries.len() && i != j ==> #[trigger] entries[i].0
            != #[trigger] entries[j].0
}

/// Budget `max_colors` limited to `1..=256`.
pub open spec fn clamp_colors(max_colors: usize) -> usize {
    if max_colors < 1 {
        1
    } else if max_colors > 256 {
        256
    } else {
        max_colors
    }
}

/// Counts the quantized colors of a frame, each distinct color once, in
/// the order the colors first occur.
fn color_histogram(frame: &RgbaFrame, shift: u8) -> (entries: Vec<(u32, u32)>)
    requires
        shift < 16,
        counts_fit(frame.pixels@, shift, (frame.pixels@.len() / 4) as int),
    ensures
        entries@ == spec_histogram(frame.pixels@, shift, (frame.pixels@.len() / 4) as int),
        distinct_keys(entries@),
{
    broadcast use vstd::std_specs::hash::group_hash_axioms;

    let ghost p = frame.pixels@;
    let n = frame.pixels.len() / 4;
    let mut positions: HashMap<u32, usize> = HashMap::new();
    let mut entries: Vec<(u32, u32)> = Vec::new();
    let mut i: usize = 0;
    while i < n
        invariant
            p == frame.pixels@,
            n == p.len() / 4,
            counts_fit(p, shift, n as int),
            p.len() <= usize::MAX,
            shift < 16,
            0 <= i <= n,
            entries@ == spec_histogram(p, shift, i as int),
            distinct_keys(entries@),
            entries@.len() <= i,
            forall|k: u32|
                #[trigger] positions@.contains_key(k) <==> exists|j: int|
                    0 <= j < entries@.len() && #[trigger] entries@[j].0 == k,
            forall|k: u32|
                #[trigger] positions@.contains_key(k) ==> positions@[k] < entries@.len()
                    && entries@[positions@[k] as int].0 == k,
        decreases n - i,
    {
        let r = quantize_channel(frame.pixels[4 * i], shift);
        let g = quantize_channel(frame.pixels[4 * i + 1], shift);
        let b = quantize_channel(frame.pixels[4 * i + 2], shift);
        let key = pack_rgb(r, g, b);
        let ghost prev = entries@;
        assert(key == pixel_key(p, shift, i as int));
        match positions.get(&key) {
            Some(j) => {
                let j = *j;
                let (k, c) = entries[j];
                proof {
                    lemma_counts_fit_prefix(p, shift, i as int, n as int);
                    lemma_histogram_exact(p, shift, i as int);
                    assert(c == key_count(p, shift, i as int, key));
                    lemma_key_count_monotone(p, shift, i + 1, n as int, key);
                    assert(key_count(p, shift, n as int, key) <= u32::MAX);
                }
                entries.set(j, (k, c + 1));
                proof {
                    assert(exists|jj: int| 0 <= jj < prev.len() && #[trigger] prev[jj].0 == key);
                    let cj = choose|jj: int| 0 <= jj < prev.len() && #[trigger] prev[jj].0 == key;
                    assert(cj == j);
                    assert(key_position(prev, key) == Some(j as int));
                    assert(entries@ =~= spec_histogram(p, shift, i + 1));
                    assert forall|kk: u32| #[trigger] positions@.contains_key(kk) <==> exists|jj: int|
                        0 <= jj < entries@.len() && #[trigger] entries@[jj].0 == kk by {
                        if positions@.contains_key(kk) {
                            let w = choose|jj: int| 0 <= jj < prev.len() && #[trigger] prev[jj].0 == kk;
                            assert(entries@[w].0 == kk);
                        }
                        if exists|jj: int| 0 <= jj < entries@.len() && #[trigger] entries@[jj].0 == kk {
                            let w = choose|jj: int| 0 <= jj < entries@.len() && #[trigger] entries@[jj].0 == kk;
                            assert(prev[w].0 == kk);
                        }
                    }
                }
            },
            None => {
                let pos = entries.len();
                positions.insert(key, pos);
                entries.push((key, 1));
                proof {
                    assert(!exists|jj: int| 0 <= jj < prev.len() && #[trigger] prev[jj].0 == key);
                    assert(key_position(prev, key) is None);
                    assert(entries@ =~= spec_histogram(p, shift, i + 1));
                    assert forall|kk: u32| #[trigger] positions@.contains_key(kk) <==> exists|jj: int|
                        0 <= jj < entries@.len() && #[trigger] entries@[jj].0 == kk by {
                        if kk == key {
                            assert(entries@[pos as int].0 == kk);
                        } else {
                            if positions@.contains_key(kk) {
                                let w = choose|jj: int| 0 <= jj < prev.len() && #[trigger] prev[jj].0 == kk;
                                assert(entries@[w].0 == kk);
                            }
                            if exists|jj: int| 0 <= jj < entries@.len() && #[trigger] entries@[jj].0 == kk {
                                let w = choose|jj: int| 0 <= jj < entries@.len() && #[trigger] entries@[jj].0 == kk;
                                assert(w < prev.len());
                                assert(prev[w].0 == kk);
                            }
                        }
                    }
                }
            },
        }
        i += 1;
    }
    entries
}

/// Whether every quantized color of the frame (at `shift`) occurs at most
/// `u32::MAX` times, so that the histogram's counters hold its counts.
pub fn color_counts_fit(frame: &RgbaFrame, shift: u8) -> (r: bool)
    requires
        shift < 16,
    ensures
        r == counts_fit(frame.pixels@, shift, (frame.pixels@.len() / 4) as int),
{
    broadcast use vstd::std_specs::hash::group_hash_axioms;

    let ghost p = frame.pixels@;
    let n = frame.pixels.len() / 4;
    let mut counts: HashMap<u32, u64> = HashMap::new();
    let mut i: usize = 0;
    while i < n
        invariant
            p == frame.pixels@,
            n == p.len() / 4,
            p.len() <= usize::MAX,
            shift < 16,
            0 <= i <= n,
            counts_fit(p, shift, i as int),
            forall|k: u32| #[trigger]
                counts@.contains_key(k) ==> counts@[k] == key_count(p, shift, i as int, k),
            forall|k: u32| !#[trigger] counts@.contains_key(k) ==> key_count(p, shift, i as int, k)
                == 0,
        decreases n - i,
    {
        let r = quantize_channel(frame.pixels[4 * i], shift);
        let g = quantize_channel(frame.pixels[4 * i + 1], shift);
        let b = quantize_channel(frame.pixels[4 * i + 2], shift);
        let key = pack_rgb(r, g, b);
        assert(key == pixel_key(p, shift, i as int));
        let c: u64 = match counts.get(&key) {
            Some(v) => *v,
            None => 0,
        };
        assert(c == key_count(p, shift, i as int, key));
        if c >= 0xffff_ffff {
            proof {
                lemma_key_count_monotone(p, shift, i + 1, n as int, key);
                assert(key_count(p, shift, n as int, key) > u32::MAX);
            }
            return false;
        }
        counts.insert(key, c + 1);
        proof {
            assert forall|k: u32| #[trigger] key_count(p, shift, i + 1, k) <= u32::MAX by {
                if k != key {
                    assert(key_count(p, shift, i + 1, k) == key_count(p, shift, i as int, k));
                }
            }
        }
        i += 1;
    }
    true
}

/// `reduce` keeps within the budget it is given: it returns between 1 and
/// `max_colors` colors.
pub open spec fn reducer_within_budget<F: Fn(&Vec<(u32, u32)>, usize, u8) -> Palette>(reduce: F) -> bool {
    forall|entries: &Vec<(u32, u32)>, m: usize, q: u8, p: Palette|
        #[trigger] call_ensures(reduce, (entries, m, q), p) ==> 1 <= p@.len() <= m
}

/// Builds a palette of at most `max_colors` colors (limited to `1..=256`)
/// for a frame. Channels are first coarsened according to `quality`; when
/// the distinct coarsened colors fit the budget they form the palette,
/// most frequent first, and otherwise `reduce` turns the color histogram
/// into the palette. An empty frame gets a single black color.
pub fn median_cut_with_quality<F: Fn(&Vec<(u32, u32)>, usize, u8) -> Palette>(
    frame: &RgbaFrame,
    max_colors: usize,
    quality: u8,
    reduce: &F,
) -> (palette: Palette)
    requires
        counts_fit(frame.pixels@, spec_quality_color_shift(quality), (frame.pixels@.len() / 4) as int),
        forall|entries: &Vec<(u32, u32)>, m: usize, q: u8| #[trigger] call_requires(
            *reduce,
            (entries, m, q),
        ),
    ensures
        frame.pixels@.len() == 0 ==> palette@ == seq![[0u8, 0u8, 0u8]],
        frame.pixels@.len() > 0 ==> ({
            let entries = spec_histogram(
                frame.pixels@,
                spec_quality_color_shift(quality),
                (frame.pixels@.len() / 4) as int,
            );
            if entries.len() <= clamp_colors(max_colors) {
                palette@ == spec_palette_by_frequency(entries)
            } else {
                exists|v: Vec<(u32, u32)>|
                    v@ == entries && #[trigger] call_ensures(
                        *reduce,
                        (&v, clamp_colors(max_colors), quality),
                        palette,
                    )
            }
        }),
        reducer_within_budget(*reduce) ==> palette@.len() <= clamp_colors(max_colors),
        reducer_within_budget(*reduce) && (frame.pixels@.len() == 0 || frame.pixels@.len() >= 4)
            ==> 1 <= palette@.len(),
{
    if frame.pixels.len() == 0 {
        let mut black: Palette = Vec::new();
        black.push([0, 0, 0]);
        assert(black@ =~= seq![[0u8, 0u8, 0u8]]);
        return black;
    }
    let max_colors = if max_colors < 1 {
        1
    } else if max_colors > 256 {
        256
    } else {
        max_colors
    };
    let shift = quality_color_shift(quality);
    let entries = color_histogram(frame, shift);
    if entries.len() <= max_colors {
        let palette = palette_by_frequency(&entries);
        proof {
            let n = (frame.pixels@.len() / 4) as int;
            lemma_sort_len(entries@);
            if n > 0 {
                lemma_frequency_palette_within_budget(frame.pixels@, shift, n, max_colors);
            }
        }
        return palette;
    }
    let palette = reduce(&entries, max_colors, quality);
    palette
}

/// `median_cut_with_quality` at the highest quality.
pub fn median_cut<F: Fn(&Vec<(u32, u32)>, usize, u8) -> Palette>(
    frame: &RgbaFrame,
    max_colors: usize,
    reduce: &F,
) -> (palette: Palette)
    requires
        counts_fit(frame.pixels@, 0, (frame.pixels@.len() / 4) as int),
        forall|entries: &Vec<(u32, u32)>, m: usize, q: u8| #[trigger] call_requires(
            *reduce,
            (entries, m, q),
        ),
    ensures
        frame.pixels@.len() == 0 ==> palette@ == seq![[0u8, 0u8, 0u8]],
        frame.pixels@.len() > 0 ==> ({
            let entries = spec_histogram(frame.pixels@, 0, (frame.pixels@.len() / 4) as int);
            if entries.len() <= clamp_colors(max_colors) {
                palette@ == spec_palette_by_frequency(entries)
            } else {
                exists|v: Vec<(u32, u32)>|
                    v@ == entries && #[trigger] call_ensures(
                        *reduce,
                        (&v, clamp_colors(max_colors), 100u8),
                        palette,
                    )
            }
        }),
        reducer_within_budget(*reduce) ==> palette@.len() <= clamp_colors(max_colors),
        reducer_within_budget(*reduce) && (frame.pixels@.len() == 0 || frame.pixels@.len() >= 4)
            ==> 1 <= palette@.len(),
{
    median_cut_with_quality(frame, max_colors, 100, reduce)
}

/// When the distinct colors of a frame fit the budget, its palette keeps
/// within the budget and holds at least one color for a frame with a pixel.
pub proof fn lemma_frequency_palette_within_budget(
    pixels: Seq<u8>,
    shift: u8,
    n: int,
    max_colors: usize,
)
    requires
        0 < n,
        spec_histogram(pixels, shift, n).len() <= clamp_colors(max_colors),
    ensures
        1 <= spec_palette_by_frequency(spec_histogram(pixels, shift, n)).len() <= clamp_colors(
            max_colors,
        ) <= 256,
{
    lemma_histogram_nonempty(pixels, shift, n);
    lemma_sort_len(spec_histogram(pixels, shift, n));
}

/// If `nearest` only ever answers with an index below `bound`, every index
/// that `map_to_palette` promises is below `bound`.
pub proof fn lemma_mapped_indices_in_bounds<F: Fn(u8, u8, u8) -> u8>(
    nearest: F,
    pixels: Seq<u8>,
    indices: Seq<u8>,
    bound: int,
)
    requires
        forall|i: int|
            0 <= i < indices.len() ==> call_ensures(nearest, pixel_rgb(pixels, i), #[trigger] indices[i]),
        forall|r: u8, g: u8, b: u8, v: u8| #[trigger] call_ensures(nearest, (r, g, b), v) ==> v < bound,
    ensures
        forall|i: int| 0 <= i < indices.len() ==> #[trigger] indices[i] < bound,
{
    assert forall|i: int| 0 <= i < indices.len() implies #[trigger] indices[i] < bound by {
        let (r, g, b) = pixel_rgb(pixels, i);
        assert(call_ensures(nearest, (r, g, b), indices[i]));
    }
}

// ---------------------------------------------------------------------------
// Temporal smoothing window
// ---------------------------------------------------------------------------

/// First frame of the smoothing window around `frame`.
pub open spec fn spec_window_start(frame: int, window: int) -> int {
    if frame >= window / 2 {
        frame - window / 2
    } else {
        0
    }
}

/// One past the last frame of the smoothing window around `frame`.
pub open spec fn spec_window_end(frame: int, frame_count: int, window: int) -> int {
    if frame + window / 2 + 1 <= frame_count {
        frame + window / 2 + 1
    } else {
        frame_count
    }
}

/// The frames `start..end` whose palettes are blended into the palette of
/// `frame`: those at most `window / 2` frames away from it.
pub fn temporal_window_range(frame: usize, frame_count: usize, window: usize) -> (r: (
    usize,
    usize,
))
    requires
        frame < frame_count,
    ensures
        r.0 == spec_window_start(frame as int, window as int),
        r.1 == spec_window_end(frame as int, frame_count as int, window as int),
{
    let radius = window / 2;
    let start = if frame >= radius {
        frame - radius
    } else {
        0
    };
    let end = if radius < frame_count - frame {
        frame + radius + 1
    } else {
        frame_count
    };
    (start, end)
}

/// The smoothing window is symmetric: frame `j` lies in the window of
/// frame `i` exactly when `i` lies in the window of `j`, which is when the
/// two are at most `window / 2` frames apart.
pub proof fn lemma_temporal_window_symmetric(i: int, j: int, frame_count: int, window: int)
    requires
        0 <= i < frame_count,
        0 <= j < frame_count,
        window >= 0,
    ensures
        (spec_window_start(i, window) <= j < spec_window_end(i, frame_count, window)) <==> (
        spec_window_start(j, window) <= i < spec_window_end(j, frame_count, window)),
        (spec_window_start(i, window) <= j < spec_window_end(i, frame_count, window)) <==> (i
            - window / 2 <= j <= i + window / 2),
{
}

// ---------------------------------------------------------------------------
// Coarser quantization
// ---------------------------------------------------------------------------

/// Quantizing with a shift and then with a coarser one is quantizing with
/// the coarser one alone.
pub proof fn lemma_requantize(channel: u8, fine: u8, coarse: u8)
    requires
        fine <= coarse <= 8,
    ensures
        spec_quantize_channel(spec_quantize_channel(channel, fine), coarse)
            == spec_quantize_channel(channel, coarse),
{
    if fine > 0 {
        vstd::arithmetic::power2::lemma2_to64();
        let s1 = vstd::arithmetic::power2::pow2(fine as nat) as int;
        let s2 = vstd::arithmetic::power2::pow2(coarse as nat) as int;
        let r = vstd::arithmetic::power2::pow2((coarse - fine) as nat) as int;
        vstd::arithmetic::power2::lemma_pow2_adds(fine as nat, (coarse - fine) as nat);
        vstd::arithmetic::power2::lemma_pow2_pos((coarse - fine) as nat);
        assert(s2 == s1 * r);
        assert(s1 == 2 || s1 == 4 || s1 == 8 || s1 == 16 || s1 == 32 || s1 == 64 || s1 == 128
            || s1 == 256);
        let c = channel as int;
        lemma_bucket_center(c, s1);
        let q1 = c / s1 * s1 + s1 / 2;
        assert(q1 / s1 == c / s1);
        vstd::arithmetic::div_mod::lemma_div_denominator(q1, s1, r);
        vstd::arithmetic::div_mod::lemma_div_denominator(c, s1, r);
        assert(q1 / s2 == c / s2);
    }
}

/// Pixels with the same key at a finer shift have the same key at a
/// coarser one.
proof fn lemma_same_key_when_coarser(pixels: Seq<u8>, fine: u8, coarse: u8, i: int, j: int)
    requires
        fine <= coarse <= 8,
        pixel_key(pixels, fine, i) == pixel_key(pixels, fine, j),
    ensures
        pixel_key(pixels, coarse, i) == pixel_key(pixels, coarse, j),
{
    let a = [
        spec_quantize_channel(pixels[4 * i], fine),
        spec_quantize_channel(pixels[4 * i + 1], fine),
        spec_quantize_channel(pixels[4 * i + 2], fine),
    ];
    let b = [
        spec_quantize_channel(pixels[4 * j], fine),
        spec_quantize_channel(pixels[4 * j + 1], fine),
        spec_quantize_channel(pixels[4 * j + 2], fine),
    ];
    lemma_unpack_pack(a[0], a[1], a[2]);
    lemma_unpack_pack(b[0], b[1], b[2]);
    assert(a[0] == b[0] && a[1] == b[1] && a[2] == b[2]);
    lemma_requantize(pixels[4 * i], fine, coarse);
    lemma_requantize(pixels[4 * i + 1], fine, coarse);
    lemma_requantize(pixels[4 * i + 2], fine, coarse);
    lemma_requantize(pixels[4 * j], fine, coarse);
    lemma_requantize(pixels[4 * j + 1], fine, coarse);
    lemma_requantize(pixels[4 * j + 2], fine, coarse);
}

/// The histogram of `n` pixels has an entry for a key exactly when one of
/// the pixels has that key.
pub proof fn lemma_histogram_keys(pixels: Seq<u8>, shift: u8, n: int, k: u32)
    requires
        n >= 0,
    ensures
        (exists|j: int|
            0 <= j < spec_histogram(pixels, shift, n).len() && #[trigger] spec_histogram(
                pixels,
                shift,
                n,
            )[j].0 == k) <==> (exists|i: int| 0 <= i < n && #[trigger] pixel_key(pixels, shift, i) == k),
    decreases n,
{
    if n > 0 {
        lemma_histogram_keys(pixels, shift, n - 1, k);
        let prev = spec_histogram(pixels, shift, n - 1);
        let cur = spec_histogram(pixels, shift, n);
        let kn = pixel_key(pixels, shift, n - 1);
        if exists|j: int| 0 <= j < cur.len() && #[trigger] cur[j].0 == k {
            let j = choose|j: int| 0 <= j < cur.len() && #[trigger] cur[j].0 == k;
            if k != kn {
                assert(j < prev.len() && prev[j].0 == k);
                let i = choose|i: int| 0 <= i < n - 1 && #[trigger] pixel_key(pixels, shift, i) == k;
                assert(pixel_key(pixels, shift, i) == k);
            } else {
                assert(pixel_key(pixels, shift, n - 1) == k);
            }
        }
        if exists|i: int| 0 <= i < n && #[trigger] pixel_key(pixels, shift, i) == k {
            let i = choose|i: int| 0 <= i < n && #[trigger] pixel_key(pixels, shift, i) == k;
            match key_position(prev, kn) {
                Some(jn) => {
                    if i < n - 1 {
                        let j = choose|j: int| 0 <= j < prev.len() && #[trigger] prev[j].0 == k;
                        assert(cur[j].0 == k);
                    } else {
                        assert(cur[jn].0 == k);
                    }
                },
                None => {
                    if i < n - 1 {
                        let j = choose|j: int| 0 <= j < prev.len() && #[trigger] prev[j].0 == k;
                        assert(cur[j].0 == k);
                    } else {
                        assert(cur[prev.len() as int].0 == k);
                    }
                },
            }
        }
    }
}

/// Coarser quantization never counts more distinct colors: with a shift of
/// at least `fine`, the histogram of the same pixels has no more entries.
pub proof fn lemma_coarser_shift_fewer_colors(pixels: Seq<u8>, fine: u8, coarse: u8, n: int)
    requires
        fine <= coarse <= 8,
        n >= 0,
    ensures
        spec_histogram(pixels, coarse, n).len() <= spec_histogram(pixels, fine, n).len(),
    decreases n,
{
    if n > 0 {
        lemma_coarser_shift_fewer_colors(pixels, fine, coarse, n - 1);
        let kf = pixel_key(pixels, fine, n - 1);
        let kc = pixel_key(pixels, coarse, n - 1);
        let prev_f = spec_histogram(pixels, fine, n - 1);
        let prev_c = spec_histogram(pixels, coarse, n - 1);
        if key_position(prev_f, kf) is Some {
            lemma_histogram_keys(pixels, fine, n - 1, kf);
            let i = choose|i: int| 0 <= i < n - 1 && #[trigger] pixel_key(pixels, fine, i) == kf;
            lemma_same_key_when_coarser(pixels, fine, coarse, i, n - 1);
            lemma_histogram_keys(pixels, coarse, n - 1, kc);
            assert(pixel_key(pixels, coarse, i) == kc);
            assert(key_position(prev_c, kc) is Some);
        }
    }
}

/// Colors are counted more coarsely at a lower quality: the shift never
/// decreases as the quality falls.
pub proof fn lemma_shift_grows_as_quality_falls(low: u8, high: u8)
    requires
        low <= high,
    ensures
        spec_quality_color_shift(high) <= spec_quality_color_shift(low) <= 4,
{
}

/// A lower quality setting never counts more distinct colors in a frame.
pub proof fn lemma_lower_quality_fewer_colors(pixels: Seq<u8>, low: u8, high: u8, n: int)
    requires
        low <= high,
        n >= 0,
    ensures
        spec_histogram(pixels, spec_quality_color_shift(low), n).len() <= spec_histogram(
            pixels,
            spec_quality_color_shift(high),
            n,
        ).len(),
{
    lemma_shift_grows_as_quality_falls(low, high);
    lemma_coarser_shift_fewer_colors(
        pixels,
        spec_quality_color_shift(high),
        spec_quality_color_shift(low),
        n,
    );
}

// ---------------------------------------------------------------------------
// The histogram and the palette against the frame's pixels
// ---------------------------------------------------------------------------

/// The color of pixel `i` after each channel was quantized by `shift`.
pub open spec fn quantized_color(pixels: Seq<u8>, shift: u8, i: int) -> [u8; 3] {
    [
        spec_quantize_channel(pixels[4 * i], shift),
        spec_quantize_channel(pixels[4 * i + 1], shift),
        spec_quantize_channel(pixels[4 * i + 2], shift),
    ]
}

/// How many of pixels `0 .. n` have key `k`.
pub open spec fn key_count(pixels: Seq<u8>, shift: u8, n: int, k: u32) -> nat
    decreases n,
{
    if n <= 0 {
        0
    } else {
        key_count(pixels, shift, n - 1, k) + if pixel_key(pixels, shift, n - 1) == k {
            1nat
        } else {
            0nat
        }
    }
}

/// How many of pixels `0 .. n` have quantized color `c`.
pub open spec fn color_count(pixels: Seq<u8>, shift: u8, n: int, c: [u8; 3]) -> nat
    decreases n,
{
    if n <= 0 {
        0
    } else {
        color_count(pixels, shift, n - 1, c) + if quantized_color(pixels, shift, n - 1) == c {
            1nat
        } else {
            0nat
        }
    }
}

/// A pixel's key is the packed form of its quantized color, and two pixels
/// share a key exactly when they share a quantized color.
proof fn lemma_key_is_packed_color(pixels: Seq<u8>, shift: u8, i: int, c: [u8; 3])
    ensures
        spec_unpack_rgb(pixel_key(pixels, shift, i)) == quantized_color(pixels, shift, i),
        (pixel_key(pixels, shift, i) == spec_pack_rgb(c[0], c[1], c[2])) <==> (quantized_color(
            pixels,
            shift,
            i,
        ) == c),
{
    let q = quantized_color(pixels, shift, i);
    lemma_unpack_pack(q[0], q[1], q[2]);
    lemma_unpack_pack(c[0], c[1], c[2]);
    assert(spec_unpack_rgb(pixel_key(pixels, shift, i)) =~= q);
    if pixel_key(pixels, shift, i) == spec_pack_rgb(c[0], c[1], c[2]) {
        assert(q =~= c);
    }
}

/// Counting a packed color's key counts that color.
proof fn lemma_key_count_is_color_count(pixels: Seq<u8>, shift: u8, n: int, c: [u8; 3])
    ensures
        key_count(pixels, shift, n, spec_pack_rgb(c[0], c[1], c[2])) == color_count(
            pixels,
            shift,
            n,
            c,
        ),
    decreases n,
{
    if n > 0 {
        lemma_key_count_is_color_count(pixels, shift, n - 1, c);
        lemma_key_is_packed_color(pixels, shift, n - 1, c);
    }
}

/// The histogram of `n` pixels has no key twice, and each entry counts
/// exactly the pixels with its key.
pub proof fn lemma_histogram_exact(pixels: Seq<u8>, shift: u8, n: int)
    requires
        0 <= n,
        counts_fit(pixels, shift, n),
    ensures
        distinct_keys(spec_histogram(pixels, shift, n)),
        forall|j: int|
            0 <= j < spec_histogram(pixels, shift, n).len() ==> #[trigger] spec_histogram(
                pixels,
                shift,
                n,
            )[j].1 == key_count(pixels, shift, n, spec_histogram(pixels, shift, n)[j].0),
    decreases n,
{
    if n > 0 {
        lemma_counts_fit_prefix(pixels, shift, n - 1, n);
        lemma_histogram_exact(pixels, shift, n - 1);
        let prev = spec_histogram(pixels, shift, n - 1);
        let cur = spec_histogram(pixels, shift, n);
        let kn = pixel_key(pixels, shift, n - 1);
        match key_position(prev, kn) {
            Some(jn) => {
                assert(0 <= jn < prev.len() && prev[jn].0 == kn);
                assert(prev[jn].1 == key_count(pixels, shift, n - 1, kn));
                assert(key_count(pixels, shift, n, kn) <= u32::MAX);
                assert(cur == prev.update(jn, (kn, (prev[jn].1 + 1) as u32)));
                assert forall|j: int| 0 <= j < cur.len() implies #[trigger] cur[j].1 == key_count(
                    pixels,
                    shift,
                    n,
                    cur[j].0,
                ) by {
                    if j != jn {
                        assert(prev[j].0 != prev[jn].0);
                    }
                }
                assert forall|a: int, b: int|
                    0 <= a < cur.len() && 0 <= b < cur.len() && a != b implies #[trigger] cur[a].0
                    != #[trigger] cur[b].0 by {
                    assert(prev[a].0 != prev[b].0);
                }
            },
            None => {
                assert(!exists|j: int| 0 <= j < prev.len() && #[trigger] prev[j].0 == kn);
                assert(cur == prev.push((kn, 1u32)));
                lemma_histogram_keys(pixels, shift, n - 1, kn);
                lemma_key_count_zero(pixels, shift, n - 1, kn);
                assert forall|j: int| 0 <= j < cur.len() implies #[trigger] cur[j].1 == key_count(
                    pixels,
                    shift,
                    n,
                    cur[j].0,
                ) by {
                    if j < prev.len() {
                        assert(prev[j].0 != kn);
                    }
                }
                assert forall|a: int, b: int|
                    0 <= a < cur.len() && 0 <= b < cur.len() && a != b implies #[trigger] cur[a].0
                    != #[trigger] cur[b].0 by {
                    if a < prev.len() && b < prev.len() {
                        assert(prev[a].0 != prev[b].0);
                    } else if a < prev.len() {
                        assert(prev[a].0 != kn);
                    } else {
                        assert(prev[b].0 != kn);
                    }
                }
            },
        }
    }
}

/// A key that no pixel among the first `n` has is counted 0 times.
proof fn lemma_key_count_zero(pixels: Seq<u8>, shift: u8, n: int, k: u32)
    requires
        !exists|i: int| 0 <= i < n && #[trigger] pixel_key(pixels, shift, i) == k,
    ensures
        key_count(pixels, shift, n, k) == 0,
    decreases n,
{
    if n > 0 {
        assert(pixel_key(pixels, shift, n - 1) != k);
        lemma_key_count_zero(pixels, shift, n - 1, k);
    }
}

/// The palette of a frame whose colors fit the budget holds each quantized
/// color of its pixels exactly once and no other color, ordered from the
/// most frequent color down.
pub proof fn lemma_frequency_palette_exact(pixels: Seq<u8>, shift: u8, n: int)
    requires
        0 <= n,
        counts_fit(pixels, shift, n),
    ensures
        ({
            let palette = spec_palette_by_frequency(spec_histogram(pixels, shift, n));
            &&& forall|i: int| 0 <= i < n ==> palette.contains(#[trigger] quantized_color(pixels, shift, i))
            &&& forall|j: int|
                0 <= j < palette.len() ==> color_count(pixels, shift, n, #[trigger] palette[j]) >= 1
            &&& forall|a: int, b: int|
                0 <= a < palette.len() && 0 <= b < palette.len() && a != b ==> #[trigger] palette[a]
                    != #[trigger] palette[b]
            &&& forall|a: int, b: int|
                0 <= a < b < palette.len() ==> color_count(pixels, shift, n, #[trigger] palette[a])
                    >= color_count(pixels, shift, n, #[trigger] palette[b])
        }),
{
    broadcast use vstd::seq_lib::group_to_multiset_ensures;

    let h = spec_histogram(pixels, shift, n);
    let srt = sort_by_count(h);
    let palette = spec_palette_by_frequency(h);
    lemma_histogram_exact(pixels, shift, n);
    lemma_sort_by_count(h);
    assert(h.no_duplicates()) by {
        assert forall|a: int, b: int| 0 <= a < h.len() && 0 <= b < h.len() && a != b implies h[a]
            != h[b] by {
            assert(h[a].0 != h[b].0);
        }
    }
    h.lemma_multiset_has_no_duplicates();
    assert forall|x: (u32, u32)| srt.to_multiset().contains(x) implies srt.to_multiset().count(x)
        == 1 by {
        assert(h.to_multiset().contains(x));
    }
    srt.lemma_multiset_has_no_duplicates_conv();
    // Every sorted entry comes from the histogram: its key is some pixel's
    // key and its count is that key's count.
    assert forall|a: int| 0 <= a < srt.len() implies h.contains(#[trigger] srt[a]) by {
        assert(srt.contains(srt[a]));
        assert(srt.to_multiset().count(srt[a]) > 0);
    }
    assert forall|a: int| #![trigger srt[a]] 0 <= a < srt.len() implies exists|i: int|
        0 <= i < n && #[trigger] pixel_key(pixels, shift, i) == srt[a].0 && quantized_color(
            pixels,
            shift,
            i,
        ) == palette[a] && color_count(pixels, shift, n, palette[a]) == srt[a].1 by {
        assert(h.contains(srt[a]));
        let j = choose|j: int| 0 <= j < h.len() && h[j] == srt[a];
        lemma_histogram_keys(pixels, shift, n, h[j].0);
        assert(h[j].0 == h[j].0);
        assert(exists|jj: int| 0 <= jj < h.len() && #[trigger] h[jj].0 == h[j].0);
        let i = choose|i: int| 0 <= i < n && #[trigger] pixel_key(pixels, shift, i) == h[j].0;
        lemma_key_is_packed_color(pixels, shift, i, quantized_color(pixels, shift, i));
        let q = quantized_color(pixels, shift, i);
        lemma_key_count_is_color_count(pixels, shift, n, q);
        assert(palette[a] == spec_unpack_rgb(srt[a].0));
    }
    assert forall|i: int| 0 <= i < n implies palette.contains(#[trigger] quantized_color(
        pixels,
        shift,
        i,
    )) by {
        let k = pixel_key(pixels, shift, i);
        lemma_histogram_keys(pixels, shift, n, k);
        let j = choose|j: int| 0 <= j < h.len() && #[trigger] h[j].0 == k;
        assert(h.contains(h[j]));
        assert(h.to_multiset().count(h[j]) > 0);
        assert(srt.contains(h[j]));
        let a = choose|a: int| 0 <= a < srt.len() && srt[a] == h[j];
        lemma_key_is_packed_color(pixels, shift, i, quantized_color(pixels, shift, i));
        assert(palette[a] == quantized_color(pixels, shift, i));
    }
    assert forall|j: int| 0 <= j < palette.len() implies color_count(
        pixels,
        shift,
        n,
        #[trigger] palette[j],
    ) >= 1 by {
        let i = choose|i: int|
            0 <= i < n && #[trigger] pixel_key(pixels, shift, i) == srt[j].0 && quantized_color(
                pixels,
                shift,
                i,
            ) == palette[j] && color_count(pixels, shift, n, palette[j]) == srt[j].1;
        lemma_key_count_positive(pixels, shift, n, i);
    }
    assert forall|a: int, b: int|
        0 <= a < palette.len() && 0 <= b < palette.len() && a != b implies #[trigger] palette[a]
        != #[trigger] palette[b] by {
        let ia = choose|i: int|
            0 <= i < n && #[trigger] pixel_key(pixels, shift, i) == srt[a].0 && quantized_color(
                pixels,
                shift,
                i,
            ) == palette[a] && color_count(pixels, shift, n, palette[a]) == srt[a].1;
        let ib = choose|i: int|
            0 <= i < n && #[trigger] pixel_key(pixels, shift, i) == srt[b].0 && quantized_color(
                pixels,
                shift,
                i,
            ) == palette[b] && color_count(pixels, shift, n, palette[b]) == srt[b].1;
        if palette[a] == palette[b] {
            let q = palette[a];
            lemma_key_is_packed_color(pixels, shift, ia, q);
            lemma_key_is_packed_color(pixels, shift, ib, q);
            assert(srt[a].0 == srt[b].0);
            let ja = choose|j: int| 0 <= j < h.len() && h[j] == srt[a];
            let jb = choose|j: int| 0 <= j < h.len() && h[j] == srt[b];
            assert(ja == jb);
            assert(srt[a] == srt[b]);
        }
    }
    assert forall|a: int, b: int| 0 <= a < b < palette.len() implies color_count(
        pixels,
        shift,
        n,
        #[trigger] palette[a],
    ) >= color_count(pixels, shift, n, #[trigger] palette[b]) by {
        let ia = choose|i: int|
            0 <= i < n && #[trigger] pixel_key(pixels, shift, i) == srt[a].0 && quantized_color(
                pixels,
                shift,
                i,
            ) == palette[a] && color_count(pixels, shift, n, palette[a]) == srt[a].1;
        let ib = choose|i: int|
            0 <= i < n && #[trigger] pixel_key(pixels, shift, i) == srt[b].0 && quantized_color(
                pixels,
                shift,
                i,
            ) == palette[b] && color_count(pixels, shift, n, palette[b]) == srt[b].1;
        assert(srt[a].1 >= srt[b].1);
    }
}

/// The distinct quantized colors of pixels `0 .. n`.
pub open spec fn quantized_colors(pixels: Seq<u8>, shift: u8, n: int) -> Set<[u8; 3]> {
    Set::new(|c: [u8; 3]| exists|i: int| 0 <= i < n && #[trigger] quantized_color(pixels, shift, i) == c)
}

/// A color counted at least once is the quantized color of some pixel.
proof fn lemma_counted_color_occurs(pixels: Seq<u8>, shift: u8, n: int, c: [u8; 3])
    requires
        color_count(pixels, shift, n, c) >= 1,
    ensures
        exists|i: int| 0 <= i < n && #[trigger] quantized_color(pixels, shift, i) == c,
    decreases n,
{
    if n > 0 {
        if quantized_color(pixels, shift, n - 1) != c {
            lemma_counted_color_occurs(pixels, shift, n - 1, c);
        }
    }
}

/// The histogram has one entry for each distinct quantized color of the
/// frame, so a frame fits the color budget exactly when its number of
/// distinct quantized colors does; the palette built from it holds those
/// colors and no others.
pub proof fn lemma_histogram_len_is_distinct_colors(pixels: Seq<u8>, shift: u8, n: int)
    requires
        0 <= n,
        counts_fit(pixels, shift, n),
    ensures
        quantized_colors(pixels, shift, n).finite(),
        spec_histogram(pixels, shift, n).len() == quantized_colors(pixels, shift, n).len(),
        spec_palette_by_frequency(spec_histogram(pixels, shift, n)).to_set() == quantized_colors(
            pixels,
            shift,
            n,
        ),
{
    let h = spec_histogram(pixels, shift, n);
    let palette = spec_palette_by_frequency(h);
    let colors = quantized_colors(pixels, shift, n);
    lemma_frequency_palette_exact(pixels, shift, n);
    lemma_sort_len(h);
    assert(palette.len() == h.len());
    assert forall|c: [u8; 3]| palette.to_set().contains(c) <==> colors.contains(c) by {
        if palette.to_set().contains(c) {
            assert(palette.contains(c));
            let j = choose|j: int| 0 <= j < palette.len() && palette[j] == c;
            assert(color_count(pixels, shift, n, palette[j]) >= 1);
            lemma_counted_color_occurs(pixels, shift, n, c);
        }
        if colors.contains(c) {
            let i = choose|i: int| 0 <= i < n && #[trigger] quantized_color(pixels, shift, i) == c;
            assert(palette.contains(quantized_color(pixels, shift, i)));
        }
    }
    assert(palette.to_set() =~= colors);
    assert(palette.no_duplicates()) by {
        assert forall|a: int, b: int| 0 <= a < palette.len() && 0 <= b < palette.len() && a != b
            implies palette[a] != palette[b] by {
            assert(palette[a] != palette[b]);
        }
    }
    palette.unique_seq_to_set();
    vstd::seq_lib::seq_to_set_is_finite(palette);
}

/// Quantizing keeps a channel's high bits and sets the rest to the middle
/// of its `2^shift`-wide bucket: for a shift of 1 to 7 the result is
/// `((channel >> shift) << shift) + (1 << (shift - 1))`, with the same
/// high bits as the channel; a shift of 0 keeps the channel.
pub proof fn lemma_quantize_channel_bucket_centre(channel: u8, shift: u8)
    requires
        shift <= 7,
    ensures
        shift == 0 ==> spec_quantize_channel(channel, shift) == channel,
        shift >= 1 ==> spec_quantize_channel(channel, shift) as u16 == (((channel as u16) >> (
        shift as u16)) << (shift as u16)) + (1u16 << ((shift - 1) as u16)),
        shift >= 1 ==> (spec_quantize_channel(channel, shift) as u16) >> (shift as u16) == (
        channel as u16) >> (shift as u16),
{
    if shift >= 1 {
        vstd::arithmetic::power2::lemma2_to64();
        let c = channel as u16;
        let s = shift as u16;
        let p = vstd::arithmetic::power2::pow2(s as nat) as int;
        let half = vstd::arithmetic::power2::pow2((s - 1) as nat) as int;
        vstd::arithmetic::power2::lemma_pow2_adds((s - 1) as nat, 1);
        assert(p == half * 2);
        assert(p == 2 || p == 4 || p == 8 || p == 16 || p == 32 || p == 64 || p == 128);
        vstd::bits::lemma_u16_shr_is_div(c, s);
        let hi = c >> s;
        assert(hi == (c as int) / p);
        assert(hi * p <= c) by (nonlinear_arith)
            requires
                hi == (c as int) / p,
                p > 0,
                c >= 0,
        ;
        vstd::bits::lemma_u16_shl_is_mul(hi, s);
        vstd::bits::lemma_u16_shl_is_mul(1u16, (s - 1) as u16);
        lemma_bucket_center(c as int, p);
        let q = spec_quantize_channel(channel, shift);
        assert(q as int == (c as int) / p * p + p / 2);
        vstd::bits::lemma_u16_shr_is_div(q as u16, s);
    }
}

/// Every key among pixels `0 .. n` occurs at most `u32::MAX` times, so its
/// count fits the histogram's `u32` counter.
pub open spec fn counts_fit(pixels: Seq<u8>, shift: u8, n: int) -> bool {
    forall|k: u32| #[trigger] key_count(pixels, shift, n, k) <= u32::MAX
}

proof fn lemma_key_count_monotone(pixels: Seq<u8>, shift: u8, m: int, n: int, k: u32)
    requires
        0 <= m <= n,
    ensures
        key_count(pixels, shift, m, k) <= key_count(pixels, shift, n, k),
    decreases n,
{
    if m < n {
        lemma_key_count_monotone(pixels, shift, m, n - 1, k);
    }
}

proof fn lemma_counts_fit_prefix(pixels: Seq<u8>, shift: u8, m: int, n: int)
    requires
        0 <= m <= n,
        counts_fit(pixels, shift, n),
    ensures
        counts_fit(pixels, shift, m),
{
    assert forall|k: u32| #[trigger] key_count(pixels, shift, m, k) <= u32::MAX by {
        lemma_key_count_monotone(pixels, shift, m, n, k);
    }
}

proof fn lemma_key_count_bound(pixels: Seq<u8>, shift: u8, n: int, k: u32)
    requires
        0 <= n,
    ensures
        key_count(pixels, shift, n, k) <= n,
    decreases n,
{
    if n > 0 {
        lemma_key_count_bound(pixels, shift, n - 1, k);
    }
}

/// With at most `u32::MAX` pixels every count fits.
pub proof fn lemma_counts_fit_when_few_pixels(pixels: Seq<u8>, shift: u8, n: int)
    requires
        0 <= n <= u32::MAX,
    ensures
        counts_fit(pixels, shift, n),
{
    assert forall|k: u32| #[trigger] key_count(pixels, shift, n, k) <= u32::MAX by {
        lemma_key_count_bound(pixels, shift, n, k);
    }
}

/// A pixel's own key is counted at least once.
proof fn lemma_key_count_positive(pixels: Seq<u8>, shift: u8, n: int, i: int)
    requires
        0 <= i < n,
    ensures
        key_count(pixels, shift, n, pixel_key(pixels, shift, i)) >= 1,
    decreases n,
{
    if i < n - 1 {
        lemma_key_count_positive(pixels, shift, n - 1, i);
    }
}

/// The histogram of at least one pixel has an entry, and never more
/// entries than pixels.
proof fn lemma_histogram_nonempty(pixels: Seq<u8>, shift: u8, n: int)
    requires
        0 <= n,
    ensures
        spec_histogram(pixels, shift, n).len() <= n,
        n > 0 ==> spec_histogram(pixels, shift, n).len() > 0,
    decreases n,
{
    if n > 0 {
        lemma_histogram_nonempty(pixels, shift, n - 1);
    }
}

/// The color budget is `max_colors` limited to `1..=256`: a budget in that
/// range is used as given, 0 acts as 1 and anything above 256 as 256.
pub proof fn lemma_color_budget(max_colors: usize)
    ensures
        1 <= clamp_colors(max_colors) <= 256,
        1 <= max_colors <= 256 ==> clamp_colors(max_colors) == max_colors,
        max_colors == 0 ==> clamp_colors(max_colors) == 1,
        max_colors >= 256 ==> clamp_colors(max_colors) == 256,
{
}

/// A frame whose distinct quantized colors number at most `max_colors`
/// and at most 256 fits the budget: its palette is built from its own
/// histogram, each of those colors once, and no reducer is asked.
pub proof fn lemma_few_colors_fit_budget(pixels: Seq<u8>, shift: u8, n: int, max_colors: usize)
    requires
        0 <= n,
        counts_fit(pixels, shift, n),
        quantized_colors(pixels, shift, n).len() <= max_colors,
        quantized_colors(pixels, shift, n).len() <= 256,
    ensures
        spec_histogram(pixels, shift, n).len() <= clamp_colors(max_colors),
        spec_palette_by_frequency(spec_histogram(pixels, shift, n)).to_set() == quantized_colors(
            pixels,
            shift,
            n,
        ),
{
    lemma_histogram_len_is_distinct_colors(pixels, shift, n);
    lemma_color_budget(max_colors);
}

} // verus!
