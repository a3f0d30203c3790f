//! Encoder options and their validation.

use vstd::prelude::*;

verus! {

/// How palette indices are chosen for each pixel.
#[derive(Debug, Clone, Copy, PartialEq, Eq, Structural)]
pub enum DitherMethod {
    FloydSteinberg,
    Bayer,
    /// Each pixel takes its nearest palette color.
    NoDither,
}

impl Default for DitherMethod {
    fn default() -> (d: Self)
        ensures
            d == DitherMethod::FloydSteinberg,
    {
        DitherMethod::FloydSteinberg
    }
}

/// All options of one encoding run.
#[derive(Debug, Clone)]
pub struct EncodeConfig {
    pub fps: u32,
    pub width: Option<u32>,
    pub height: Option<u32>,
    pub quality: u8,
    pub dither: DitherMethod,
    pub temporal_window: usize,
    pub transparency_optimization: bool,
    pub verbose: bool,
}

/// Why a configuration was rejected.
#[derive(Debug, Clone, Copy, PartialEq, Eq, Structural)]
pub enum ConfigError {
    /// `fps` is 0.
    ZeroFps,
    /// `quality` lies outside `1..=100`.
    QualityOutOfRange,
    /// `temporal_window` is 0.
    ZeroTemporalWindow,
    /// `width` is `Some(0)`.
    ZeroWidth,
    /// `height` is `Some(0)`.
    ZeroHeight,
}

impl Default for EncodeConfig {
    fn default() -> (c: Self)
        ensures
            c.fps == 10,
            c.width is None,
            c.height is None,
            c.quality == 90,
            c.dither == DitherMethod::FloydSteinberg,
            c.temporal_window == 3,
            c.transparency_optimization,
            !c.verbose,
    {
        EncodeConfig {
            fps: 10,
            width: None,
            height: None,
            quality: 90,
            dither: DitherMethod::FloydSteinberg,
            temporal_window: 3,
            transparency_optimization: true,
            verbose: false,
        }
    }
}

/// The first rule that `c` breaks, checked in a fixed order, or `None`.
pub open spec fn spec_config_error(c: EncodeConfig) -> Option<ConfigError> {
    if c.fps == 0 {
        Some(ConfigError::ZeroFps)
    } else if c.quality == 0 || c.quality > 100 {
        Some(ConfigError::QualityOutOfRange)
    } else if c.temporal_window == 0 {
        Some(ConfigError::ZeroTemporalWindow)
    } else if c.width == Some(0u32) {
        Some(ConfigError::ZeroWidth)
    } else if c.height == Some(0u32) {
        Some(ConfigError::ZeroHeight)
    } else {
        None
    }
}

/// `100 / fps` rounded to the nearest integer (halves away from zero), at
/// least 1; a rate of 0 saturates to the largest delay.
pub open spec fn spec_frame_delay_cs(fps: u32) -> u16 {
    if fps == 0 {
        u16::MAX
    } else {
        let rounded = (200 + fps) / (2 * fps);
        if rounded < 1 {
            1
        } else {
            rounded as u16
        }
    }
}

impl EncodeConfig {
    /// Accepts the configuration or names the first rule it breaks.
    pub fn validate(&self) -> (r: Result<(), ConfigError>)
        ensures
            r is Ok <==> spec_config_error(*self) is None,
            r matches Err(e) ==> spec_config_error(*self) == Some(e),
    {
        if self.fps == 0 {
            return Err(ConfigError::ZeroFps);
        }
        if self.quality == 0 || self.quality > 100 {
            return Err(ConfigError::QualityOutOfRange);
        }
        if self.temporal_window == 0 {
            return Err(ConfigError::ZeroTemporalWindow);
        }
        match self.width {
            Some(w) => {
                if w == 0 {
                    return Err(ConfigError::ZeroWidth);
                }
            },
            None => {},
        }
        match self.height {
            Some(h) => {
                if h == 0 {
                    return Err(ConfigError::ZeroHeight);
                }
            },
            None => {},
        }
        Ok(())
    }

    /// Delay between frames in hundredths of a second.
    pub fn frame_delay_cs(&self) -> (d: u16)
        ensures
            d == spec_frame_delay_cs(self.fps),
            d >= 1,
    {
        if self.fps == 0 {
            return u16::MAX;
        }
        let fps: u64 = self.fps as u64;
        let rounded: u64 = (200 + fps) / (2 * fps);
        assert((200 + fps) / (2 * fps) <= 100) by (nonlinear_arith)
            requires
                fps >= 1,
        ;
        if rounded < 1 {
            1
        } else {
            rounded as u16
        }
    }
}

/// The default configuration passes validation.
pub proof fn lemma_default_config_is_valid(c: EncodeConfig)
    requires
        c.fps == 10,
        c.width is None,
        c.height is None,
        c.quality == 90,
        c.temporal_window == 3,
    ensures
        spec_config_error(c) is None,
{
}

/// The frame delay is at least 1 and at most 100 hundredths of a second
/// for any frame rate above 0.
pub proof fn lemma_frame_delay_range(fps: u32)
    requires
        fps > 0,
    ensures
        1 <= spec_frame_delay_cs(fps) <= 100,
{
    assert((200 + fps) / (2 * fps) <= 100) by (nonlinear_arith)
        requires
            fps >= 1,
    ;
}

/// A higher frame rate never gives a longer frame delay.
pub proof fn lemma_frame_delay_monotone(slow: u32, fast: u32)
    requires
        0 < slow <= fast,
    ensures
        spec_frame_delay_cs(fast) <= spec_frame_delay_cs(slow),
{
    let f1 = slow as int;
    let f2 = fast as int;
    let q2 = (200 + f2) / (2 * f2);
    assert(q2 * (2 * f2) <= 200 + f2 && q2 >= 0) by (nonlinear_arith)
        requires
            f2 >= 1,
            q2 == (200 + f2) / (2 * f2),
    ;
    if q2 >= 1 {
        assert((2 * q2 - 1) * f2 <= 200) by (nonlinear_arith)
            requires
                q2 * (2 * f2) <= 200 + f2,
        ;
        assert((2 * q2 - 1) * f1 <= (2 * q2 - 1) * f2) by (nonlinear_arith)
            requires
                q2 >= 1,
                1 <= f1 <= f2,
        ;
        assert(q2 * (2 * f1) <= 200 + f1) by (nonlinear_arith)
            requires
                (2 * q2 - 1) * f1 <= 200,
        ;
        assert(q2 <= (200 + f1) / (2 * f1)) by (nonlinear_arith)
            requires
                q2 * (2 * f1) <= 200 + f1,
                f1 >= 1,
                q2 >= 0,
        ;
    }
    lemma_frame_delay_range(slow);
    lemma_frame_delay_range(fast);
    let q1 = (200 + f1) / (2 * f1);
    assert(q1 <= 100 && q2 <= 100) by (nonlinear_arith)
        requires
            f1 >= 1,
            f2 >= 1,
            q1 == (200 + f1) / (2 * f1),
            q2 == (200 + f2) / (2 * f2),
    ;
    assert(spec_frame_delay_cs(slow) as int == if q1 < 1 {
        1
    } else {
        q1
    });
    assert(spec_frame_delay_cs(fast) as int == if q2 < 1 {
        1
    } else {
        q2
    });
}

} // verus!
