//! Optional settings as a JavaScript caller passes them, and their
//! conversion into an `EncodeConfig`.

use vstd::prelude::*;

use crate::config::{spec_config_error, ConfigError, DitherMethod, EncodeConfig};

verus! {

/// Settings a caller may leave out; each missing one keeps its default.
#[derive(Debug, Clone)]
pub struct GifEncodeOptions {
    pub fps: Option<u32>,
    pub width: Option<u32>,
    pub height: Option<u32>,
    pub quality: Option<u8>,
    pub dither: Option<String>,
    pub temporal_window: Option<u32>,
    pub transparency_optimization: Option<bool>,
    pub verbose: Option<bool>,
}

/// Why the settings were refused.
#[derive(Debug, Clone, PartialEq, Eq)]
pub enum OptionsError {
    /// The dither name (shown lower-cased) is none of the known names.
    InvalidDither(String),
    /// The resulting configuration breaks a rule.
    Config(ConfigError),
}

/// `s` with the ASCII letters `A` to `Z` turned into `a` to `z`.
pub open spec fn spec_ascii_lower(s: Seq<char>) -> Seq<char> {
    Seq::new(
        s.len(),
        |i: int|
            if 'A' <= s[i] && s[i] <= 'Z' {
                ((s[i] as int) + 32) as char
            } else {
                s[i]
            },
    )
}

/// The dither method a name stands for, compared case-insensitively for
/// ASCII letters.
pub open spec fn spec_parse_dither(name: Seq<char>) -> Option<DitherMethod> {
    let l = spec_ascii_lower(name);
    if l == "floyd-steinberg"@ || l == "floyd_steinberg"@ || l == "floydsteinberg"@ {
        Some(DitherMethod::FloydSteinberg)
    } else if l == "bayer"@ {
        Some(DitherMethod::Bayer)
    } else if l == "none"@ {
        Some(DitherMethod::NoDither)
    } else {
        None
    }
}

/// `str::to_ascii_lowercase`: a copy of the string with ASCII letters `A`
/// to `Z` mapped to `a` to `z` and every other character unchanged.
#[verifier::external_body]
fn ascii_lowercase(s: &str) -> (r: String)
    ensures
        r@ == spec_ascii_lower(s@),
{
    s.to_ascii_lowercase()
}

/// Character-by-character equality of two strings.
fn str_equal(a: &str, b: &str) -> (r: bool)
    ensures
        r == (a@ == b@),
{
    let n = a.unicode_len();
    if n != b.unicode_len() {
        return false;
    }
    let mut i: usize = 0;
    while i < n
        invariant
            n == a@.len(),
            n == b@.len(),
            0 <= i <= n,
            forall|k: int| 0 <= k < i ==> a@[k] == b@[k],
        decreases n - i,
    {
        if a.get_char(i) != b.get_char(i) {
            return false;
        }
        i += 1;
    }
    assert(a@ =~= b@);
    true
}

/// Reads a dither method name, ignoring ASCII case.
pub fn parse_dither(value: &str) -> (r: Result<DitherMethod, OptionsError>)
    ensures
        r matches Ok(d) ==> spec_parse_dither(value@) == Some(d),
        r matches Err(e) ==> (e matches OptionsError::InvalidDither(s) && s@ == spec_ascii_lower(
            value@,
        )),
        r is Ok <==> spec_parse_dither(value@) is Some,
{
    let lower = ascii_lowercase(value);
    let l = lower.as_str();
    if str_equal(l, "floyd-steinberg") || str_equal(l, "floyd_steinberg") || str_equal(
        l,
        "floydsteinberg",
    ) {
        Ok(DitherMethod::FloydSteinberg)
    } else if str_equal(l, "bayer") {
        Ok(DitherMethod::Bayer)
    } else if str_equal(l, "none") {
        Ok(DitherMethod::NoDither)
    } else {
        Err(OptionsError::InvalidDither(lower))
    }
}

/// The default configuration with every given option applied, the dither
/// name read as `parse_dither` reads it.
pub open spec fn spec_apply_options(options: GifEncodeOptions, dither: DitherMethod) -> EncodeConfig {
    EncodeConfig {
        fps: match options.fps {
            Some(v) => v,
            None => 10,
        },
        width: match options.width {
            Some(v) => Some(v),
            None => None,
        },
        height: match options.height {
            Some(v) => Some(v),
            None => None,
        },
        quality: match options.quality {
            Some(v) => v,
            None => 90,
        },
        dither,
        temporal_window: match options.temporal_window {
            Some(v) => v as usize,
            None => 3,
        },
        transparency_optimization: match options.transparency_optimization {
            Some(v) => v,
            None => true,
        },
        verbose: match options.verbose {
            Some(v) => v,
            None => false,
        },
    }
}

/// Builds a validated configuration from optional settings; without
/// settings the defaults apply.
pub fn to_encode_config(options: Option<GifEncodeOptions>) -> (r: Result<
    EncodeConfig,
    OptionsError,
>)
    ensures
        options is None ==> (r matches Ok(c) && c == spec_apply_options(
            GifEncodeOptions {
                fps: None,
                width: None,
                height: None,
                quality: None,
                dither: None,
                temporal_window: None,
                transparency_optimization: None,
                verbose: None,
            },
            DitherMethod::FloydSteinberg,
        )),
        options matches Some(o) ==> {
            let parsed = match o.dither {
                Some(name) => spec_parse_dither(name@),
                None => Some(DitherMethod::FloydSteinberg),
            };
            match parsed {
                None => r is Err,
                Some(d) => {
                    let c = spec_apply_options(o, d);
                    match spec_config_error(c) {
                        Some(ce) => r == Err::<EncodeConfig, OptionsError>(OptionsError::Config(ce)),
                        None => r matches Ok(rc) && rc == c,
                    }
                },
            }
        },
        r matches Ok(c) ==> (options matches Some(o) ==> c.width == o.width && c.height
            == o.height),
        r matches Ok(c) ==> (options is None ==> c.width is None && c.height is None),
        options matches Some(o) ==> (o.dither matches Some(name) ==> (spec_parse_dither(name@)
            is None ==> (r matches Err(e) && e matches OptionsError::InvalidDither(s) && s@
            == spec_ascii_lower(name@)))),
{
    let mut config = EncodeConfig::default();
    if let Some(options) = options {
        if let Some(fps) = options.fps {
            config.fps = fps;
        }
        if let Some(width) = options.width {
            config.width = Some(width);
        }
        if let Some(height) = options.height {
            config.height = Some(height);
        }
        if let Some(quality) = options.quality {
            config.quality = quality;
        }
        if let Some(dither) = &options.dither {
            match parse_dither(dither.as_str()) {
                Ok(d) => {
                    config.dither = d;
                },
                Err(e) => {
                    return Err(e);
                },
            }
        }
        if let Some(temporal_window) = options.temporal_window {
            config.temporal_window = temporal_window as usize;
        }
        if let Some(transparency_optimization) = options.transparency_optimization {
            config.transparency_optimization = transparency_optimization;
        }
        if let Some(verbose) = options.verbose {
            config.verbose = verbose;
        }
    }
    match config.validate() {
        Ok(()) => Ok(config),
        Err(e) => Err(OptionsError::Config(e)),
    }
}

/// Lower-casing twice is lower-casing once.
pub proof fn lemma_ascii_lower_idempotent(s: Seq<char>)
    ensures
        spec_ascii_lower(spec_ascii_lower(s)) == spec_ascii_lower(s),
{
    assert(spec_ascii_lower(spec_ascii_lower(s)) =~= spec_ascii_lower(s));
}

/// Dither names are read without regard to ASCII case: a name and its
/// lower-case form stand for the same method.
pub proof fn lemma_parse_dither_ignores_case(name: Seq<char>)
    ensures
        spec_parse_dither(spec_ascii_lower(name)) == spec_parse_dither(name),
{
    lemma_ascii_lower_idempotent(name);
}

/// Each given option is taken over unchanged and each missing one keeps its
/// default, whatever the other options are: a width or height is bounded
/// only when the caller gives it.
pub proof fn lemma_options_taken_field_by_field(options: GifEncodeOptions, dither: DitherMethod)
    ensures
        ({
            let c = spec_apply_options(options, dither);
            &&& c.width == options.width
            &&& c.height == options.height
            &&& c.fps == (if options.fps is Some {
                options.fps->0
            } else {
                10u32
            })
            &&& c.quality == (if options.quality is Some {
                options.quality->0
            } else {
                90u8
            })
            &&& c.temporal_window as int == (if options.temporal_window is Some {
                options.temporal_window->0 as int
            } else {
                3
            })
            &&& c.transparency_optimization == (options.transparency_optimization is None
                || options.transparency_optimization == Some(true))
            &&& c.verbose == (options.verbose == Some(true))
            &&& c.dither == dither
        }),
{
}

} // verus!
