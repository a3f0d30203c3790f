use gifmonster::options::{parse_dither, to_encode_config, GifEncodeOptions, OptionsError};
use gifmonster::{ConfigError, DitherMethod, EncodeConfig};

fn no_options() -> GifEncodeOptions {
    GifEncodeOptions {
        fps: None,
        width: None,
        height: None,
        quality: None,
        dither: None,
        temporal_window: None,
        transparency_optimization: None,
        verbose: None,
    }
}

fn same_config(a: &EncodeConfig, b: &EncodeConfig) -> bool {
    a.fps == b.fps
        && a.width == b.width
        && a.height == b.height
        && a.quality == b.quality
        && a.dither == b.dither
        && a.temporal_window == b.temporal_window
        && a.transparency_optimization == b.transparency_optimization
        && a.verbose == b.verbose
}

#[test]
fn dither_names_are_read_without_regard_to_case() {
    assert_eq!(parse_dither("floyd-steinberg"), Ok(DitherMethod::FloydSteinberg));
    assert_eq!(parse_dither("Floyd_Steinberg"), Ok(DitherMethod::FloydSteinberg));
    assert_eq!(parse_dither("FLOYDSTEINBERG"), Ok(DitherMethod::FloydSteinberg));
    assert_eq!(parse_dither("Bayer"), Ok(DitherMethod::Bayer));
    assert_eq!(parse_dither("NONE"), Ok(DitherMethod::NoDither));
    assert_eq!(parse_dither("none"), Ok(DitherMethod::NoDither));
}

#[test]
fn unknown_dither_name_is_refused_in_lower_case() {
    assert_eq!(
        parse_dither("Sierra"),
        Err(OptionsError::InvalidDither("sierra".to_owned()))
    );
    assert_eq!(
        parse_dither(" bayer"),
        Err(OptionsError::InvalidDither(" bayer".to_owned()))
    );
    assert_eq!(parse_dither(""), Err(OptionsError::InvalidDither(String::new())));
    assert_eq!(
        parse_dither("\u{c4}Bayer"),
        Err(OptionsError::InvalidDither("\u{c4}bayer".to_owned()))
    );
}

#[test]
fn missing_options_give_the_default_config() {
    let config = to_encode_config(None).expect("defaults are valid");
    assert!(same_config(&config, &EncodeConfig::default()));

    let config = to_encode_config(Some(no_options())).expect("defaults are valid");
    assert!(same_config(&config, &EncodeConfig::default()));
}

#[test]
fn given_options_replace_defaults() {
    let options = GifEncodeOptions {
        fps: Some(24),
        width: Some(640),
        height: Some(360),
        quality: Some(70),
        dither: Some("Bayer".to_owned()),
        temporal_window: Some(5),
        transparency_optimization: Some(false),
        verbose: Some(true),
    };
    let config = to_encode_config(Some(options)).expect("valid options");
    let expected = EncodeConfig {
        fps: 24,
        width: Some(640),
        height: Some(360),
        quality: 70,
        dither: DitherMethod::Bayer,
        temporal_window: 5,
        transparency_optimization: false,
        verbose: true,
    };
    assert!(same_config(&config, &expected));

    let only_quality = GifEncodeOptions { quality: Some(40), ..no_options() };
    let config = to_encode_config(Some(only_quality)).expect("valid options");
    assert!(same_config(&config, &EncodeConfig { quality: 40, ..EncodeConfig::default() }));
}

#[test]
fn invalid_options_are_refused() {
    let bad_dither = GifEncodeOptions { dither: Some("Atkinson".to_owned()), ..no_options() };
    assert_eq!(
        to_encode_config(Some(bad_dither)).err(),
        Some(OptionsError::InvalidDither("atkinson".to_owned()))
    );

    let zero_fps = GifEncodeOptions { fps: Some(0), ..no_options() };
    assert_eq!(
        to_encode_config(Some(zero_fps)).err(),
        Some(OptionsError::Config(ConfigError::ZeroFps))
    );

    let bad_quality = GifEncodeOptions { quality: Some(150), ..no_options() };
    assert_eq!(
        to_encode_config(Some(bad_quality)).err(),
        Some(OptionsError::Config(ConfigError::QualityOutOfRange))
    );

    let zero_window = GifEncodeOptions { temporal_window: Some(0), ..no_options() };
    assert_eq!(
        to_encode_config(Some(zero_window)).err(),
        Some(OptionsError::Config(ConfigError::ZeroTemporalWindow))
    );

    let zero_width = GifEncodeOptions { width: Some(0), ..no_options() };
    assert_eq!(
        to_encode_config(Some(zero_width)).err(),
        Some(OptionsError::Config(ConfigError::ZeroWidth))
    );

    let zero_height = GifEncodeOptions { height: Some(0), ..no_options() };
    assert_eq!(
        to_encode_config(Some(zero_height)).err(),
        Some(OptionsError::Config(ConfigError::ZeroHeight))
    );
}

#[test]
fn dither_name_is_checked_before_the_config_rules() {
    let both_bad = GifEncodeOptions {
        fps: Some(0),
        dither: Some("Unknown".to_owned()),
        ..no_options()
    };
    assert_eq!(
        to_encode_config(Some(both_bad)).err(),
        Some(OptionsError::InvalidDither("unknown".to_owned()))
    );
}
