use gifmonster::{ConfigError, DitherMethod, EncodeConfig};

fn config_with_fps(fps: u32) -> EncodeConfig {
    EncodeConfig {
        fps,
        ..EncodeConfig::default()
    }
}

#[test]
fn default_config_has_documented_values() {
    let config = EncodeConfig::default();
    assert_eq!(config.fps, 10);
    assert_eq!(config.width, None);
    assert_eq!(config.height, None);
    assert_eq!(config.quality, 90);
    assert_eq!(config.dither, DitherMethod::FloydSteinberg);
    assert_eq!(config.temporal_window, 3);
    assert!(config.transparency_optimization);
    assert!(!config.verbose);
    assert_eq!(config.validate(), Ok(()));
    assert_eq!(DitherMethod::default(), DitherMethod::FloydSteinberg);
}

#[test]
fn validate_reports_each_broken_rule() {
    let base = EncodeConfig::default();

    let zero_fps = EncodeConfig { fps: 0, ..base.clone() };
    assert_eq!(zero_fps.validate(), Err(ConfigError::ZeroFps));

    let zero_quality = EncodeConfig { quality: 0, ..base.clone() };
    assert_eq!(zero_quality.validate(), Err(ConfigError::QualityOutOfRange));

    let high_quality = EncodeConfig { quality: 101, ..base.clone() };
    assert_eq!(high_quality.validate(), Err(ConfigError::QualityOutOfRange));

    let full_quality = EncodeConfig { quality: 100, ..base.clone() };
    assert_eq!(full_quality.validate(), Ok(()));

    let zero_window = EncodeConfig { temporal_window: 0, ..base.clone() };
    assert_eq!(zero_window.validate(), Err(ConfigError::ZeroTemporalWindow));

    let zero_width = EncodeConfig { width: Some(0), ..base.clone() };
    assert_eq!(zero_width.validate(), Err(ConfigError::ZeroWidth));

    let zero_height = EncodeConfig { height: Some(0), ..base.clone() };
    assert_eq!(zero_height.validate(), Err(ConfigError::ZeroHeight));

    let sized = EncodeConfig { width: Some(320), height: Some(200), ..base.clone() };
    assert_eq!(sized.validate(), Ok(()));
}

#[test]
fn validate_checks_rules_in_order() {
    let config = EncodeConfig {
        fps: 0,
        quality: 0,
        temporal_window: 0,
        width: Some(0),
        height: Some(0),
        ..EncodeConfig::default()
    };
    assert_eq!(config.validate(), Err(ConfigError::ZeroFps));

    let config = EncodeConfig { fps: 5, ..config };
    assert_eq!(config.validate(), Err(ConfigError::QualityOutOfRange));

    let config = EncodeConfig { quality: 50, ..config };
    assert_eq!(config.validate(), Err(ConfigError::ZeroTemporalWindow));

    let config = EncodeConfig { temporal_window: 1, ..config };
    assert_eq!(config.validate(), Err(ConfigError::ZeroWidth));

    let config = EncodeConfig { width: Some(1), ..config };
    assert_eq!(config.validate(), Err(ConfigError::ZeroHeight));
}

#[test]
fn frame_delay_rounds_to_nearest_centisecond() {
    assert_eq!(config_with_fps(1).frame_delay_cs(), 100);
    assert_eq!(config_with_fps(3).frame_delay_cs(), 33);
    assert_eq!(config_with_fps(6).frame_delay_cs(), 17);
    assert_eq!(config_with_fps(7).frame_delay_cs(), 14);
    assert_eq!(config_with_fps(8).frame_delay_cs(), 13);
    assert_eq!(config_with_fps(10).frame_delay_cs(), 10);
    assert_eq!(config_with_fps(25).frame_delay_cs(), 4);
    assert_eq!(config_with_fps(40).frame_delay_cs(), 3);
    assert_eq!(config_with_fps(200).frame_delay_cs(), 1);
}

#[test]
fn frame_delay_is_at_least_one_and_saturates_at_zero_fps() {
    assert_eq!(config_with_fps(201).frame_delay_cs(), 1);
    assert_eq!(config_with_fps(1000).frame_delay_cs(), 1);
    assert_eq!(config_with_fps(u32::MAX).frame_delay_cs(), 1);
    assert_eq!(config_with_fps(0).frame_delay_cs(), u16::MAX);
}

#[test]
fn frame_delay_matches_float_rounding() {
    for fps in 1u32..=400 {
        let expected = ((100.0 / fps as f32).round() as u16).max(1);
        assert_eq!(config_with_fps(fps).frame_delay_cs(), expected, "fps {}", fps);
    }
}

#[test]
fn higher_frame_rate_never_lengthens_the_delay() {
    let mut previous = config_with_fps(1).frame_delay_cs();
    for fps in 2u32..=300 {
        let delay = config_with_fps(fps).frame_delay_cs();
        assert!(delay <= previous, "fps {}", fps);
        assert!((1..=100).contains(&delay));
        previous = delay;
    }
}
