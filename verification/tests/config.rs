use regexrel::config::{Config, ConfigError};

#[test]
fn defaults_are_valid() {
    Config::validate(Config::default()).unwrap();
}

#[test]
fn validates_each_nonzero_resource_limit() {
    let config = Config {
        max_product_states: 0,
        ..Config::default()
    };
    assert!(matches!(
        Config::validate(config),
        Err(ConfigError::InvalidStateLimit)
    ));

    let config = Config {
        timeout_ms: 0,
        ..Config::default()
    };
    assert!(matches!(
        Config::validate(config),
        Err(ConfigError::InvalidTimeout)
    ));

    let config = Config {
        max_repeat: 0,
        ..Config::default()
    };
    assert!(matches!(
        Config::validate(config),
        Err(ConfigError::InvalidRepeatLimit)
    ));
}

#[test]
fn validates_ci_exit_code_range() {
    for invalid in [0, 256, -1] {
        let config = Config {
            ci_exit_code: invalid,
            ..Config::default()
        };
        assert!(matches!(
            Config::validate(config),
            Err(ConfigError::InvalidExitCode)
        ));
    }
}
