use ruckup::config::{load, Config, EnvLayer, RcFile};

fn silent() -> EnvLayer {
    EnvLayer {
        preserve_range: None,
        cargo_concurrency: None,
        npm_concurrency: None,
        pypi_concurrency: None,
    }
}

#[test]
fn default_preserves_range() {
    let config = Config::default();
    assert!(config.preserve_range);
}

#[test]
fn partial_rc_file_leaves_defaults() {
    let rc = RcFile::default();
    let mut config = Config::default();
    rc.apply_to(&mut config);
    assert!(config.preserve_range); // stays default
}

#[test]
fn defaults_are_the_documented_ones() {
    let config = load(&None, &None, &silent());
    assert!(config.preserve_range);
    assert_eq!(config.cargo_concurrency, 5);
    assert_eq!(config.npm_concurrency, 16);
    assert_eq!(config.pypi_concurrency, 10);
}

#[test]
fn later_layers_win() {
    let global = RcFile {
        preserve_range: Some(false),
        cargo_concurrency: Some(2),
        npm_concurrency: Some(3),
        pypi_concurrency: None,
    };
    let local = RcFile {
        preserve_range: None,
        cargo_concurrency: Some(0),
        npm_concurrency: Some(4),
        pypi_concurrency: None,
    };
    let env = EnvLayer {
        preserve_range: Some("YES".to_string()),
        cargo_concurrency: None,
        npm_concurrency: Some("7".to_string()),
        pypi_concurrency: Some("0".to_string()),
    };
    let config = load(&Some(global), &Some(local), &env);
    assert!(config.preserve_range);
    assert_eq!(config.cargo_concurrency, 1);
    assert_eq!(config.npm_concurrency, 7);
    assert_eq!(config.pypi_concurrency, 10);
    assert_eq!(
        env.warnings(),
        vec!["  warning: invalid positive integer for RUCKUP_PYPI_CONCURRENCY=0, ignoring".to_string()]
    );
}

#[test]
fn environment_values_are_read() {
    assert_eq!(EnvLayer::read_bool("True"), Some(true));
    assert_eq!(EnvLayer::read_bool("1"), Some(true));
    assert_eq!(EnvLayer::read_bool("no"), Some(false));
    assert_eq!(EnvLayer::read_bool("0"), Some(false));
    assert_eq!(EnvLayer::read_bool("maybe"), None);
    assert_eq!(EnvLayer::read_usize("12"), Some(12));
    assert_eq!(EnvLayer::read_usize("+3"), Some(3));
    assert_eq!(EnvLayer::read_usize("0"), None);
    assert_eq!(EnvLayer::read_usize("-1"), None);
    assert_eq!(EnvLayer::read_usize("99999999999999999999999"), None);
}
