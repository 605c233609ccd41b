use scrtsync::config::{Args, Config, PresetConfig};
use scrtsync::errors::ConfigError;

fn config_with(name: &str, from: &str, to: &str) -> Config {
    Config {
        presets: vec![
            (name.to_string(), PresetConfig { from: from.to_string(), to: to.to_string() }),
        ],
    }
}

fn args(from: Option<&str>, to: Option<&str>, preset: Option<&str>) -> Args {
    Args {
        config: ".scrtsync.json".to_string(),
        from: from.map(|s| s.to_string()),
        to: to.map(|s| s.to_string()),
        preset: preset.map(|s| s.to_string()),
    }
}

#[test]
fn args_without_anything_are_rejected() {
    let cfg = Config { presets: vec![] };
    let r = args(None, None, None).validate(&cfg);
    assert_eq!(r.err(), Some(ConfigError::MissingArguments));
    assert_eq!(
        ConfigError::MissingArguments.message(),
        "Must provide either a preset or both --from and --to arguments"
    );
}

#[test]
fn args_with_unknown_preset_are_rejected() {
    let cfg = config_with("deploy", "std://", "std://");
    let r = args(None, None, Some("missing")).validate(&cfg);
    match r {
        Err(ConfigError::PresetNotFound(n)) => {
            assert_eq!(n, "missing");
            assert_eq!(
                ConfigError::PresetNotFound(n).message(),
                "Preset 'missing' not found in config file"
            );
        },
        _ => panic!("expected a preset-not-found error"),
    }
}

#[test]
fn args_with_known_preset_pass() {
    let cfg = config_with("deploy", "std://", "std://");
    assert!(args(None, None, Some("deploy")).validate(&cfg).is_ok());
}

#[test]
fn init_preset_needs_no_entry() {
    let cfg = Config { presets: vec![] };
    assert!(args(None, None, Some("init")).validate(&cfg).is_ok());
}

#[test]
fn one_endpoint_without_preset_passes() {
    let cfg = Config { presets: vec![] };
    assert!(args(Some("std://"), None, None).validate(&cfg).is_ok());
}

#[test]
fn config_with_valid_uris_passes() {
    let cfg = config_with("deploy", "file://a/b", "k8s://ctx/name");
    assert!(cfg.validate().is_ok());
}

#[test]
fn config_with_bad_from_uri_is_rejected() {
    let cfg = config_with("deploy", "not a uri", "std://");
    match cfg.validate() {
        Err(ConfigError::InvalidPresetFrom(n)) => {
            assert_eq!(n, "deploy");
            assert_eq!(
                ConfigError::InvalidPresetFrom(n).message(),
                "Invalid 'from' URL in preset 'deploy'"
            );
        },
        _ => panic!("expected an invalid-from error"),
    }
}

#[test]
fn config_with_bad_to_uri_is_rejected() {
    let cfg = config_with("deploy", "std://", "also not a uri");
    match cfg.validate() {
        Err(ConfigError::InvalidPresetTo(n)) => assert_eq!(n, "deploy"),
        _ => panic!("expected an invalid-to error"),
    }
}

#[test]
fn get_preset_finds_by_name() {
    let cfg = config_with("deploy", "file://a/b", "std://");
    let pc = cfg.get_preset("deploy").expect("preset should exist");
    assert_eq!(pc.from, "file://a/b");
    assert_eq!(pc.to, "std://");
    assert!(cfg.get_preset("other").is_none());
}
