//! Settings and their validation.

use dupdelta::config::{
    BlocksConfig, Config, ConfigError, FunctionConfig, ReportConfig, Threshold, VocabConfig, CONFIG_FILE_NAME,
};
use dupdelta::ratio::Ratio;
use dupdelta::vocab::Noise;

/// What parsing a text gave, validated.
fn accepted(config: Config) -> Result<Config, ConfigError> {
    Config::accept(Ok(config), None)
}

fn with_similarity(text: &str) -> Result<Config, ConfigError> {
    let mut config = Config::default();
    config.function.min_similarity = Threshold::of(text);
    accepted(config)
}

fn with_overlap(text: &str) -> Result<Config, ConfigError> {
    let mut config = Config::default();
    config.vocab.min_overlap = Threshold::of(text);
    accepted(config)
}

fn with_worsened(text: &str) -> Result<Config, ConfigError> {
    let mut config = Config::default();
    config.vocab.worsened_delta = Threshold::of(text);
    accepted(config)
}

// ------------------------------------------------------------------ defaults

#[test]
fn defaults_match_the_documented_values() {
    let config = Config::default();
    assert_eq!(config.excludes, Vec::<String>::new());
    assert_eq!(config.function.min_similarity, Threshold::of("0.85"));
    assert_eq!(config.function.min_nodes, 30);
    assert_eq!(config.vocab.min_overlap, Threshold::of("0.3"));
    assert_eq!(config.vocab.min_vocabulary, 15);
    assert_eq!(config.vocab.worsened_delta, Threshold::of("0.05"));
    assert_eq!(config.vocab.noise, Vec::<Noise>::new());
    assert_eq!(config.report.max_findings, None);
    assert_eq!(config.blocks.min_tokens, 100);
}

#[test]
fn the_default_config_is_valid_and_is_handed_back_unchanged() {
    assert_eq!(accepted(Config::default()).unwrap(), Config::default());
}

// -------------------------------------------------------------- max_findings

#[test]
fn max_findings_absent_means_no_cap() {
    assert_eq!(accepted(Config::default()).unwrap().report.max_findings, None);
}

#[test]
fn max_findings_zero_means_report_nothing() {
    let config = Config { report: ReportConfig { max_findings: Some(0) }, ..Config::default() };
    assert_eq!(accepted(config).unwrap().report.max_findings, Some(0));
}

// ------------------------------------------------------------------ validate

#[test]
fn min_similarity_boundaries() {
    let below = with_similarity("-0.1");
    let low_edge = with_similarity("0");
    let high_edge = with_similarity("1");
    let above = with_similarity("1.1");
    assert_eq!([below.is_err(), low_edge.is_ok(), high_edge.is_ok(), above.is_err()], [true, true, true, true]);
}

#[test]
fn min_overlap_boundaries() {
    let below = with_overlap("-0.1");
    let low_edge = with_overlap("0");
    let high_edge = with_overlap("1");
    let above = with_overlap("1.1");
    assert_eq!([below.is_err(), low_edge.is_ok(), high_edge.is_ok(), above.is_err()], [true, true, true, true]);
}

#[test]
fn worsened_delta_boundaries() {
    let below = with_worsened("-0.1");
    let low_edge = with_worsened("0");
    let high_edge = with_worsened("1");
    let above = with_worsened("1.1");
    assert_eq!([below.is_err(), low_edge.is_ok(), high_edge.is_ok(), above.is_err()], [true, true, true, true]);
}

#[test]
fn min_nodes_must_be_at_least_one() {
    let with = |min_nodes| {
        accepted(Config { function: FunctionConfig { min_nodes, ..FunctionConfig::default() }, ..Config::default() })
    };
    assert_eq!([with(0).is_err(), with(1).is_ok()], [true, true]);
    assert_eq!(with(0).unwrap_err().to_string(), "function.min_nodes must be at least 1, got 0");
}

#[test]
fn min_vocabulary_must_be_at_least_one() {
    let with = |min_vocabulary| {
        accepted(Config { vocab: VocabConfig { min_vocabulary, ..VocabConfig::default() }, ..Config::default() })
    };
    assert_eq!([with(0).is_err(), with(1).is_ok()], [true, true]);
    assert_eq!(with(0).unwrap_err().to_string(), "vocab.min_vocabulary must be at least 1, got 0");
}

#[test]
fn min_tokens_must_be_at_least_one() {
    let with = |min_tokens| accepted(Config { blocks: BlocksConfig { min_tokens }, ..Config::default() });
    assert_eq!([with(0).is_err(), with(1).is_ok()], [true, true]);
    assert_eq!(with(0).unwrap_err().to_string(), "blocks.min_tokens must be at least 1, got 0");
}

#[test]
fn nan_threshold_is_rejected() {
    assert!(with_similarity("NaN").is_err());
    assert!(with_similarity("inf").is_err());
}

#[test]
fn invalid_error_names_the_key_and_the_value() {
    let message = with_similarity("1.5").unwrap_err().to_string();
    assert!(message.contains("function.min_similarity") && message.contains("1.5"));
    assert_eq!(message, "function.min_similarity must be between 0.0 and 1.0, got 1.5");
}

#[test]
fn the_first_setting_that_will_not_do_is_the_one_complained_of() {
    let mut config = Config::default();
    config.vocab.min_overlap = Threshold::of("2");
    config.function.min_nodes = 0;
    let message = accepted(config).unwrap_err().to_string();
    assert_eq!(message, "vocab.min_overlap must be between 0.0 and 1.0, got 2");
}

// ---------------------------------------------------------------- ConfigError

#[test]
fn config_error_is_debuggable() {
    let err = Config::accept(Err("unknown field `bogus`".to_string()), None).unwrap_err();
    assert!(format!("{err:?}").contains("Parse"));
}

#[test]
fn parse_error_display_includes_the_underlying_message() {
    let err = Config::accept(Err("expected `=`".to_string()), None).unwrap_err();
    let message = err.to_string();
    assert!(message.contains("parsing config"));
    assert_eq!(message, "parsing config: expected `=`");
}

#[test]
fn load_of_a_syntactically_malformed_file_names_the_path_in_the_message() {
    let path = format!("/repo/{CONFIG_FILE_NAME}");
    let err = Config::accept(Err("expected `=`".to_string()), Some(path.clone())).unwrap_err();
    assert!(matches!(&err, ConfigError::Parse { path: Some(p), .. } if p == &path));
    let message = err.to_string();
    assert!(message.starts_with("parsing ") && message.contains(CONFIG_FILE_NAME));
}

#[test]
fn invalid_error_display_is_the_bare_message() {
    let err = ConfigError::Invalid("custom message".to_string());
    assert_eq!(err.to_string(), "custom message");
}

#[test]
fn io_error_display_names_the_path() {
    let err = ConfigError::Io { path: "/repo/nowhere.toml".to_string(), source: "not found".to_string() };
    assert_eq!(err.to_string(), "reading /repo/nowhere.toml: not found");
}

// ------------------------------------------------------------------ discovery

#[test]
fn discover_finds_the_file_in_a_parent_directory() {
    let found = Config::discover("/dir/a/b/c", |p| p == "/dir/.dupdelta.toml").unwrap();
    assert_eq!(found, "/dir/.dupdelta.toml");
}

#[test]
fn discover_prefers_the_nearest_file() {
    let found = Config::discover("/dir/a", |p| p.starts_with("/dir")).unwrap();
    assert_eq!(found, "/dir/a/.dupdelta.toml");
}

#[test]
fn discover_returns_none_when_no_ancestor_has_one() {
    assert_eq!(Config::discover("/dir/x/y", |p| p == "/dir/x/y/z/.dupdelta.toml"), None);
}

#[test]
fn an_explicit_file_wins_over_any_that_could_be_found() {
    let asked = Some("custom.toml".to_string());
    assert_eq!(Config::locate(asked.clone(), "/dir", |_| true), asked);
    assert_eq!(Config::locate(asked.clone(), "/dir", |_| false), asked);
    assert_eq!(Config::locate(None, "/dir", |_| true), Some("/dir/.dupdelta.toml".to_string()));
    assert_eq!(Config::locate(None, "/dir", |_| false), None);
}

#[test]
fn config_files_are_looked_for_upwards_nearest_first() {
    assert_eq!(
        Config::candidates("/a/b"),
        vec!["/a/b/.dupdelta.toml".to_string(), "/a/.dupdelta.toml".to_string(), "/.dupdelta.toml".to_string()]
    );
    assert_eq!(
        Config::candidates("sub/"),
        vec!["sub/.dupdelta.toml".to_string(), ".dupdelta.toml".to_string()]
    );
    assert_eq!(Config::candidates("."), vec!["./.dupdelta.toml".to_string(), ".dupdelta.toml".to_string()]);
    assert_eq!(Config::candidates("/"), vec!["/.dupdelta.toml".to_string()]);
}

// ----------------------------------------------------------------- thresholds

#[test]
fn a_threshold_is_the_number_written() {
    assert_eq!(Threshold::of("0.85").ratio(), Ratio { num: 85, den: 100 });
    assert_eq!(Threshold::of("1").ratio(), Ratio { num: 1, den: 1 });
    assert_eq!(Threshold::of("-0").value.map(|r| r.num), Some(0));
    assert_eq!(Threshold::of("-0.5").value.map(|r| r.num), None);
    assert_eq!(Threshold::of("0.5").written, "0.5");
}
