use cadence::config::{parse_config, parse_marker_prefix, ConfigError};
use cadence::{load_config, load_marker_prefix, DEFAULT_MARKER_PREFIX};

#[test]
fn test_load_config_defaults_when_missing() {
    let config = load_config(None).unwrap();

    assert_eq!(config.marker_prefix, DEFAULT_MARKER_PREFIX);
}

#[test]
fn test_load_config_reads_quoted_marker_prefix() {
    let config = load_config(Some("marker_prefix: \"@@\"\n")).unwrap();

    assert_eq!(config.marker_prefix, "@@");
}

#[test]
fn test_load_config_reads_unquoted_marker_prefix() {
    let config = load_config(Some("marker_prefix: @@ # comment\n")).unwrap();

    assert_eq!(config.marker_prefix, "@@");
}

#[test]
fn test_load_config_rejects_empty_marker_prefix() {
    let err = load_config(Some("marker_prefix: \"\"\n")).unwrap_err();

    assert!(err.message().contains("marker_prefix cannot be empty"));
}

#[test]
fn marker_prefix_errors_name_the_missing_quote() {
    assert_eq!(parse_marker_prefix("\"@@"), Err(ConfigError::MissingClosingDoubleQuote));
    assert_eq!(parse_marker_prefix("'@@"), Err(ConfigError::MissingClosingSingleQuote));
    assert_eq!(parse_marker_prefix("# only"), Err(ConfigError::EmptyMarkerPrefix));
    assert_eq!(parse_marker_prefix("'%%' rest").unwrap(), "%%");
    assert_eq!(
        ConfigError::MissingClosingDoubleQuote.message(),
        "Invalid marker_prefix: missing closing double quote"
    );
}

#[test]
fn config_keeps_the_last_prefix_and_stops_at_an_error() {
    let config = parse_config("# c\nmarker_prefix: a\n  marker_prefix: 'b'\nother: 1\n").unwrap();
    assert_eq!(config.marker_prefix, "b");
    assert_eq!(
        parse_config("marker_prefix: \"x\nmarker_prefix: y\n"),
        Err(ConfigError::MissingClosingDoubleQuote)
    );
    assert_eq!(load_marker_prefix(None).unwrap(), "$$");
    assert_eq!(load_marker_prefix(Some("")).unwrap(), "$$");
}

#[test]
fn config_written_at_init_reads_back_the_default_prefix() {
    let text = format!("# Cadence configuration\nmarker_prefix: \"{}\"\n", DEFAULT_MARKER_PREFIX);
    assert_eq!(load_marker_prefix(Some(&text)).unwrap(), DEFAULT_MARKER_PREFIX);
}
