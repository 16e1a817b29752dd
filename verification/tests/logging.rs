use game_support::logging::{log_level, parse_log_level, LogLevel};

#[test]
fn every_level_name_parses() {
    assert_eq!(parse_log_level("trace"), Some(LogLevel::Trace));
    assert_eq!(parse_log_level("debug"), Some(LogLevel::Debug));
    assert_eq!(parse_log_level("info"), Some(LogLevel::Info));
    assert_eq!(parse_log_level("warn"), Some(LogLevel::Warn));
    assert_eq!(parse_log_level("error"), Some(LogLevel::Error));
    assert_eq!(parse_log_level("off"), Some(LogLevel::Off));
}

#[test]
fn other_names_parse_to_nothing() {
    assert_eq!(parse_log_level("INFO"), None);
    assert_eq!(parse_log_level("warning"), None);
    assert_eq!(parse_log_level(""), None);
    assert_eq!(parse_log_level(" off"), None);
}

#[test]
fn command_line_wins() {
    assert_eq!(log_level(Some("warn"), Some("trace"), true), Some(LogLevel::Warn));
    assert_eq!(log_level(Some("loud"), Some("trace"), true), None);
}

#[test]
fn built_in_name_next() {
    assert_eq!(log_level(None, Some("error"), true), Some(LogLevel::Error));
    assert_eq!(log_level(None, Some("nope"), false), None);
}

#[test]
fn default_depends_on_build() {
    assert_eq!(log_level(None, None, true), Some(LogLevel::Debug));
    assert_eq!(log_level(None, None, false), Some(LogLevel::Info));
}
