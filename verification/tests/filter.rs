use name_similarity::config::{Config, ConfigError};
use name_similarity::filter::{NameFilter, PatternError, DEFAULT_PATTERN};
use name_similarity::tokens::DEFAULT_WIDTH;
use name_similarity::similarity::Threshold;

fn threshold() -> Threshold {
    Threshold::new(6, 10).unwrap()
}

fn refusal(made: Result<NameFilter, PatternError>) -> PatternError {
    match made {
        Ok(_) => panic!("the pattern compiled"),
        Err(error) => error,
    }
}

fn config_error(made: Result<Config, ConfigError>) -> ConfigError {
    match made {
        Ok(_) => panic!("the settings were accepted"),
        Err(error) => error,
    }
}

#[test]
fn the_default_pattern_matches_every_name() {
    let filter = NameFilter::new(".*").ok().unwrap();
    assert!(filter.is_match("report.txt"));
    assert!(filter.is_match(""));
    assert!(filter.is_match("---"));
    assert_eq!(filter.pattern(), ".*");
}

#[test]
fn a_pattern_selects_names() {
    let filter = NameFilter::new(r"\.txt$").ok().unwrap();
    assert!(filter.is_match("report.txt"));
    assert!(!filter.is_match("report.txt.bak"));
    assert!(!filter.is_match("invoice.pdf"));
    let filter = NameFilter::new("^report").ok().unwrap();
    assert!(filter.is_match("report_final.txt"));
    assert!(!filter.is_match("old_report.txt"));
}

#[test]
fn a_pattern_matches_anywhere_in_the_name() {
    let filter = NameFilter::new("epo").ok().unwrap();
    assert!(filter.is_match("report.txt"));
    assert!(!filter.is_match("REPORT.TXT"));
    // The pattern is a regular expression, not the text to find.
    let filter = NameFilter::new("a.c").ok().unwrap();
    assert!(filter.is_match("abc"));
    assert!(!filter.is_match("a.b"));
}

#[test]
fn a_malformed_pattern_is_refused() {
    let error = refusal(NameFilter::new("foo(bar"));
    assert!(!error.message.is_empty());
    assert!(NameFilter::new("[a-").is_err());
    assert!(NameFilter::new("*").is_err());
}

#[test]
fn a_compile_error_becomes_a_pattern_error() {
    let outside = regex::Regex::new("(").unwrap_err();
    let text = outside.to_string();
    let error = refusal(NameFilter::from_compiled(Err(outside)));
    assert_eq!(error.message, text);
}

#[test]
fn a_compiled_filter_is_handed_on() {
    let filter = NameFilter::new("^a").ok().unwrap();
    let same = NameFilter::from_compiled(Ok(filter)).ok().unwrap();
    assert_eq!(same.pattern(), "^a");
    assert!(same.is_match("abc"));
    assert!(!same.is_match("cba"));
}

#[test]
fn a_width_of_five_is_a_configuration_error() {
    match config_error(Config::new(5, ".*", threshold(), false)) {
        ConfigError::InvalidWidth { width } => assert_eq!(width, 5),
        ConfigError::InvalidPattern { .. } => panic!("the pattern was blamed"),
    }
}

#[test]
fn a_width_of_zero_is_a_configuration_error() {
    match config_error(Config::new(0, ".*", threshold(), false)) {
        ConfigError::InvalidWidth { width } => assert_eq!(width, 0),
        ConfigError::InvalidPattern { .. } => panic!("the pattern was blamed"),
    }
}

#[test]
fn the_width_is_checked_before_the_pattern() {
    let error = config_error(Config::new(9, "(", threshold(), false));
    assert!(matches!(error, ConfigError::InvalidWidth { width: 9 }));
    assert_eq!(error.message(), "the n-gram width must be 1, 2, 3 or 4");
}

#[test]
fn a_malformed_pattern_is_a_configuration_error() {
    let error = config_error(Config::new(2, "foo(bar", threshold(), false));
    let expected = regex::Regex::new("foo(bar").unwrap_err().to_string();
    match &error {
        ConfigError::InvalidPattern { message } => assert_eq!(message, &expected),
        ConfigError::InvalidWidth { .. } => panic!("the width was blamed"),
    }
    assert_eq!(error.message(), expected);
}

#[test]
fn valid_settings_are_kept() {
    for width in 1..=4 {
        let config = Config::new(width, r"\.txt$", threshold(), true).ok().unwrap();
        assert_eq!(config.width(), width);
        assert_eq!(config.filter().pattern(), r"\.txt$");
        assert_eq!(config.threshold().num(), 6);
        assert_eq!(config.threshold().den(), 10);
        assert!(config.reverse());
    }
    let config = Config::new(2, ".*", threshold(), false).ok().unwrap();
    assert!(!config.reverse());
}

#[test]
fn settings_are_assembled_from_a_compiled_filter() {
    let filter = NameFilter::new("^x");
    let config = Config::assemble(3, filter, threshold(), false).ok().unwrap();
    assert_eq!(config.width(), 3);
    assert_eq!(config.filter().pattern(), "^x");
    let refused = Err(PatternError { message: "no".to_string() });
    let error = config_error(Config::assemble(3, refused, threshold(), false));
    assert_eq!(error.message(), "no");
    let refused = Err(PatternError { message: "no".to_string() });
    let error = config_error(Config::assemble(7, refused, threshold(), false));
    assert!(matches!(error, ConfigError::InvalidWidth { width: 7 }));
}

#[test]
fn the_defaults_are_valid_settings() {
    assert_eq!(DEFAULT_WIDTH, 2);
    assert_eq!(DEFAULT_PATTERN, ".*");
    let cutoff = Threshold::default_cutoff();
    assert_eq!((cutoff.num(), cutoff.den()), (6, 10));
    let config = Config::new(DEFAULT_WIDTH, DEFAULT_PATTERN, cutoff, false).ok().unwrap();
    assert_eq!(config.width(), 2);
    assert!(config.filter().is_match("anything at all"));
}

#[test]
fn a_pattern_that_compiles_too_big_is_refused() {
    let error = refusal(NameFilter::new(r"\w{1000}"));
    assert!(!error.message.is_empty());
    assert!(NameFilter::new(r"(?-u:\w){1000}").is_ok());
    let error = config_error(Config::new(2, r"\w{1000}", threshold(), false));
    assert!(matches!(error, ConfigError::InvalidPattern { .. }));
}

#[test]
fn compiling_a_pattern_twice_gives_the_same_outcome() {
    for pattern in [".*", "foo(bar", r"\.txt$", "[a-", r"\w{1000}", ""] {
        let first = NameFilter::new(pattern).is_ok();
        let second = NameFilter::new(pattern).is_ok();
        assert_eq!(first, second);
        assert_eq!(first, regex::Regex::new(pattern).is_ok());
    }
}
