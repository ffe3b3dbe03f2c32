//! The settings of one run, checked before any file is looked at.

use crate::filter::{pattern_compiles, NameFilter, PatternError};
use crate::similarity::{Ratio, Threshold};
use crate::tokens::{is_valid_width, valid_width};
use vstd::prelude::*;
use vstd::string::StringExecFns;

verus! {

/// Why a run cannot start.
pub enum ConfigError {
    /// The n-gram width is not one of 1, 2, 3, 4.
    InvalidWidth { width: usize },
    /// The file-name pattern does not compile.
    InvalidPattern { message: String },
}

impl ConfigError {
    /// A sentence that says what is wrong. For a pattern it is the regex
    /// compiler's own explanation.
    pub fn message(&self) -> (text: String)
        ensures
            self matches ConfigError::InvalidPattern { message } ==> text@ == message@,
            self is InvalidWidth ==> text@ == "the n-gram width must be 1, 2, 3 or 4"@,
    {
        match self {
            ConfigError::InvalidWidth { .. } => String::from_str(
                "the n-gram width must be 1, 2, 3 or 4",
            ),
            ConfigError::InvalidPattern { message } => message.clone(),
        }
    }
}

/// The settings of a run: the n-gram width, the file-name filter, the
/// similarity threshold, and whether the output order is reversed.
pub struct Config {
    width: usize,
    filter: NameFilter,
    threshold: Threshold,
    reverse: bool,
}

/// The settings of a run, as contracts see them.
pub struct ConfigView {
    pub width: int,
    pub pattern: Seq<char>,
    pub threshold: Ratio,
    pub reverse: bool,
}

impl View for Config {
    type V = ConfigView;

    closed spec fn view(&self) -> ConfigView {
        ConfigView {
            width: self.width as int,
            pattern: self.filter@,
            threshold: self.threshold@,
            reverse: self.reverse,
        }
    }
}

impl Config {
    #[verifier::type_invariant]
    spec fn width_in_range(&self) -> bool {
        valid_width(self.width as int)
    }

    /// Checks the settings of a run. A width outside 1 to 4 is refused
    /// without looking at the pattern; then the pattern is compiled, and
    /// refused if it does not compile. Settings that pass both checks are
    /// returned as they were given.
    pub fn new(width: usize, pattern: &str, threshold: Threshold, reverse: bool) -> (made: Result<
        Config,
        ConfigError,
    >)
        ensures
            !valid_width(width as int) ==> made == Err::<Config, ConfigError>(
                ConfigError::InvalidWidth { width },
            ),
            made is Ok <==> valid_width(width as int) && pattern_compiles(pattern@),
            valid_width(width as int) ==> match made {
                Ok(config) => config@ == (ConfigView {
                    width: width as int,
                    pattern: pattern@,
                    threshold: threshold@,
                    reverse,
                }),
                Err(error) => error is InvalidPattern,
            },
    {
        if !is_valid_width(width) {
            return Err(ConfigError::InvalidWidth { width });
        }
        Config::assemble(width, NameFilter::new(pattern), threshold, reverse)
    }

    /// Puts the settings together once the pattern has been through the
    /// compiler: refuses a width outside 1 to 4, else hands on the
    /// compiler's refusal, else returns the settings.
    pub fn assemble(
        width: usize,
        filter: Result<NameFilter, PatternError>,
        threshold: Threshold,
        reverse: bool,
    ) -> (made: Result<Config, ConfigError>)
        ensures
            !valid_width(width as int) ==> made == Err::<Config, ConfigError>(
                ConfigError::InvalidWidth { width },
            ),
            valid_width(width as int) ==> match filter {
                Ok(compiled) => made matches Ok(config) && config@ == (ConfigView {
                    width: width as int,
                    pattern: compiled@,
                    threshold: threshold@,
                    reverse,
                }),
                Err(refusal) => made == Err::<Config, ConfigError>(
                    ConfigError::InvalidPattern { message: refusal.message },
                ),
            },
    {
        if !is_valid_width(width) {
            return Err(ConfigError::InvalidWidth { width });
        }
        match filter {
            Ok(filter) => Ok(Config { width, filter, threshold, reverse }),
            Err(refusal) => Err(ConfigError::InvalidPattern { message: refusal.message }),
        }
    }

    /// The n-gram width, between 1 and 4.
    pub fn width(&self) -> (width: usize)
        ensures
            width == self@.width,
            valid_width(width as int),
    {
        proof {
            use_type_invariant(self);
        }
        self.width
    }

    /// The file-name filter.
    pub fn filter(&self) -> (filter: &NameFilter)
        ensures
            filter@ == self@.pattern,
    {
        &self.filter
    }

    /// The similarity threshold.
    pub fn threshold(&self) -> (threshold: &Threshold)
        ensures
            threshold@ == self@.threshold,
    {
        &self.threshold
    }

    /// Whether the output order is reversed.
    pub fn reverse(&self) -> (reverse: bool)
        ensures
            reverse == self@.reverse,
    {
        self.reverse
    }
}

} // verus!
