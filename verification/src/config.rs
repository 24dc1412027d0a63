use crate::charset::Interval;
use vstd::prelude::*;
use vstd::string::*;

verus! {

/// The alphabet over which dot, negated classes and complements range.
#[derive(Clone, Copy, Debug, Eq, PartialEq, Structural)]
pub enum Alphabet {
    Ascii,
    Unicode,
}

/// The scalar values of an alphabet.
pub open spec fn alphabet_has(alphabet: Alphabet, v: int) -> bool {
    match alphabet {
        Alphabet::Ascii => 0 <= v <= 0x7f,
        Alphabet::Unicode => (0 <= v <= 0xd7ff) || (0xe000 <= v <= 0x10ffff),
    }
}

impl Default for Alphabet {
    fn default() -> (r: Self)
        ensures
            r == Alphabet::Ascii,
    {
        Alphabet::Ascii
    }
}

impl Alphabet {
    /// The scalar values of the alphabet as sorted, disjoint intervals.
    pub fn scalar_intervals(self) -> (r: Vec<Interval>)
        ensures
            crate::charset::ivs_wf(r@),
            forall|v: int| crate::charset::in_ivs(r@, v) <==> alphabet_has(self, v),
    {
        let mut out = Vec::new();
        match self {
            Alphabet::Ascii => {
                out.push(Interval { start: 0, end: 0x7f });
                proof {
                    assert forall|v: int| crate::charset::in_ivs(out@, v) <==> alphabet_has(self, v) by {
                        if alphabet_has(self, v) {
                            assert(out@[0].has(v));
                        }
                    }
                }
            },
            Alphabet::Unicode => {
                out.push(Interval { start: 0, end: 0xd7ff });
                out.push(Interval { start: 0xe000, end: 0x10ffff });
                proof {
                    assert forall|v: int| crate::charset::in_ivs(out@, v) <==> alphabet_has(self, v) by {
                        if 0 <= v <= 0xd7ff {
                            assert(out@[0].has(v));
                        }
                        if 0xe000 <= v <= 0x10ffff {
                            assert(out@[1].has(v));
                        }
                    }
                }
            },
        }
        out
    }
}

/// Analysis settings.
#[derive(Clone, Copy, Debug)]
pub struct Config {
    pub alphabet: Alphabet,
    pub max_product_states: usize,
    pub timeout_ms: u64,
    pub max_repeat: usize,
    pub dot_matches_newline: bool,
    pub ci_exit_code: i32,
}

impl Default for Config {
    fn default() -> (r: Self)
        ensures
            r.alphabet == Alphabet::Ascii,
            r.max_product_states == 100_000,
            r.timeout_ms == 5_000,
            r.max_repeat == 1_000,
            !r.dot_matches_newline,
            r.ci_exit_code == 10,
    {
        Self {
            alphabet: Alphabet::Ascii,
            max_product_states: 100_000,
            timeout_ms: 5_000,
            max_repeat: 1_000,
            dot_matches_newline: false,
            ci_exit_code: 10,
        }
    }
}

/// Why a configuration was refused.
#[derive(Debug)]
pub enum ConfigError {
    /// The file could not be read.
    Read { path: String, message: String },
    /// The file is not a valid configuration document.
    Parse { path: String, message: String },
    InvalidExitCode,
    InvalidStateLimit,
    InvalidRepeatLimit,
    InvalidTimeout,
}

/// The human-readable description of a configuration error.
pub open spec fn config_error_text(e: ConfigError) -> Seq<char> {
    match e {
        ConfigError::Read { path, message } => "failed to read configuration "@ + path@ + ": "@ + message@,
        ConfigError::Parse { path, message } => "invalid configuration "@ + path@ + ": "@ + message@,
        ConfigError::InvalidExitCode => "ci_exit_code must be between 1 and 255"@,
        ConfigError::InvalidStateLimit => "max_product_states must be greater than zero"@,
        ConfigError::InvalidRepeatLimit => "max_repeat must be greater than zero"@,
        ConfigError::InvalidTimeout => "timeout_ms must be greater than zero"@,
    }
}

impl ConfigError {
    /// The human-readable description of the error.
    pub fn describe(&self) -> (r: String)
        ensures
            r@ == config_error_text(*self),
    {
        match self {
            ConfigError::Read { path, message } => join3("failed to read configuration ", path, ": ", message),
            ConfigError::Parse { path, message } => join3("invalid configuration ", path, ": ", message),
            ConfigError::InvalidExitCode => "ci_exit_code must be between 1 and 255".to_owned(),
            ConfigError::InvalidStateLimit => "max_product_states must be greater than zero".to_owned(),
            ConfigError::InvalidRepeatLimit => "max_repeat must be greater than zero".to_owned(),
            ConfigError::InvalidTimeout => "timeout_ms must be greater than zero".to_owned(),
        }
    }
}

fn join3(a: &str, b: &String, c: &str, d: &String) -> (r: String)
    ensures
        r@ == a@ + b@ + c@ + d@,
{
    let mut out = a.to_owned();
    out.append(b.as_str());
    out.append(c);
    out.append(d.as_str());
    out
}

/// The first resource limit that a configuration breaks, checked in this
/// order: exit code range, state limit, repeat limit, timeout.
pub open spec fn config_problem(config: Config) -> Option<ConfigError> {
    if !(1 <= config.ci_exit_code <= 255) {
        Some(ConfigError::InvalidExitCode)
    } else if config.max_product_states == 0 {
        Some(ConfigError::InvalidStateLimit)
    } else if config.max_repeat == 0 {
        Some(ConfigError::InvalidRepeatLimit)
    } else if config.timeout_ms == 0 {
        Some(ConfigError::InvalidTimeout)
    } else {
        None
    }
}

impl Config {
    /// Accept a configuration whose limits are all usable.
    pub fn validate(config: Self) -> (r: Result<Self, ConfigError>)
        ensures
            config_problem(config) matches Some(e) ==> r == Err::<Config, ConfigError>(e),
            config_problem(config) is None ==> r == Ok::<Config, ConfigError>(config),
            r matches Err(ConfigError::InvalidTimeout) ==> config.timeout_ms == 0,
            (1 <= config.ci_exit_code <= 255 && config.max_product_states > 0 && config.max_repeat > 0 && config.timeout_ms
                > 0) ==> r == Ok::<Config, ConfigError>(config),
    {
        if !(1 <= config.ci_exit_code && config.ci_exit_code <= 255) {
            return Err(ConfigError::InvalidExitCode);
        }
        if config.max_product_states == 0 {
            return Err(ConfigError::InvalidStateLimit);
        }
        if config.max_repeat == 0 {
            return Err(ConfigError::InvalidRepeatLimit);
        }
        if config.timeout_ms == 0 {
            return Err(ConfigError::InvalidTimeout);
        }
        Ok(config)
    }
}

} // verus!
