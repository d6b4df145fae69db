//! Configuration of the service.
//!
//! Every parameter comes from an environment variable and has a default. A
//! variable that is set has to hold a number in its range, and the parameters
//! have to fit each other; otherwise loading fails with a [`ConfigError`].

use vstd::prelude::*;
use vstd::string::*;

use crate::text;
use crate::text::{
    append_decimal, decimal_text, parse_u16, parse_u32, parse_u64, parse_usize, trim,
};

verus! {

/// What can be wrong with the configuration.
#[derive(Debug)]
pub enum ConfigError {
    /// A required variable is missing.
    Missing(String, String),
    /// The value of a variable is not acceptable.
    Invalid {
        /// The name of the variable.
        var: String,
        /// What was expected of it.
        expected: String,
        /// What it held.
        actual: String,
    },
    /// The parameters do not fit each other.
    Constraint(String),
}

/// What a [`ConfigError`] holds.
#[verifier::ext_equal]
pub enum ConfigErrorView {
    /// A required variable is missing.
    Missing(Seq<char>, Seq<char>),
    /// The value of a variable is not acceptable.
    Invalid {
        /// The name of the variable.
        var: Seq<char>,
        /// What was expected of it.
        expected: Seq<char>,
        /// What it held.
        actual: Seq<char>,
    },
    /// The parameters do not fit each other.
    Constraint(Seq<char>),
}

impl View for ConfigError {
    type V = ConfigErrorView;

    open spec fn view(&self) -> ConfigErrorView {
        match self {
            ConfigError::Missing(name, reason) => ConfigErrorView::Missing(name@, reason@),
            ConfigError::Invalid { var, expected, actual } => ConfigErrorView::Invalid {
                var: var@,
                expected: expected@,
                actual: actual@,
            },
            ConfigError::Constraint(text) => ConfigErrorView::Constraint(text@),
        }
    }
}

impl ConfigErrorView {
    /// The error in words.
    pub open spec fn message(self) -> Seq<char> {
        match self {
            ConfigErrorView::Missing(name, reason) => "Missing environment variable '"@ + name
                + "': "@ + reason,
            ConfigErrorView::Invalid { var, expected, actual } => "Invalid value for '"@ + var
                + "': expected "@ + expected + ", got '"@ + actual + "'"@,
            ConfigErrorView::Constraint(text) => "Configuration constraint violated: "@ + text,
        }
    }
}

impl ConfigError {
    /// The error in words.
    pub fn message(&self) -> (message: String)
        ensures
            message@ == self@.message(),
    {
        match self {
            ConfigError::Missing(name, reason) => {
                let mut message = "Missing environment variable '".to_owned();
                message.append(name.as_str());
                message.append("': ");
                message.append(reason.as_str());
                message
            },
            ConfigError::Invalid { var, expected, actual } => {
                let mut message = "Invalid value for '".to_owned();
                message.append(var.as_str());
                message.append("': expected ");
                message.append(expected.as_str());
                message.append(", got '");
                message.append(actual.as_str());
                message.append("'");
                message
            },
            ConfigError::Constraint(text) => {
                let mut message = "Configuration constraint violated: ".to_owned();
                message.append(text.as_str());
                message
            },
        }
    }
}

/// Complete runtime configuration of the service.
#[derive(Debug, Clone, Copy, PartialEq, Eq)]
pub struct Config {
    /// TCP port the HTTP server binds to. Range: 1024 to 65535.
    pub server_port: u16,
    /// Number of concurrent matchmaking workers. Range: 1 to 64.
    pub worker_count: usize,
    /// Fallback polling interval per worker in milliseconds.
    pub worker_tick_ms: u64,
    /// Milliseconds before a claim is considered stale.
    pub stale_claim_timeout_ms: u64,
    /// Wait (ms) at which the first stage ends.
    pub relaxation_stage_1_ms: u64,
    /// Wait (ms) at which the second stage ends.
    pub relaxation_stage_2_ms: u64,
    /// Wait (ms) at which the third stage ends.
    pub relaxation_stage_3_ms: u64,
    /// Wait (ms) at which the fourth stage ends.
    pub relaxation_stage_4_ms: u64,
    /// Acceptable rating half-width in the first stage.
    pub relaxation_stage_1_delta: u32,
    /// Acceptable rating half-width in the second stage.
    pub relaxation_stage_2_delta: u32,
    /// Acceptable rating half-width in the third stage.
    pub relaxation_stage_3_delta: u32,
    /// Acceptable rating half-width in the fourth stage.
    pub relaxation_stage_4_delta: u32,
    /// Acceptable rating half-width in the fifth stage.
    pub relaxation_stage_5_delta: u32,
}

impl Config {
    /// The cross-field constraints: thresholds strictly increase, half-widths
    /// never decrease, and a claim outlives a worker tick.
    pub open spec fn valid(self) -> bool {
        &&& self.relaxation_stage_1_ms < self.relaxation_stage_2_ms < self.relaxation_stage_3_ms
            < self.relaxation_stage_4_ms
        &&& self.relaxation_stage_1_delta <= self.relaxation_stage_2_delta
            <= self.relaxation_stage_3_delta <= self.relaxation_stage_4_delta
            <= self.relaxation_stage_5_delta
        &&& self.worker_tick_ms < self.stale_claim_timeout_ms
    }
}

/// A constraint between two parameters that does not hold, in words.
pub open spec fn clash(
    left: Seq<char>,
    left_value: nat,
    relation: Seq<char>,
    right: Seq<char>,
    right_value: nat,
) -> Seq<char> {
    left + " ("@ + text::decimal(left_value) + ") must be "@ + relation + " "@ + right
        + " ("@ + text::decimal(right_value) + ")"@
}

/// A constraint between two parameters that does not hold, in words.
fn clash_text(
    left: &str,
    left_value: u64,
    relation: &str,
    right: &str,
    right_value: u64,
) -> (text: String)
    ensures
        text@ == clash(left@, left_value as nat, relation@, right@, right_value as nat),
{
    let mut text = left.to_owned();
    text.append(" (");
    append_decimal(&mut text, left_value);
    text.append(") must be ");
    text.append(relation);
    text.append(" ");
    text.append(right);
    text.append(" (");
    append_decimal(&mut text, right_value);
    text.append(")");
    text
}

impl Config {
    /// The first constraint that the parameters violate, in words; `None` if
    /// they fit each other.
    pub open spec fn violation(self) -> Option<Seq<char>> {
        if self.relaxation_stage_1_ms >= self.relaxation_stage_2_ms {
            Some(
                clash(
                    "RELAXATION_STAGE_1_MS"@,
                    self.relaxation_stage_1_ms as nat,
                    "less than"@,
                    "RELAXATION_STAGE_2_MS"@,
                    self.relaxation_stage_2_ms as nat,
                ),
            )
        } else if self.relaxation_stage_2_ms >= self.relaxation_stage_3_ms {
            Some(
                clash(
                    "RELAXATION_STAGE_2_MS"@,
                    self.relaxation_stage_2_ms as nat,
                    "less than"@,
                    "RELAXATION_STAGE_3_MS"@,
                    self.relaxation_stage_3_ms as nat,
                ),
            )
        } else if self.relaxation_stage_3_ms >= self.relaxation_stage_4_ms {
            Some(
                clash(
                    "RELAXATION_STAGE_3_MS"@,
                    self.relaxation_stage_3_ms as nat,
                    "less than"@,
                    "RELAXATION_STAGE_4_MS"@,
                    self.relaxation_stage_4_ms as nat,
                ),
            )
        } else if self.relaxation_stage_1_delta > self.relaxation_stage_2_delta {
            Some(
                clash(
                    "RELAXATION_STAGE_1_DELTA"@,
                    self.relaxation_stage_1_delta as nat,
                    "<="@,
                    "RELAXATION_STAGE_2_DELTA"@,
                    self.relaxation_stage_2_delta as nat,
                ),
            )
        } else if self.relaxation_stage_2_delta > self.relaxation_stage_3_delta {
            Some(
                clash(
                    "RELAXATION_STAGE_2_DELTA"@,
                    self.relaxation_stage_2_delta as nat,
                    "<="@,
                    "RELAXATION_STAGE_3_DELTA"@,
                    self.relaxation_stage_3_delta as nat,
                ),
            )
        } else if self.relaxation_stage_3_delta > self.relaxation_stage_4_delta {
            Some(
                clash(
                    "RELAXATION_STAGE_3_DELTA"@,
                    self.relaxation_stage_3_delta as nat,
                    "<="@,
                    "RELAXATION_STAGE_4_DELTA"@,
                    self.relaxation_stage_4_delta as nat,
                ),
            )
        } else if self.relaxation_stage_4_delta > self.relaxation_stage_5_delta {
            Some(
                clash(
                    "RELAXATION_STAGE_4_DELTA"@,
                    self.relaxation_stage_4_delta as nat,
                    "<="@,
                    "RELAXATION_STAGE_5_DELTA"@,
                    self.relaxation_stage_5_delta as nat,
                ),
            )
        } else if self.stale_claim_timeout_ms <= self.worker_tick_ms {
            Some(
                clash(
                    "STALE_CLAIM_TIMEOUT_MS"@,
                    self.stale_claim_timeout_ms as nat,
                    "greater than"@,
                    "WORKER_TICK_MS"@,
                    self.worker_tick_ms as nat,
                )
                    + ". Otherwise the Reaper may reset claims that are still in progress."@,
            )
        } else {
            None
        }
    }

    /// Check that the parameters fit each other.
    pub fn validate(&self) -> (checked: Result<(), ConfigError>)
        ensures
            checked is Ok <==> self.valid(),
            checked is Ok <==> self.violation() is None,
            checked matches Err(error) ==> error@ == ConfigErrorView::Constraint(
                self.violation()->0,
            ),
    {
        if self.relaxation_stage_1_ms >= self.relaxation_stage_2_ms {
            return Err(
                ConfigError::Constraint(
                    clash_text(
                        "RELAXATION_STAGE_1_MS",
                        self.relaxation_stage_1_ms,
                        "less than",
                        "RELAXATION_STAGE_2_MS",
                        self.relaxation_stage_2_ms,
                    ),
                ),
            );
        }
        if self.relaxation_stage_2_ms >= self.relaxation_stage_3_ms {
            return Err(
                ConfigError::Constraint(
                    clash_text(
                        "RELAXATION_STAGE_2_MS",
                        self.relaxation_stage_2_ms,
                        "less than",
                        "RELAXATION_STAGE_3_MS",
                        self.relaxation_stage_3_ms,
                    ),
                ),
            );
        }
        if self.relaxation_stage_3_ms >= self.relaxation_stage_4_ms {
            return Err(
                ConfigError::Constraint(
                    clash_text(
                        "RELAXATION_STAGE_3_MS",
                        self.relaxation_stage_3_ms,
                        "less than",
                        "RELAXATION_STAGE_4_MS",
                        self.relaxation_stage_4_ms,
                    ),
                ),
            );
        }
        if self.relaxation_stage_1_delta > self.relaxation_stage_2_delta {
            return Err(
                ConfigError::Constraint(
                    clash_text(
                        "RELAXATION_STAGE_1_DELTA",
                        self.relaxation_stage_1_delta as u64,
                        "<=",
                        "RELAXATION_STAGE_2_DELTA",
                        self.relaxation_stage_2_delta as u64,
                    ),
                ),
            );
        }
        if self.relaxation_stage_2_delta > self.relaxation_stage_3_delta {
            return Err(
                ConfigError::Constraint(
                    clash_text(
                        "RELAXATION_STAGE_2_DELTA",
                        self.relaxation_stage_2_delta as u64,
                        "<=",
                        "RELAXATION_STAGE_3_DELTA",
                        self.relaxation_stage_3_delta as u64,
                    ),
                ),
            );
        }
        if self.relaxation_stage_3_delta > self.relaxation_stage_4_delta {
            return Err(
                ConfigError::Constraint(
                    clash_text(
                        "RELAXATION_STAGE_3_DELTA",
                        self.relaxation_stage_3_delta as u64,
                        "<=",
                        "RELAXATION_STAGE_4_DELTA",
                        self.relaxation_stage_4_delta as u64,
                    ),
                ),
            );
        }
        if self.relaxation_stage_4_delta > self.relaxation_stage_5_delta {
            return Err(
                ConfigError::Constraint(
                    clash_text(
                        "RELAXATION_STAGE_4_DELTA",
                        self.relaxation_stage_4_delta as u64,
                        "<=",
                        "RELAXATION_STAGE_5_DELTA",
                        self.relaxation_stage_5_delta as u64,
                    ),
                ),
            );
        }
        if self.stale_claim_timeout_ms <= self.worker_tick_ms {
            let mut text = clash_text(
                "STALE_CLAIM_TIMEOUT_MS",
                self.stale_claim_timeout_ms,
                "greater than",
                "WORKER_TICK_MS",
                self.worker_tick_ms,
            );
            text.append(". Otherwise the Reaper may reset claims that are still in progress.");
            return Err(ConfigError::Constraint(text));
        }
        Ok(())
    }

    /// The configuration in words.
    pub open spec fn described(self) -> Seq<char> {
        "Config { port="@ + text::decimal(self.server_port as nat) + ", workers="@
            + text::decimal(self.worker_count as nat) + ", tick="@ + text::decimal(
            self.worker_tick_ms as nat,
        ) + "ms, stale_timeout="@ + text::decimal(self.stale_claim_timeout_ms as nat)
            + "ms, relaxation=["@ + text::decimal(self.relaxation_stage_1_ms as nat)
            + "ms/±"@ + text::decimal(self.relaxation_stage_1_delta as nat) + ", "@
            + text::decimal(self.relaxation_stage_2_ms as nat) + "ms/±"@
            + text::decimal(self.relaxation_stage_2_delta as nat) + ", "@
            + text::decimal(self.relaxation_stage_3_ms as nat) + "ms/±"@
            + text::decimal(self.relaxation_stage_3_delta as nat) + ", "@
            + text::decimal(self.relaxation_stage_4_ms as nat) + "ms/±"@
            + text::decimal(self.relaxation_stage_4_delta as nat) + ", ∞/±"@
            + text::decimal(self.relaxation_stage_5_delta as nat) + "] }"@
    }

    /// The configuration in words, for the log.
    pub fn describe(&self) -> (text: String)
        ensures
            text@ == self.described(),
    {
        let mut text = "Config { port=".to_owned();
        append_decimal(&mut text, self.server_port as u64);
        text.append(", workers=");
        append_decimal(&mut text, self.worker_count as u64);
        text.append(", tick=");
        append_decimal(&mut text, self.worker_tick_ms);
        text.append("ms, stale_timeout=");
        append_decimal(&mut text, self.stale_claim_timeout_ms);
        text.append("ms, relaxation=[");
        append_decimal(&mut text, self.relaxation_stage_1_ms);
        text.append("ms/±");
        append_decimal(&mut text, self.relaxation_stage_1_delta as u64);
        text.append(", ");
        append_decimal(&mut text, self.relaxation_stage_2_ms);
        text.append("ms/±");
        append_decimal(&mut text, self.relaxation_stage_2_delta as u64);
        text.append(", ");
        append_decimal(&mut text, self.relaxation_stage_3_ms);
        text.append("ms/±");
        append_decimal(&mut text, self.relaxation_stage_3_delta as u64);
        text.append(", ");
        append_decimal(&mut text, self.relaxation_stage_4_ms);
        text.append("ms/±");
        append_decimal(&mut text, self.relaxation_stage_4_delta as u64);
        text.append(", ∞/±");
        append_decimal(&mut text, self.relaxation_stage_5_delta as u64);
        text.append("] }");
        text
    }
}

/// What an environment variable holds.
#[derive(Debug, Default)]
pub enum EnvValue {
    /// The variable is not set.
    #[default]
    Unset,
    /// The variable is set to a text.
    Text(String),
    /// The variable is set to bytes that are not a text.
    NotText,
}

/// The environment variables that configure the service.
#[derive(Debug, Default)]
pub struct EnvVars {
    /// `SERVER_PORT`.
    pub server_port: EnvValue,
    /// `WORKER_COUNT`.
    pub worker_count: EnvValue,
    /// `WORKER_TICK_MS`.
    pub worker_tick_ms: EnvValue,
    /// `STALE_CLAIM_TIMEOUT_MS`.
    pub stale_claim_timeout_ms: EnvValue,
    /// `RELAXATION_STAGE_1_MS`.
    pub relaxation_stage_1_ms: EnvValue,
    /// `RELAXATION_STAGE_2_MS`.
    pub relaxation_stage_2_ms: EnvValue,
    /// `RELAXATION_STAGE_3_MS`.
    pub relaxation_stage_3_ms: EnvValue,
    /// `RELAXATION_STAGE_4_MS`.
    pub relaxation_stage_4_ms: EnvValue,
    /// `RELAXATION_STAGE_1_DELTA`.
    pub relaxation_stage_1_delta: EnvValue,
    /// `RELAXATION_STAGE_2_DELTA`.
    pub relaxation_stage_2_delta: EnvValue,
    /// `RELAXATION_STAGE_3_DELTA`.
    pub relaxation_stage_3_delta: EnvValue,
    /// `RELAXATION_STAGE_4_DELTA`.
    pub relaxation_stage_4_delta: EnvValue,
    /// `RELAXATION_STAGE_5_DELTA`.
    pub relaxation_stage_5_delta: EnvValue,
}

/// The type of number that a variable holds.
#[derive(Debug, Clone, Copy, PartialEq, Eq)]
pub enum NumberType {
    /// A `u16`.
    U16,
    /// A `u32`.
    U32,
    /// A `u64`.
    U64,
    /// A `usize`.
    Usize,
}

impl NumberType {
    /// The largest number of the type.
    pub open spec fn max(self) -> int {
        match self {
            NumberType::U16 => u16::MAX as int,
            NumberType::U32 => u32::MAX as int,
            NumberType::U64 => u64::MAX as int,
            NumberType::Usize => usize::MAX as int,
        }
    }

    /// The name of the type.
    pub open spec fn written(self) -> Seq<char> {
        match self {
            NumberType::U16 => "u16"@,
            NumberType::U32 => "u32"@,
            NumberType::U64 => "u64"@,
            NumberType::Usize => "usize"@,
        }
    }

    /// What parsing a number of the type says of a text it does not accept.
    pub open spec fn complaint(self, text: Seq<char>) -> Seq<char> {
        match self {
            NumberType::U16 => text::u16_complaint(text),
            NumberType::U32 => text::u32_complaint(text),
            NumberType::U64 => text::u64_complaint(text),
            NumberType::Usize => text::usize_complaint(text, usize::MAX as int),
        }
    }

    /// The name of the type.
    pub fn name(self) -> (name: &'static str)
        ensures
            name@ == self.written(),
    {
        match self {
            NumberType::U16 => "u16",
            NumberType::U32 => "u32",
            NumberType::U64 => "u64",
            NumberType::Usize => "usize",
        }
    }

    /// Parse a number of the type; on failure, return what was wrong, in words.
    pub fn parse(self, text: &str) -> (parsed: Result<u64, String>)
        ensures
            parsed is Ok <==> text::is_number_up_to(text@, self.max()),
            parsed matches Ok(value) ==> value == text::number_value(text@),
            parsed matches Err(reason) ==> reason@ == self.complaint(text@),
    {
        match self {
            NumberType::U16 => match parse_u16(text) {
                Ok(value) => Ok(value as u64),
                Err(reason) => Err(reason),
            },
            NumberType::U32 => match parse_u32(text) {
                Ok(value) => Ok(value as u64),
                Err(reason) => Err(reason),
            },
            NumberType::U64 => parse_u64(text),
            NumberType::Usize => match parse_usize(text) {
                Ok(value) => Ok(value as u64),
                Err(reason) => Err(reason),
            },
        }
    }
}

/// The parameter for which a variable holds `raw`, given what parsing made of
/// it: a number between `min` and `max`, or the error.
pub open spec fn judged(
    name: Seq<char>,
    number_type: NumberType,
    raw: Seq<char>,
    parsed: Result<u64, Seq<char>>,
    min: u64,
    max: u64,
) -> Result<u64, ConfigErrorView> {
    match parsed {
        Err(reason) => Err(
            ConfigErrorView::Invalid {
                var: name,
                expected: "a valid "@ + number_type.written(),
                actual: raw + " ("@ + reason + ")"@,
            },
        ),
        Ok(value) => if value < min || value > max {
            Err(
                ConfigErrorView::Invalid {
                    var: name,
                    expected: "a value between "@ + text::decimal(min as nat) + " and "@
                        + text::decimal(max as nat),
                    actual: text::decimal(value as nat),
                },
            )
        } else {
            Ok(value)
        },
    }
}

/// The view of the result of reading a number.
pub open spec fn number_view(parsed: Result<u64, String>) -> Result<u64, Seq<char>> {
    match parsed {
        Ok(value) => Ok(value),
        Err(reason) => Err(reason@),
    }
}

/// The view of the result of reading a parameter.
pub open spec fn setting_view(setting: Result<u64, ConfigError>) -> Result<u64, ConfigErrorView> {
    match setting {
        Ok(value) => Ok(value),
        Err(error) => Err(error@),
    }
}

/// Decide on a parameter for which a variable holds `raw`, given what parsing
/// made of it; see [`judged`].
pub fn judge(
    name: &str,
    number_type: NumberType,
    raw: &str,
    parsed: Result<u64, String>,
    min: u64,
    max: u64,
) -> (setting: Result<u64, ConfigError>)
    ensures
        setting_view(setting) == judged(
            name@,
            number_type,
            raw@,
            number_view(parsed),
            min,
            max,
        ),
{
    match parsed {
        Err(reason) => {
            let mut expected = "a valid ".to_owned();
            expected.append(number_type.name());
            let mut actual = raw.to_owned();
            actual.append(" (");
            actual.append(reason.as_str());
            actual.append(")");
            Err(ConfigError::Invalid { var: name.to_owned(), expected, actual })
        },
        Ok(value) => {
            if value < min || value > max {
                let mut expected = "a value between ".to_owned();
                append_decimal(&mut expected, min);
                expected.append(" and ");
                append_decimal(&mut expected, max);
                Err(
                    ConfigError::Invalid {
                        var: name.to_owned(),
                        expected,
                        actual: decimal_text(value),
                    },
                )
            } else {
                Ok(value)
            }
        },
    }
}

/// The parameter that a variable sets: the default if it is not set, else the
/// number it holds, white space around it aside. A variable that is set but
/// holds no text is an error.
pub open spec fn setting(
    name: Seq<char>,
    number_type: NumberType,
    raw: EnvValue,
    min: u64,
    max: u64,
    default: u64,
) -> Result<u64, ConfigErrorView> {
    match raw {
        EnvValue::Unset => Ok(default),
        EnvValue::NotText => Err(
            ConfigErrorView::Invalid {
                var: name,
                expected: "a valid "@ + number_type.written(),
                actual: "bytes that are not valid Unicode"@,
            },
        ),
        EnvValue::Text(text) => {
            let inner = text::trimmed(text@);
            judged(
                name,
                number_type,
                text@,
                if text::is_number_up_to(inner, number_type.max()) {
                    Ok(text::number_value(inner) as u64)
                } else {
                    Err(number_type.complaint(inner))
                },
                min,
                max,
            )
        },
    }
}

/// Read the parameter that a variable sets; see [`setting`].
pub fn parse_env_range(
    name: &str,
    number_type: NumberType,
    raw: &EnvValue,
    min: u64,
    max: u64,
    default: u64,
) -> (parameter: Result<u64, ConfigError>)
    ensures
        setting_view(parameter) == setting(name@, number_type, *raw, min, max, default),
{
    match raw {
        EnvValue::Unset => Ok(default),
        EnvValue::NotText => {
            let mut expected = "a valid ".to_owned();
            expected.append(number_type.name());
            Err(
                ConfigError::Invalid {
                    var: name.to_owned(),
                    expected,
                    actual: "bytes that are not valid Unicode".to_owned(),
                },
            )
        },
        EnvValue::Text(text) => {
            let parsed = number_type.parse(trim(text.as_str()));
            judge(name, number_type, text.as_str(), parsed, min, max)
        },
    }
}

/// How many environment variables there are.
pub const VARIABLE_COUNT: usize = 13;

/// The names of the environment variables, in the order they are read.
pub open spec fn names() -> Seq<Seq<char>> {
    seq![
        "SERVER_PORT"@,
        "WORKER_COUNT"@,
        "WORKER_TICK_MS"@,
        "STALE_CLAIM_TIMEOUT_MS"@,
        "RELAXATION_STAGE_1_MS"@,
        "RELAXATION_STAGE_2_MS"@,
        "RELAXATION_STAGE_3_MS"@,
        "RELAXATION_STAGE_4_MS"@,
        "RELAXATION_STAGE_1_DELTA"@,
        "RELAXATION_STAGE_2_DELTA"@,
        "RELAXATION_STAGE_3_DELTA"@,
        "RELAXATION_STAGE_4_DELTA"@,
        "RELAXATION_STAGE_5_DELTA"@,
    ]
}

/// The names of the environment variables, in the order they are read.
pub fn variable_names() -> (list: Vec<&'static str>)
    ensures
        list@.len() == VARIABLE_COUNT,
        list@.map_values(|name: &'static str| name@) == names(),
{
    let mut list: Vec<&'static str> = Vec::new();
    list.push("SERVER_PORT");
    list.push("WORKER_COUNT");
    list.push("WORKER_TICK_MS");
    list.push("STALE_CLAIM_TIMEOUT_MS");
    list.push("RELAXATION_STAGE_1_MS");
    list.push("RELAXATION_STAGE_2_MS");
    list.push("RELAXATION_STAGE_3_MS");
    list.push("RELAXATION_STAGE_4_MS");
    list.push("RELAXATION_STAGE_1_DELTA");
    list.push("RELAXATION_STAGE_2_DELTA");
    list.push("RELAXATION_STAGE_3_DELTA");
    list.push("RELAXATION_STAGE_4_DELTA");
    list.push("RELAXATION_STAGE_5_DELTA");
    assert(list@.map_values(|name: &'static str| name@) =~= names());
    list
}

impl EnvVars {
    /// What the variables hold, in the order of their [`names`].
    pub open spec fn held(self) -> Seq<EnvValue> {
        seq![
            self.server_port,
            self.worker_count,
            self.worker_tick_ms,
            self.stale_claim_timeout_ms,
            self.relaxation_stage_1_ms,
            self.relaxation_stage_2_ms,
            self.relaxation_stage_3_ms,
            self.relaxation_stage_4_ms,
            self.relaxation_stage_1_delta,
            self.relaxation_stage_2_delta,
            self.relaxation_stage_3_delta,
            self.relaxation_stage_4_delta,
            self.relaxation_stage_5_delta,
        ]
    }

    /// The variables, given what they hold in the order of [`variable_names`].
    pub fn from_held(held: Vec<EnvValue>) -> (vars: Self)
        requires
            held@.len() == VARIABLE_COUNT,
        ensures
            vars.held() == held@,
    {
        let ghost given = held@;
        let mut rest = held;
        let relaxation_stage_5_delta = rest.pop().unwrap();
        let relaxation_stage_4_delta = rest.pop().unwrap();
        let relaxation_stage_3_delta = rest.pop().unwrap();
        let relaxation_stage_2_delta = rest.pop().unwrap();
        let relaxation_stage_1_delta = rest.pop().unwrap();
        let relaxation_stage_4_ms = rest.pop().unwrap();
        let relaxation_stage_3_ms = rest.pop().unwrap();
        let relaxation_stage_2_ms = rest.pop().unwrap();
        let relaxation_stage_1_ms = rest.pop().unwrap();
        let stale_claim_timeout_ms = rest.pop().unwrap();
        let worker_tick_ms = rest.pop().unwrap();
        let worker_count = rest.pop().unwrap();
        let server_port = rest.pop().unwrap();
        let vars = EnvVars {
            server_port,
            worker_count,
            worker_tick_ms,
            stale_claim_timeout_ms,
            relaxation_stage_1_ms,
            relaxation_stage_2_ms,
            relaxation_stage_3_ms,
            relaxation_stage_4_ms,
            relaxation_stage_1_delta,
            relaxation_stage_2_delta,
            relaxation_stage_3_delta,
            relaxation_stage_4_delta,
            relaxation_stage_5_delta,
        };
        assert(vars.held() =~= given);
        vars
    }

    /// The parameters that the variables set, in the order they are read.
    pub open spec fn settings(self) -> Seq<Result<u64, ConfigErrorView>> {
        seq![
            setting("SERVER_PORT"@, NumberType::U16, self.server_port, 1024, 65_535, 8080),
            setting("WORKER_COUNT"@, NumberType::Usize, self.worker_count, 1, 64, 4),
            setting("WORKER_TICK_MS"@, NumberType::U64, self.worker_tick_ms, 10, 10_000, 50),
            setting("STALE_CLAIM_TIMEOUT_MS"@, NumberType::U64, self.stale_claim_timeout_ms, 100, 30_000, 500),
            setting("RELAXATION_STAGE_1_MS"@, NumberType::U64, self.relaxation_stage_1_ms, 1, 300_000, 5000),
            setting("RELAXATION_STAGE_2_MS"@, NumberType::U64, self.relaxation_stage_2_ms, 1, 300_000, 15_000),
            setting("RELAXATION_STAGE_3_MS"@, NumberType::U64, self.relaxation_stage_3_ms, 1, 300_000, 30_000),
            setting("RELAXATION_STAGE_4_MS"@, NumberType::U64, self.relaxation_stage_4_ms, 1, 300_000, 60_000),
            setting("RELAXATION_STAGE_1_DELTA"@, NumberType::U32, self.relaxation_stage_1_delta, 0, 10_000, 50),
            setting("RELAXATION_STAGE_2_DELTA"@, NumberType::U32, self.relaxation_stage_2_delta, 0, 10_000, 100),
            setting("RELAXATION_STAGE_3_DELTA"@, NumberType::U32, self.relaxation_stage_3_delta, 0, 10_000, 200),
            setting("RELAXATION_STAGE_4_DELTA"@, NumberType::U32, self.relaxation_stage_4_delta, 0, 10_000, 400),
            setting("RELAXATION_STAGE_5_DELTA"@, NumberType::U32, self.relaxation_stage_5_delta, 0, 10_000, 9999),
        ]
    }
}

/// The first error among the parameters from position `from` on.
pub open spec fn first_error(settings: Seq<Result<u64, ConfigErrorView>>, from: int) -> Option<
    ConfigErrorView,
>
    decreases settings.len() - from,
{
    if from < 0 || from >= settings.len() {
        None
    } else {
        match settings[from] {
            Err(error) => Some(error),
            Ok(_) => first_error(settings, from + 1),
        }
    }
}

/// The configuration made of parameters that are all acceptable.
pub open spec fn assembled(settings: Seq<Result<u64, ConfigErrorView>>) -> Config {
    Config {
        server_port: settings[0]->Ok_0 as u16,
        worker_count: settings[1]->Ok_0 as usize,
        worker_tick_ms: settings[2]->Ok_0,
        stale_claim_timeout_ms: settings[3]->Ok_0,
        relaxation_stage_1_ms: settings[4]->Ok_0,
        relaxation_stage_2_ms: settings[5]->Ok_0,
        relaxation_stage_3_ms: settings[6]->Ok_0,
        relaxation_stage_4_ms: settings[7]->Ok_0,
        relaxation_stage_1_delta: settings[8]->Ok_0 as u32,
        relaxation_stage_2_delta: settings[9]->Ok_0 as u32,
        relaxation_stage_3_delta: settings[10]->Ok_0 as u32,
        relaxation_stage_4_delta: settings[11]->Ok_0 as u32,
        relaxation_stage_5_delta: settings[12]->Ok_0 as u32,
    }
}

/// The view of the result of loading a configuration.
pub open spec fn config_view(loaded: Result<Config, ConfigError>) -> Result<
    Config,
    ConfigErrorView,
> {
    match loaded {
        Ok(config) => Ok(config),
        Err(error) => Err(error@),
    }
}

impl Config {
    /// The configuration that the variables set: the first unacceptable one is
    /// reported; if all are acceptable, they have to fit each other.
    pub open spec fn loaded(vars: EnvVars) -> Result<Config, ConfigErrorView> {
        match first_error(vars.settings(), 0) {
            Some(error) => Err(error),
            None => {
                let config = assembled(vars.settings());
                match config.violation() {
                    Some(text) => Err(ConfigErrorView::Constraint(text)),
                    None => Ok(config),
                }
            },
        }
    }

    /// Every parameter is in its range.
    pub open spec fn in_range(self) -> bool {
        &&& 1024 <= self.server_port <= 65_535
        &&& 1 <= self.worker_count <= 64
        &&& 10 <= self.worker_tick_ms <= 10_000
        &&& 100 <= self.stale_claim_timeout_ms <= 30_000
        &&& 1 <= self.relaxation_stage_1_ms <= 300_000
        &&& 1 <= self.relaxation_stage_2_ms <= 300_000
        &&& 1 <= self.relaxation_stage_3_ms <= 300_000
        &&& 1 <= self.relaxation_stage_4_ms <= 300_000
        &&& 0 <= self.relaxation_stage_1_delta <= 10_000
        &&& 0 <= self.relaxation_stage_2_delta <= 10_000
        &&& 0 <= self.relaxation_stage_3_delta <= 10_000
        &&& 0 <= self.relaxation_stage_4_delta <= 10_000
        &&& 0 <= self.relaxation_stage_5_delta <= 10_000
    }

    /// Load and check the configuration from environment variables.
    pub fn from_env(vars: &EnvVars) -> (loaded: Result<Self, ConfigError>)
        ensures
            config_view(loaded) == Config::loaded(*vars),
            loaded matches Ok(config) ==> config.valid() && config.in_range(),
    {
        proof {
            reveal_with_fuel(first_error, 14);
        }
        let server_port: u16 = match parse_env_range(
            "SERVER_PORT",
            NumberType::U16,
            &vars.server_port,
            1024,
            65_535,
            8080,
        ) {
            Ok(value) => value as u16,
            Err(error) => return Err(error),
        };
        let worker_count: usize = match parse_env_range(
            "WORKER_COUNT",
            NumberType::Usize,
            &vars.worker_count,
            1,
            64,
            4,
        ) {
            Ok(value) => value as usize,
            Err(error) => return Err(error),
        };
        let worker_tick_ms: u64 = match parse_env_range(
            "WORKER_TICK_MS",
            NumberType::U64,
            &vars.worker_tick_ms,
            10,
            10_000,
            50,
        ) {
            Ok(value) => value,
            Err(error) => return Err(error),
        };
        let stale_claim_timeout_ms: u64 = match parse_env_range(
            "STALE_CLAIM_TIMEOUT_MS",
            NumberType::U64,
            &vars.stale_claim_timeout_ms,
            100,
            30_000,
            500,
        ) {
            Ok(value) => value,
            Err(error) => return Err(error),
        };
        let relaxation_stage_1_ms: u64 = match parse_env_range(
            "RELAXATION_STAGE_1_MS",
            NumberType::U64,
            &vars.relaxation_stage_1_ms,
            1,
            300_000,
            5000,
        ) {
            Ok(value) => value,
            Err(error) => return Err(error),
        };
        let relaxation_stage_2_ms: u64 = match parse_env_range(
            "RELAXATION_STAGE_2_MS",
            NumberType::U64,
            &vars.relaxation_stage_2_ms,
            1,
            300_000,
            15_000,
        ) {
            Ok(value) => value,
            Err(error) => return Err(error),
        };
        let relaxation_stage_3_ms: u64 = match parse_env_range(
            "RELAXATION_STAGE_3_MS",
            NumberType::U64,
            &vars.relaxation_stage_3_ms,
            1,
            300_000,
            30_000,
        ) {
            Ok(value) => value,
            Err(error) => return Err(error),
        };
        let relaxation_stage_4_ms: u64 = match parse_env_range(
            "RELAXATION_STAGE_4_MS",
            NumberType::U64,
            &vars.relaxation_stage_4_ms,
            1,
            300_000,
            60_000,
        ) {
            Ok(value) => value,
            Err(error) => return Err(error),
        };
        let relaxation_stage_1_delta: u32 = match parse_env_range(
            "RELAXATION_STAGE_1_DELTA",
            NumberType::U32,
            &vars.relaxation_stage_1_delta,
            0,
            10_000,
            50,
        ) {
            Ok(value) => value as u32,
            Err(error) => return Err(error),
        };
        let relaxation_stage_2_delta: u32 = match parse_env_range(
            "RELAXATION_STAGE_2_DELTA",
            NumberType::U32,
            &vars.relaxation_stage_2_delta,
            0,
            10_000,
            100,
        ) {
            Ok(value) => value as u32,
            Err(error) => return Err(error),
        };
        let relaxation_stage_3_delta: u32 = match parse_env_range(
            "RELAXATION_STAGE_3_DELTA",
            NumberType::U32,
            &vars.relaxation_stage_3_delta,
            0,
            10_000,
            200,
        ) {
            Ok(value) => value as u32,
            Err(error) => return Err(error),
        };
        let relaxation_stage_4_delta: u32 = match parse_env_range(
            "RELAXATION_STAGE_4_DELTA",
            NumberType::U32,
            &vars.relaxation_stage_4_delta,
            0,
            10_000,
            400,
        ) {
            Ok(value) => value as u32,
            Err(error) => return Err(error),
        };
        let relaxation_stage_5_delta: u32 = match parse_env_range(
            "RELAXATION_STAGE_5_DELTA",
            NumberType::U32,
            &vars.relaxation_stage_5_delta,
            0,
            10_000,
            9999,
        ) {
            Ok(value) => value as u32,
            Err(error) => return Err(error),
        };
        let config = Config {
            server_port,
            worker_count,
            worker_tick_ms,
            stale_claim_timeout_ms,
            relaxation_stage_1_ms,
            relaxation_stage_2_ms,
            relaxation_stage_3_ms,
            relaxation_stage_4_ms,
            relaxation_stage_1_delta,
            relaxation_stage_2_delta,
            relaxation_stage_3_delta,
            relaxation_stage_4_delta,
            relaxation_stage_5_delta,
        };
        match config.validate() {
            Ok(()) => Ok(config),
            Err(error) => Err(error),
        }
    }
}

/// A variable that is set but does not hold an acceptable number is reported
/// under its name; the default is never taken in its place.
pub proof fn law_set_variable_is_never_passed_over(
    name: Seq<char>,
    number_type: NumberType,
    raw: EnvValue,
    min: u64,
    max: u64,
    default: u64,
)
    requires
        !(raw is Unset),
    ensures
        match setting(name, number_type, raw, min, max, default) {
            Ok(value) => raw matches EnvValue::Text(text) && text::is_number_up_to(
                text::trimmed(text@),
                number_type.max(),
            ) && value == text::number_value(text::trimmed(text@)) && min <= value <= max,
            Err(error) => error matches ConfigErrorView::Invalid { var, .. } && var == name,
        },
{
}

/// Each parameter comes from the variable of its own name: if that one is set and
/// refused, the error names it.
pub proof fn law_parameters_are_read_under_their_names(vars: EnvVars, i: int)
    requires
        0 <= i < VARIABLE_COUNT,
    ensures
        names().len() == VARIABLE_COUNT,
        vars.held().len() == VARIABLE_COUNT,
        vars.settings().len() == VARIABLE_COUNT,
        vars.held()[i] is Unset ==> vars.settings()[i] is Ok,
        vars.held()[i] is NotText ==> vars.settings()[i] is Err,
        vars.settings()[i] matches Err(error) ==> error matches ConfigErrorView::Invalid {
            var,
            ..
        } && var == names()[i],
{
}

/// With no variable set, the configuration is the default one, and it is valid.
pub proof fn law_defaults_are_valid(vars: EnvVars)
    requires
        vars.server_port is Unset,
        vars.worker_count is Unset,
        vars.worker_tick_ms is Unset,
        vars.stale_claim_timeout_ms is Unset,
        vars.relaxation_stage_1_ms is Unset,
        vars.relaxation_stage_2_ms is Unset,
        vars.relaxation_stage_3_ms is Unset,
        vars.relaxation_stage_4_ms is Unset,
        vars.relaxation_stage_1_delta is Unset,
        vars.relaxation_stage_2_delta is Unset,
        vars.relaxation_stage_3_delta is Unset,
        vars.relaxation_stage_4_delta is Unset,
        vars.relaxation_stage_5_delta is Unset,
    ensures
        Config::loaded(vars) == Ok::<Config, ConfigErrorView>(
            Config {
                server_port: 8080,
                worker_count: 4,
                worker_tick_ms: 50,
                stale_claim_timeout_ms: 500,
                relaxation_stage_1_ms: 5000,
                relaxation_stage_2_ms: 15_000,
                relaxation_stage_3_ms: 30_000,
                relaxation_stage_4_ms: 60_000,
                relaxation_stage_1_delta: 50,
                relaxation_stage_2_delta: 100,
                relaxation_stage_3_delta: 200,
                relaxation_stage_4_delta: 400,
                relaxation_stage_5_delta: 9999,
            },
        ),
{
    reveal_with_fuel(first_error, 14);
}

/// What a parameter should be, given what its variable holds: the default if the
/// variable is not set; the number it holds, white space around it aside, if that
/// lies between `min` and `max`; and nothing acceptable otherwise.
pub open spec fn takes(
    parameter: Option<int>,
    raw: EnvValue,
    min: int,
    max: int,
    default: int,
) -> bool {
    match raw {
        EnvValue::Unset => parameter == Some(default),
        EnvValue::NotText => parameter is None,
        EnvValue::Text(text) => {
            let inner = text::trimmed(text@);
            if text::is_number(inner) && min <= text::number_value(inner) <= max {
                parameter == Some(text::number_value(inner) as int)
            } else {
                parameter is None
            }
        },
    }
}

/// A parameter as it was read; `None` for an error.
pub open spec fn accepted(setting: Result<u64, ConfigErrorView>) -> Option<int> {
    match setting {
        Ok(value) => Some(value as int),
        Err(_) => None,
    }
}

/// The range and the default of every variable: each is read as its own number in
/// its own range, however it is written, and refused outside it.
pub proof fn law_every_variable_has_its_range(vars: EnvVars)
    ensures
        ({
            let read = |i: int| accepted(vars.settings()[i]);
            &&& takes(read(0), vars.server_port, 1024, 65_535, 8080)
            &&& takes(read(1), vars.worker_count, 1, 64, 4)
            &&& takes(read(2), vars.worker_tick_ms, 10, 10_000, 50)
            &&& takes(read(3), vars.stale_claim_timeout_ms, 100, 30_000, 500)
            &&& takes(read(4), vars.relaxation_stage_1_ms, 1, 300_000, 5000)
            &&& takes(read(5), vars.relaxation_stage_2_ms, 1, 300_000, 15_000)
            &&& takes(read(6), vars.relaxation_stage_3_ms, 1, 300_000, 30_000)
            &&& takes(read(7), vars.relaxation_stage_4_ms, 1, 300_000, 60_000)
            &&& takes(read(8), vars.relaxation_stage_1_delta, 0, 10_000, 50)
            &&& takes(read(9), vars.relaxation_stage_2_delta, 0, 10_000, 100)
            &&& takes(read(10), vars.relaxation_stage_3_delta, 0, 10_000, 200)
            &&& takes(read(11), vars.relaxation_stage_4_delta, 0, 10_000, 400)
            &&& takes(read(12), vars.relaxation_stage_5_delta, 0, 10_000, 9999)
        }),
{
}

/// A loaded configuration has in every field what the variable of that field says,
/// thresholds that strictly increase, half-widths that never decrease, and a claim
/// timeout above the tick.
pub proof fn law_loaded_configuration_is_what_the_variables_say(vars: EnvVars, config: Config)
    requires
        Config::loaded(vars) == Ok::<Config, ConfigErrorView>(config),
    ensures
        takes(Some(config.server_port as int), vars.server_port, 1024, 65_535, 8080),
        takes(Some(config.worker_count as int), vars.worker_count, 1, 64, 4),
        takes(Some(config.worker_tick_ms as int), vars.worker_tick_ms, 10, 10_000, 50),
        takes(
            Some(config.stale_claim_timeout_ms as int),
            vars.stale_claim_timeout_ms,
            100,
            30_000,
            500,
        ),
        takes(
            Some(config.relaxation_stage_1_ms as int),
            vars.relaxation_stage_1_ms,
            1,
            300_000,
            5000,
        ),
        takes(
            Some(config.relaxation_stage_2_ms as int),
            vars.relaxation_stage_2_ms,
            1,
            300_000,
            15_000,
        ),
        takes(
            Some(config.relaxation_stage_3_ms as int),
            vars.relaxation_stage_3_ms,
            1,
            300_000,
            30_000,
        ),
        takes(
            Some(config.relaxation_stage_4_ms as int),
            vars.relaxation_stage_4_ms,
            1,
            300_000,
            60_000,
        ),
        takes(
            Some(config.relaxation_stage_1_delta as int),
            vars.relaxation_stage_1_delta,
            0,
            10_000,
            50,
        ),
        takes(
            Some(config.relaxation_stage_2_delta as int),
            vars.relaxation_stage_2_delta,
            0,
            10_000,
            100,
        ),
        takes(
            Some(config.relaxation_stage_3_delta as int),
            vars.relaxation_stage_3_delta,
            0,
            10_000,
            200,
        ),
        takes(
            Some(config.relaxation_stage_4_delta as int),
            vars.relaxation_stage_4_delta,
            0,
            10_000,
            400,
        ),
        takes(
            Some(config.relaxation_stage_5_delta as int),
            vars.relaxation_stage_5_delta,
            0,
            10_000,
            9999,
        ),
        config.relaxation_stage_1_ms < config.relaxation_stage_2_ms,
        config.relaxation_stage_2_ms < config.relaxation_stage_3_ms,
        config.relaxation_stage_3_ms < config.relaxation_stage_4_ms,
        config.relaxation_stage_1_delta <= config.relaxation_stage_2_delta,
        config.relaxation_stage_2_delta <= config.relaxation_stage_3_delta,
        config.relaxation_stage_3_delta <= config.relaxation_stage_4_delta,
        config.relaxation_stage_4_delta <= config.relaxation_stage_5_delta,
        config.worker_tick_ms < config.stale_claim_timeout_ms,
{
    reveal_with_fuel(first_error, 14);
    law_every_variable_has_its_range(vars);
}

/// Parameters that are acceptable one by one are refused only if two of them do not
/// fit each other.
pub proof fn law_configuration_is_refused_only_for_a_clash(config: Config)
    ensures
        config.violation() is None <==> {
            &&& config.relaxation_stage_1_ms < config.relaxation_stage_2_ms
            &&& config.relaxation_stage_2_ms < config.relaxation_stage_3_ms
            &&& config.relaxation_stage_3_ms < config.relaxation_stage_4_ms
            &&& config.relaxation_stage_1_delta <= config.relaxation_stage_2_delta
            &&& config.relaxation_stage_2_delta <= config.relaxation_stage_3_delta
            &&& config.relaxation_stage_3_delta <= config.relaxation_stage_4_delta
            &&& config.relaxation_stage_4_delta <= config.relaxation_stage_5_delta
            &&& config.worker_tick_ms < config.stale_claim_timeout_ms
        },
        config.violation() is None <==> config.valid(),
{
}

/// Loading succeeds whenever every variable is acceptable and the parameters fit
/// each other; and of unacceptable variables the first is reported.
pub proof fn law_loading_fails_only_for_a_reason(vars: EnvVars, first: int)
    requires
        0 <= first < 13,
        forall|i: int| 0 <= i < first ==> (#[trigger] vars.settings()[i]) is Ok,
    ensures
        vars.settings()[first] is Err ==> Config::loaded(vars) == Err::<Config, ConfigErrorView>(
            vars.settings()[first]->Err_0,
        ),
        first == 12 && vars.settings()[first] is Ok ==> (Config::loaded(vars) is Ok <==> assembled(
            vars.settings(),
        ).valid()) && !(Config::loaded(vars) matches Err(ConfigErrorView::Invalid { .. })),
{
    reveal_with_fuel(first_error, 14);
    let settings = vars.settings();
    assert(settings.len() == 13);
    assert(0 < first ==> settings[0] is Ok);
    assert(1 < first ==> settings[1] is Ok);
    assert(2 < first ==> settings[2] is Ok);
    assert(3 < first ==> settings[3] is Ok);
    assert(4 < first ==> settings[4] is Ok);
    assert(5 < first ==> settings[5] is Ok);
    assert(6 < first ==> settings[6] is Ok);
    assert(7 < first ==> settings[7] is Ok);
    assert(8 < first ==> settings[8] is Ok);
    assert(9 < first ==> settings[9] is Ok);
    assert(10 < first ==> settings[10] is Ok);
    assert(11 < first ==> settings[11] is Ok);
}

/// A refusal says why: a number outside its range is shown with the range, and a
/// text that is no such number with the type that was expected.
pub proof fn law_refusals_say_why(
    name: Seq<char>,
    number_type: NumberType,
    text: String,
    min: u64,
    max: u64,
    default: u64,
)
    ensures
        ({
            let inner = text::trimmed(text@);
            let refused = setting(name, number_type, EnvValue::Text(text), min, max, default);
            &&& text::is_number(inner) && text::number_value(inner) <= number_type.max() && !(min
                <= text::number_value(inner) <= max) ==> refused == Err::<u64, ConfigErrorView>(
                ConfigErrorView::Invalid {
                    var: name,
                    expected: "a value between "@ + text::decimal(min as nat) + " and "@
                        + text::decimal(max as nat),
                    actual: text::decimal(text::number_value(inner)),
                },
            )
            &&& !text::is_number(inner) || text::number_value(inner) > number_type.max() ==> {
                &&& refused matches Err(ConfigErrorView::Invalid { var, expected, actual })
                &&& var == name
                &&& expected == "a valid "@ + number_type.written()
                &&& actual == text@ + " ("@ + number_type.complaint(inner) + ")"@
            }
        }),
        NumberType::U16.max() == 65_535,
        NumberType::U32.max() == 4_294_967_295,
        NumberType::U64.max() == 18_446_744_073_709_551_615,
{
}

} // verus!
