//! The settings of the service, and how they are made from the texts that
//! the environment holds.

use crate::text::{digits_value, is_digit, to_chars};
use vstd::prelude::*;
use vstd::string::*;

verus! {

/// Where the service listens and how it reaches its backends.
#[derive(Clone, Debug)]
pub struct Config {
    /// The address to listen on.
    pub host: String,
    /// The port to listen on.
    pub port: u16,
    /// The key for the vector store.
    pub turbopuffer_api_key: String,
    /// The namespace of the vector store that holds the corpus.
    pub turbopuffer_namespace: String,
    /// The key for the embedding provider.
    pub voyage_api_key: String,
}

/// Why the settings could not be made.
#[derive(Clone, Copy, Debug, PartialEq, Eq, Structural)]
pub enum ConfigError {
    /// The port is not a number from 0 to 65535.
    InvalidPort,
    /// The key for the vector store is missing.
    MissingTurbopufferKey,
    /// The key for the embedding provider is missing.
    MissingVoyageKey,
}

impl ConfigError {
    /// The text that describes the failure.
    pub fn message(&self) -> (text: String)
        ensures
            text@ == match *self {
                ConfigError::InvalidPort => "failed to parse PORT"@,
                ConfigError::MissingTurbopufferKey => "TURBOPUFFER_API_KEY must be set"@,
                ConfigError::MissingVoyageKey => "VOYAGE_API_TOKEN must be set"@,
            },
    {
        match self {
            ConfigError::InvalidPort => "failed to parse PORT".to_owned(),
            ConfigError::MissingTurbopufferKey => "TURBOPUFFER_API_KEY must be set".to_owned(),
            ConfigError::MissingVoyageKey => "VOYAGE_API_TOKEN must be set".to_owned(),
        }
    }
}

/// A text without the `+` in front of it, if there is one.
pub open spec fn without_plus(text: Seq<char>) -> Seq<char> {
    if text.len() > 0 && text.first() == '+' {
        text.drop_first()
    } else {
        text
    }
}

/// The port that a text stands for: the text is one or more digits, with or
/// without a `+` in front, and the number is at most 65535.
pub open spec fn port_of(text: Seq<char>) -> Option<u16> {
    let digits = without_plus(text);
    if digits.len() > 0 && (forall|i: int| 0 <= i < digits.len() ==> is_digit(#[trigger] digits[i]))
        && digits_value(digits) <= 65535 {
        Some(digits_value(digits) as u16)
    } else {
        None
    }
}

/// A row of digits stands for at least what any of its beginnings stands
/// for.
proof fn lemma_digits_value_grows(digits: Seq<char>, n: int)
    requires
        0 <= n <= digits.len(),
        forall|i: int| 0 <= i < digits.len() ==> is_digit(#[trigger] digits[i]),
    ensures
        digits_value(digits.take(n)) <= digits_value(digits),
    decreases digits.len() - n,
{
    if n == digits.len() {
        assert(digits.take(n) == digits);
    } else {
        lemma_digits_value_grows(digits, n + 1);
        assert(digits.take(n + 1).drop_last() == digits.take(n));
        assert(is_digit(digits[n]));
        assert(digits.take(n + 1).last() == digits[n]);
    }
}

/// Reads a port number.
pub fn parse_port(text: &str) -> (port: Option<u16>)
    ensures
        port == port_of(text@),
{
    let chars = to_chars(text);
    let start: usize = if chars.len() > 0 && chars[0] == '+' {
        1
    } else {
        0
    };
    let ghost digits = chars@.skip(start as int);
    assert(start == 1 ==> digits == text@.drop_first());
    assert(start == 0 ==> digits == text@);
    assert(digits == without_plus(text@));
    if start == chars.len() {
        return None;
    }
    let mut value: u32 = 0;
    let mut i: usize = start;
    assert(digits.take(0) =~= Seq::<char>::empty());
    while i < chars.len()
        invariant
            start <= i <= chars.len(),
            digits == chars@.skip(start as int),
            digits == without_plus(text@),
            forall|j: int| 0 <= j < i - start ==> is_digit(#[trigger] digits[j]),
            value == digits_value(digits.take(i - start)),
            value <= 65535,
        decreases chars.len() - i,
    {
        let c = chars[i];
        assert(digits[i - start] == c);
        if !('0' <= c && c <= '9') {
            return None;
        }
        let d: u32 = c as u32 - '0' as u32;
        let next: u32 = value * 10 + d;
        proof {
            assert(digits.take(i - start + 1).drop_last() == digits.take(i - start));
            assert(digits.take(i - start + 1).last() == c);
            assert(next == digits_value(digits.take(i - start + 1)));
        }
        if next > 65535 {
            proof {
                if forall|j: int| 0 <= j < digits.len() ==> is_digit(#[trigger] digits[j]) {
                    lemma_digits_value_grows(digits, i - start + 1);
                }
            }
            return None;
        }
        value = next;
        i += 1;
    }
    assert(digits.take(i - start) == digits);
    Some(value as u16)
}

/// The text of an optional setting, or its default.
pub open spec fn text_or(setting: Option<String>, default: Seq<char>) -> Seq<char> {
    match setting {
        Some(text) => text@,
        None => default,
    }
}

/// The text of an optional setting, or its default.
fn setting_or(setting: Option<String>, default: &str) -> (text: String)
    ensures
        text@ == text_or(setting, default@),
{
    match setting {
        Some(text) => text,
        None => default.to_owned(),
    }
}

impl Config {
    /// Makes the settings from the texts that the environment holds, each
    /// `None` where the environment does not name it.
    ///
    /// The address defaults to `0.0.0.0`, the port to `8080` and the
    /// namespace to `bufos`; the two keys have no default. A port that is
    /// not a number is reported first, then a missing key for the vector
    /// store, then a missing key for the embedding provider.
    pub fn from_values(
        host: Option<String>,
        port: Option<String>,
        turbopuffer_api_key: Option<String>,
        turbopuffer_namespace: Option<String>,
        voyage_api_key: Option<String>,
    ) -> (made: Result<Config, ConfigError>)
        ensures
            match made {
                Ok(config) => {
                    &&& config.host@ == text_or(host, "0.0.0.0"@)
                    &&& port_of(text_or(port, "8080"@)) == Some(config.port)
                    &&& turbopuffer_api_key == Some(config.turbopuffer_api_key)
                    &&& config.turbopuffer_namespace@ == text_or(turbopuffer_namespace, "bufos"@)
                    &&& voyage_api_key == Some(config.voyage_api_key)
                },
                Err(ConfigError::InvalidPort) => port_of(text_or(port, "8080"@)) is None,
                Err(ConfigError::MissingTurbopufferKey) => port_of(text_or(port, "8080"@)) is Some
                    && turbopuffer_api_key is None,
                Err(ConfigError::MissingVoyageKey) => port_of(text_or(port, "8080"@)) is Some
                    && turbopuffer_api_key is Some && voyage_api_key is None,
            },
    {
        let host = setting_or(host, "0.0.0.0");
        let port_text = setting_or(port, "8080");
        let port = match parse_port(port_text.as_str()) {
            Some(port) => port,
            None => {
                return Err(ConfigError::InvalidPort);
            },
        };
        let turbopuffer_api_key = match turbopuffer_api_key {
            Some(key) => key,
            None => {
                return Err(ConfigError::MissingTurbopufferKey);
            },
        };
        let turbopuffer_namespace = setting_or(turbopuffer_namespace, "bufos");
        let voyage_api_key = match voyage_api_key {
            Some(key) => key,
            None => {
                return Err(ConfigError::MissingVoyageKey);
            },
        };
        Ok(Config { host, port, turbopuffer_api_key, turbopuffer_namespace, voyage_api_key })
    }
}

/// The default port text stands for port 8080.
pub proof fn lemma_default_port()
    ensures
        port_of("8080"@) == Some(8080u16),
{
    reveal_strlit("8080");
    let digits = "8080"@;
    assert(digits.len() == 4);
    assert(digits.drop_last() =~= seq!['8', '0', '8']);
    assert(digits.drop_last().drop_last() =~= seq!['8', '0']);
    assert(digits.drop_last().drop_last().drop_last() =~= seq!['8']);
    assert(digits.drop_last().drop_last().drop_last().drop_last() =~= Seq::<char>::empty());
    reveal_with_fuel(digits_value, 5);
    assert(digits_value(digits) == 8080);
}

} // verus!
