//! The data model of the text-generation client: providers, errors and the
//! retry decision.  The network calls themselves live outside the library;
//! the decisions they depend on are verified here.

use vstd::prelude::*;

verus! {

/// A text-generation backend.
#[derive(Debug, Clone, PartialEq)]
pub enum AiProvider {
    Ollama { base_url: String, model: String },
    Anthropic { api_key: String, model: String },
}

/// What can go wrong when generating text.
#[derive(Debug, Clone, PartialEq)]
pub enum AiClientError {
    RequestError(String),
    HttpError { status_code: u16, message: String },
    ParseError(String),
    ConfigError(String),
}

impl AiClientError {
    /// A short label naming the error kind, for reporting.
    pub fn kind(&self) -> (r: &'static str)
        ensures
            match self {
                AiClientError::RequestError(_) => r@ == "request error"@,
                AiClientError::HttpError { .. } => r@ == "http error"@,
                AiClientError::ParseError(_) => r@ == "parse error"@,
                AiClientError::ConfigError(_) => r@ == "config error"@,
            },
    {
        match self {
            AiClientError::RequestError(_) => "request error",
            AiClientError::HttpError { .. } => "http error",
            AiClientError::ParseError(_) => "parse error",
            AiClientError::ConfigError(_) => "config error",
        }
    }
}

/// Whether a failed call with this HTTP status is worth retrying: rate
/// limiting, server errors and overload are; everything else is not.
pub open spec fn spec_retryable(status_code: u16) -> bool {
    status_code == 429 || status_code == 500 || status_code == 502 || status_code == 503
        || status_code == 504 || status_code == 529
}

/// The retry decision for one HTTP status code.
pub fn is_retryable_status(status_code: u16) -> (r: bool)
    ensures
        r == spec_retryable(status_code),
{
    match status_code {
        429 | 500 | 502 | 503 | 504 | 529 => true,
        _ => false,
    }
}

} // verus!
