//! The error taxonomy of the library, and the user-visible text of each
//! error.

use crate::text::{all_digits, digits_val, u64_to_string, upper_seq, to_ascii_upper};
use vstd::prelude::*;
use vstd::string::StringExecFns;

verus! {

/// Everything that can go wrong while dispatching a completion request.
#[derive(Debug, Clone)]
pub enum LlmaoError {
    /// Configuration errors (invalid route syntax, bad credential format).
    Config(String),

    /// Provider not found among the configured providers.
    ProviderNotFound(String),

    /// Model not supported by the provider.
    ModelNotSupported { provider: String, model: String },

    /// No credentials available (none configured for the provider).
    NoKeysAvailable(String),

    /// Rate limit exceeded; the retry-after delay, when known, is in
    /// milliseconds.
    RateLimited { provider: String, retry_after: Option<u64> },

    /// HTTP request failed.
    Request(String),

    /// Response parsing failed.
    Response(String),

    /// Streaming error.
    Stream(String),

    /// Authentication failed.
    Auth(String),

    /// Request timed out.
    Timeout(String),

    /// Internal error.
    Internal(String),
}

impl LlmaoError {
    /// The user-visible description of the error: it names the provider
    /// where one is involved and suggests a remedy where one exists.
    pub fn message(&self) -> (r: String)
        ensures
            ({
                match self {
                    LlmaoError::Config(msg) => r@ == "Configuration error: "@ + msg@,
                    LlmaoError::ProviderNotFound(name) => r@ == "Provider '"@ + name@
                        + "' not found. Add it to your config with `base_url`."@,
                    LlmaoError::ModelNotSupported { provider, model } => r@ == "Model '"@ + model@
                        + "' not supported by provider '"@ + provider@
                        + "'. Check available models at provider's documentation."@,
                    LlmaoError::NoKeysAvailable(provider) => r@ == "No API keys available for '"@
                        + provider@ + "'. Set "@ + upper_seq(provider@)
                        + "_API_KEY env var or add keys in config.json"@,
                    LlmaoError::RateLimited { provider, retry_after } => match retry_after {
                        Some(ms) => exists|d: Seq<char>|
                            all_digits(d) && digits_val(d) == *ms && r@ == "Rate limited by '"@
                                + provider@ + "', retry after "@ + d + " ms"@,
                        None => r@ == "Rate limited by '"@ + provider@
                            + "'. Consider adding more API keys for rotation."@,
                    },
                    LlmaoError::Request(msg) => r@ == "Request failed: "@ + msg@,
                    LlmaoError::Response(msg) => r@ == "Response error: "@ + msg@,
                    LlmaoError::Stream(msg) => r@ == "Streaming error: "@ + msg@,
                    LlmaoError::Auth(msg) => r@ == "Authentication failed: "@ + msg@
                        + ". Check your API key."@,
                    LlmaoError::Timeout(msg) => r@ == "Request timeout: "@ + msg@,
                    LlmaoError::Internal(msg) => r@ == "Internal error: "@ + msg@
                        + ". Please report this issue."@,
                }
            }),
    {
        match self {
            LlmaoError::Config(msg) => {
                let mut s = String::from_str("Configuration error: ");
                s.append(msg.as_str());
                s
            }
            LlmaoError::ProviderNotFound(name) => {
                let mut s = String::from_str("Provider '");
                s.append(name.as_str());
                s.append("' not found. Add it to your config with `base_url`.");
                s
            }
            LlmaoError::ModelNotSupported { provider, model } => {
                let mut s = String::from_str("Model '");
                s.append(model.as_str());
                s.append("' not supported by provider '");
                s.append(provider.as_str());
                s.append("'. Check available models at provider's documentation.");
                s
            }
            LlmaoError::NoKeysAvailable(provider) => {
                let mut s = String::from_str("No API keys available for '");
                s.append(provider.as_str());
                s.append("'. Set ");
                let up = to_ascii_upper(provider.as_str());
                s.append(up.as_str());
                s.append("_API_KEY env var or add keys in config.json");
                s
            }
            LlmaoError::RateLimited { provider, retry_after } => {
                match retry_after {
                    Some(ms) => {
                        let mut s = String::from_str("Rate limited by '");
                        s.append(provider.as_str());
                        s.append("', retry after ");
                        let d = u64_to_string(*ms);
                        s.append(d.as_str());
                        s.append(" ms");
                        proof {
                            assert(all_digits(d@) && digits_val(d@) == *ms && s@
                                == "Rate limited by '"@ + provider@ + "', retry after "@ + d@
                                + " ms"@);
                        }
                        s
                    }
                    None => {
                        let mut s = String::from_str("Rate limited by '");
                        s.append(provider.as_str());
                        s.append("'. Consider adding more API keys for rotation.");
                        s
                    }
                }
            }
            LlmaoError::Request(msg) => {
                let mut s = String::from_str("Request failed: ");
                s.append(msg.as_str());
                s
            }
            LlmaoError::Response(msg) => {
                let mut s = String::from_str("Response error: ");
                s.append(msg.as_str());
                s
            }
            LlmaoError::Stream(msg) => {
                let mut s = String::from_str("Streaming error: ");
                s.append(msg.as_str());
                s
            }
            LlmaoError::Auth(msg) => {
                let mut s = String::from_str("Authentication failed: ");
                s.append(msg.as_str());
                s.append(". Check your API key.");
                s
            }
            LlmaoError::Timeout(msg) => {
                let mut s = String::from_str("Request timeout: ");
                s.append(msg.as_str());
                s
            }
            LlmaoError::Internal(msg) => {
                let mut s = String::from_str("Internal error: ");
                s.append(msg.as_str());
                s.append(". Please report this issue.");
                s
            }
        }
    }
}

/// How a failed transport attempt is classified, given the flags the
/// HTTP layer reports about it: a timeout, a connection failure, a
/// body-decoding failure, or any other request failure.
pub open spec fn spec_transport_error(
    e: LlmaoError,
    is_timeout: bool,
    is_connect: bool,
    is_decode: bool,
    text: Seq<char>,
) -> bool {
    if is_timeout {
        e matches LlmaoError::Timeout(m) && m@ == text
    } else if is_connect {
        e matches LlmaoError::Request(m) && m@ == "Connection failed: "@ + text
    } else if is_decode {
        e matches LlmaoError::Response(m) && m@ == "Failed to decode response: "@ + text
    } else {
        e matches LlmaoError::Request(m) && m@ == text
    }
}

/// Classify a failed transport attempt.
pub fn classify_transport_error(is_timeout: bool, is_connect: bool, is_decode: bool, text: String)
    -> (r: LlmaoError)
    ensures
        spec_transport_error(r, is_timeout, is_connect, is_decode, text@),
{
    if is_timeout {
        LlmaoError::Timeout(text)
    } else if is_connect {
        let mut s = String::from_str("Connection failed: ");
        s.append(text.as_str());
        LlmaoError::Request(s)
    } else if is_decode {
        let mut s = String::from_str("Failed to decode response: ");
        s.append(text.as_str());
        LlmaoError::Response(s)
    } else {
        LlmaoError::Request(text)
    }
}

} // verus!
