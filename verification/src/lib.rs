//! Unified access to remote chat-completion providers: model routing,
//! credential rotation, rate-limit tracking, retry planning, and
//! reconstruction of streamed responses.

pub mod api;
pub mod assoc;
pub mod client;
pub mod config;
pub mod json;
pub mod duration;
pub mod error;
pub mod key_pool;
pub mod rate_limit;
pub mod stream;
pub mod transport;
pub mod route;
pub mod text;
