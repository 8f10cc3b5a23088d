//! Per-client fixed-window rate limiting for HTTP handlers: the client
//! address selection, the counter window arithmetic and the decision that
//! turns a counter value into a response.

pub mod headers;
pub mod ip_extractor;
pub mod numeric_text;
pub mod rate_limit;
