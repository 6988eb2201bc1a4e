//! Core of a one-shot price-alert service over a streaming market-quote feed.
//!
//! The library covers the feed pipeline: loading the instrument registry,
//! building the session's subscribe payload, decoding the binary tick
//! protocol, evaluating ticks against threshold rules, and guaranteeing that
//! each rule fires at most once. All I/O (the auth request, the streaming
//! transport, the rule-management front end) lives outside the library and
//! hands it plain values.

pub mod bytes;
pub mod codec;
pub mod errors;
pub mod evaluator;
pub mod json;
pub mod notifier;
pub mod registry;
pub mod rules;
pub mod session;
