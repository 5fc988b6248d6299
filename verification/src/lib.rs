//! A simple bidder for a proof market: a fixed amount on large orders, a smaller one on
//! small orders where they are enabled.
//!
//! [`bidder`] holds the policy, [`cycle`] turns what happened into what to do next, and
//! [`laws`] states what holds throughout.
pub mod amount;
pub mod bidder;
pub mod binary64;
pub mod classification;
pub mod cycle;
pub mod decimal;
pub mod env;
pub mod hex_text;
pub mod history;
pub mod laws;
pub mod messages;
pub mod metrics;
pub mod number;
pub mod operations;
pub mod prove_amount;
pub mod request;
pub mod rounding;
pub mod text;
pub mod transitions;
