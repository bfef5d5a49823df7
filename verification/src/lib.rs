//! Admission gateway logic: proof-of-work challenges, answer validation,
//! bounded-lifetime admission records and upstream selection.

pub mod acceptor;
pub mod admission;
pub mod args;
pub mod cache;
pub mod challenge;
pub mod cleanup;
pub mod decimal;
pub mod digest;
pub mod entropy;
pub mod error;
pub mod factors;
pub mod json_types;
pub mod primes;
pub mod routing;
pub mod store;
pub mod table;
pub mod template;
pub mod text;
pub mod validate;
pub mod wire;
