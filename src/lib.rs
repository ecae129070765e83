//! A DNS-over-HTTPS gateway core: the DNS wire codec for one question, the
//! split between managed and foreign names, the registry decision rules,
//! and the byte-exact responses for each outcome.
pub mod dns;
pub mod text;
pub mod utils;
