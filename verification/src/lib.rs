//! Request limiting and proxy routing for a small web application firewall.
pub mod config;
pub mod random;
pub mod rate_limit;
pub mod routing;
mod text;
