//! A round-robin HTTP load balancer with a sliding-window rate limiter,
//! an HTTP request-head interpreter and the command-line options, read by clap.

pub mod text;
pub mod response;
pub mod interpreter;
pub mod clock;
pub mod rate_limiting;
pub mod errors;
pub mod load_balancer;
pub mod args;
pub mod responder;
