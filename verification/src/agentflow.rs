//! The request-handling rules of a small web service: roles, errors, configuration,
//! login and token checks, and log timestamps.

pub mod config;
pub mod error;
pub mod log;
pub mod message;
pub mod model_error;
pub mod web;
pub mod web_error;
