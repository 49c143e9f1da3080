//! The verified core of `notify`: configuration profiles, account resolution and management,
//! Slack payloads, email composition, HTTP requests and answers, error categories, timestamps
//! and the command lines behind desktop notifications.

pub mod account;
pub mod cli;
pub mod client;
pub mod commands;
pub mod config;
pub mod error;
pub mod json;
pub mod system;
pub mod text;
