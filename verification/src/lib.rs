//! A shell-style command lexer, parser and argument resolver.
//!
//! Free-form multi-line text (chat messages prefixed with a trigger
//! character) is turned into structured command invocations — handling
//! quoting, character and byte escapes, environment-variable interpolation
//! and nested command substitution — and each parsed invocation is then
//! resolved against a pluggable variable environment and a pluggable command
//! executor to produce a single output value.

pub mod classify;
pub mod config;
pub mod context;
pub mod environ;
pub mod executer;
pub mod humanize;
pub mod laws;
pub mod resolve;
pub mod scanner;
pub mod tree;
pub mod trusted;
