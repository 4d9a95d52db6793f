//! A small configuration-file engine: a text format of nested sections and
//! `key = value` properties, typed access to the values, a writer for the same
//! format, and schemas that describe what a configuration must hold.
//!
//! Beside it stands a reader and a writer for flat INI texts.

pub mod config;
pub mod convert;
pub mod error;
pub mod ini;
pub mod number;
pub mod parser;
pub mod roundtrip;
pub mod schema;
pub mod text;
pub mod writer;

pub use crate::config::{Config, Property};
pub use crate::convert::{FromProperty, ToValue};
pub use crate::error::ConfigError;
pub use crate::ini::{Error, EventReader, IniEvent, IniReader, IniWriter, Section};
pub use crate::schema::{Rule, Schema, Validator};
