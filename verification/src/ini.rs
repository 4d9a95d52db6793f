//! The flat INI format: sections written `[name]`, properties written
//! `key = value`, comments that start with `;`. Sections do not nest.

pub mod error;
pub mod event;
pub mod grammar;
pub mod reader;
pub mod writer;

pub use self::error::Error;
pub use self::event::{EventReader, IniEvent};
pub use self::reader::{IniReader, Section};
pub use self::writer::IniWriter;
