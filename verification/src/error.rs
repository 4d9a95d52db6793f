//! What can go wrong while a configuration is read, converted or validated.

use crate::text::{append_decimal, decimal};
use vstd::prelude::*;
use vstd::string::StringExecFns;

verus! {

/// The failures of this library. Every failure ends the operation that met
/// it; the first one met is the one reported.
#[derive(Debug, PartialEq, Eq)]
pub enum ConfigError {
    /// The input could not be read as text. Holds the reason.
    Io(String),
    /// A key is not acceptable. Holds the line and the key.
    InvalidKey(usize, String),
    /// A property's value cannot be converted or does not pass its
    /// validator. Holds the property's line and name.
    InvalidProperty(usize, String),
    /// A line is neither a comment, a section header nor a property, or a
    /// section header asks for a depth that is not open. Holds the line.
    InvalidFormat(usize),
    /// A required property is absent. Holds the section's line and the
    /// property's name.
    MissingProperty(usize, String),
}

/// The mathematical content of a `ConfigError`.
pub enum Fault {
    Io(Seq<char>),
    InvalidKey(nat, Seq<char>),
    InvalidProperty(nat, Seq<char>),
    InvalidFormat(nat),
    MissingProperty(nat, Seq<char>),
}

impl View for ConfigError {
    type V = Fault;

    open spec fn view(&self) -> Fault {
        match *self {
            ConfigError::Io(reason) => Fault::Io(reason@),
            ConfigError::InvalidKey(line, key) => Fault::InvalidKey(line as nat, key@),
            ConfigError::InvalidProperty(line, name) => Fault::InvalidProperty(line as nat, name@),
            ConfigError::InvalidFormat(line) => Fault::InvalidFormat(line as nat),
            ConfigError::MissingProperty(line, name) => Fault::MissingProperty(line as nat, name@),
        }
    }
}

/// The text that describes a failure to a reader.
pub open spec fn message(fault: Fault) -> Seq<char> {
    match fault {
        Fault::Io(reason) => "Config: "@ + reason,
        Fault::InvalidKey(line, key) => "Config: invalid key '"@ + key + "' at line "@ + decimal(
            line,
        ),
        Fault::InvalidProperty(line, name) => "Config: invalid property '"@ + name
            + "' at line "@ + decimal(line),
        Fault::InvalidFormat(line) => "Config: invalid format at line "@ + decimal(line),
        Fault::MissingProperty(line, name) => "Config: missing required property '"@ + name
            + "' at line "@ + decimal(line),
    }
}

impl ConfigError {
    /// Describes the failure in one line of text.
    pub fn to_string(&self) -> (s: String)
        ensures
            s@ == message(self@),
    {
        let mut s = String::new();
        match self {
            ConfigError::Io(reason) => {
                s.append("Config: ");
                s.append(reason.as_str());
                assert(s@ =~= message(self@));
            },
            ConfigError::InvalidKey(line, key) => {
                s.append("Config: invalid key '");
                s.append(key.as_str());
                s.append("' at line ");
                append_decimal(&mut s, *line as u64);
                assert(s@ =~= message(self@));
            },
            ConfigError::InvalidProperty(line, name) => {
                s.append("Config: invalid property '");
                s.append(name.as_str());
                s.append("' at line ");
                append_decimal(&mut s, *line as u64);
                assert(s@ =~= message(self@));
            },
            ConfigError::InvalidFormat(line) => {
                s.append("Config: invalid format at line ");
                append_decimal(&mut s, *line as u64);
                assert(s@ =~= message(self@));
            },
            ConfigError::MissingProperty(line, name) => {
                s.append("Config: missing required property '");
                s.append(name.as_str());
                s.append("' at line ");
                append_decimal(&mut s, *line as u64);
                assert(s@ =~= message(self@));
            },
        }
        s
    }
}

} // verus!
