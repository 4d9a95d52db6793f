//! What can go wrong while an INI text is read or written.

use crate::text::{append_decimal, decimal};
use vstd::prelude::*;
use vstd::string::StringExecFns;

verus! {

/// The failures of the INI reader and writer.
#[derive(Debug, PartialEq, Eq)]
pub enum Error {
    /// A line does not follow the grammar. Holds the line, 0 where a text
    /// is written, and what was expected.
    Syntax(usize, String),
    /// A value is no truth value. Holds the line and the reason.
    ParseBoolError(usize, String),
    /// A value is no number. Holds the line and the reason.
    ParseIntError(usize, String),
    /// The input could not be read as text. Holds the reason.
    Io(String),
}

/// The mathematical content of an `Error`.
pub enum Flaw {
    Syntax(nat, Seq<char>),
    ParseBoolError(nat, Seq<char>),
    ParseIntError(nat, Seq<char>),
    Io(Seq<char>),
}

impl View for Error {
    type V = Flaw;

    open spec fn view(&self) -> Flaw {
        match *self {
            Error::Syntax(line, reason) => Flaw::Syntax(line as nat, reason@),
            Error::ParseBoolError(line, reason) => Flaw::ParseBoolError(line as nat, reason@),
            Error::ParseIntError(line, reason) => Flaw::ParseIntError(line as nat, reason@),
            Error::Io(reason) => Flaw::Io(reason@),
        }
    }
}

/// The text that describes a failure to a reader.
pub open spec fn describe(flaw: Flaw) -> Seq<char> {
    match flaw {
        Flaw::Syntax(line, reason) => "Syntax Error at line "@ + decimal(line) + ": "@ + reason,
        Flaw::ParseBoolError(line, reason) => "Format Error at line "@ + decimal(line) + ": "@
            + reason,
        Flaw::ParseIntError(line, reason) => "Format Error at line "@ + decimal(line) + ": "@
            + reason,
        Flaw::Io(reason) => reason,
    }
}

impl Error {
    /// Describes the failure in one line of text.
    pub fn to_string(&self) -> (s: String)
        ensures
            s@ == describe(self@),
    {
        let mut s = String::new();
        match self {
            Error::Syntax(line, reason) => {
                s.append("Syntax Error at line ");
                append_decimal(&mut s, *line as u64);
                s.append(": ");
                s.append(reason.as_str());
                assert(s@ =~= describe(self@));
            },
            Error::ParseBoolError(line, reason) => {
                s.append("Format Error at line ");
                append_decimal(&mut s, *line as u64);
                s.append(": ");
                s.append(reason.as_str());
                assert(s@ =~= describe(self@));
            },
            Error::ParseIntError(line, reason) => {
                s.append("Format Error at line ");
                append_decimal(&mut s, *line as u64);
                s.append(": ");
                s.append(reason.as_str());
                assert(s@ =~= describe(self@));
            },
            Error::Io(reason) => {
                s.append(reason.as_str());
                assert(s@ =~= describe(self@));
            },
        }
        s
    }
}

} // verus!
