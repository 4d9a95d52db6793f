//! The INI writer: it appends headers and properties to a text.

use crate::ini::error::{Error, Flaw};
use crate::text::{append_chars, chars_of, skip_both, skip_start, trim, trim_start};
use vstd::prelude::*;
use vstd::string::StringExecFns;
use vstd::utf8::encode_utf8;

verus! {

/// What is reported of a section without name.
pub open spec fn missing_section_name() -> Seq<char> {
    "Syntax Error: missing section name"@
}

/// What is reported of a property without name.
pub open spec fn missing_property_name() -> Seq<char> {
    "Syntax Error: missing property name"@
}

/// The empty line and the header of the section called `name`.
pub open spec fn section_text(name: Seq<char>) -> Seq<char> {
    "\n["@ + name + "]\n"@
}

/// The line of one property.
pub open spec fn property_text(key: Seq<char>, value: Seq<char>) -> Seq<char> {
    key + " = "@ + value + "\n"@
}

/// A writer of INI text. What it writes is UTF-8.
pub struct IniWriter {
    writer: Vec<u8>,
}

impl View for IniWriter {
    type V = Seq<u8>;

    closed spec fn view(&self) -> Seq<u8> {
        self.writer@
    }
}

impl IniWriter {
    /// Creates a writer that appends to `dst`.
    pub fn new(dst: Vec<u8>) -> (writer: IniWriter)
        ensures
            writer@ == dst@,
    {
        IniWriter { writer: dst }
    }

    /// Appends `text` as UTF-8.
    fn write(&mut self, text: &str)
        ensures
            final(self)@ == old(self)@ + encode_utf8(text@),
    {
        self.writer.extend_from_slice(text.as_bytes());
        assert(self@ =~= old(self)@ + encode_utf8(text@));
    }

    /// Writes the header of a section: an empty line, then the trimmed name
    /// in brackets. A name that is empty or all whitespace is refused, and
    /// nothing is written.
    pub fn write_section(&mut self, name: &str) -> (r: Result<(), Error>)
        ensures
            match r {
                Ok(_) => trim(name@).len() > 0 && final(self)@ == old(self)@ + encode_utf8(
                    section_text(trim(name@)),
                ),
                Err(e) => trim(name@).len() == 0 && e@ == Flaw::Syntax(0, missing_section_name())
                    && final(self)@ == old(self)@,
            },
    {
        let chars = chars_of(name);
        let trimmed = skip_both(chars.as_slice());
        if trimmed.len() == 0 {
            return Err(Error::Syntax(0, String::from_str("Syntax Error: missing section name")));
        }
        let mut line = String::from_str("\n[");
        append_chars(&mut line, trimmed);
        line.append("]\n");
        self.write(line.as_str());
        Ok(())
    }

    /// Writes one property, `key = value`, with the key trimmed at its
    /// start. A property with an empty value is passed over: nothing is
    /// written and nothing fails. Otherwise a key that is empty or all
    /// whitespace is refused, and nothing is written.
    pub fn write_property(&mut self, key: &str, value: &str) -> (r: Result<(), Error>)
        ensures
            match r {
                Ok(_) => if value@.len() == 0 {
                    final(self)@ == old(self)@
                } else {
                    trim_start(key@).len() > 0 && final(self)@ == old(self)@ + encode_utf8(
                        property_text(trim_start(key@), value@),
                    )
                },
                Err(e) => value@.len() > 0 && trim_start(key@).len() == 0 && e@ == Flaw::Syntax(
                    0,
                    missing_property_name(),
                ) && final(self)@ == old(self)@,
            },
    {
        if value.is_empty() {
            return Ok(());
        }
        let chars = chars_of(key);
        let trimmed = skip_start(chars.as_slice());
        if trimmed.len() == 0 {
            return Err(Error::Syntax(0, String::from_str("Syntax Error: missing property name")));
        }
        let mut line = String::new();
        append_chars(&mut line, trimmed);
        line.append(" = ");
        line.append(value);
        line.append("\n");
        proof {
            assert(line@ =~= property_text(trim_start(key@), value@));
        }
        self.write(line.as_str());
        Ok(())
    }

    /// Gives back what was written, behind what the writer started with.
    pub fn into_inner(self) -> (dst: Vec<u8>)
        ensures
            dst@ == self@,
    {
        self.writer
    }
}

} // verus!
