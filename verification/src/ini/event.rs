//! The INI reader that hands out one event at a time.
//!
//! The reader holds the text and a position in it. Each call of `next` reads
//! on to the next line that says something and reports it. Between two
//! sections it reports the end of the first before the start of the second.

use crate::ini::error::{Error, Flaw};
use crate::ini::grammar::{read_ini_line, tokenize, IniLine, IniToken};
use crate::ini::reader::{expected_bracket, expected_delimiter};
use crate::text::{decode, lemma_byte_lines_decoded, lines, split_lines};
use vstd::prelude::*;
use vstd::string::StringExecFns;
use vstd::utf8::{
    decode_utf8, encode_utf8, encode_utf8_decode_utf8, encode_utf8_valid_utf8, valid_utf8,
};

verus! {

/// What the event reader finds next.
#[derive(Debug, PartialEq, Eq)]
pub enum IniEvent {
    /// Beginning of a section. Holds the section's name.
    StartSection(String),
    /// End of the section that was open.
    EndSection,
    /// A pair of key and value.
    Property(String, String),
    /// End of the text.
    EndDocument,
}

/// The mathematical content of an `IniEvent`.
pub enum Event {
    StartSection(Seq<char>),
    EndSection,
    Property(Seq<char>, Seq<char>),
    EndDocument,
}

impl View for IniEvent {
    type V = Event;

    open spec fn view(&self) -> Event {
        match *self {
            IniEvent::StartSection(name) => Event::StartSection(name@),
            IniEvent::EndSection => Event::EndSection,
            IniEvent::Property(key, value) => Event::Property(key@, value@),
            IniEvent::EndDocument => Event::EndDocument,
        }
    }
}

/// The state of an event reader.
pub struct Cursor {
    /// The lines of the text.
    pub lines: Seq<Seq<char>>,
    /// How many lines were read. This is also the number of the line that
    /// was read last.
    pub read: nat,
    /// Whether a section is open.
    pub in_section: bool,
    /// The line that is read once more before the text goes on: the header
    /// that ended the open section.
    pub replay: Option<Seq<char>>,
}

/// What a line that says something does to the reader, and what is reported
/// of it. A header ends the open section first, and is read once more.
pub open spec fn report(cursor: Cursor, raw: Seq<char>) -> (Cursor, Result<Event, Flaw>)
    recommends
        !(read_ini_line(raw) is Blank),
{
    match read_ini_line(raw) {
        IniLine::Blank => (cursor, Ok(Event::EndDocument)),
        IniLine::Section { name } => if cursor.in_section {
            (Cursor { in_section: false, replay: Some(raw), ..cursor }, Ok(Event::EndSection))
        } else {
            (Cursor { in_section: true, ..cursor }, Ok(Event::StartSection(name)))
        },
        IniLine::Unclosed => if cursor.in_section {
            (Cursor { in_section: false, replay: Some(raw), ..cursor }, Ok(Event::EndSection))
        } else {
            (
                Cursor { in_section: true, ..cursor },
                Err(Flaw::Syntax(cursor.read, expected_bracket())),
            )
        },
        IniLine::Property { key, value } => (cursor, Ok(Event::Property(key, value))),
        IniLine::Undelimited => (cursor, Err(Flaw::Syntax(cursor.read, expected_delimiter()))),
    }
}

/// One call of `next`: the state after it, and what it returns. Blank lines
/// and comments are passed over; at the end of the text the state stays as it
/// is.
pub open spec fn advance(cursor: Cursor) -> (Cursor, Result<Event, Flaw>)
    decreases cursor.lines.len() - cursor.read, (if cursor.replay is Some {
            1nat
        } else {
            0nat
        }),
{
    match cursor.replay {
        Some(raw) => {
            let rested = Cursor { replay: None, ..cursor };
            if read_ini_line(raw) is Blank {
                advance(rested)
            } else {
                report(rested, raw)
            }
        },
        None => if cursor.read >= cursor.lines.len() {
            (cursor, Ok(Event::EndDocument))
        } else {
            let raw = cursor.lines[cursor.read as int];
            let moved = Cursor { read: cursor.read + 1, ..cursor };
            if read_ini_line(raw) is Blank {
                advance(moved)
            } else {
                report(moved, raw)
            }
        },
    }
}

/// A reader that reports the content of an INI text event by event.
pub struct EventReader {
    lines: Vec<Vec<char>>,
    line: usize,
    parse_section: bool,
    skip_read: Option<usize>,
}

impl View for EventReader {
    type V = Cursor;

    closed spec fn view(&self) -> Cursor {
        Cursor {
            lines: Seq::new(self.lines@.len(), |i: int| self.lines@[i]@),
            read: self.line as nat,
            in_section: self.parse_section,
            replay: match self.skip_read {
                Some(i) => if i < self.lines@.len() {
                    Some(self.lines@[i as int]@)
                } else {
                    None
                },
                None => None,
            },
        }
    }
}

impl EventReader {
    /// Creates a reader at the start of `source`.
    pub fn new(source: &str) -> (reader: EventReader)
        ensures
            reader@ == (Cursor {
                lines: lines(source@),
                read: 0,
                in_section: false,
                replay: None,
            }),
    {
        let raw = split_lines(source.as_bytes());
        let n: usize = raw.len();
        let mut texts: Vec<Vec<char>> = Vec::new();
        let mut i: usize = 0;
        proof {
            encode_utf8_valid_utf8(source@);
            encode_utf8_decode_utf8(source@);
            lemma_byte_lines_decoded(encode_utf8(source@));
        }
        while i < n
            invariant
                i <= n,
                n == raw@.len(),
                raw@.len() == lines(source@).len(),
                forall|j: int|
                    0 <= j < n ==> valid_utf8((#[trigger] raw@[j])@) && decode_utf8(raw@[j]@)
                        == lines(source@)[j],
                texts@.len() == i,
                forall|j: int| 0 <= j < i ==> (#[trigger] texts@[j])@ == lines(source@)[j],
            decreases n - i,
        {
            if let Some(text) = decode(raw[i]) {
                texts.push(text);
            }
            i += 1;
        }
        let reader = EventReader { lines: texts, line: 0, parse_section: false, skip_read: None };
        proof {
            assert(reader@.lines =~= lines(source@));
        }
        reader
    }

    /// Reports the line `index`, which was classified as `token`.
    fn report(&mut self, index: usize, token: IniToken) -> (r: Result<IniEvent, Error>)
        requires
            index < old(self)@.lines.len(),
            old(self)@.replay is None,
            token@ == read_ini_line(old(self)@.lines[index as int]),
            !(token@ is Blank),
        ensures
            report(old(self)@, old(self)@.lines[index as int]) == (
                final(self)@,
                match r {
                    Ok(event) => Ok::<Event, Flaw>(event@),
                    Err(e) => Err::<Event, Flaw>(e@),
                },
            ),
    {
        match token {
            IniToken::Blank => Ok(IniEvent::EndDocument),
            IniToken::Section(name) => {
                if self.parse_section {
                    self.parse_section = false;
                    self.skip_read = Some(index);
                    proof {
                        assert(self@.lines =~= old(self)@.lines);
                    }
                    Ok(IniEvent::EndSection)
                } else {
                    self.parse_section = true;
                    proof {
                        assert(self@.lines =~= old(self)@.lines);
                    }
                    Ok(IniEvent::StartSection(name))
                }
            },
            IniToken::Unclosed => {
                if self.parse_section {
                    self.parse_section = false;
                    self.skip_read = Some(index);
                    proof {
                        assert(self@.lines =~= old(self)@.lines);
                    }
                    Ok(IniEvent::EndSection)
                } else {
                    self.parse_section = true;
                    proof {
                        assert(self@.lines =~= old(self)@.lines);
                    }
                    Err(
                        Error::Syntax(
                            self.line,
                            String::from_str("Syntax Error: expected ‘]’ after section name"),
                        ),
                    )
                }
            },
            IniToken::Property(key, value) => Ok(IniEvent::Property(key, value)),
            IniToken::Undelimited => Err(
                Error::Syntax(
                    self.line,
                    String::from_str("Syntax Error: expected ‘=’ after property name"),
                ),
            ),
        }
    }

    /// Reads on to the next event.
    ///
    /// Returns `EndDocument` at the end of the text, and from then on.
    /// Fails with `Syntax` at a header without `]` and at a property
    /// without `=`; the reader has then passed that line.
    pub fn next(&mut self) -> (r: Result<IniEvent, Error>)
        ensures
            advance(old(self)@) == (
                final(self)@,
                match r {
                    Ok(event) => Ok::<Event, Flaw>(event@),
                    Err(e) => Err::<Event, Flaw>(e@),
                },
            ),
    {
        let n: usize = self.lines.len();
        match self.skip_read {
            Some(index) => {
                self.skip_read = None;
                if index < n {
                    proof {
                        assert(self@.lines =~= old(self)@.lines);
                    }
                    let token = tokenize(self.lines[index].as_slice());
                    if let IniToken::Blank = token {
                    } else {
                        return self.report(index, token);
                    }
                }
                proof {
                    assert(self@.lines =~= old(self)@.lines);
                    assert(self@ == (Cursor { replay: None, ..old(self)@ }));
                }
            },
            None => {},
        }
        loop
            invariant
                n == self.lines@.len(),
                self@.replay is None,
                self@.lines == old(self)@.lines,
                advance(self@) == advance(old(self)@),
            decreases n - self.line,
        {
            if self.line >= n {
                return Ok(IniEvent::EndDocument);
            }
            let index: usize = self.line;
            let ghost before = self@;
            self.line = index + 1;
            proof {
                assert(self@.lines =~= before.lines);
            }
            let token = tokenize(self.lines[index].as_slice());
            if let IniToken::Blank = token {
                continue ;
            }
            return self.report(index, token);
        }
    }
}

} // verus!
