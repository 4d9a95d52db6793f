//! The grammar of one line of an INI text.

use crate::text::{
    find, lemma_position, position, skip_both, skip_end, skip_start, string_of, trim, trim_end,
    trim_start,
};
use vstd::prelude::*;
use vstd::slice::slice_subrange;

verus! {

/// First character of a comment line.
pub const COMMENT: char = ';';

/// The character that opens the header of a section.
pub const OPEN: char = '[';

/// The character that closes the header of a section.
pub const CLOSE: char = ']';

/// The character between a property's key and its value.
pub const DELIMITER: char = '=';

/// What a line of an INI text says.
pub enum IniLine {
    /// Nothing: the line is empty, all whitespace, or a comment.
    Blank,
    /// A section called `name` starts.
    Section { name: Seq<char> },
    /// The current section gets a property.
    Property { key: Seq<char>, value: Seq<char> },
    /// A header without its closing bracket.
    Unclosed,
    /// A line that should be a property and holds no delimiter.
    Undelimited,
}

/// The grammar of one line, given without its line terminator. What
/// follows the closing bracket of a header is ignored.
pub open spec fn read_ini_line(raw: Seq<char>) -> IniLine {
    let token = trim_start(raw);
    if token.len() == 0 || token[0] == COMMENT {
        IniLine::Blank
    } else if token[0] == OPEN {
        let inner = trim_start(token.subrange(1, token.len() as int));
        let k = position(inner, CLOSE);
        if k >= inner.len() {
            IniLine::Unclosed
        } else {
            IniLine::Section { name: trim_end(inner.subrange(0, k)) }
        }
    } else {
        let k = position(token, DELIMITER);
        if k >= token.len() {
            IniLine::Undelimited
        } else {
            IniLine::Property {
                key: trim_end(token.subrange(0, k)),
                value: trim(token.subrange(k + 1, token.len() as int)),
            }
        }
    }
}

/// One line of an INI text, classified.
pub enum IniToken {
    Blank,
    Section(String),
    Property(String, String),
    Unclosed,
    Undelimited,
}

impl View for IniToken {
    type V = IniLine;

    open spec fn view(&self) -> IniLine {
        match *self {
            IniToken::Blank => IniLine::Blank,
            IniToken::Section(name) => IniLine::Section { name: name@ },
            IniToken::Property(key, value) => IniLine::Property { key: key@, value: value@ },
            IniToken::Unclosed => IniLine::Unclosed,
            IniToken::Undelimited => IniLine::Undelimited,
        }
    }
}

/// Classifies one line, given without its line terminator.
pub fn tokenize(raw: &[char]) -> (token: IniToken)
    ensures
        token@ == read_ini_line(raw@),
{
    let token = skip_start(raw);
    let n: usize = token.len();
    if n == 0 || token[0] == COMMENT {
        return IniToken::Blank;
    }
    if token[0] == OPEN {
        let inner = skip_start(slice_subrange(token, 1, n));
        let k: usize = find(inner, CLOSE);
        proof {
            lemma_position(inner@, CLOSE);
        }
        if k >= inner.len() {
            IniToken::Unclosed
        } else {
            IniToken::Section(string_of(skip_end(slice_subrange(inner, 0, k))))
        }
    } else {
        let k: usize = find(token, DELIMITER);
        proof {
            lemma_position(token@, DELIMITER);
        }
        if k >= n {
            IniToken::Undelimited
        } else {
            let key = skip_end(slice_subrange(token, 0, k));
            let value = skip_both(slice_subrange(token, k + 1, n));
            IniToken::Property(string_of(key), string_of(value))
        }
    }
}

} // verus!
