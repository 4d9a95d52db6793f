//! The INI reader that builds the whole list of sections at once.

use crate::ini::error::{Error, Flaw};
use crate::ini::grammar::{read_ini_line, tokenize, IniLine, IniToken};
use crate::text::{byte_lines, decode, decoded, lemma_byte_lines_decoded, lines, split_lines};
use vstd::prelude::*;
use vstd::string::StringExecFns;
use vstd::utf8::{decode_utf8, valid_utf8};

verus! {

/// The mathematical content of one section of an INI text.
pub struct Chapter {
    pub name: Seq<char>,
    pub pairs: Seq<(Seq<char>, Seq<char>)>,
}

/// The properties of one section, in the order of the text.
#[derive(Debug)]
pub struct Section(Vec<(String, String)>);

impl Default for Section {
    /// A section without properties.
    fn default() -> (section: Section)
        ensures
            section@ == Seq::<(Seq<char>, Seq<char>)>::empty(),
    {
        Section::new()
    }
}

impl View for Section {
    type V = Seq<(Seq<char>, Seq<char>)>;

    closed spec fn view(&self) -> Seq<(Seq<char>, Seq<char>)> {
        Seq::new(self.0@.len(), |i: int| (self.0@[i].0@, self.0@[i].1@))
    }
}

impl Section {
    /// A section without properties.
    pub fn new() -> (section: Section)
        ensures
            section@ == Seq::<(Seq<char>, Seq<char>)>::empty(),
    {
        let section = Section(Vec::new());
        assert(section@ =~= Seq::empty());
        section
    }

    /// Number of properties.
    pub fn len(&self) -> (n: usize)
        ensures
            n == self@.len(),
    {
        self.0.len()
    }

    /// Whether the section has no property.
    pub fn is_empty(&self) -> (b: bool)
        ensures
            b == (self@.len() == 0),
    {
        self.0.len() == 0
    }

    /// The properties, each a key and a value.
    pub fn pairs(&self) -> (all: &[(String, String)])
        ensures
            all@.len() == self@.len(),
            forall|i: int|
                0 <= i < all@.len() ==> (#[trigger] all@[i]).0@ == self@[i].0 && all@[i].1@
                    == self@[i].1,
    {
        self.0.as_slice()
    }

    /// Appends a property.
    pub fn push(&mut self, key: String, value: String)
        ensures
            final(self)@ == old(self)@.push((key@, value@)),
    {
        self.0.push((key, value));
        assert(self@ =~= old(self)@.push((key@, value@)));
    }
}

/// The sections of an INI text, in the order of the text. The first one has
/// no name and holds the properties that stand before the first header.
#[derive(Debug)]
pub struct IniReader(Vec<(String, Section)>);

impl Default for IniReader {
    /// No section at all.
    fn default() -> (ini: IniReader)
        ensures
            ini@ == Seq::<Chapter>::empty(),
    {
        let ini = IniReader(Vec::new());
        assert(ini@ =~= Seq::empty());
        ini
    }
}

impl View for IniReader {
    type V = Seq<Chapter>;

    closed spec fn view(&self) -> Seq<Chapter> {
        Seq::new(self.0@.len(), |i: int| Chapter { name: self.0@[i].0@, pairs: self.0@[i].1@ })
    }
}

/// What is reported of a header without closing bracket.
pub open spec fn expected_bracket() -> Seq<char> {
    "Syntax Error: expected ‘]’ after section name"@
}

/// What is reported of a property without delimiter.
pub open spec fn expected_delimiter() -> Seq<char> {
    "Syntax Error: expected ‘=’ after property name"@
}

/// What is reported of an input that is not UTF-8.
pub open spec fn not_text() -> Seq<char> {
    "stream did not contain valid UTF-8"@
}

/// The sections before any line is read: one section without name.
pub open spec fn first_chapter() -> Seq<Chapter> {
    seq![Chapter { name: Seq::empty(), pairs: Seq::empty() }]
}

/// What a line does to the sections read so far, the last of which is the
/// current one. `number` is the line's number, counted from 1.
pub open spec fn ini_step(chapters: Seq<Chapter>, raw: Seq<char>, number: nat) -> Result<
    Seq<Chapter>,
    Flaw,
> {
    match read_ini_line(raw) {
        IniLine::Blank => Ok(chapters),
        IniLine::Section { name } => Ok(chapters.push(Chapter { name, pairs: Seq::empty() })),
        IniLine::Property { key, value } => Ok(
            chapters.update(
                chapters.len() - 1,
                Chapter {
                    name: chapters.last().name,
                    pairs: chapters.last().pairs.push((key, value)),
                },
            ),
        ),
        IniLine::Unclosed => Err(Flaw::Syntax(number, expected_bracket())),
        IniLine::Undelimited => Err(Flaw::Syntax(number, expected_delimiter())),
    }
}

/// The reader run over `ls`, starting from `chapters`. The first failure
/// ends the run.
pub open spec fn ini_run(chapters: Seq<Chapter>, ls: Seq<Seq<char>>) -> Result<Seq<Chapter>, Flaw>
    decreases ls.len(),
{
    if ls.len() == 0 {
        Ok(chapters)
    } else {
        match ini_run(chapters, ls.drop_last()) {
            Ok(before) => ini_step(before, ls.last(), ls.len()),
            Err(flaw) => Err(flaw),
        }
    }
}

/// The sections that a text describes, or the first failure of reading it.
pub open spec fn ini_text(text: Seq<char>) -> Result<Seq<Chapter>, Flaw> {
    ini_run(first_chapter(), lines(text))
}

/// One step of the reader on a line that is given as bytes: a line that is
/// not UTF-8 fails, any other is read as the text that it holds.
pub open spec fn ini_byte_step(chapters: Seq<Chapter>, raw: Seq<u8>, number: nat) -> Result<
    Seq<Chapter>,
    Flaw,
> {
    if valid_utf8(raw) {
        ini_step(chapters, decode_utf8(raw), number)
    } else {
        Err(Flaw::Io(not_text()))
    }
}

/// The reader run over lines that are given as bytes. The first failure
/// ends the run.
pub open spec fn ini_byte_run(chapters: Seq<Chapter>, ls: Seq<Seq<u8>>) -> Result<
    Seq<Chapter>,
    Flaw,
>
    decreases ls.len(),
{
    if ls.len() == 0 {
        Ok(chapters)
    } else {
        match ini_byte_run(chapters, ls.drop_last()) {
            Ok(before) => ini_byte_step(before, ls.last(), ls.len()),
            Err(flaw) => Err(flaw),
        }
    }
}

/// The sections that a byte string describes, or the first failure of
/// reading it: the bytes are read line by line, and each line is UTF-8
/// text.
pub open spec fn ini_bytes(bytes: Seq<u8>) -> Result<Seq<Chapter>, Flaw> {
    ini_byte_run(first_chapter(), byte_lines(bytes))
}

/// A failure ends the run over bytes: more lines do not change it.
pub proof fn lemma_ini_byte_run_fails(chapters: Seq<Chapter>, a: Seq<Seq<u8>>, b: Seq<Seq<u8>>)
    requires
        ini_byte_run(chapters, a) is Err,
    ensures
        ini_byte_run(chapters, a + b) == ini_byte_run(chapters, a),
    decreases b.len(),
{
    if b.len() == 0 {
        assert(a + b =~= a);
    } else {
        assert((a + b).drop_last() =~= a + b.drop_last());
        lemma_ini_byte_run_fails(chapters, a, b.drop_last());
    }
}

/// Lines of bytes that are UTF-8 are read as the texts that they hold.
pub proof fn lemma_ini_byte_run_decoded(chapters: Seq<Chapter>, ls: Seq<Seq<u8>>)
    requires
        forall|i: int| 0 <= i < ls.len() ==> valid_utf8(#[trigger] ls[i]),
    ensures
        ini_byte_run(chapters, ls) == ini_run(chapters, decoded(ls)),
    decreases ls.len(),
{
    if ls.len() > 0 {
        let front = ls.drop_last();
        assert forall|i: int| 0 <= i < front.len() implies valid_utf8(#[trigger] front[i]) by {
            assert(front[i] == ls[i]);
        }
        lemma_ini_byte_run_decoded(chapters, front);
        assert(decoded(ls).drop_last() =~= decoded(front));
    }
}

/// Bytes that are UTF-8 are read as the text that they hold.
pub proof fn law_ini_bytes_of_text(bytes: Seq<u8>)
    requires
        valid_utf8(bytes),
    ensures
        ini_bytes(bytes) == ini_text(decode_utf8(bytes)),
{
    lemma_byte_lines_decoded(bytes);
    lemma_ini_byte_run_decoded(first_chapter(), byte_lines(bytes));
}

impl IniReader {
    /// Number of sections, the unnamed first one included.
    pub fn len(&self) -> (n: usize)
        ensures
            n == self@.len(),
    {
        self.0.len()
    }

    /// Whether there is no section at all.
    pub fn is_empty(&self) -> (b: bool)
        ensures
            b == (self@.len() == 0),
    {
        self.0.len() == 0
    }

    /// The sections, each a name and its properties.
    pub fn sections(&self) -> (all: &[(String, Section)])
        ensures
            all@.len() == self@.len(),
            forall|i: int|
                0 <= i < all@.len() ==> (#[trigger] all@[i]).0@ == self@[i].name && all@[i].1@
                    == self@[i].pairs,
    {
        self.0.as_slice()
    }

    /// Reads the sections of an INI text, given as UTF-8.
    ///
    /// Fails with `Syntax` at the first line that is a header without `]` or
    /// a property without `=`, and with `Io` at a line that is not UTF-8.
    pub fn parse(src: &[u8]) -> (r: Result<IniReader, Error>)
        ensures
            match ini_bytes(src@) {
                Ok(chapters) => r matches Ok(ini) && ini@ == chapters,
                Err(flaw) => r matches Err(e) && e@ == flaw,
            },
    {
        let ls = split_lines(src);
        let n: usize = ls.len();
        let mut ini: Vec<(String, Section)> = Vec::new();
        let mut name = String::new();
        let mut section = Section::new();
        let mut i: usize = 0;
        let ghost all = byte_lines(src@);
        proof {
            assert(all.subrange(0, 0) =~= Seq::<Seq<u8>>::empty());
            assert(IniReader(ini)@.push(Chapter { name: name@, pairs: section@ })
                =~= first_chapter());
        }
        while i < n
            invariant
                i <= n,
                n == ls@.len(),
                all == byte_lines(src@),
                ls@.len() == all.len(),
                forall|j: int| 0 <= j < ls@.len() ==> (#[trigger] ls@[j])@ == all[j],
                ini_byte_run(first_chapter(), all.subrange(0, i as int)) == Ok::<
                    Seq<Chapter>,
                    Flaw,
                >(IniReader(ini)@.push(Chapter { name: name@, pairs: section@ })),
            decreases n - i,
        {
            let ghost read = all.subrange(0, i + 1);
            let ghost before = IniReader(ini)@.push(Chapter { name: name@, pairs: section@ });
            proof {
                assert(read.drop_last() =~= all.subrange(0, i as int));
                assert(read.last() == all[i as int]);
                assert(all =~= read + all.subrange(i + 1, n as int));
            }
            let text = match decode(ls[i]) {
                Some(text) => text,
                None => {
                    proof {
                        lemma_ini_byte_run_fails(
                            first_chapter(),
                            read,
                            all.subrange(i + 1, n as int),
                        );
                    }
                    return Err(Error::Io(String::from_str("stream did not contain valid UTF-8")));
                },
            };
            match tokenize(text.as_slice()) {
                IniToken::Blank => {},
                IniToken::Section(title) => {
                    ini.push((name, section));
                    name = title;
                    section = Section::new();
                    proof {
                        assert(IniReader(ini)@ =~= before);
                    }
                },
                IniToken::Property(key, value) => {
                    section.push(key, value);
                    proof {
                        assert(IniReader(ini)@.push(Chapter { name: name@, pairs: section@ })
                            =~= before.update(
                            before.len() - 1,
                            Chapter {
                                name: before.last().name,
                                pairs: before.last().pairs.push((key@, value@)),
                            },
                        ));
                    }
                },
                IniToken::Unclosed => {
                    proof {
                        lemma_ini_byte_run_fails(
                            first_chapter(),
                            read,
                            all.subrange(i + 1, n as int),
                        );
                    }
                    return Err(
                        Error::Syntax(
                            i + 1,
                            String::from_str("Syntax Error: expected ‘]’ after section name"),
                        ),
                    );
                },
                IniToken::Undelimited => {
                    proof {
                        lemma_ini_byte_run_fails(
                            first_chapter(),
                            read,
                            all.subrange(i + 1, n as int),
                        );
                    }
                    return Err(
                        Error::Syntax(
                            i + 1,
                            String::from_str("Syntax Error: expected ‘=’ after property name"),
                        ),
                    );
                },
            }
            i += 1;
        }
        proof {
            assert(all.subrange(0, n as int) =~= all);
        }
        ini.push((name, section));
        let result = IniReader(ini);
        proof {
            assert(result@ =~= ini_bytes(src@)->Ok_0);
        }
        Ok(result)
    }
}

} // verus!
