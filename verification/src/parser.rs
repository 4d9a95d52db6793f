//! The reader: the grammar of the text format, stated on sequences of
//! characters, and the single pass that builds a document from a text.
//!
//! A text is read line by line. Blank lines and comments are skipped. A
//! section header is a run of `#` and a name; the length of the run is the
//! depth at which the section opens, counted from the root. Any other line is
//! a property, `key = value`, and goes to the section that was opened last.

use crate::config::{Config, Entry, Node, Property};
use crate::error::{ConfigError, Fault};
use crate::text::{
    byte_lines, decode, decoded, find, leading_whitespace, lemma_byte_lines_decoded,
    lemma_leading_whitespace_bounds, lemma_position, lines, position, skip_both, skip_end,
    skip_start, split_lines, string_of, trim, trim_end, trim_start,
};
use vstd::prelude::*;
use vstd::slice::slice_subrange;
use vstd::string::StringExecFns;
use vstd::utf8::{decode_utf8, valid_utf8};

verus! {

/// First character of a comment line.
pub const COMMENT: char = ';';

/// The character that a section header repeats, once for each level.
pub const MARKER: char = '#';

/// The character between a property's key and its value.
pub const DELIMITER: char = '=';

/// What a line of the text says.
pub enum Line {
    /// Nothing: the line is empty, all whitespace, or a comment.
    Blank,
    /// A section called `name` opens at depth `depth`.
    Section { depth: nat, name: Seq<char> },
    /// The open section gets a property.
    Property { name: Seq<char>, value: Seq<char> },
    /// The line is none of these.
    Malformed,
}

/// Number of markers at the front of `s`.
pub open spec fn marker_count(s: Seq<char>) -> nat
    decreases s.len(),
{
    if s.len() > 0 && s[0] == MARKER {
        1 + marker_count(s.drop_first())
    } else {
        0
    }
}

/// The grammar of one line, given without its line terminator.
pub open spec fn read_line(raw: Seq<char>) -> Line {
    let token = trim_start(raw);
    if token.len() == 0 || token[0] == COMMENT {
        Line::Blank
    } else if token[0] == MARKER {
        let depth = marker_count(token);
        let name = trim(token.subrange(depth as int, token.len() as int));
        if name.len() == 0 {
            Line::Malformed
        } else {
            Line::Section { depth, name }
        }
    } else {
        let k = position(token, DELIMITER);
        if k >= token.len() {
            Line::Malformed
        } else {
            let name = trim_end(token.subrange(0, k));
            let value = trim(token.subrange(k + 1, token.len() as int));
            if name.len() == 0 {
                Line::Malformed
            } else {
                Line::Property { name, value }
            }
        }
    }
}

/// What a line does to the tree read so far. `number` is the line's number,
/// counted from 1.
pub open spec fn apply_line(tree: Node, line: Line, number: nat) -> Result<Node, Fault> {
    match line {
        Line::Blank => Ok(tree),
        Line::Section { depth, name } => if 1 <= depth <= tree.open_depth() + 1 {
            Ok(tree.attach_section(depth, Node::empty(number, name)))
        } else {
            Err(Fault::InvalidFormat(number))
        },
        Line::Property { name, value } => Ok(
            tree.attach_property(Entry { line: number, name, value }),
        ),
        Line::Malformed => Err(Fault::InvalidFormat(number)),
    }
}

/// One step of the reader: the tree after the line `raw`, or the failure that
/// the line causes.
pub open spec fn step(tree: Node, raw: Seq<char>, number: nat) -> Result<Node, Fault> {
    apply_line(tree, read_line(raw), number)
}

/// The reader run over `ls`, starting from `tree`. The lines are numbered
/// from `base + 1`. The first failure ends the run.
pub open spec fn run(tree: Node, ls: Seq<Seq<char>>, base: nat) -> Result<Node, Fault>
    decreases ls.len(),
{
    if ls.len() == 0 {
        Ok(tree)
    } else {
        match run(tree, ls.drop_last(), base) {
            Ok(before) => step(before, ls.last(), base + ls.len()),
            Err(fault) => Err(fault),
        }
    }
}

/// The root of every document that is read from a text.
pub open spec fn empty_root() -> Node {
    Node::empty(0, Seq::empty())
}

/// The document that a text describes, or the first failure of reading it.
pub open spec fn parse_text(text: Seq<char>) -> Result<Node, Fault> {
    run(empty_root(), lines(text), 0)
}

/// What is reported of an input that is not UTF-8.
pub open spec fn not_text() -> Seq<char> {
    "stream did not contain valid UTF-8"@
}

/// One step of the reader on a line that is given as bytes: a line that is
/// not UTF-8 fails, any other is read as the text that it holds.
pub open spec fn byte_step(tree: Node, raw: Seq<u8>, number: nat) -> Result<Node, Fault> {
    if valid_utf8(raw) {
        step(tree, decode_utf8(raw), number)
    } else {
        Err(Fault::Io(not_text()))
    }
}

/// The reader run over lines that are given as bytes, starting from `tree`.
/// The lines are numbered from `base + 1`. The first failure ends the run.
pub open spec fn byte_run(tree: Node, ls: Seq<Seq<u8>>, base: nat) -> Result<Node, Fault>
    decreases ls.len(),
{
    if ls.len() == 0 {
        Ok(tree)
    } else {
        match byte_run(tree, ls.drop_last(), base) {
            Ok(before) => byte_step(before, ls.last(), base + ls.len()),
            Err(fault) => Err(fault),
        }
    }
}

/// The document that a byte string describes, or the first failure of
/// reading it: the bytes are read line by line, and each line is UTF-8
/// text.
pub open spec fn parse_bytes(bytes: Seq<u8>) -> Result<Node, Fault> {
    byte_run(empty_root(), byte_lines(bytes), 0)
}

/// `marker_count` is the index of the first character that is no marker.
pub proof fn lemma_marker_count(s: Seq<char>, k: int)
    requires
        0 <= k <= s.len(),
        forall|j: int| 0 <= j < k ==> #[trigger] s[j] == MARKER,
        k < s.len() ==> s[k] != MARKER,
    ensures
        marker_count(s) == k,
    decreases s.len(),
{
    if s.len() > 0 && k > 0 {
        let rest = s.drop_first();
        assert forall|j: int| 0 <= j < k - 1 implies #[trigger] rest[j] == MARKER by {
            assert(rest[j] == s[j + 1]);
        }
        lemma_marker_count(rest, k - 1);
    }
}

/// A run over one more line is the run over the lines before it, then a step.
pub proof fn lemma_run_push(tree: Node, ls: Seq<Seq<char>>, raw: Seq<char>, base: nat)
    ensures
        run(tree, ls.push(raw), base) == match run(tree, ls, base) {
            Ok(before) => step(before, raw, base + ls.len() + 1),
            Err(fault) => Err(fault),
        },
{
    assert(ls.push(raw).drop_last() =~= ls);
}

/// A run over two lists of lines, one after the other, is the run over the
/// first, continued over the second.
pub proof fn lemma_run_concat(tree: Node, a: Seq<Seq<char>>, b: Seq<Seq<char>>, base: nat)
    ensures
        run(tree, a + b, base) == match run(tree, a, base) {
            Ok(middle) => run(middle, b, base + a.len()),
            Err(fault) => Err(fault),
        },
    decreases b.len(),
{
    if b.len() == 0 {
        assert(a + b =~= a);
    } else {
        assert((a + b).drop_last() =~= a + b.drop_last());
        lemma_run_concat(tree, a, b.drop_last(), base);
    }
}

/// A run over bytes, over two lists of lines, one after the other, is the
/// run over the first, continued over the second.
pub proof fn lemma_byte_run_concat(tree: Node, a: Seq<Seq<u8>>, b: Seq<Seq<u8>>, base: nat)
    ensures
        byte_run(tree, a + b, base) == match byte_run(tree, a, base) {
            Ok(middle) => byte_run(middle, b, base + a.len()),
            Err(fault) => Err(fault),
        },
    decreases b.len(),
{
    if b.len() == 0 {
        assert(a + b =~= a);
    } else {
        assert((a + b).drop_last() =~= a + b.drop_last());
        lemma_byte_run_concat(tree, a, b.drop_last(), base);
    }
}

/// Lines of bytes that are UTF-8 are read as the texts that they hold.
pub proof fn lemma_byte_run_decoded(tree: Node, ls: Seq<Seq<u8>>, base: nat)
    requires
        forall|i: int| 0 <= i < ls.len() ==> valid_utf8(#[trigger] ls[i]),
    ensures
        byte_run(tree, ls, base) == run(tree, decoded(ls), base),
    decreases ls.len(),
{
    if ls.len() > 0 {
        let front = ls.drop_last();
        assert forall|i: int| 0 <= i < front.len() implies valid_utf8(#[trigger] front[i]) by {
            assert(front[i] == ls[i]);
        }
        lemma_byte_run_decoded(tree, front, base);
        assert(decoded(ls).drop_last() =~= decoded(front));
    }
}

/// Bytes that are UTF-8 are read as the text that they hold.
pub proof fn law_parse_bytes_of_text(bytes: Seq<u8>)
    requires
        valid_utf8(bytes),
    ensures
        parse_bytes(bytes) == parse_text(decode_utf8(bytes)),
{
    lemma_byte_lines_decoded(bytes);
    lemma_byte_run_decoded(empty_root(), byte_lines(bytes), 0);
}

/// A failure ends the reading: where the lines before line `i` are read
/// without failure and line `i` fails, the whole text fails in the same way.
pub proof fn lemma_first_failure(text: Seq<char>, i: int, before: Node, fault: Fault)
    requires
        0 <= i < lines(text).len(),
        run(empty_root(), lines(text).subrange(0, i), 0) == Ok::<Node, Fault>(before),
        step(before, lines(text)[i], (i + 1) as nat) == Err::<Node, Fault>(fault),
    ensures
        parse_text(text) == Err::<Node, Fault>(fault),
{
    let all = lines(text);
    let front = all.subrange(0, i);
    let rest = all.subrange(i + 1, all.len() as int);
    lemma_run_push(empty_root(), front, all[i], 0);
    lemma_run_concat(empty_root(), front.push(all[i]), rest, 0);
    assert(front.push(all[i]) + rest =~= all);
}

/// Opening a section at a depth that is open, or one below the innermost
/// open section, makes it the innermost open section.
pub proof fn lemma_attach_section_depth(tree: Node, depth: nat, section: Node)
    requires
        1 <= depth <= tree.open_depth() + 1,
        section.nested.len() == 0,
    ensures
        tree.attach_section(depth, section).open_depth() == depth,
    decreases depth,
{
    let after = tree.attach_section(depth, section);
    if depth > 1 {
        lemma_attach_section_depth(tree.nested.last(), (depth - 1) as nat, section);
        assert(after.nested.last() == tree.nested.last().attach_section(
            (depth - 1) as nat,
            section,
        ));
    } else {
        assert(after.nested.last() == section);
        assert(section.open_depth() == 0);
    }
}

/// The depth of every section header resolves to an open chain of
/// ancestors: a header is accepted exactly when its depth is at most one more
/// than the number of open sections, and the section then opens at that
/// depth. A header that skips a level fails with `InvalidFormat` at its line.
pub proof fn law_section_depth(tree: Node, raw: Seq<char>, number: nat)
    requires
        read_line(raw) is Section,
    ensures
        ({
            let depth = read_line(raw)->depth;
            if depth <= tree.open_depth() + 1 {
                step(tree, raw, number) matches Ok(after) && after.open_depth() == depth
            } else {
                step(tree, raw, number) == Err::<Node, Fault>(Fault::InvalidFormat(number))
            }
        }),
{
    let depth = read_line(raw)->depth;
    let token = trim_start(raw);
    assert(depth >= 1) by {
        assert(token[0] == MARKER);
    }
    if depth <= tree.open_depth() + 1 {
        lemma_attach_section_depth(tree, depth, Node::empty(number, read_line(raw)->Section_name));
    }
}

/// A text fails with `InvalidFormat` at the first line whose header skips a
/// level: line `i + 1`, where the lines before it are read without failure
/// and leave fewer than `depth - 1` sections open.
pub proof fn law_depth_jump_fails(text: Seq<char>, i: int)
    requires
        0 <= i < lines(text).len(),
        run(empty_root(), lines(text).subrange(0, i), 0) is Ok,
        read_line(lines(text)[i]) is Section,
        read_line(lines(text)[i])->depth > run(
            empty_root(),
            lines(text).subrange(0, i),
            0,
        )->Ok_0.open_depth() + 1,
    ensures
        parse_text(text) == Err::<Node, Fault>(Fault::InvalidFormat((i + 1) as nat)),
{
    let before = run(empty_root(), lines(text).subrange(0, i), 0)->Ok_0;
    law_section_depth(before, lines(text)[i], (i + 1) as nat);
    lemma_first_failure(text, i, before, Fault::InvalidFormat((i + 1) as nat));
}

/// A line that is not blank, no comment and no section header, and that
/// holds no delimiter, fails with `InvalidFormat` at its number.
pub proof fn law_missing_delimiter(tree: Node, raw: Seq<char>, number: nat)
    requires
        trim_start(raw).len() > 0,
        trim_start(raw)[0] != COMMENT,
        trim_start(raw)[0] != MARKER,
        !raw.contains(DELIMITER),
    ensures
        step(tree, raw, number) == Err::<Node, Fault>(Fault::InvalidFormat(number)),
{
    let token = trim_start(raw);
    lemma_position(token, DELIMITER);
    let k = position(token, DELIMITER);
    if k < token.len() {
        lemma_leading_whitespace_bounds(raw);
        assert(raw[leading_whitespace(raw) + k] == token[k]);
        assert(raw.contains(DELIMITER));
    }
}

/// A text fails with `InvalidFormat` at the first line that should be a
/// property and holds no delimiter: line `i + 1`, where the lines before it
/// are read without failure.
pub proof fn law_missing_delimiter_fails(text: Seq<char>, i: int)
    requires
        0 <= i < lines(text).len(),
        run(empty_root(), lines(text).subrange(0, i), 0) is Ok,
        trim_start(lines(text)[i]).len() > 0,
        trim_start(lines(text)[i])[0] != COMMENT,
        trim_start(lines(text)[i])[0] != MARKER,
        !lines(text)[i].contains(DELIMITER),
    ensures
        parse_text(text) == Err::<Node, Fault>(Fault::InvalidFormat((i + 1) as nat)),
{
    let before = run(empty_root(), lines(text).subrange(0, i), 0)->Ok_0;
    law_missing_delimiter(before, lines(text)[i], (i + 1) as nat);
    lemma_first_failure(text, i, before, Fault::InvalidFormat((i + 1) as nat));
}

/// Reading never touches the root's own line and name.
pub proof fn lemma_run_keeps_root(tree: Node, ls: Seq<Seq<char>>, base: nat)
    ensures
        run(tree, ls, base) matches Ok(after) ==> after.line == tree.line && after.name
            == tree.name,
    decreases ls.len(),
{
    if ls.len() > 0 {
        lemma_run_keeps_root(tree, ls.drop_last(), base);
    }
}

/// The root of a document that was read from a text has no name, and its
/// line is 0.
pub proof fn law_parsed_root(text: Seq<char>)
    ensures
        parse_text(text) matches Ok(root) ==> root.line == 0 && root.name.len() == 0,
{
    lemma_run_keeps_root(empty_root(), lines(text), 0);
}

/// One line of the text, classified.
pub enum Token {
    Blank,
    Section(usize, String),
    Property(String, String),
    Malformed,
}

impl View for Token {
    type V = Line;

    open spec fn view(&self) -> Line {
        match *self {
            Token::Blank => Line::Blank,
            Token::Section(depth, name) => Line::Section { depth: depth as nat, name: name@ },
            Token::Property(name, value) => Line::Property { name: name@, value: value@ },
            Token::Malformed => Line::Malformed,
        }
    }
}

/// Number of markers at the front of `s`.
fn count_markers(s: &[char]) -> (k: usize)
    ensures
        k == marker_count(s@),
        k <= s@.len(),
{
    let n: usize = s.len();
    let mut i: usize = 0;
    while i < n && s[i] == MARKER
        invariant
            i <= n,
            n == s@.len(),
            forall|j: int| 0 <= j < i ==> #[trigger] s@[j] == MARKER,
        decreases n - i,
    {
        i += 1;
    }
    proof {
        lemma_marker_count(s@, i as int);
    }
    i
}

/// Classifies one line, given without its line terminator.
pub fn tokenize(raw: &[char]) -> (token: Token)
    ensures
        token@ == read_line(raw@),
{
    let token = skip_start(raw);
    let n: usize = token.len();
    if n == 0 || token[0] == COMMENT {
        return Token::Blank;
    }
    if token[0] == MARKER {
        let depth: usize = count_markers(token);
        let name = skip_both(slice_subrange(token, depth, n));
        if name.len() == 0 {
            Token::Malformed
        } else {
            Token::Section(depth, string_of(name))
        }
    } else {
        let k: usize = find(token, DELIMITER);
        proof {
            lemma_position(token@, DELIMITER);
        }
        if k >= n {
            Token::Malformed
        } else {
            let name = skip_end(slice_subrange(token, 0, k));
            let value = skip_both(slice_subrange(token, k + 1, n));
            if name.len() == 0 {
                Token::Malformed
            } else {
                Token::Property(string_of(name), string_of(value))
            }
        }
    }
}

/// Applies one classified line to the tree read so far. On a failure the
/// tree is left as it was.
pub fn apply(root: &mut Config, token: Token, number: usize) -> (r: Result<(), ConfigError>)
    ensures
        match apply_line(old(root)@, token@, number as nat) {
            Ok(tree) => r is Ok && final(root)@ == tree,
            Err(fault) => r matches Err(e) && e@ == fault && final(root)@ == old(root)@,
        },
{
    match token {
        Token::Blank => Ok(()),
        Token::Section(depth, name) => {
            if root.attach_section(depth, Config::at(number, name)) {
                Ok(())
            } else {
                Err(ConfigError::InvalidFormat(number))
            }
        },
        Token::Property(name, value) => {
            root.attach_property(Property::at(number, name, value));
            Ok(())
        },
        Token::Malformed => Err(ConfigError::InvalidFormat(number)),
    }
}

impl Config {
    /// Reads a document from UTF-8 text.
    ///
    /// The result is the tree that the lines build, one after the other, or
    /// the first failure: `InvalidFormat` with the number of the line that is
    /// no comment, header or property, or whose header skips a level; `Io`
    /// for a line that is not UTF-8.
    pub fn parse(src: &[u8]) -> (r: Result<Config, ConfigError>)
        ensures
            match parse_bytes(src@) {
                Ok(tree) => r matches Ok(root) && root@ == tree,
                Err(fault) => r matches Err(e) && e@ == fault,
            },
    {
        let ls = split_lines(src);
        let n: usize = ls.len();
        let mut root = Config::new("");
        let mut i: usize = 0;
        let ghost all = byte_lines(src@);
        proof {
            reveal_strlit("");
            assert(""@ =~= Seq::<char>::empty());
            assert(all.subrange(0, 0) =~= Seq::<Seq<u8>>::empty());
        }
        while i < n
            invariant
                i <= n,
                n == ls@.len(),
                all == byte_lines(src@),
                ls@.len() == all.len(),
                forall|j: int| 0 <= j < ls@.len() ==> (#[trigger] ls@[j])@ == all[j],
                byte_run(empty_root(), all.subrange(0, i as int), 0) == Ok::<Node, Fault>(root@),
            decreases n - i,
        {
            let ghost read = all.subrange(0, i + 1);
            proof {
                assert(read.drop_last() =~= all.subrange(0, i as int));
                assert(read.last() == all[i as int]);
                assert(all =~= read + all.subrange(i + 1, n as int));
                lemma_byte_run_concat(empty_root(), read, all.subrange(i + 1, n as int), 0);
            }
            let text = match decode(ls[i]) {
                Some(text) => text,
                None => {
                    return Err(
                        ConfigError::Io(String::from_str("stream did not contain valid UTF-8")),
                    );
                },
            };
            match apply(&mut root, tokenize(text.as_slice()), i + 1) {
                Ok(()) => {},
                Err(e) => {
                    return Err(e);
                },
            }
            i += 1;
        }
        proof {
            assert(all.subrange(0, n as int) =~= all);
        }
        Ok(root)
    }
}

} // verus!
