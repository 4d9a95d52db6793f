//! What the writer and the reader owe each other: a document that can be
//! written without loss is read back as it was, and writing it again gives
//! the same text.

use crate::config::{Entry, Node};
use crate::error::Fault;
use crate::parser::{
    empty_root, law_parse_bytes_of_text, law_parsed_root, lemma_marker_count, lemma_run_concat, lemma_run_push,
    marker_count, parse_bytes, parse_text, read_line, run, step, Line, COMMENT, DELIMITER, MARKER,
};
use crate::text::{
    is_trimmed, leading_whitespace, lemma_leading_whitespace,
    lemma_leading_whitespace_bounds, lemma_position, lemma_position_is, lemma_trailing_whitespace,
    lemma_trailing_whitespace_bounds, lemma_trim, lines, position, trailing_whitespace, trim,
    trim_end, trim_start,
};
use crate::writer::{
    body_text, children_text, dump_text, header_text, markers, properties_text, property_line,
};
use vstd::prelude::*;
use vstd::utf8::{encode_utf8, encode_utf8_decode_utf8, encode_utf8_valid_utf8};

verus! {

/// A name that a property can have in a text: not empty, trimmed, on one
/// line, without delimiter, and not taken for a comment or a header.
pub open spec fn is_key(name: Seq<char>) -> bool {
    &&& name.len() > 0
    &&& is_trimmed(name)
    &&& name[0] != COMMENT
    &&& name[0] != MARKER
    &&& !name.contains(DELIMITER)
    &&& !name.contains('\n')
}

/// A value that a property can have in a text: trimmed and on one line.
pub open spec fn is_value(value: Seq<char>) -> bool {
    is_trimmed(value) && !value.contains('\n')
}

/// A name that a section can have in a text: not empty, trimmed and on one
/// line.
pub open spec fn is_section_name(name: Seq<char>) -> bool {
    name.len() > 0 && is_trimmed(name) && !name.contains('\n')
}

/// Every entry has a name and a value that a text can hold.
pub open spec fn printable_entries(entries: Seq<Entry>) -> bool {
    forall|i: int|
        0 <= i < entries.len() ==> is_key((#[trigger] entries[i]).name) && is_value(
            entries[i].value,
        )
}

/// Everything below the header of `section` can be written without loss.
pub open spec fn printable_below(section: Node) -> bool
    decreases section,
{
    &&& printable_entries(section.properties)
    &&& forall|i: int|
        0 <= i < section.nested.len() ==> is_section_name((#[trigger] section.nested[i]).name)
            && printable_below(section.nested[i])
}

/// A document that can be written without loss: its root has no name, and
/// all names and values below it are such that a text can hold them.
pub open spec fn printable(root: Node) -> bool {
    root.name.len() == 0 && printable_below(root)
}

/// Two lists of entries with the same names and values, in the same order.
pub open spec fn same_entries(a: Seq<Entry>, b: Seq<Entry>) -> bool {
    &&& a.len() == b.len()
    &&& forall|i: int|
        0 <= i < a.len() ==> (#[trigger] a[i]).name == b[i].name && a[i].value == b[i].value
}

/// Two sections with the same names, values and structure. Line numbers do
/// not count.
pub open spec fn alike(a: Node, b: Node) -> bool
    decreases a,
{
    &&& a.name == b.name
    &&& same_entries(a.properties, b.properties)
    &&& a.nested.len() == b.nested.len()
    &&& forall|i: int| 0 <= i < a.nested.len() ==> alike(#[trigger] a.nested[i], b.nested[i])
}

/// The line of one property, without terminator.
pub open spec fn entry_line(entry: Entry) -> Seq<char> {
    entry.name + seq![' ', DELIMITER, ' '] + entry.value
}

/// The header of a section, without terminator.
pub open spec fn header_line(depth: nat, name: Seq<char>) -> Seq<char> {
    markers(depth) + seq![' '] + name
}

/// The lines of a list of properties.
pub open spec fn entry_lines(entries: Seq<Entry>) -> Seq<Seq<char>> {
    Seq::new(entries.len(), |i: int| entry_line(entries[i]))
}

/// The lines below the header of `section`, itself at depth `depth`.
pub open spec fn body_lines(section: Node, depth: nat) -> Seq<Seq<char>>
    decreases section, section.nested.len() + 1,
{
    entry_lines(section.properties) + children_lines(section, section.nested.len(), depth + 1)
}

/// The lines of the first `count` children of `parent`, written at depth
/// `depth`: for each an empty line, its header, and what stands below.
pub open spec fn children_lines(parent: Node, count: nat, depth: nat) -> Seq<Seq<char>>
    decreases parent, count,
{
    if count == 0 || count > parent.nested.len() {
        Seq::empty()
    } else {
        children_lines(parent, (count - 1) as nat, depth) + seq![
            Seq::empty(),
            header_line(depth, parent.nested[count - 1].name),
        ] + body_lines(parent.nested[count - 1], depth)
    }
}

/// The text made of the lines `ls`, each with its terminator.
pub open spec fn unlines(ls: Seq<Seq<char>>) -> Seq<char>
    decreases ls.len(),
{
    if ls.len() == 0 {
        Seq::empty()
    } else {
        unlines(ls.drop_last()) + ls.last() + seq!['\n']
    }
}

/// No line holds a line terminator.
pub open spec fn single_lines(ls: Seq<Seq<char>>) -> bool {
    forall|i: int| 0 <= i < ls.len() ==> !(#[trigger] ls[i]).contains('\n')
}

/// The tree with `section` in the place of the open section at depth
/// `depth`: the section that the chain of last children reaches after `depth`
/// steps.
pub open spec fn graft(tree: Node, depth: nat, section: Node) -> Node
    decreases depth,
{
    if depth == 0 || tree.nested.len() == 0 {
        section
    } else {
        Node {
            nested: tree.nested.update(
                tree.nested.len() - 1,
                graft(tree.nested.last(), (depth - 1) as nat, section),
            ),
            ..tree
        }
    }
}

/// The section with `child` in the place of its last child.
pub open spec fn with_last(section: Node, child: Node) -> Node {
    Node { nested: section.nested.update(section.nested.len() - 1, child), ..section }
}

/// The entries with the numbers of the lines that follow line `base`.
pub open spec fn relined(entries: Seq<Entry>, base: nat) -> Seq<Entry> {
    Seq::new(
        entries.len(),
        |i: int| Entry { line: (base + i + 1) as nat, name: entries[i].name, value: entries[i].value },
    )
}

/// The text of two lists of lines, one after the other, is the text of the
/// first followed by the text of the second.
proof fn lemma_unlines_concat(a: Seq<Seq<char>>, b: Seq<Seq<char>>)
    ensures
        unlines(a + b) == unlines(a) + unlines(b),
    decreases b.len(),
{
    if b.len() == 0 {
        assert(a + b =~= a);
        assert(unlines(a) + unlines(b) =~= unlines(a));
    } else {
        assert((a + b).drop_last() =~= a + b.drop_last());
        lemma_unlines_concat(a, b.drop_last());
        assert(unlines(a + b) =~= unlines(a) + unlines(b));
    }
}

/// The text of one line is the line and its terminator.
proof fn lemma_unlines_one(l: Seq<char>)
    ensures
        unlines(seq![l]) == l + seq!['\n'],
{
    reveal_with_fuel(unlines, 2);
    assert(seq![l].drop_last() =~= Seq::<Seq<char>>::empty());
    assert(unlines(seq![l]) =~= l + seq!['\n']);
}

/// Splitting a text that was made of lines gives the lines back.
pub proof fn lemma_lines_of_unlines(ls: Seq<Seq<char>>)
    requires
        single_lines(ls),
    ensures
        lines(unlines(ls)) == ls,
    decreases ls.len(),
{
    if ls.len() == 0 {
    } else {
        let first = ls[0];
        let rest = ls.drop_first();
        assert(ls =~= seq![first] + rest);
        lemma_unlines_concat(seq![first], rest);
        lemma_unlines_one(first);
        let text = unlines(ls);
        assert(text =~= first + seq!['\n'] + unlines(rest));
        assert forall|j: int| 0 <= j < first.len() implies #[trigger] text[j] != '\n' by {
            assert(text[j] == first[j]);
            assert(!first.contains('\n'));
        }
        lemma_position_is(text, '\n', first.len() as int);
        assert(text.subrange(0, first.len() as int) =~= first);
        assert(text.subrange(first.len() as int + 1, text.len() as int) =~= unlines(rest));
        assert forall|i: int| 0 <= i < rest.len() implies !(#[trigger] rest[i]).contains('\n') by {
            assert(rest[i] == ls[i + 1]);
        }
        lemma_lines_of_unlines(rest);
        assert(lines(text) =~= seq![first] + rest);
    }
}

/// The text of a list of properties is made of their lines.
proof fn lemma_properties_text(entries: Seq<Entry>)
    ensures
        properties_text(entries) == unlines(entry_lines(entries)),
    decreases entries.len(),
{
    if entries.len() > 0 {
        reveal_strlit(" = ");
        reveal_strlit("\n");
        lemma_properties_text(entries.drop_last());
        assert(entry_lines(entries).drop_last() =~= entry_lines(entries.drop_last()));
        assert(" = "@ =~= seq![' ', DELIMITER, ' ']);
        assert("\n"@ =~= seq!['\n']);
        assert(property_line(entries.last()) =~= entry_line(entries.last()) + seq!['\n']);
        assert(properties_text(entries) =~= unlines(entry_lines(entries)));
    }
}

/// The text that opens a section is made of an empty line and the header.
proof fn lemma_header_text(depth: nat, name: Seq<char>)
    ensures
        header_text(depth, name) == unlines(seq![Seq::empty(), header_line(depth, name)]),
{
    reveal_strlit(" ");
    reveal_strlit("\n");
    assert(" "@ =~= seq![' ']);
    assert("\n"@ =~= seq!['\n']);
    let two = seq![Seq::<char>::empty(), header_line(depth, name)];
    assert(two.drop_last() =~= seq![Seq::<char>::empty()]);
    lemma_unlines_one(Seq::<char>::empty());
    assert(unlines(two.drop_last()) =~= seq!['\n']);
    assert(header_text(depth, name) =~= unlines(two));
}

/// What stands below a header is made of the lines of the section.
proof fn lemma_body_text(section: Node, depth: nat)
    ensures
        body_text(section, depth) == unlines(body_lines(section, depth)),
    decreases section, section.nested.len() + 1,
{
    lemma_properties_text(section.properties);
    lemma_children_text(section, section.nested.len(), depth + 1);
    lemma_unlines_concat(
        entry_lines(section.properties),
        children_lines(section, section.nested.len(), depth + 1),
    );
}

/// The text of the first children of a section is made of their lines.
proof fn lemma_children_text(parent: Node, count: nat, depth: nat)
    ensures
        children_text(parent, count, depth) == unlines(children_lines(parent, count, depth)),
    decreases parent, count,
{
    if count == 0 || count > parent.nested.len() {
    } else {
        let child = parent.nested[count - 1];
        lemma_children_text(parent, (count - 1) as nat, depth);
        lemma_header_text(depth, child.name);
        lemma_body_text(child, depth);
        let a = children_lines(parent, (count - 1) as nat, depth);
        let h = seq![Seq::<char>::empty(), header_line(depth, child.name)];
        let b = body_lines(child, depth);
        lemma_unlines_concat(a, h);
        lemma_unlines_concat(a + h, b);
    }
}

/// The lines of printable properties hold no line terminator.
proof fn lemma_entry_lines_single(entries: Seq<Entry>)
    requires
        printable_entries(entries),
    ensures
        single_lines(entry_lines(entries)),
{
    assert forall|i: int| 0 <= i < entries.len() implies !(#[trigger] entry_lines(
        entries,
    )[i]).contains('\n') by {
        let e = entries[i];
        let l = entry_line(e);
        assert(is_key(e.name) && is_value(e.value));
        assert forall|j: int| 0 <= j < l.len() implies l[j] != '\n' by {
            if j < e.name.len() {
                assert(l[j] == e.name[j]);
            } else if j >= e.name.len() + 3 {
                assert(l[j] == e.value[j - e.name.len() - 3]);
            }
        }
    }
}

/// The header of a section with a printable name holds no line terminator.
proof fn lemma_header_line_single(depth: nat, name: Seq<char>)
    requires
        is_section_name(name),
    ensures
        !header_line(depth, name).contains('\n'),
{
    let l = header_line(depth, name);
    assert forall|j: int| 0 <= j < l.len() implies l[j] != '\n' by {
        if j > depth {
            assert(l[j] == name[j - depth - 1]);
        }
    }
}

/// The lines of a printable section hold no line terminator.
proof fn lemma_body_lines_single(section: Node, depth: nat)
    requires
        printable_below(section),
    ensures
        single_lines(body_lines(section, depth)),
    decreases section, section.nested.len() + 1,
{
    lemma_entry_lines_single(section.properties);
    lemma_children_lines_single(section, section.nested.len(), depth + 1);
}

/// The lines of the children of a printable section hold no line terminator.
proof fn lemma_children_lines_single(parent: Node, count: nat, depth: nat)
    requires
        printable_below(parent),
    ensures
        single_lines(children_lines(parent, count, depth)),
    decreases parent, count,
{
    if count == 0 || count > parent.nested.len() {
    } else {
        let child = parent.nested[count - 1];
        lemma_children_lines_single(parent, (count - 1) as nat, depth);
        lemma_header_line_single(depth, child.name);
        lemma_body_lines_single(child, depth);
    }
}

/// The reader takes the line of a property for what it is.
pub proof fn lemma_read_entry_line(entry: Entry)
    requires
        is_key(entry.name),
        is_value(entry.value),
    ensures
        read_line(entry_line(entry)) == (Line::Property { name: entry.name, value: entry.value }),
{
    let raw = entry_line(entry);
    let n = entry.name.len() as int;
    assert(raw[0] == entry.name[0]);
    lemma_leading_whitespace(raw, 0);
    assert(trim_start(raw) =~= raw);
    assert forall|j: int| 0 <= j < n + 1 implies #[trigger] raw[j] != DELIMITER by {
        if j < n {
            assert(raw[j] == entry.name[j]);
        }
    }
    lemma_position_is(raw, DELIMITER, n + 1);
    let front = raw.subrange(0, n + 1);
    assert(front =~= entry.name.push(' '));
    assert(front[n - 1] == entry.name.last());
    lemma_trailing_whitespace(front, 1);
    assert(trim_end(front) =~= entry.name);
    let back = raw.subrange(n + 2, raw.len() as int);
    assert(back =~= seq![' '] + entry.value);
    if entry.value.len() > 0 {
        assert(back[1] == entry.value[0]);
    }
    lemma_leading_whitespace(back, 1);
    assert(trim_start(back) =~= entry.value);
    lemma_trailing_whitespace(entry.value, 0);
    assert(trim_end(entry.value) =~= entry.value);
}

/// The reader takes the header of a section for what it is.
pub proof fn lemma_read_header_line(depth: nat, name: Seq<char>)
    requires
        depth >= 1,
        is_section_name(name),
    ensures
        read_line(header_line(depth, name)) == (Line::Section { depth, name }),
{
    let raw = header_line(depth, name);
    assert(raw[0] == MARKER);
    lemma_leading_whitespace(raw, 0);
    assert(trim_start(raw) =~= raw);
    assert(raw[depth as int] == ' ');
    lemma_marker_count(raw, depth as int);
    let back = raw.subrange(depth as int, raw.len() as int);
    assert(back =~= seq![' '] + name);
    assert(back[1] == name[0]);
    lemma_leading_whitespace(back, 1);
    assert(trim_start(back) =~= name);
    lemma_trailing_whitespace(name, 0);
    assert(trim_end(name) =~= name);
}

/// A tree with a section grafted at an open depth is open as far as that
/// depth and then as far as the section is.
proof fn lemma_graft_depth(tree: Node, depth: nat, section: Node)
    requires
        depth <= tree.open_depth(),
    ensures
        graft(tree, depth, section).open_depth() == depth + section.open_depth(),
    decreases depth,
{
    if depth > 0 {
        lemma_graft_depth(tree.nested.last(), (depth - 1) as nat, section);
        let g = graft(tree, depth, section);
        assert(g.nested.last() == graft(tree.nested.last(), (depth - 1) as nat, section));
    }
}

/// Grafting one level below a grafted section replaces the last child of
/// that section.
proof fn lemma_graft_below(tree: Node, depth: nat, section: Node, child: Node)
    requires
        depth <= tree.open_depth(),
        section.nested.len() > 0,
    ensures
        graft(graft(tree, depth, section), depth + 1, child) == graft(
            tree,
            depth,
            with_last(section, child),
        ),
    decreases depth,
{
    if depth == 0 {
        assert(graft(section.nested.last(), 0, child) == child);
    } else {
        let last = tree.nested.last();
        lemma_graft_below(last, (depth - 1) as nat, section, child);
        let g = graft(tree, depth, section);
        assert(g.nested.last() == graft(last, (depth - 1) as nat, section));
        assert(g.nested.update(g.nested.len() - 1, graft(g.nested.last(), depth, child))
            =~= tree.nested.update(
            tree.nested.len() - 1,
            graft(last, (depth - 1) as nat, with_last(section, child)),
        ));
    }
}

/// Opening a section one level below a grafted section appends it to that
/// section.
proof fn lemma_graft_attach_section(tree: Node, depth: nat, section: Node, opened: Node)
    requires
        depth <= tree.open_depth(),
    ensures
        graft(tree, depth, section).attach_section(depth + 1, opened) == graft(
            tree,
            depth,
            section.push_section(opened),
        ),
    decreases depth,
{
    if depth > 0 {
        let last = tree.nested.last();
        lemma_graft_attach_section(last, (depth - 1) as nat, section, opened);
        let g = graft(tree, depth, section);
        assert(g.nested.last() == graft(last, (depth - 1) as nat, section));
        assert(g.nested.update(g.nested.len() - 1, g.nested.last().attach_section(depth, opened))
            =~= tree.nested.update(
            tree.nested.len() - 1,
            graft(last, (depth - 1) as nat, section.push_section(opened)),
        ));
    }
}

/// A property that is read while a grafted section without children is the
/// innermost open one goes to that section.
proof fn lemma_graft_attach_property(tree: Node, depth: nat, section: Node, entry: Entry)
    requires
        depth <= tree.open_depth(),
        section.nested.len() == 0,
    ensures
        graft(tree, depth, section).attach_property(entry) == graft(
            tree,
            depth,
            section.push_property(entry),
        ),
    decreases depth,
{
    if depth > 0 {
        let last = tree.nested.last();
        lemma_graft_attach_property(last, (depth - 1) as nat, section, entry);
        let g = graft(tree, depth, section);
        assert(g.nested.last() == graft(last, (depth - 1) as nat, section));
        assert(g.nested.update(g.nested.len() - 1, g.nested.last().attach_property(entry))
            =~= tree.nested.update(
            tree.nested.len() - 1,
            graft(last, (depth - 1) as nat, section.push_property(entry)),
        ));
    }
}

/// Reading the lines of printable properties appends the properties, with
/// the numbers of their lines, to the innermost open section.
proof fn lemma_run_entries(tree: Node, depth: nat, section: Node, entries: Seq<Entry>, base: nat)
    requires
        depth <= tree.open_depth(),
        section.nested.len() == 0,
        printable_entries(entries),
    ensures
        run(graft(tree, depth, section), entry_lines(entries), base) == Ok::<Node, Fault>(
            graft(
                tree,
                depth,
                Node { properties: section.properties + relined(entries, base), ..section },
            ),
        ),
    decreases entries.len(),
{
    let start = graft(tree, depth, section);
    if entries.len() == 0 {
        assert(section.properties + relined(entries, base) =~= section.properties);
    } else {
        let front = entries.drop_last();
        let e = entries.last();
        lemma_run_entries(tree, depth, section, front, base);
        let middle = Node { properties: section.properties + relined(front, base), ..section };
        assert(entry_lines(entries) =~= entry_lines(front).push(entry_line(e)));
        lemma_run_push(start, entry_lines(front), entry_line(e), base);
        lemma_read_entry_line(e);
        let number = (base + entries.len()) as nat;
        let added = Entry { line: number, name: e.name, value: e.value };
        lemma_graft_attach_property(tree, depth, middle, added);
        assert(middle.push_property(added).properties =~= section.properties + relined(
            entries,
            base,
        ));
    }
}

/// Reading the lines of a printable section into a section that was just
/// opened fills it with properties and children like those of the section
/// that was written. Returns the section as it is then.
proof fn lemma_run_body(tree: Node, depth: nat, section: Node, doc: Node, base: nat) -> (filled:
    Node)
    requires
        depth <= tree.open_depth(),
        section.properties.len() == 0,
        section.nested.len() == 0,
        printable_below(doc),
    ensures
        run(graft(tree, depth, section), body_lines(doc, depth), base) == Ok::<Node, Fault>(
            graft(tree, depth, filled),
        ),
        filled.line == section.line,
        filled.name == section.name,
        same_entries(filled.properties, doc.properties),
        filled.nested.len() == doc.nested.len(),
        forall|i: int| 0 <= i < filled.nested.len() ==> alike(#[trigger] filled.nested[i], doc.nested[i]),
    decreases doc, doc.nested.len() + 1,
{
    lemma_run_entries(tree, depth, section, doc.properties, base);
    let middle = Node { properties: section.properties + relined(doc.properties, base), ..section };
    let filled = lemma_run_children(
        tree,
        depth,
        middle,
        doc,
        doc.nested.len(),
        (base + doc.properties.len()) as nat,
    );
    lemma_run_concat(
        graft(tree, depth, section),
        entry_lines(doc.properties),
        children_lines(doc, doc.nested.len(), depth + 1),
        base,
    );
    assert(middle.properties =~= relined(doc.properties, base));
    filled
}

/// Reading the lines of the first `count` children of a printable section
/// appends children like them to the section that is open at `depth`.
/// Returns the section as it is then.
proof fn lemma_run_children(
    tree: Node,
    depth: nat,
    section: Node,
    parent: Node,
    count: nat,
    base: nat,
) -> (filled: Node)
    requires
        depth <= tree.open_depth(),
        section.nested.len() == 0,
        count <= parent.nested.len(),
        printable_below(parent),
    ensures
        run(graft(tree, depth, section), children_lines(parent, count, depth + 1), base) == Ok::<
            Node,
            Fault,
        >(graft(tree, depth, filled)),
        filled.line == section.line,
        filled.name == section.name,
        filled.properties == section.properties,
        filled.nested.len() == count,
        forall|i: int| 0 <= i < count ==> alike(#[trigger] filled.nested[i], parent.nested[i]),
    decreases parent, count,
{
    let start = graft(tree, depth, section);
    if count == 0 {
        section
    } else {
        let k = (count - 1) as nat;
        let child = parent.nested[k as int];
        let before = lemma_run_children(tree, depth, section, parent, k, base);
        let a = children_lines(parent, k, depth + 1);
        let blank = Seq::<char>::empty();
        let header = header_line(depth + 1, child.name);
        let h = seq![blank, header];
        let b = body_lines(child, depth + 1);
        let base1 = (base + a.len()) as nat;
        let number = (base1 + 2) as nat;
        let opened = Node::empty(number, child.name);
        let s_before = graft(tree, depth, before);
        // the empty line and the header
        assert(seq![blank] =~= Seq::<Seq<char>>::empty().push(blank));
        lemma_run_push(s_before, Seq::<Seq<char>>::empty(), blank, base1);
        assert(h =~= seq![blank].push(header));
        lemma_run_push(s_before, seq![blank], header, base1);
        assert(run(s_before, seq![blank], base1) == step(s_before, blank, base1 + 1));
        assert(trim_start(blank) =~= blank);
        assert(step(s_before, blank, base1 + 1) == Ok::<Node, Fault>(s_before));
        lemma_read_header_line(depth + 1, child.name);
        lemma_graft_depth(tree, depth, before);
        lemma_graft_attach_section(tree, depth, before, opened);
        let widened = before.push_section(opened);
        let s_opened = graft(tree, depth, widened);
        assert(run(s_before, h, base1) == Ok::<Node, Fault>(s_opened));
        // what stands below the header
        lemma_graft_depth(tree, depth, widened);
        assert(widened.nested.last() == opened);
        assert(opened.open_depth() == 0);
        assert(widened.open_depth() == 1);
        lemma_graft_below(tree, depth, widened, opened);
        assert(with_last(widened, opened).nested =~= widened.nested);
        assert(graft(s_opened, depth + 1, opened) == s_opened);
        let below = lemma_run_body(s_opened, depth + 1, opened, child, number);
        lemma_graft_below(tree, depth, widened, below);
        let filled = before.push_section(below);
        assert(with_last(widened, below).nested =~= filled.nested);
        assert(graft(s_opened, depth + 1, below) == graft(tree, depth, filled));
        // all together
        lemma_run_concat(start, a, h, base);
        lemma_run_concat(start, a + h, b, base);
        assert(children_lines(parent, count, depth + 1) =~= a + h + b);
        assert((a + h).len() == a.len() + 2);
        assert(alike(below, child));
        assert forall|i: int| 0 <= i < count implies alike(
            #[trigger] filled.nested[i],
            parent.nested[i],
        ) by {
            if i < k {
                assert(filled.nested[i] == before.nested[i]);
            }
        }
        filled
    }
}

/// Sections that are alike are written alike.
pub proof fn lemma_alike_text(a: Node, b: Node, depth: nat)
    requires
        alike(a, b),
    ensures
        body_text(a, depth) == body_text(b, depth),
    decreases a, a.nested.len() + 1,
{
    lemma_same_entries_text(a.properties, b.properties);
    lemma_alike_children_text(a, b, a.nested.len(), depth + 1);
}

/// Properties with the same names and values are written alike.
proof fn lemma_same_entries_text(a: Seq<Entry>, b: Seq<Entry>)
    requires
        same_entries(a, b),
    ensures
        properties_text(a) == properties_text(b),
    decreases a.len(),
{
    if a.len() > 0 {
        assert(a.last().name == b.last().name);
        assert(same_entries(a.drop_last(), b.drop_last())) by {
            assert forall|i: int| 0 <= i < a.drop_last().len() implies (
            #[trigger] a.drop_last()[i]).name == b.drop_last()[i].name && a.drop_last()[i].value
                == b.drop_last()[i].value by {
                assert(a.drop_last()[i] == a[i]);
                assert(b.drop_last()[i] == b[i]);
            }
        }
        lemma_same_entries_text(a.drop_last(), b.drop_last());
    }
}

/// The first children of sections that are alike are written alike.
proof fn lemma_alike_children_text(a: Node, b: Node, count: nat, depth: nat)
    requires
        alike(a, b),
        count <= a.nested.len(),
    ensures
        children_text(a, count, depth) == children_text(b, count, depth),
    decreases a, count,
{
    if count > 0 {
        lemma_alike_children_text(a, b, (count - 1) as nat, depth);
        assert(alike(a.nested[count - 1], b.nested[count - 1]));
        lemma_alike_text(a.nested[count - 1], b.nested[count - 1], depth);
    }
}

/// The text of a document splits into the lines of the document.
pub proof fn lemma_dump_lines(doc: Node)
    requires
        printable_below(doc),
    ensures
        lines(dump_text(doc)) == body_lines(doc, 0),
{
    lemma_body_text(doc, 0);
    lemma_body_lines_single(doc, 0);
    lemma_lines_of_unlines(body_lines(doc, 0));
}

/// Round trip: the text of a printable document is read without failure,
/// and the document that is read has the names, the values and the structure
/// of the one that was written. Line numbers are not kept.
pub proof fn law_round_trip(doc: Node)
    requires
        printable(doc),
    ensures
        parse_text(dump_text(doc)) matches Ok(back) && alike(back, doc),
        parse_bytes(encode_utf8(dump_text(doc))) == parse_text(dump_text(doc)),
{
    lemma_dump_lines(doc);
    let filled = lemma_run_body(empty_root(), 0, empty_root(), doc, 0);
    assert(graft(empty_root(), 0, empty_root()) == empty_root());
    assert(graft(empty_root(), 0, filled) == filled);
    assert(filled.name =~= doc.name);
    encode_utf8_valid_utf8(dump_text(doc));
    encode_utf8_decode_utf8(dump_text(doc));
    law_parse_bytes_of_text(encode_utf8(dump_text(doc)));
}

/// Idempotence: writing a printable document, reading the text and writing
/// what was read gives the first text again.
pub proof fn law_idempotence(doc: Node)
    requires
        printable(doc),
    ensures
        parse_text(dump_text(doc)) matches Ok(back) && dump_text(back) == dump_text(doc),
{
    law_round_trip(doc);
    let back = parse_text(dump_text(doc))->Ok_0;
    lemma_alike_text(back, doc, 0);
}

/// No line of a text holds a line terminator.
pub proof fn lemma_lines_single(text: Seq<char>)
    ensures
        single_lines(lines(text)),
    decreases text.len(),
{
    if text.len() > 0 {
        lemma_position(text, '\n');
        let k = position(text, '\n');
        if k < text.len() {
            let first = text.subrange(0, k);
            let rest = text.subrange(k + 1, text.len() as int);
            lemma_lines_single(rest);
            assert forall|j: int| 0 <= j < first.len() implies first[j] != '\n' by {
                assert(first[j] == text[j]);
            }
            assert forall|i: int| 0 <= i < lines(text).len() implies !(#[trigger] lines(
                text,
            )[i]).contains('\n') by {
                if i > 0 {
                    assert(lines(text)[i] == lines(rest)[i - 1]);
                }
            }
        }
    }
}

/// What the reader takes from a line can be written without loss.
pub proof fn lemma_read_line_printable(raw: Seq<char>)
    requires
        !raw.contains('\n'),
    ensures
        match read_line(raw) {
            Line::Property { name, value } => is_key(name) && is_value(value),
            Line::Section { depth, name } => depth >= 1 && is_section_name(name),
            _ => true,
        },
{
    lemma_leading_whitespace_bounds(raw);
    let lead = leading_whitespace(raw) as int;
    let token = trim_start(raw);
    assert forall|j: int| 0 <= j < token.len() implies token[j] != '\n' by {
        assert(token[j] == raw[lead + j]);
    }
    if token.len() == 0 || token[0] == COMMENT {
    } else if token[0] == MARKER {
        let depth = marker_count(token) as int;
        lemma_marker_count_bounds(token);
        let back = token.subrange(depth, token.len() as int);
        lemma_trim(back);
        lemma_leading_whitespace_bounds(back);
        lemma_trailing_whitespace_bounds(trim_start(back));
        let name = trim(back);
        let skip = leading_whitespace(back) as int;
        assert forall|j: int| 0 <= j < name.len() implies name[j] != '\n' by {
            assert(name[j] == token[depth + skip + j]);
        }
    } else {
        lemma_position(token, DELIMITER);
        let k = position(token, DELIMITER);
        if k < token.len() {
            let front = token.subrange(0, k);
            lemma_trailing_whitespace_bounds(front);
            let name = trim_end(front);
            if name.len() > 0 {
                assert(name[0] == token[0]);
                assert(name.last() == front[front.len() - trailing_whitespace(front) - 1]);
                assert forall|j: int| 0 <= j < name.len() implies name[j] != DELIMITER && name[j]
                    != '\n' by {
                    assert(name[j] == token[j]);
                }
            }
            let back = token.subrange(k + 1, token.len() as int);
            lemma_trim(back);
            lemma_leading_whitespace_bounds(back);
            lemma_trailing_whitespace_bounds(trim_start(back));
            let value = trim(back);
            let skip = leading_whitespace(back) as int;
            assert forall|j: int| 0 <= j < value.len() implies value[j] != '\n' by {
                assert(value[j] == token[k + 1 + skip + j]);
            }
        }
    }
}

/// There are no more markers than characters, and at least one where the
/// first character is a marker.
proof fn lemma_marker_count_bounds(s: Seq<char>)
    ensures
        marker_count(s) <= s.len(),
        s.len() > 0 && s[0] == MARKER ==> marker_count(s) >= 1,
    decreases s.len(),
{
    if s.len() > 0 && s[0] == MARKER {
        lemma_marker_count_bounds(s.drop_first());
    }
}

/// A printable tree stays printable when it gets a printable property.
proof fn lemma_attach_property_printable(tree: Node, entry: Entry)
    requires
        printable_below(tree),
        is_key(entry.name),
        is_value(entry.value),
    ensures
        printable_below(tree.attach_property(entry)),
    decreases tree,
{
    let after = tree.attach_property(entry);
    if tree.nested.len() == 0 {
        assert forall|i: int| 0 <= i < after.properties.len() implies is_key(
            (#[trigger] after.properties[i]).name,
        ) && is_value(after.properties[i].value) by {
            if i < tree.properties.len() {
                assert(after.properties[i] == tree.properties[i]);
            }
        }
    } else {
        let last = tree.nested.last();
        lemma_attach_property_printable(last, entry);
        assert forall|i: int| 0 <= i < after.nested.len() implies is_section_name(
            (#[trigger] after.nested[i]).name,
        ) && printable_below(after.nested[i]) by {
            if i < tree.nested.len() - 1 {
                assert(after.nested[i] == tree.nested[i]);
            } else {
                lemma_attach_keeps_name(last, entry);
            }
        }
    }
}

/// A section keeps its name when a property is read.
proof fn lemma_attach_keeps_name(tree: Node, entry: Entry)
    ensures
        tree.attach_property(entry).name == tree.name,
{
}

/// A printable tree stays printable, and keeps its name, when a printable
/// section with a printable name is opened in it.
proof fn lemma_attach_section_printable(tree: Node, depth: nat, section: Node)
    requires
        printable_below(tree),
        is_section_name(section.name),
        printable_below(section),
    ensures
        printable_below(tree.attach_section(depth, section)),
        tree.attach_section(depth, section).name == tree.name,
    decreases tree,
{
    let after = tree.attach_section(depth, section);
    if depth <= 1 || tree.nested.len() == 0 {
        assert forall|i: int| 0 <= i < after.nested.len() implies is_section_name(
            (#[trigger] after.nested[i]).name,
        ) && printable_below(after.nested[i]) by {
            if i < tree.nested.len() {
                assert(after.nested[i] == tree.nested[i]);
            }
        }
    } else {
        let last = tree.nested.last();
        lemma_attach_section_printable(last, (depth - 1) as nat, section);
        assert forall|i: int| 0 <= i < after.nested.len() implies is_section_name(
            (#[trigger] after.nested[i]).name,
        ) && printable_below(after.nested[i]) by {
            if i < tree.nested.len() - 1 {
                assert(after.nested[i] == tree.nested[i]);
            }
        }
    }
}

/// Reading lines that hold no line terminator into a printable tree leaves
/// a printable tree.
proof fn lemma_run_printable(tree: Node, ls: Seq<Seq<char>>, base: nat)
    requires
        printable_below(tree),
        single_lines(ls),
    ensures
        run(tree, ls, base) matches Ok(after) ==> printable_below(after),
    decreases ls.len(),
{
    if ls.len() > 0 {
        let front = ls.drop_last();
        assert forall|i: int| 0 <= i < front.len() implies !(#[trigger] front[i]).contains(
            '\n',
        ) by {
            assert(front[i] == ls[i]);
        }
        lemma_run_printable(tree, front, base);
        if let Ok(before) = run(tree, front, base) {
            let raw = ls.last();
            let number = (base + ls.len()) as nat;
            lemma_read_line_printable(raw);
            match read_line(raw) {
                Line::Property { name, value } => {
                    lemma_attach_property_printable(before, Entry { line: number, name, value });
                },
                Line::Section { depth, name } => {
                    lemma_attach_section_printable(before, depth, Node::empty(number, name));
                },
                _ => {},
            }
        }
    }
}

/// Every document that is read from a text is printable: it can be written
/// and read again as `law_round_trip` says.
pub proof fn law_parsed_is_printable(text: Seq<char>)
    ensures
        parse_text(text) matches Ok(doc) ==> printable(doc),
{
    lemma_lines_single(text);
    lemma_run_printable(empty_root(), lines(text), 0);
    law_parsed_root(text);
}

} // verus!
