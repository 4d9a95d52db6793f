//! The document: a tree of named sections, each with an ordered list of
//! properties and an ordered list of child sections.

use crate::text::same_text;
use vstd::prelude::*;
use vstd::string::StringExecFns;

verus! {

/// The mathematical content of a `Property`.
pub struct Entry {
    /// Line of the source text that held the property, 0 if it was not read
    /// from a text.
    pub line: nat,
    pub name: Seq<char>,
    pub value: Seq<char>,
}

/// The mathematical content of a `Config`: a section with everything below it.
pub struct Node {
    /// Line of the source text that opened the section, 0 if it was not read
    /// from a text.
    pub line: nat,
    pub name: Seq<char>,
    pub properties: Seq<Entry>,
    pub nested: Seq<Node>,
}

/// The first entry of `entries` that is called `name`.
pub open spec fn first_named(entries: Seq<Entry>, name: Seq<char>) -> Option<Entry>
    decreases entries.len(),
{
    if entries.len() == 0 {
        None
    } else if entries[0].name == name {
        Some(entries[0])
    } else {
        first_named(entries.drop_first(), name)
    }
}

impl Node {
    /// A section without properties and without children.
    pub open spec fn empty(line: nat, name: Seq<char>) -> Node {
        Node { line, name, properties: Seq::empty(), nested: Seq::empty() }
    }

    /// The section with `entry` as its new last property.
    pub open spec fn push_property(self, entry: Entry) -> Node {
        Node { properties: self.properties.push(entry), ..self }
    }

    /// The section with `child` as its new last child.
    pub open spec fn push_section(self, child: Node) -> Node {
        Node { nested: self.nested.push(child), ..self }
    }

    /// The first direct property called `name`. Children are not searched.
    pub open spec fn lookup(self, name: Seq<char>) -> Option<Entry> {
        first_named(self.properties, name)
    }

    /// How many sections are open below this one: the length of the chain
    /// that goes from a section to its last child as long as there is one.
    pub open spec fn open_depth(self) -> nat
        decreases self,
    {
        if self.nested.len() == 0 {
            0
        } else {
            1 + self.nested.last().open_depth()
        }
    }

    /// The tree with `entry` appended to the innermost open section: the end
    /// of the chain of last children.
    pub open spec fn attach_property(self, entry: Entry) -> Node
        decreases self,
    {
        if self.nested.len() == 0 {
            self.push_property(entry)
        } else {
            Node {
                nested: self.nested.update(
                    self.nested.len() - 1,
                    self.nested.last().attach_property(entry),
                ),
                ..self
            }
        }
    }

    /// The tree with `section` appended as a new last child of the open
    /// section at depth `depth - 1`, which makes it the open section at depth
    /// `depth`. Meant for `1 <= depth <= self.open_depth() + 1`.
    pub open spec fn attach_section(self, depth: nat, section: Node) -> Node
        decreases self,
    {
        if depth <= 1 || self.nested.len() == 0 {
            self.push_section(section)
        } else {
            Node {
                nested: self.nested.update(
                    self.nested.len() - 1,
                    self.nested.last().attach_section((depth - 1) as nat, section),
                ),
                ..self
            }
        }
    }
}

/// A named, string-valued leaf of the tree.
#[derive(Debug)]
pub struct Property {
    line: usize,
    name: String,
    value: String,
}

impl View for Property {
    type V = Entry;

    closed spec fn view(&self) -> Entry {
        Entry { line: self.line as nat, name: self.name@, value: self.value@ }
    }
}

impl Property {
    /// A property that was not read from a text: its line is 0.
    pub fn new(name: &str, value: &str) -> (p: Property)
        ensures
            p@ == (Entry { line: 0, name: name@, value: value@ }),
    {
        Property { line: 0, name: String::from_str(name), value: String::from_str(value) }
    }

    /// A property that stood on line `line` of a text.
    pub fn at(line: usize, name: String, value: String) -> (p: Property)
        ensures
            p@ == (Entry { line: line as nat, name: name@, value: value@ }),
    {
        Property { line, name, value }
    }

    /// Line of the text that held the property, 0 if it was not read from a text.
    pub fn get_line(&self) -> (line: usize)
        ensures
            line == self@.line,
    {
        self.line
    }

    /// The property's name.
    pub fn get_name(&self) -> (name: &str)
        ensures
            name@ == self@.name,
    {
        self.name.as_str()
    }

    /// The raw value, as it was written.
    pub fn get_value(&self) -> (value: &str)
        ensures
            value@ == self@.value,
    {
        self.value.as_str()
    }
}

/// A section of the tree. The root of a document is a section with an empty
/// name.
///
/// ## Properties
///
/// A property is a pair of key and value, written `name = value`. Whitespace
/// around the line and around the delimiter is ignored. Every value is a
/// text, without quotes.
///
/// ## Sections
///
/// A section groups properties and further sections. Its header is a run of
/// `#`, one for each level of nesting, followed by its name.
///
/// ## Comments
///
/// A line whose first character is `;` is a comment.
#[derive(Debug)]
pub struct Config {
    line: usize,
    name: String,
    properties: Vec<Property>,
    nested: Vec<Config>,
}

impl View for Config {
    type V = Node;

    open spec fn view(&self) -> Node {
        self.model()
    }
}

/// What can be pushed into a section: a property or a child section.
pub trait Insert: Sized {
    /// The section `into` after `self` was pushed into it.
    spec fn inserted(self, into: Node) -> Node;

    /// Appends `self` to the list of `into` that holds values of its kind.
    fn insert(self, into: &mut Config)
        ensures
            final(into)@ == self.inserted(old(into)@),
    ;
}

impl Insert for Property {
    open spec fn inserted(self, into: Node) -> Node {
        into.push_property(self@)
    }

    fn insert(self, into: &mut Config) {
        proof {
            into.lemma_model();
        }
        into.properties.push(self);
        proof {
            into.lemma_model();
            assert(into@.properties =~= old(into)@.properties.push(self@));
            assert(into@.nested =~= old(into)@.nested);
        }
    }
}

impl Insert for Config {
    open spec fn inserted(self, into: Node) -> Node {
        into.push_section(self@)
    }

    fn insert(self, into: &mut Config) {
        proof {
            into.lemma_model();
        }
        into.nested.push(self);
        proof {
            into.lemma_model();
            assert(into@.properties =~= old(into)@.properties);
            assert(into@.nested =~= old(into)@.nested.push(self@));
        }
    }
}

impl Config {
    /// The content of the section and of everything below it.
    pub closed spec fn model(&self) -> Node
        decreases self,
    {
        Node {
            line: self.line as nat,
            name: self.name@,
            properties: Seq::new(self.properties@.len(), |i: int| self.properties@[i]@),
            nested: Seq::new(
                self.nested@.len(),
                |i: int|
                    if 0 <= i < self.nested@.len() {
                        self.nested@[i].model()
                    } else {
                        arbitrary()
                    },
            ),
        }
    }

    /// What the model holds, field by field.
    proof fn lemma_model(&self)
        ensures
            self@.line == self.line,
            self@.name == self.name@,
            self@.properties.len() == self.properties@.len(),
            forall|i: int|
                0 <= i < self.properties@.len() ==> self@.properties[i]
                    == #[trigger] self.properties@[i]@,
            self@.nested.len() == self.nested@.len(),
            forall|i: int|
                0 <= i < self.nested@.len() ==> self@.nested[i] == #[trigger] self.nested@[i]@,
    {
    }

    /// Creates an empty section called `name`.
    pub fn new(name: &str) -> (section: Config)
        ensures
            section@ == Node::empty(0, name@),
    {
        let section = Config {
            line: 0,
            name: String::from_str(name),
            properties: Vec::new(),
            nested: Vec::new(),
        };
        proof {
            section.lemma_model();
            assert(section@.properties =~= Seq::empty());
            assert(section@.nested =~= Seq::empty());
        }
        section
    }

    /// Creates an empty section called `name` whose header stood on line
    /// `line` of a text.
    pub fn at(line: usize, name: String) -> (section: Config)
        ensures
            section@ == Node::empty(line as nat, name@),
    {
        let section = Config { line, name, properties: Vec::new(), nested: Vec::new() };
        proof {
            section.lemma_model();
            assert(section@.properties =~= Seq::empty());
            assert(section@.nested =~= Seq::empty());
        }
        section
    }

    /// Appends a property or a child section.
    pub fn push<T: Insert>(&mut self, item: T)
        ensures
            final(self)@ == item.inserted(old(self)@),
    {
        item.insert(self);
    }

    /// Returns the section's name.
    pub fn get_name(&self) -> (name: &str)
        ensures
            name@ == self@.name,
    {
        proof {
            self.lemma_model();
        }
        self.name.as_str()
    }

    /// Returns the line of the section's header, 0 for a section that was not
    /// read from a text and for the root.
    pub fn get_line(&self) -> (line: usize)
        ensures
            line == self@.line,
    {
        proof {
            self.lemma_model();
        }
        self.line
    }

    /// Returns the first property called `name` among the section's own
    /// properties.
    pub fn get_property(&self, name: &str) -> (found: Option<&Property>)
        ensures
            found matches Some(p) ==> self@.lookup(name@) == Some(p@),
            found is None ==> self@.lookup(name@) is None,
    {
        proof {
            self.lemma_model();
        }
        let n: usize = self.properties.len();
        let mut i: usize = 0;
        proof {
            assert(self@.properties.subrange(0, n as int) =~= self@.properties);
        }
        while i < n
            invariant
                i <= n,
                n == self.properties@.len(),
                self@.properties.len() == n,
                forall|j: int|
                    0 <= j < n ==> self@.properties[j] == #[trigger] self.properties@[j]@,
                self@.lookup(name@) == first_named(self@.properties.subrange(i as int, n as int), name@),
            decreases n - i,
        {
            let p = &self.properties[i];
            let ghost rest = self@.properties.subrange(i as int, n as int);
            proof {
                assert(rest[0] == p@);
                assert(rest.drop_first() =~= self@.properties.subrange(i + 1, n as int));
            }
            if same_text(p.name.as_str(), name) {
                return Some(p);
            }
            i += 1;
        }
        None
    }

    /// The child sections, in the order in which they were added.
    pub fn iter(&self) -> (children: &[Config])
        ensures
            children@.len() == self@.nested.len(),
            forall|i: int| 0 <= i < children@.len() ==> (#[trigger] children@[i])@ == self@.nested[i],
    {
        proof {
            self.lemma_model();
        }
        self.nested.as_slice()
    }

    /// The section's own properties, in the order in which they were added.
    pub fn properties(&self) -> (own: &[Property])
        ensures
            own@.len() == self@.properties.len(),
            forall|i: int| 0 <= i < own@.len() ==> (#[trigger] own@[i])@ == self@.properties[i],
    {
        proof {
            self.lemma_model();
        }
        self.properties.as_slice()
    }

    /// Appends `property` to the innermost open section.
    pub fn attach_property(&mut self, property: Property)
        ensures
            final(self)@ == old(self)@.attach_property(property@),
        decreases old(self)@.open_depth(),
    {
        proof {
            self.lemma_model();
        }
        let n: usize = self.nested.len();
        if n == 0 {
            self.properties.push(property);
            proof {
                self.lemma_model();
                assert(self@.properties =~= old(self)@.properties.push(property@));
                assert(self@.nested =~= old(self)@.nested);
            }
        } else {
            let child = &mut self.nested[n - 1];
            child.attach_property(property);
            proof {
                self.lemma_model();
                assert(self@.properties =~= old(self)@.properties);
                assert(self@.nested =~= old(self)@.nested.update(
                    n - 1,
                    old(self)@.nested.last().attach_property(property@),
                ));
            }
        }
    }

    /// Opens `section` at depth `depth`: appends it to the open section at
    /// depth `depth - 1`. Returns whether that section exists; where it does
    /// not, and for the depth 0, nothing changes.
    pub fn attach_section(&mut self, depth: usize, section: Config) -> (done: bool)
        ensures
            done == (1 <= depth <= old(self)@.open_depth() + 1),
            done ==> final(self)@ == old(self)@.attach_section(depth as nat, section@),
            !done ==> final(self)@ == old(self)@,
        decreases old(self)@.open_depth(),
    {
        proof {
            self.lemma_model();
        }
        let n: usize = self.nested.len();
        if depth == 1 {
            self.nested.push(section);
            proof {
                self.lemma_model();
                assert(self@.properties =~= old(self)@.properties);
                assert(self@.nested =~= old(self)@.nested.push(section@));
            }
            true
        } else if n == 0 || depth == 0 {
            false
        } else {
            let child = &mut self.nested[n - 1];
            let done = child.attach_section(depth - 1, section);
            proof {
                self.lemma_model();
                assert(self@.properties =~= old(self)@.properties);
                if done {
                    assert(self@.nested =~= old(self)@.nested.update(
                        n - 1,
                        old(self)@.nested.last().attach_section((depth - 1) as nat, section@),
                    ));
                } else {
                    assert(self@.nested =~= old(self)@.nested);
                }
            }
            done
        }
    }
}

} // verus!
