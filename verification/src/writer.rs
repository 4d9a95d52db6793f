//! The writer: the text of a document, and the function that produces it.
//!
//! A section is written as its properties, one `name = value` per line,
//! followed by its child sections. Each child starts with an empty line and
//! its header, a run of `#` as long as the child is deep, a space and the
//! child's name. The root's own name is not written.

use crate::config::{Config, Entry, Node};
use crate::error::ConfigError;
use crate::parser::MARKER;
use crate::text::append_repeated;
use vstd::prelude::*;
use vstd::string::StringExecFns;
use vstd::utf8::encode_utf8;

verus! {

/// A run of `depth` markers.
pub open spec fn markers(depth: nat) -> Seq<char> {
    Seq::new(depth, |i: int| MARKER)
}

/// The line that holds one property.
pub open spec fn property_line(entry: Entry) -> Seq<char> {
    entry.name + " = "@ + entry.value + "\n"@
}

/// The lines of a list of properties, in order.
pub open spec fn properties_text(entries: Seq<Entry>) -> Seq<char>
    decreases entries.len(),
{
    if entries.len() == 0 {
        Seq::empty()
    } else {
        properties_text(entries.drop_last()) + property_line(entries.last())
    }
}

/// The empty line and the header that open a section called `name` at depth
/// `depth`.
pub open spec fn header_text(depth: nat, name: Seq<char>) -> Seq<char> {
    "\n"@ + markers(depth) + " "@ + name + "\n"@
}

/// What stands below the header of `section`, itself at depth `depth`: its
/// properties, then its children at depth `depth + 1`.
pub open spec fn body_text(section: Node, depth: nat) -> Seq<char>
    decreases section, section.nested.len() + 1,
{
    properties_text(section.properties) + children_text(section, section.nested.len(), depth + 1)
}

/// The first `count` children of `parent`, each with its header, written at
/// depth `depth`.
pub open spec fn children_text(parent: Node, count: nat, depth: nat) -> Seq<char>
    decreases parent, count,
{
    if count == 0 || count > parent.nested.len() {
        Seq::empty()
    } else {
        children_text(parent, (count - 1) as nat, depth) + header_text(
            depth,
            parent.nested[count - 1].name,
        ) + body_text(parent.nested[count - 1], depth)
    }
}

/// The text of a whole document.
pub open spec fn dump_text(root: Node) -> Seq<char> {
    body_text(root, 0)
}

impl Config {
    /// Appends to `out` what stands below this section's header. `prefix` is
    /// the run of markers in the headers of this section's children.
    fn dump_section(&self, out: &mut String, prefix: &str)
        requires
            prefix@.len() >= 1,
            prefix@ == markers(prefix@.len()),
        ensures
            final(out)@ == old(out)@ + body_text(self@, (prefix@.len() - 1) as nat),
        decreases self@,
    {
        let ghost depth = (prefix@.len() - 1) as nat;
        let own = self.properties();
        let n: usize = own.len();
        let mut i: usize = 0;
        proof {
            assert(self@.properties.subrange(0, 0) =~= Seq::<Entry>::empty());
        }
        while i < n
            invariant
                i <= n,
                n == own@.len(),
                own@.len() == self@.properties.len(),
                forall|j: int| 0 <= j < own@.len() ==> (#[trigger] own@[j])@ == self@.properties[j],
                out@ == old(out)@ + properties_text(self@.properties.subrange(0, i as int)),
            decreases n - i,
        {
            let p = &own[i];
            let ghost before = out@;
            out.append(p.get_name());
            out.append(" = ");
            out.append(p.get_value());
            out.append("\n");
            proof {
                let done = self@.properties.subrange(0, i + 1);
                assert(done.drop_last() =~= self@.properties.subrange(0, i as int));
                assert(done.last() == p@);
                assert(out@ =~= before + property_line(p@));
                assert(out@ =~= old(out)@ + properties_text(done));
            }
            i += 1;
        }
        proof {
            assert(self@.properties.subrange(0, n as int) =~= self@.properties);
        }
        let children = self.iter();
        let m: usize = children.len();
        let mut k: usize = 0;
        while k < m
            invariant
                k <= m,
                m == children@.len(),
                children@.len() == self@.nested.len(),
                forall|j: int| 0 <= j < children@.len() ==> (#[trigger] children@[j])@ == self@.nested[j],
                prefix@.len() >= 1,
                prefix@ == markers(prefix@.len()),
                depth == prefix@.len() - 1,
                out@ == old(out)@ + properties_text(self@.properties) + children_text(
                    self@,
                    k as nat,
                    depth + 1,
                ),
            decreases m - k,
        {
            let child = &children[k];
            let ghost before = out@;
            out.append("\n");
            out.append(prefix);
            out.append(" ");
            out.append(child.get_name());
            out.append("\n");
            let mut deeper = String::from_str(prefix);
            append_repeated(&mut deeper, MARKER, 1);
            proof {
                assert(deeper@ =~= markers(deeper@.len()));
                assert(out@ =~= before + header_text(depth + 1, child@.name));
            }
            child.dump_section(out, deeper.as_str());
            proof {
                assert(out@ =~= old(out)@ + properties_text(self@.properties) + children_text(
                    self@,
                    (k + 1) as nat,
                    depth + 1,
                ));
            }
            k += 1;
        }
    }

    /// Writes the document as UTF-8 text to the end of `dst`. This cannot
    /// fail.
    pub fn dump(&self, dst: &mut Vec<u8>) -> (r: Result<(), ConfigError>)
        ensures
            r is Ok,
            final(dst)@ == old(dst)@ + encode_utf8(dump_text(self@)),
    {
        let mut text = String::new();
        let mut prefix = String::new();
        append_repeated(&mut prefix, MARKER, 1);
        proof {
            assert(prefix@ =~= markers(1));
        }
        self.dump_section(&mut text, prefix.as_str());
        let bytes = text.as_str().as_bytes();
        dst.extend_from_slice(bytes);
        proof {
            assert(text@ =~= dump_text(self@));
            assert(dst@ =~= old(dst)@ + encode_utf8(dump_text(self@)));
        }
        Ok(())
    }
}

} // verus!
