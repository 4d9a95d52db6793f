//! Schemas: what a document must hold, and the check of a document against
//! it.
//!
//! A schema describes one section: its fields, and the schemas of the child
//! sections that it knows by name. A document passes when every field passes
//! and every child section that the schema knows passes its own schema. Child
//! sections that the schema does not know are accepted as they are.

use crate::config::{Config, Node};
use crate::error::{ConfigError, Fault};
use crate::number::{integer, read_integer};
use crate::parser::MARKER;
use crate::text::{append_repeated, same_text};
use crate::writer::{header_text, markers};
use core::ops::Range;
use vstd::prelude::*;
use vstd::std_specs::convert::{FromSpecImpl, IntoSpec};
use vstd::string::StringExecFns;

verus! {

/// A predicate on raw values, for the callers of this library to implement.
pub trait Rule {
    /// Whether the raw value `value` passes.
    spec fn accepts(&self, value: Seq<char>) -> bool;

    /// Tests the raw value `value`.
    fn test(&self, value: &str) -> (ok: bool)
        ensures
            ok == self.accepts(value@),
    ;
}

/// Whether `f` is a predicate on texts: it can be called on every text, and
/// what it returns depends on the characters of the text alone.
pub open spec fn is_predicate<F: Fn(&str) -> bool>(f: F) -> bool {
    &&& forall|s: &str| call_requires(f, (s,))
    &&& forall|s: &str, t: &str, a: bool, b: bool|
        s@ == t@ && #[trigger] call_ensures(f, (s,), a) && #[trigger] call_ensures(f, (t,), b) ==> a
            == b
}

/// A rule that is given as a function.
pub struct Predicate<F: Fn(&str) -> bool> {
    f: F,
}

impl<F: Fn(&str) -> bool> Predicate<F> {
    /// The function is a predicate.
    #[verifier::type_invariant]
    spec fn wf(self) -> bool {
        is_predicate(self.f)
    }

    /// The function that decides.
    pub closed spec fn function(self) -> F {
        self.f
    }

    /// The rule that accepts the values on which `f` returns `true`.
    pub fn new(f: F) -> (rule: Predicate<F>)
        requires
            is_predicate(f),
        ensures
            rule.function() == f,
    {
        Predicate { f }
    }
}

impl<F: Fn(&str) -> bool> Rule for Predicate<F> {
    open spec fn accepts(&self, value: Seq<char>) -> bool {
        exists|s: &str| s@ == value && #[trigger] call_ensures(self.function(), (s,), true)
    }

    fn test(&self, value: &str) -> (ok: bool) {
        proof {
            use_type_invariant(self);
        }
        let ok = (self.f)(value);
        proof {
            assert(call_ensures(self.f, (value,), ok));
            assert(self.function() == self.f);
            if ok {
                assert(self.accepts(value@));
            } else if self.accepts(value@) {
                let s = choose|s: &str|
                    s@ == value@ && #[trigger] call_ensures(self.function(), (s,), true);
                assert(call_ensures(self.f, (s,), true));
                assert(call_ensures(self.f, (value,), false));
                assert(false);
            }
        }
        ok
    }
}

/// The optional predicate of a field.
pub struct Validator(pub Option<Box<dyn Rule>>);

impl Validator {
    /// Whether the raw value `value` passes. Without a predicate every value
    /// passes.
    pub open spec fn accepts(&self, value: Seq<char>) -> bool {
        match self.0 {
            Some(rule) => rule.accepts(value),
            None => true,
        }
    }

    /// Tests the raw value `value`.
    pub fn test(&self, value: &str) -> (ok: bool)
        ensures
            ok == self.accepts(value@),
    {
        match &self.0 {
            Some(rule) => rule.test(value),
            None => true,
        }
    }
}

impl<R: Rule + 'static> From<R> for Validator {
    fn from(rule: R) -> (v: Validator) {
        Validator(Some(Box::new(rule)))
    }
}

impl<R: Rule + 'static> FromSpecImpl<R> for Validator {
    open spec fn obeys_from_spec() -> bool {
        true
    }

    open spec fn from_spec(rule: R) -> Validator {
        Validator(Some(Box::new(rule)))
    }
}

impl From<Option<Box<dyn Rule>>> for Validator {
    fn from(rule: Option<Box<dyn Rule>>) -> (v: Validator) {
        Validator(rule)
    }
}

impl FromSpecImpl<Option<Box<dyn Rule>>> for Validator {
    open spec fn obeys_from_spec() -> bool {
        true
    }

    open spec fn from_spec(rule: Option<Box<dyn Rule>>) -> Validator {
        Validator(rule)
    }
}

/// The range validator: it accepts the unsigned numbers from `start` to
/// `end`, both included, written as `Config::get` reads them.
pub struct InRange {
    pub start: usize,
    pub end: usize,
}

/// The number that a raw value denotes for a range validator.
pub open spec fn unsigned(value: Seq<char>) -> Option<int> {
    integer(value, false, 0, usize::MAX as int)
}

impl Rule for InRange {
    open spec fn accepts(&self, value: Seq<char>) -> bool {
        unsigned(value) matches Some(v) && self.start <= v <= self.end
    }

    fn test(&self, value: &str) -> (ok: bool) {
        match read_integer(value, false, 0, usize::MAX as i128) {
            Some(v) => self.start as i128 <= v && v <= self.end as i128,
            None => false,
        }
    }
}

/// The mathematical content of one field of a schema.
pub struct FieldModel {
    pub name: Seq<char>,
    pub description: Seq<char>,
    pub required: bool,
    pub validator: Validator,
}

/// The mathematical content of a `Schema`.
pub struct SchemaModel {
    pub name: Seq<char>,
    pub description: Seq<char>,
    pub fields: Seq<FieldModel>,
    pub nested: Seq<SchemaModel>,
}

/// Index of the first schema of `schemas` that is called `name`, or the
/// length of `schemas` when there is none.
pub open spec fn index_of_schema(schemas: Seq<SchemaModel>, name: Seq<char>) -> int
    decreases schemas.len(),
{
    if schemas.len() == 0 || schemas[0].name == name {
        0
    } else {
        1 + index_of_schema(schemas.drop_first(), name)
    }
}

impl SchemaModel {
    /// A schema without fields and without nested schemas.
    pub open spec fn empty(name: Seq<char>, description: Seq<char>) -> SchemaModel {
        SchemaModel { name, description, fields: Seq::empty(), nested: Seq::empty() }
    }

    /// The schema with `field` as its new last field.
    pub open spec fn push_field(self, field: FieldModel) -> SchemaModel {
        SchemaModel { fields: self.fields.push(field), ..self }
    }

    /// The schema that knows the child sections called `child.name` by
    /// `child`: it takes the place of the schema that was registered for that
    /// name, or the last place where none was.
    pub open spec fn register(self, child: SchemaModel) -> SchemaModel {
        let i = index_of_schema(self.nested, child.name);
        if 0 <= i < self.nested.len() {
            SchemaModel { nested: self.nested.update(i, child), ..self }
        } else {
            SchemaModel { nested: self.nested.push(child), ..self }
        }
    }

    /// The schema for the child sections called `name`, if there is one.
    pub open spec fn nested_for(self, name: Seq<char>) -> Option<SchemaModel> {
        let i = index_of_schema(self.nested, name);
        if 0 <= i < self.nested.len() {
            Some(self.nested[i])
        } else {
            None
        }
    }

    /// No two nested schemas have the same name, here and below.
    pub open spec fn distinct_names(self) -> bool
        decreases self,
    {
        &&& forall|i: int, j: int|
            0 <= i < j < self.nested.len() ==> self.nested[i].name != self.nested[j].name
        &&& forall|i: int| 0 <= i < self.nested.len() ==> (#[trigger] self.nested[i]).distinct_names()
    }
}

/// What the check of one field says of the section `doc`.
pub open spec fn field_verdict(field: FieldModel, doc: Node) -> Result<(), Fault> {
    match doc.lookup(field.name) {
        Some(entry) => if field.validator.accepts(entry.value) {
            Ok(())
        } else {
            Err(Fault::InvalidProperty(entry.line, field.name))
        },
        None => if field.required {
            Err(Fault::MissingProperty(doc.line, field.name))
        } else {
            Ok(())
        },
    }
}

/// What the check of the fields says, taken in order: the first failure, or
/// success.
pub open spec fn fields_verdict(fields: Seq<FieldModel>, doc: Node) -> Result<(), Fault>
    decreases fields.len(),
{
    if fields.len() == 0 {
        Ok(())
    } else {
        match field_verdict(fields[0], doc) {
            Ok(_) => fields_verdict(fields.drop_first(), doc),
            Err(fault) => Err(fault),
        }
    }
}

/// What the check of `doc` against `schema` says: the first failure among
/// the fields, then among the child sections in order, or success.
pub open spec fn verdict(schema: SchemaModel, doc: Node) -> Result<(), Fault>
    decreases doc, doc.nested.len() + 1,
{
    match fields_verdict(schema.fields, doc) {
        Ok(_) => children_verdict(schema, doc, 0),
        Err(fault) => Err(fault),
    }
}

/// What the check says of the children of `doc` from index `from` on.
pub open spec fn children_verdict(schema: SchemaModel, doc: Node, from: nat) -> Result<(), Fault>
    decreases doc, doc.nested.len() - from,
{
    if from >= doc.nested.len() {
        Ok(())
    } else {
        let child = doc.nested[from as int];
        let first = match schema.nested_for(child.name) {
            Some(known) => verdict(known, child),
            None => Ok(()),
        };
        match first {
            Ok(_) => children_verdict(schema, doc, from + 1),
            Err(fault) => Err(fault),
        }
    }
}

/// The line of a comment that holds `description`, or nothing where the
/// description is empty.
pub open spec fn description_text(description: Seq<char>) -> Seq<char> {
    if description.len() == 0 {
        Seq::empty()
    } else {
        "; "@ + description + "\n"@
    }
}

/// The line that documents one field.
pub open spec fn field_line(field: FieldModel) -> Seq<char> {
    field.name + " = "@ + field.description + "\n"@
}

/// The lines that document a list of fields, in order.
pub open spec fn fields_text(fields: Seq<FieldModel>) -> Seq<char>
    decreases fields.len(),
{
    if fields.len() == 0 {
        Seq::empty()
    } else {
        fields_text(fields.drop_last()) + field_line(fields.last())
    }
}

/// The documentation of what stands below the header of the section that
/// `schema` describes, itself at depth `depth`.
pub open spec fn info_text(schema: SchemaModel, depth: nat) -> Seq<char>
    decreases schema, schema.nested.len() + 1,
{
    description_text(schema.description) + fields_text(schema.fields) + nested_text(
        schema,
        schema.nested.len(),
        depth + 1,
    )
}

/// The documentation of the first `count` nested schemas of `parent`, each
/// behind the header of its section, at depth `depth`.
pub open spec fn nested_text(parent: SchemaModel, count: nat, depth: nat) -> Seq<char>
    decreases parent, count,
{
    if count == 0 || count > parent.nested.len() {
        Seq::empty()
    } else {
        nested_text(parent, (count - 1) as nat, depth) + header_text(
            depth,
            parent.nested[count - 1].name,
        ) + info_text(parent.nested[count - 1], depth)
    }
}

/// A schema with one field, which is required, refuses every section that
/// lacks the property: the failure is `MissingProperty` with the section's
/// own line, which is 0 for the root of a document read from a text.
pub proof fn law_required_field(schema: SchemaModel, doc: Node)
    requires
        schema.fields.len() == 1,
        schema.fields[0].required,
        doc.lookup(schema.fields[0].name) is None,
    ensures
        verdict(schema, doc) == Err::<(), Fault>(
            Fault::MissingProperty(doc.line, schema.fields[0].name),
        ),
{
}

/// The check of the fields reads the section's own properties and line, and
/// nothing else.
pub proof fn lemma_fields_verdict_reads(fields: Seq<FieldModel>, a: Node, b: Node)
    requires
        a.properties == b.properties,
        a.line == b.line,
    ensures
        fields_verdict(fields, a) == fields_verdict(fields, b),
    decreases fields.len(),
{
    if fields.len() > 0 {
        lemma_fields_verdict_reads(fields.drop_first(), a, b);
    }
}

/// The section `doc` with `other` in the place of its child `i`.
pub open spec fn with_child(doc: Node, i: int, other: Node) -> Node {
    Node { nested: doc.nested.update(i, other), ..doc }
}

/// The check of the children does not depend on a child that the schema
/// does not know.
proof fn lemma_children_verdict_ignores(
    schema: SchemaModel,
    doc: Node,
    i: int,
    other: Node,
    from: nat,
)
    requires
        0 <= i < doc.nested.len(),
        schema.nested_for(doc.nested[i].name) is None,
        schema.nested_for(other.name) is None,
    ensures
        children_verdict(schema, with_child(doc, i, other), from) == children_verdict(
            schema,
            doc,
            from,
        ),
    decreases doc.nested.len() - from,
{
    if from < doc.nested.len() {
        lemma_children_verdict_ignores(schema, doc, i, other, from + 1);
    }
}

/// A child section that the schema does not know is accepted whatever it
/// holds: putting any other section that the schema does not know in its
/// place leaves the result of the check as it is.
pub proof fn law_unknown_section_ignored(schema: SchemaModel, doc: Node, i: int, other: Node)
    requires
        0 <= i < doc.nested.len(),
        schema.nested_for(doc.nested[i].name) is None,
        schema.nested_for(other.name) is None,
    ensures
        verdict(schema, with_child(doc, i, other)) == verdict(schema, doc),
{
    lemma_fields_verdict_reads(schema.fields, with_child(doc, i, other), doc);
    lemma_children_verdict_ignores(schema, doc, i, other, 0);
}

/// The check of the children does not depend on one more child that the
/// schema does not know.
proof fn lemma_children_verdict_push(schema: SchemaModel, doc: Node, extra: Node, from: nat)
    requires
        schema.nested_for(extra.name) is None,
        from <= doc.nested.len(),
    ensures
        children_verdict(schema, doc.push_section(extra), from) == children_verdict(
            schema,
            doc,
            from,
        ),
    decreases doc.nested.len() - from,
{
    let more = doc.push_section(extra);
    if from < doc.nested.len() {
        lemma_children_verdict_push(schema, doc, extra, from + 1);
        assert(more.nested[from as int] == doc.nested[from as int]);
    } else {
        assert(more.nested[from as int] == extra);
        assert(children_verdict(schema, more, from + 1) == Ok::<(), Fault>(()));
    }
}

/// A document that passes still passes with one more child section that the
/// schema does not know, whatever that section holds.
pub proof fn law_unknown_section_passes(schema: SchemaModel, doc: Node, extra: Node)
    requires
        schema.nested_for(extra.name) is None,
    ensures
        verdict(schema, doc.push_section(extra)) == verdict(schema, doc),
{
    lemma_fields_verdict_reads(schema.fields, doc.push_section(extra), doc);
    lemma_children_verdict_push(schema, doc, extra, 0);
}

/// Registering a schema keeps the names of the nested schemas distinct.
pub proof fn law_register_keeps_names_distinct(schema: SchemaModel, child: SchemaModel)
    requires
        schema.distinct_names(),
        child.distinct_names(),
    ensures
        schema.register(child).distinct_names(),
{
    lemma_index_of_schema(schema.nested, child.name);
    let after = schema.register(child);
    let k = index_of_schema(schema.nested, child.name);
    assert forall|i: int, j: int| 0 <= i < j < after.nested.len() implies after.nested[i].name
        != after.nested[j].name by {
        if k < schema.nested.len() {
            assert(schema.nested[k].name == child.name);
            if i != k && j != k {
                assert(after.nested[i] == schema.nested[i]);
                assert(after.nested[j] == schema.nested[j]);
            } else if i == k {
                assert(after.nested[j] == schema.nested[j]);
                assert(schema.nested[k].name != schema.nested[j].name);
            } else {
                assert(after.nested[i] == schema.nested[i]);
                assert(schema.nested[i].name != schema.nested[k].name);
            }
        } else {
            if j < schema.nested.len() {
                assert(after.nested[i] == schema.nested[i]);
                assert(after.nested[j] == schema.nested[j]);
            } else {
                assert(after.nested[i] == schema.nested[i]);
                assert(schema.nested[i].name != child.name);
            }
        }
    }
    assert forall|i: int| 0 <= i < after.nested.len() implies (
    #[trigger] after.nested[i]).distinct_names() by {
        if i < schema.nested.len() && i != k {
            assert(after.nested[i] == schema.nested[i]);
        }
    }
}

/// What a schema says of one property.
struct Field {
    name: String,
    description: String,
    required: bool,
    validator: Validator,
}

impl View for Field {
    type V = FieldModel;

    closed spec fn view(&self) -> FieldModel {
        FieldModel {
            name: self.name@,
            description: self.description@,
            required: self.required,
            validator: self.validator,
        }
    }
}

/// Scheme for validating a configuration.
pub struct Schema {
    name: String,
    description: String,
    properties: Vec<Field>,
    nested: Vec<Schema>,
}

impl View for Schema {
    type V = SchemaModel;

    open spec fn view(&self) -> SchemaModel {
        self.model()
    }
}

/// `index_of_schema` finds the first schema with the name, or the length.
pub proof fn lemma_index_of_schema(schemas: Seq<SchemaModel>, name: Seq<char>)
    ensures
        0 <= index_of_schema(schemas, name) <= schemas.len(),
        forall|j: int| 0 <= j < index_of_schema(schemas, name) ==> (#[trigger] schemas[j]).name != name,
        index_of_schema(schemas, name) < schemas.len() ==> schemas[index_of_schema(
            schemas,
            name,
        )].name == name,
    decreases schemas.len(),
{
    if schemas.len() > 0 && schemas[0].name != name {
        let rest = schemas.drop_first();
        lemma_index_of_schema(rest, name);
        assert forall|j: int| 0 <= j < index_of_schema(schemas, name) implies (
        #[trigger] schemas[j]).name != name by {
            if j > 0 {
                assert(schemas[j] == rest[j - 1]);
            }
        }
    }
}

/// An index with the name before which the name does not occur is what
/// `index_of_schema` returns.
pub proof fn lemma_index_of_schema_is(schemas: Seq<SchemaModel>, name: Seq<char>, k: int)
    requires
        0 <= k <= schemas.len(),
        forall|j: int| 0 <= j < k ==> (#[trigger] schemas[j]).name != name,
        k < schemas.len() ==> schemas[k].name == name,
    ensures
        index_of_schema(schemas, name) == k,
{
    lemma_index_of_schema(schemas, name);
    let p = index_of_schema(schemas, name);
    if p < k {
        assert(schemas[p].name != name);
    } else if p > k {
        assert(schemas[k].name != name);
    }
}

impl Schema {
    /// The content of the schema and of everything below it.
    pub closed spec fn model(&self) -> SchemaModel
        decreases self,
    {
        SchemaModel {
            name: self.name@,
            description: self.description@,
            fields: Seq::new(self.properties@.len(), |i: int| self.properties@[i]@),
            nested: Seq::new(
                self.nested@.len(),
                |i: int|
                    if 0 <= i < self.nested@.len() {
                        self.nested@[i].model()
                    } else {
                        arbitrary()
                    },
            ),
        }
    }

    /// What the model holds, field by field.
    proof fn lemma_model(&self)
        ensures
            self@.name == self.name@,
            self@.description == self.description@,
            self@.fields.len() == self.properties@.len(),
            forall|i: int|
                0 <= i < self.properties@.len() ==> self@.fields[i]
                    == #[trigger] self.properties@[i]@,
            self@.nested.len() == self.nested@.len(),
            forall|i: int|
                0 <= i < self.nested@.len() ==> self@.nested[i] == #[trigger] self.nested@[i]@,
    {
    }

    /// Creates a schema.
    ///
    /// - `name` - section name, empty for the root
    /// - `description` - section description
    pub fn new(name: &str, description: &str) -> (schema: Schema)
        ensures
            schema@ == SchemaModel::empty(name@, description@),
    {
        let schema = Schema {
            name: String::from_str(name),
            description: String::from_str(description),
            properties: Vec::new(),
            nested: Vec::new(),
        };
        proof {
            schema.lemma_model();
            assert(schema@.fields =~= Seq::empty());
            assert(schema@.nested =~= Seq::empty());
        }
        schema
    }

    /// Appends what the schema says of one property.
    ///
    /// - `name` - name of the property
    /// - `description` - description of the property
    /// - `required` - whether a section without the property fails
    /// - `validator` - a predicate on the property's value, or `None`
    pub fn set<B: Into<Validator>>(
        &mut self,
        name: &str,
        description: &str,
        required: bool,
        validator: B,
    )
        ensures
            <B as IntoSpec<Validator>>::obeys_into_spec() ==> final(self)@ == old(self)@.push_field(
                FieldModel {
                    name: name@,
                    description: description@,
                    required,
                    validator: <B as IntoSpec<Validator>>::into_spec(validator),
                },
            ),
            final(self)@.name == old(self)@.name,
            final(self)@.description == old(self)@.description,
            final(self)@.nested == old(self)@.nested,
            final(self)@.fields.len() == old(self)@.fields.len() + 1,
            final(self)@.fields.drop_last() == old(self)@.fields,
            final(self)@.fields.last().name == name@,
            final(self)@.fields.last().description == description@,
            final(self)@.fields.last().required == required,
    {
        proof {
            self.lemma_model();
        }
        let field = Field {
            name: String::from_str(name),
            description: String::from_str(description),
            required,
            validator: validator.into(),
        };
        self.properties.push(field);
        proof {
            self.lemma_model();
            assert(self@.nested =~= old(self)@.nested);
            assert(self@.fields.drop_last() =~= old(self)@.fields);
            if <B as IntoSpec<Validator>>::obeys_into_spec() {
                assert(self@.fields =~= old(self)@.fields.push(field@));
            }
        }
    }

    /// Registers the schema of the child sections called like `nested`. A
    /// schema that was registered for the same name before is replaced.
    pub fn push(&mut self, nested: Schema)
        ensures
            final(self)@ == old(self)@.register(nested@),
            old(self)@.distinct_names() && nested@.distinct_names() ==> final(self)@.distinct_names(),
    {
        proof {
            self.lemma_model();
            nested.lemma_model();
            if self@.distinct_names() && nested@.distinct_names() {
                law_register_keeps_names_distinct(self@, nested@);
            }
        }
        let n: usize = self.nested.len();
        let mut i: usize = 0;
        proof {
            assert forall|j: int| 0 <= j < n implies (#[trigger] self@.nested[j]).name
                == self.nested@[j].name@ by {
                self.nested@[j].lemma_model();
            }
        }
        while i < n && !same_text(self.nested[i].name.as_str(), nested.name.as_str())
            invariant
                i <= n,
                n == self.nested@.len(),
                *self == *old(self),
                nested@.name == nested.name@,
                forall|j: int| 0 <= j < n ==> (#[trigger] self@.nested[j]).name == self.nested@[j].name@,
                forall|j: int| 0 <= j < i ==> (#[trigger] self@.nested[j]).name != nested@.name,
            decreases n - i,
        {
            i += 1;
        }
        proof {
            self.lemma_model();
            lemma_index_of_schema_is(self@.nested, nested@.name, i as int);
        }
        if i < n {
            self.nested[i] = nested;
            proof {
                self.lemma_model();
                assert(self@.fields =~= old(self)@.fields);
                assert(self@.nested =~= old(self)@.nested.update(i as int, nested@));
            }
        } else {
            self.nested.push(nested);
            proof {
                self.lemma_model();
                assert(self@.fields =~= old(self)@.fields);
                assert(self@.nested =~= old(self)@.nested.push(nested@));
            }
        }
    }

    /// The schema of the child sections called `name`.
    fn get_nested(&self, name: &str) -> (found: Option<&Schema>)
        ensures
            found matches Some(s) ==> self@.nested_for(name@) == Some(s@),
            found is None ==> self@.nested_for(name@) is None,
    {
        proof {
            self.lemma_model();
        }
        let n: usize = self.nested.len();
        let mut i: usize = 0;
        while i < n
            invariant
                i <= n,
                n == self.nested@.len(),
                forall|j: int| 0 <= j < i ==> (#[trigger] self@.nested[j]).name != name@,
            decreases n - i,
        {
            let schema = &self.nested[i];
            proof {
                self.lemma_model();
                schema.lemma_model();
            }
            if same_text(schema.name.as_str(), name) {
                proof {
                    lemma_index_of_schema_is(self@.nested, name@, i as int);
                }
                return Some(schema);
            }
            i += 1;
        }
        proof {
            self.lemma_model();
            lemma_index_of_schema_is(self@.nested, name@, n as int);
        }
        None
    }

    /// Validates `config` against the schema. Returns the first failure:
    /// `InvalidProperty`, with the property's line, for a value that its
    /// validator refuses; `MissingProperty`, with the section's line, for a
    /// required property that is absent.
    pub fn check(&self, config: &Config) -> (r: Result<(), ConfigError>)
        ensures
            match verdict(self@, config@) {
                Ok(_) => r is Ok,
                Err(fault) => r matches Err(e) && e@ == fault,
            },
        decreases config@,
    {
        proof {
            self.lemma_model();
        }
        let n: usize = self.properties.len();
        let mut i: usize = 0;
        proof {
            assert(self@.fields.subrange(0, n as int) =~= self@.fields);
        }
        while i < n
            invariant
                i <= n,
                n == self.properties@.len(),
                self@.fields.len() == n,
                forall|j: int| 0 <= j < n ==> self@.fields[j] == #[trigger] self.properties@[j]@,
                fields_verdict(self@.fields, config@) == fields_verdict(
                    self@.fields.subrange(i as int, n as int),
                    config@,
                ),
            decreases n - i,
        {
            let item = &self.properties[i];
            proof {
                let rest = self@.fields.subrange(i as int, n as int);
                assert(rest[0] == item@);
                assert(rest.drop_first() =~= self@.fields.subrange(i + 1, n as int));
            }
            match config.get_property(item.name.as_str()) {
                Some(property) => {
                    if !item.validator.test(property.get_value()) {
                        return Err(
                            ConfigError::InvalidProperty(
                                property.get_line(),
                                String::from_str(item.name.as_str()),
                            ),
                        );
                    }
                },
                None => {
                    if item.required {
                        return Err(
                            ConfigError::MissingProperty(
                                config.get_line(),
                                String::from_str(item.name.as_str()),
                            ),
                        );
                    }
                },
            }
            i += 1;
        }
        let children = config.iter();
        let m: usize = children.len();
        let mut k: usize = 0;
        while k < m
            invariant
                k <= m,
                m == children@.len(),
                children@.len() == config@.nested.len(),
                forall|j: int|
                    0 <= j < children@.len() ==> (#[trigger] children@[j])@ == config@.nested[j],
                verdict(self@, config@) == children_verdict(self@, config@, k as nat),
            decreases m - k,
        {
            let child = &children[k];
            match self.get_nested(child.get_name()) {
                Some(schema) => {
                    match schema.check(child) {
                        Ok(()) => {},
                        Err(e) => {
                            return Err(e);
                        },
                    }
                },
                None => {},
            }
            k += 1;
        }
        Ok(())
    }

    /// Appends to `result` the documentation of what stands below the header
    /// of this schema's section. `prefix` is the run of markers in the headers
    /// of the nested schemas.
    fn info_section(&self, result: &mut String, prefix: &str)
        requires
            prefix@.len() >= 1,
            prefix@ == markers(prefix@.len()),
        ensures
            final(result)@ == old(result)@ + info_text(self@, (prefix@.len() - 1) as nat),
        decreases self@,
    {
        proof {
            self.lemma_model();
        }
        let ghost depth = (prefix@.len() - 1) as nat;
        if self.description.as_str().unicode_len() != 0 {
            result.append("; ");
            result.append(self.description.as_str());
            result.append("\n");
        }
        proof {
            assert(result@ =~= old(result)@ + description_text(self@.description));
            assert(self@.fields.subrange(0, 0) =~= Seq::<FieldModel>::empty());
        }
        let n: usize = self.properties.len();
        let mut i: usize = 0;
        while i < n
            invariant
                i <= n,
                n == self.properties@.len(),
                self@.fields.len() == n,
                forall|j: int| 0 <= j < n ==> self@.fields[j] == #[trigger] self.properties@[j]@,
                result@ == old(result)@ + description_text(self@.description) + fields_text(
                    self@.fields.subrange(0, i as int),
                ),
            decreases n - i,
        {
            let item = &self.properties[i];
            let ghost before = result@;
            result.append(item.name.as_str());
            result.append(" = ");
            result.append(item.description.as_str());
            result.append("\n");
            proof {
                let done = self@.fields.subrange(0, i + 1);
                assert(done.drop_last() =~= self@.fields.subrange(0, i as int));
                assert(done.last() == item@);
                assert(result@ =~= before + field_line(item@));
                assert(result@ =~= old(result)@ + description_text(self@.description) + fields_text(
                    done,
                ));
            }
            i += 1;
        }
        proof {
            assert(self@.fields.subrange(0, n as int) =~= self@.fields);
        }
        let m: usize = self.nested.len();
        let mut k: usize = 0;
        while k < m
            invariant
                k <= m,
                m == self.nested@.len(),
                self@.nested.len() == m,
                forall|j: int| 0 <= j < m ==> self@.nested[j] == #[trigger] self.nested@[j]@,
                prefix@.len() >= 1,
                prefix@ == markers(prefix@.len()),
                depth == prefix@.len() - 1,
                result@ == old(result)@ + description_text(self@.description) + fields_text(
                    self@.fields,
                ) + nested_text(self@, k as nat, depth + 1),
            decreases m - k,
        {
            let s = &self.nested[k];
            let ghost before = result@;
            proof {
                s.lemma_model();
            }
            result.append("\n");
            result.append(prefix);
            result.append(" ");
            result.append(s.name.as_str());
            result.append("\n");
            let mut deeper = String::from_str(prefix);
            append_repeated(&mut deeper, MARKER, 1);
            proof {
                assert(deeper@ =~= markers(deeper@.len()));
                assert(result@ =~= before + header_text(depth + 1, s@.name));
            }
            s.info_section(result, deeper.as_str());
            proof {
                assert(result@ =~= old(result)@ + description_text(self@.description) + fields_text(
                    self@.fields,
                ) + nested_text(self@, (k + 1) as nat, depth + 1));
            }
            k += 1;
        }
    }

    /// Returns the documentation of the schema: its description as a
    /// comment, a line for each field, and the same for each nested schema
    /// behind the header of its section.
    pub fn info(&self) -> (text: String)
        ensures
            text@ == info_text(self@, 0),
    {
        let mut prefix = String::new();
        append_repeated(&mut prefix, MARKER, 1);
        proof {
            assert(prefix@ =~= markers(1));
        }
        let mut result = String::new();
        self.info_section(&mut result, prefix.as_str());
        proof {
            assert(result@ =~= info_text(self@, 0));
        }
        result
    }

    /// The range validator: accepts the numbers from `r.start` to `r.end`,
    /// both included.
    pub fn range(r: Range<usize>) -> (rule: InRange)
        ensures
            rule.start == r.start,
            rule.end == r.end,
    {
        InRange { start: r.start, end: r.end }
    }
}

} // verus!
