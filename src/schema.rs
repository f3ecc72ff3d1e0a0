//! The schema data model: a JSON-Schema-like tree restricted to the keywords
//! that declaration generation reads.
use vstd::prelude::*;

verus! {

/// The primitive kinds a schema may declare for its instances.
#[derive(Debug, Clone, Copy, PartialEq, Eq)]
pub enum InstanceType {
    Null,
    Boolean,
    Object,
    Array,
    Number,
    String,
    Integer,
}

/// A schema: either the universal `true` / empty `false` schema, or an object.
#[derive(Debug)]
pub enum Schema {
    Bool(bool),
    Object(SchemaObject),
}

/// The `oneOf` / `anyOf` / `allOf` compositions of a schema.
#[derive(Debug)]
pub struct SubschemaValidation {
    pub all_of: Option<Vec<Schema>>,
    pub any_of: Option<Vec<Schema>>,
    pub one_of: Option<Vec<Schema>>,
}

/// The object shape of a schema. `properties` keeps declaration order.
#[derive(Debug)]
pub struct ObjectValidation {
    pub required: Vec<String>,
    pub properties: Vec<(String, Schema)>,
    pub additional_properties: Option<Box<Schema>>,
    pub pattern_properties: Vec<(String, Schema)>,
}

/// The item schemas of an array: one schema for every item, or a fixed tuple.
#[derive(Debug)]
pub enum ArrayItems {
    Single(Box<Schema>),
    Tuple(Vec<Schema>),
}

/// A schema object. `const_value` and `enum_values` hold each literal as its
/// JSON text.
#[derive(Debug)]
pub struct SchemaObject {
    pub id: Option<String>,
    pub title: Option<String>,
    pub description: Option<String>,
    pub instance_type: Option<Vec<InstanceType>>,
    pub const_value: Option<String>,
    pub enum_values: Option<Vec<String>>,
    pub subschemas: Option<SubschemaValidation>,
    pub object: Option<ObjectValidation>,
    pub array: Option<Option<ArrayItems>>,
    pub reference: Option<String>,
}

impl SchemaObject {
    /// A schema object with no keyword set.
    pub fn new() -> (r: Self)
        ensures
            r.id is None,
            r.title is None,
            r.description is None,
            r.instance_type is None,
            r.const_value is None,
            r.enum_values is None,
            r.subschemas is None,
            r.object is None,
            r.array is None,
            r.reference is None,
    {
        SchemaObject {
            id: None,
            title: None,
            description: None,
            instance_type: None,
            const_value: None,
            enum_values: None,
            subschemas: None,
            object: None,
            array: None,
            reference: None,
        }
    }

    pub open spec fn is_ref_spec(&self) -> bool {
        self.reference is Some
    }

    /// Whether the schema is only a reference to another schema.
    pub fn is_ref(&self) -> (r: bool)
        ensures
            r == self.is_ref_spec(),
    {
        self.reference.is_some()
    }
}

} // verus!
