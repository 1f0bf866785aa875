//! Schemas.

use crate::name::Label;
use crate::name::PropertyKey;
use crate::text::joined;
use crate::text::same;
use crate::text::views;
use crate::text::view_of;
use crate::copies::copy_all;
use crate::copies::copy_option;
use crate::copies::Copied;
use vstd::prelude::*;

verus! {

/// A scalar type a field can be declared with.
#[derive(Clone, Copy, Debug, PartialEq, Eq, PartialOrd, Ord, Hash, Structural)]
pub enum ScalarType {
    /// `boolean`
    Boolean,
    /// `integer`
    Integer,
    /// `double`
    Double,
    /// `string`
    String,
    /// `bytes`
    Bytes,
    /// `datetime`
    DateTime,
}

impl ScalarType {
    /// The name this type is written with.
    pub open spec fn name(self) -> Seq<char> {
        match self {
            ScalarType::Boolean => "boolean"@,
            ScalarType::Integer => "integer"@,
            ScalarType::Double => "double"@,
            ScalarType::String => "string"@,
            ScalarType::Bytes => "bytes"@,
            ScalarType::DateTime => "datetime"@,
        }
    }

    /// The type a name stands for.
    pub open spec fn named(text: Seq<char>) -> Option<ScalarType> {
        if text == "boolean"@ {
            Some(ScalarType::Boolean)
        } else if text == "integer"@ {
            Some(ScalarType::Integer)
        } else if text == "double"@ {
            Some(ScalarType::Double)
        } else if text == "string"@ {
            Some(ScalarType::String)
        } else if text == "bytes"@ {
            Some(ScalarType::Bytes)
        } else if text == "datetime"@ {
            Some(ScalarType::DateTime)
        } else {
            None
        }
    }

    /// A type is what its name stands for.
    pub proof fn name_reads_back(self)
        ensures
            ScalarType::named(self.name()) == Some(self),
    {
        reveal_strlit("boolean");
        reveal_strlit("integer");
        reveal_strlit("double");
        reveal_strlit("string");
        reveal_strlit("bytes");
        reveal_strlit("datetime");
        assert("boolean"@[0] == 'b' && "boolean"@.len() == 7);
        assert("integer"@[0] == 'i');
        assert("double"@[0] == 'd' && "double"@.len() == 6);
        assert("string"@[0] == 's');
        assert("bytes"@[0] == 'b' && "bytes"@.len() == 5);
        assert("datetime"@[0] == 'd' && "datetime"@.len() == 8);
    }

    /// The name this type is written with.
    pub fn as_str(self) -> (text: &'static str)
        ensures
            text@ == self.name(),
    {
        match self {
            ScalarType::Boolean => "boolean",
            ScalarType::Integer => "integer",
            ScalarType::Double => "double",
            ScalarType::String => "string",
            ScalarType::Bytes => "bytes",
            ScalarType::DateTime => "datetime",
        }
    }

    /// The type a name stands for.
    pub fn from_text(text: &str) -> (found: Option<ScalarType>)
        ensures
            found == ScalarType::named(text@),
    {
        if same(text, "boolean") {
            Some(ScalarType::Boolean)
        } else if same(text, "integer") {
            Some(ScalarType::Integer)
        } else if same(text, "double") {
            Some(ScalarType::Double)
        } else if same(text, "string") {
            Some(ScalarType::String)
        } else if same(text, "bytes") {
            Some(ScalarType::Bytes)
        } else if same(text, "datetime") {
            Some(ScalarType::DateTime)
        } else {
            None
        }
    }
}

/// The type of a field: a scalar, or a list of one.
#[derive(Clone, Copy, Debug, PartialEq, Eq, PartialOrd, Ord, Hash, Structural)]
pub struct FieldType {
    /// The scalar.
    pub scalar: ScalarType,
    /// Whether the field holds a list of them.
    pub array: bool,
}

impl View for FieldType {
    type V = FieldType;

    open spec fn view(&self) -> FieldType {
        *self
    }
}

impl Copied for FieldType {
    fn copied(&self) -> (copy: Self) {
        *self
    }
}

impl FieldType {
    /// How this type is written.
    pub open spec fn text(self) -> Seq<char> {
        if self.array {
            self.scalar.name() + "[]"@
        } else {
            self.scalar.name()
        }
    }

    /// One scalar.
    pub fn scalar(scalar: ScalarType) -> (made: Self)
        ensures
            made == (FieldType { scalar, array: false }),
    {
        FieldType { scalar, array: false }
    }

    /// A list of scalars.
    pub fn array(scalar: ScalarType) -> (made: Self)
        ensures
            made == (FieldType { scalar, array: true }),
    {
        FieldType { scalar, array: true }
    }

    /// How this type is written.
    pub fn to_string(&self) -> (text: String)
        ensures
            text@ == self.text(),
    {
        if self.array {
            joined(self.scalar.as_str(), "[]")
        } else {
            self.scalar.as_str().to_owned()
        }
    }
}

/// One typed field of a schema.
#[derive(Debug, PartialEq, Eq)]
pub struct SchemaField {
    /// The field key.
    pub key: PropertyKey,
    /// The declared type.
    pub field_type: FieldType,
    /// Whether a record must set it.
    pub required: bool,
}

/// What a field declares.
pub struct SchemaFieldModel {
    /// The field key.
    pub key: Seq<char>,
    /// The declared type.
    pub field_type: FieldType,
    /// Whether a record must set it.
    pub required: bool,
}

impl View for SchemaField {
    type V = SchemaFieldModel;

    open spec fn view(&self) -> SchemaFieldModel {
        SchemaFieldModel {
            key: self.key@,
            field_type: self.field_type,
            required: self.required,
        }
    }
}

impl Copied for SchemaField {
    fn copied(&self) -> (copy: Self) {
        SchemaField {
            key: self.key.copied(),
            field_type: self.field_type,
            required: self.required,
        }
    }
}

impl Clone for SchemaField {
    fn clone(&self) -> (copy: Self)
        ensures
            copy@ == self@,
    {
        self.copied()
    }
}

/// The labels an edge's endpoints must carry.
#[derive(Debug, PartialEq, Eq)]
pub struct EndpointConstraint {
    /// The label of the source.
    pub source: Label,
    /// The label of the target.
    pub target: Label,
}

/// What an endpoint constraint demands.
pub struct EndpointConstraintModel {
    /// The label of the source.
    pub source: Seq<char>,
    /// The label of the target.
    pub target: Seq<char>,
}

impl View for EndpointConstraint {
    type V = EndpointConstraintModel;

    open spec fn view(&self) -> EndpointConstraintModel {
        EndpointConstraintModel {
            source: self.source@,
            target: self.target@,
        }
    }
}

impl Copied for EndpointConstraint {
    fn copied(&self) -> (copy: Self) {
        EndpointConstraint {
            source: self.source.copied(),
            target: self.target.copied(),
        }
    }
}

impl Clone for EndpointConstraint {
    fn clone(&self) -> (copy: Self)
        ensures
            copy@ == self@,
    {
        self.copied()
    }
}

/// A declared schema.
#[derive(Debug, PartialEq, Eq)]
pub struct Schema {
    /// The name, which is also the label its records carry.
    pub name: Label,
    /// The endpoint constraint, where this schema describes an edge.
    pub endpoints: Option<EndpointConstraint>,
    /// The fields.
    pub fields: Vec<SchemaField>,
}

/// What a schema declares.
pub struct SchemaModel {
    /// The name, which is also the label its records carry.
    pub name: Seq<char>,
    /// The endpoint constraint, where this schema describes an edge.
    pub endpoints: Option<EndpointConstraintModel>,
    /// The fields.
    pub fields: Seq<SchemaFieldModel>,
}

impl View for Schema {
    type V = SchemaModel;

    open spec fn view(&self) -> SchemaModel {
        SchemaModel {
            name: self.name@,
            endpoints: view_of(self.endpoints),
            fields: views(self.fields@),
        }
    }
}

impl Copied for Schema {
    fn copied(&self) -> (copy: Self) {
        Schema {
            name: self.name.copied(),
            endpoints: copy_option(&self.endpoints),
            fields: copy_all(&self.fields),
        }
    }
}

impl Clone for Schema {
    fn clone(&self) -> (copy: Self)
        ensures
            copy@ == self@,
    {
        self.copied()
    }
}

} // verus!
