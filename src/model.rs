use vstd::prelude::*;
use crate::strmap::StrMap;

verus! {

/// An example value of a document. A JSON string is held as its text; any
/// other JSON value as its JSON text.
pub enum ExampleValue {
    Text(String),
    Json(String),
}

impl ExampleValue {
    /// The text that stands for the value: a string unquoted, anything else
    /// as JSON.
    pub open spec fn display(&self) -> Seq<char> {
        match self {
            ExampleValue::Text(s) => s@,
            ExampleValue::Json(j) => j@,
        }
    }

    /// A copy of the value.
    pub fn duplicate(&self) -> (r: Self)
        ensures
            r == *self,
    {
        match self {
            ExampleValue::Text(s) => ExampleValue::Text(s.clone()),
            ExampleValue::Json(j) => ExampleValue::Json(j.clone()),
        }
    }
}

/// The text of an optional example; empty where there is none.
pub open spec fn example_text(v: Option<ExampleValue>) -> Seq<char> {
    match v {
        Some(e) => e.display(),
        None => Seq::empty(),
    }
}

/// A REST API description.
pub struct OpenApi3 {
    pub info: OpenApi3Info,
    pub openapi: String,
    pub paths: StrMap<OpenApi3Operations>,
    pub components: Option<OpenApi3Components>,
    pub servers: Vec<OpenApi3Server>,
}

pub struct OpenApi3Server {
    pub description: String,
    pub url: String,
}

/// Options of the conversion into a spec document.
pub struct OpenApi3ConvertOption {
    pub servers: Vec<OpenApi3Server>,
    pub mapping: Vec<OpenApi3ConvertMap>,
}

pub struct OpenApi3ConvertMap {
    pub key: String,
    pub value: String,
}

pub struct OpenApi3Components {
    pub security_schemes: Option<StrMap<OpenApi3ComponentsSecuritySchemesItem>>,
}

pub struct OpenApi3ComponentsSecuritySchemesItem {
    pub _in: String,
    pub name: String,
    pub _type: String,
}

pub struct OpenApi3Info {
    pub description: String,
    pub title: String,
    pub version: String,
}

pub struct OpenApi3Parameter {
    pub description: String,
    pub _in: String,
    pub name: String,
    pub required: bool,
    pub schema: OpenApi3Schema,
}

pub struct OpenApi3SchemaArrayType {
    pub items: Box<OpenApi3Schema>,
    pub example: Option<ExampleValue>,
}

pub struct OpenApi3SchemaObjectType {
    pub properties: StrMap<Box<OpenApi3Schema>>,
    pub example: Option<ExampleValue>,
}

pub struct OpenApi3SchemaStringType {
    pub _type: String,
    pub _enum: Option<Vec<String>>,
    pub default: Option<ExampleValue>,
    pub example: Option<ExampleValue>,
}

pub struct OpenApi3SchemaIntegerType {
    pub _type: String,
    pub default: Option<ExampleValue>,
    pub example: Option<ExampleValue>,
}

pub struct OpenApi3SchemaBooleanType {
    pub _type: String,
    pub default: Option<ExampleValue>,
    pub example: Option<ExampleValue>,
}

pub struct OpenApi3SchemaRefType {
    pub _ref: Option<String>,
}

/// A schema, one of five shapes.
pub enum OpenApi3Schema {
    ArrayType(OpenApi3SchemaArrayType),
    ObjectType(OpenApi3SchemaObjectType),
    StringType(OpenApi3SchemaStringType),
    IntegerType(OpenApi3SchemaIntegerType),
    BooleanType(OpenApi3SchemaBooleanType),
}

impl OpenApi3Schema {
    /// The example that the schema carries, whatever its shape.
    pub open spec fn example(&self) -> Option<ExampleValue> {
        match self {
            OpenApi3Schema::ArrayType(s) => s.example,
            OpenApi3Schema::ObjectType(s) => s.example,
            OpenApi3Schema::StringType(s) => s.example,
            OpenApi3Schema::IntegerType(s) => s.example,
            OpenApi3Schema::BooleanType(s) => s.example,
        }
    }
}

/// Security requirements: each a map from scheme name to scopes.
pub type OpenApi3OperationMethodSecurity = Option<Vec<StrMap<Vec<String>>>>;

pub struct OpenApi3OperationMethod {
    pub description: Option<String>,
    pub operation_id: Option<String>,
    pub parameters: Vec<OpenApi3Parameter>,
    pub responses: OpenApi3Responses,
    pub tags: Vec<String>,
    pub request_body: Option<OpenApi3OperationMethodRequestBody>,
    pub security: OpenApi3OperationMethodSecurity,
}

pub struct OpenApi3OperationMethodRequestBody {
    pub content: OpenApi3OperationMethodRequestBodyContent,
}

pub struct OpenApi3OperationMethodRequestBodyJson {
    pub schema: OpenApi3Schema,
    pub example: Option<ExampleValue>,
}

/// The media type of a request body (`application/json`).
pub enum OpenApi3OperationMethodRequestBodyContent {
    ApplicationJson(OpenApi3OperationMethodRequestBodyJson),
}

pub struct OpenApi3Response {
    pub description: Option<String>,
    pub content: Option<OpenApi3ResponseContents>,
}

pub struct OpenApi3ResponseContent {
    pub description: Option<String>,
    pub schema: Option<OpenApi3Schema>,
}

/// Response contents by media type.
pub type OpenApi3ResponseContents = StrMap<OpenApi3ResponseContent>;

/// Operations by lowercase method.
pub type OpenApi3Operations = StrMap<OpenApi3OperationMethod>;

/// Responses by status code.
pub type OpenApi3Responses = StrMap<OpenApi3Response>;

} // verus!
