use vstd::prelude::*;
use crate::model::ExampleValue;

verus! {

/// A request collection.
pub struct PostmanCollection2c1 {
    pub info: PostmanCollectionInfo,
    pub item: Vec<PostmanCollectionItem>,
}

pub struct PostmanCollectionInfo {
    pub name: String,
    pub description: Option<String>,
    pub schema: String,
}

/// A node of the tree: a folder (`item`) or a request leaf (`request`).
pub struct PostmanCollectionItem {
    pub name: String,
    pub item: Option<Vec<PostmanCollectionItem>>,
    pub request: Option<PostmanCollectionRequest>,
    pub response: Option<Vec<PostmanCollectionResponse>>,
}

/// A captured response.
pub struct PostmanCollectionResponse {
    pub status: Option<String>,
    pub code: Option<u32>,
    pub body: String,
}

pub struct PostmanCollectionRequest {
    pub auth: Option<PostmanCollectionRequestAuth>,
    pub method: String,
    pub header: Vec<PostmanCollectionHeader>,
    pub body: Option<PostmanCollectionBody>,
    pub url: PostmanCollectionUrl,
    pub description: Option<String>,
}

pub struct PostmanCollectionRequestAuth {
    pub _type: String,
    pub bearer: Option<Vec<PostmanCollectionRequestAuthItem>>,
    pub basic: Option<Vec<PostmanCollectionRequestAuthItem>>,
}

pub struct PostmanCollectionRequestAuthItem {
    pub key: String,
    pub value: String,
    pub _type: String,
}

pub struct PostmanCollectionHeader {
    pub key: String,
    pub _type: Option<String>,
    pub value: String,
}

pub struct PostmanCollectionBody {
    pub mode: String,
    pub raw: String,
    pub options: Option<PostmanCollectionBodyOptions>,
}

pub struct PostmanCollectionBodyOptions {
    pub raw: PostmanCollectionBodyOptionsRaw,
}

pub struct PostmanCollectionBodyOptionsRaw {
    pub language: String,
}

pub struct PostmanCollectionVariable {
    pub key: String,
    pub value: String,
}

pub struct PostmanCollectionUrl {
    pub raw: String,
    pub host: Vec<String>,
    pub path: Vec<String>,
    pub query: Option<Vec<PostmanCollectionUrlQuery>>,
    pub variable: Option<Vec<PostmanCollectionVariable>>,
}

pub struct PostmanCollectionUrlQuery {
    pub key: String,
    pub value: ExampleValue,
}

/// Options of the conversion into a collection.
pub struct PostmanConvertOption {
    pub host: String,
    pub preceding_path: String,
    pub prepend_tag: String,
    pub map_header: Vec<PostmanConvertOptionMapHeader>,
}

pub struct PostmanConvertOptionMapHeader {
    pub key: String,
    pub value: String,
}

} // verus!
