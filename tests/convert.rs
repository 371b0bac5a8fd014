use openapi_postman::forward::{
    collection_path, first_key_index, get_schema_to_string, get_value_to_string, header_value,
    to_postman_colletion_2c1, COLLECTION_SCHEMA,
};
use openapi_postman::model::{
    ExampleValue, OpenApi3, OpenApi3ConvertMap, OpenApi3ConvertOption, OpenApi3Info,
    OpenApi3OperationMethod, OpenApi3OperationMethodRequestBody,
    OpenApi3OperationMethodRequestBodyContent, OpenApi3OperationMethodRequestBodyJson,
    OpenApi3Operations, OpenApi3Parameter, OpenApi3Schema, OpenApi3SchemaIntegerType,
    OpenApi3SchemaObjectType, OpenApi3SchemaStringType, OpenApi3Server,
};
use openapi_postman::postman_model::{
    PostmanCollection2c1, PostmanCollectionBody, PostmanCollectionHeader, PostmanCollectionInfo,
    PostmanCollectionItem, PostmanCollectionRequest, PostmanCollectionRequestAuth,
    PostmanCollectionResponse, PostmanCollectionUrl, PostmanCollectionUrlQuery,
    PostmanCollectionVariable, PostmanConvertOption, PostmanConvertOptionMapHeader,
};
use openapi_postman::reverse::to_openapi3;
use openapi_postman::strmap::StrMap;
use openapi_postman::text::{compare_str, decimal_string, to_collection_segment, to_spec_segment};

fn s(x: &str) -> String {
    x.to_string()
}

fn string_schema(example: Option<&str>) -> OpenApi3Schema {
    OpenApi3Schema::StringType(OpenApi3SchemaStringType {
        _type: s("string"),
        _enum: None,
        default: None,
        example: example.map(|e| ExampleValue::Text(s(e))),
    })
}

fn param(loc: &str, name: &str, example: Option<&str>) -> OpenApi3Parameter {
    OpenApi3Parameter {
        description: s(""),
        _in: s(loc),
        name: s(name),
        required: false,
        schema: string_schema(example),
    }
}

fn operation(tags: &[&str], parameters: Vec<OpenApi3Parameter>) -> OpenApi3OperationMethod {
    OpenApi3OperationMethod {
        description: None,
        operation_id: None,
        parameters,
        responses: StrMap::new(),
        tags: tags.iter().map(|t| s(t)).collect(),
        request_body: None,
        security: None,
    }
}

fn spec_doc(paths: Vec<(&str, Vec<(&str, OpenApi3OperationMethod)>)>) -> OpenApi3 {
    let mut map: StrMap<OpenApi3Operations> = StrMap::new();
    for (p, ops) in paths {
        let mut inner: OpenApi3Operations = StrMap::new();
        for (m, op) in ops {
            inner.insert(s(m), op);
        }
        map.insert(s(p), inner);
    }
    OpenApi3 {
        info: OpenApi3Info { description: s("desc"), title: s("Title"), version: s("1") },
        openapi: s("3.0.0"),
        paths: map,
        components: None,
        servers: vec![],
    }
}

fn fwd_opt(host: &str, preceding: &str, prepend: &str, map_header: Vec<(&str, &str)>) -> PostmanConvertOption {
    PostmanConvertOption {
        host: s(host),
        preceding_path: s(preceding),
        prepend_tag: s(prepend),
        map_header: map_header
            .into_iter()
            .map(|(k, v)| PostmanConvertOptionMapHeader { key: s(k), value: s(v) })
            .collect(),
    }
}

fn request(method: &str, path: &[&str], vars: Vec<(&str, &str)>) -> PostmanCollectionRequest {
    PostmanCollectionRequest {
        auth: None,
        method: s(method),
        header: vec![],
        body: None,
        url: PostmanCollectionUrl {
            raw: s(""),
            host: vec![s("{{host}}")],
            path: path.iter().map(|p| s(p)).collect(),
            query: None,
            variable: if vars.is_empty() {
                None
            } else {
                Some(
                    vars.into_iter()
                        .map(|(k, v)| PostmanCollectionVariable { key: s(k), value: s(v) })
                        .collect(),
                )
            },
        },
        description: None,
    }
}

fn leaf(name: &str, req: PostmanCollectionRequest, resp: Option<Vec<PostmanCollectionResponse>>) -> PostmanCollectionItem {
    PostmanCollectionItem { name: s(name), item: None, request: Some(req), response: resp }
}

fn folder(name: &str, children: Vec<PostmanCollectionItem>) -> PostmanCollectionItem {
    PostmanCollectionItem { name: s(name), item: Some(children), request: None, response: None }
}

fn collection(items: Vec<PostmanCollectionItem>) -> PostmanCollection2c1 {
    PostmanCollection2c1 {
        info: PostmanCollectionInfo { name: s("Coll"), description: None, schema: s(COLLECTION_SCHEMA) },
        item: items,
    }
}

fn rev_opt(mapping: Vec<(&str, &str)>) -> OpenApi3ConvertOption {
    OpenApi3ConvertOption {
        servers: vec![],
        mapping: mapping
            .into_iter()
            .map(|(k, v)| OpenApi3ConvertMap { key: s(k), value: s(v) })
            .collect(),
    }
}

fn ops_at<'a>(doc: &'a OpenApi3, path: &str) -> &'a OpenApi3Operations {
    let i = doc.paths.index_of(path).expect("path present");
    &doc.paths.entries[i].1
}

fn op_at<'a>(doc: &'a OpenApi3, path: &str, method: &str) -> &'a OpenApi3OperationMethod {
    let ops = ops_at(doc, path);
    let j = ops.index_of(method).expect("method present");
    &ops.entries[j].1
}

fn string_example(p: &OpenApi3Parameter) -> Option<String> {
    match &p.schema {
        OpenApi3Schema::StringType(st) => match &st.example {
            Some(ExampleValue::Text(t)) => Some(t.clone()),
            _ => None,
        },
        _ => panic!("not a string schema"),
    }
}

#[test]
fn forward_end_to_end_users_example() {
    let doc = spec_doc(vec![(
        "/users/{id}",
        vec![("get", operation(&["Users"], vec![param("path", "id", Some("42"))]))],
    )]);
    let c = to_postman_colletion_2c1(doc, fwd_opt("https://api.test", "", "", vec![]));
    assert_eq!(c.item.len(), 1);
    assert_eq!(c.item[0].name, "Users");
    let kids = c.item[0].item.as_ref().unwrap();
    assert_eq!(kids.len(), 1);
    assert_eq!(kids[0].name, "/users/{id}");
    let req = kids[0].request.as_ref().unwrap();
    assert_eq!(req.method, "get");
    assert_eq!(req.url.raw, "https://api.test/users/:id");
    assert_eq!(req.url.path, vec![s("users"), s(":id")]);
    assert_eq!(req.url.host, vec![s("https://api.test")]);
    let vars = req.url.variable.as_ref().unwrap();
    assert_eq!(vars.len(), 1);
    assert_eq!(vars[0].key, "id");
    assert_eq!(vars[0].value, "42");
    assert!(req.url.query.is_none());
    assert!(req.body.is_none());
    assert_eq!(c.info.name, "Title");
    assert_eq!(c.info.description, Some(s("desc")));
    assert_eq!(c.info.schema, COLLECTION_SCHEMA);
}

#[test]
fn forward_header_override_ignores_case() {
    let doc = spec_doc(vec![(
        "/me",
        vec![("get", operation(&[], vec![param("header", "Authorization", Some("own"))]))],
    )]);
    let c = to_postman_colletion_2c1(
        doc,
        fwd_opt("h", "", "", vec![("authorization", "Bearer XYZ")]),
    );
    let req = c.item[0].item.as_ref().unwrap()[0].request.as_ref().unwrap();
    assert_eq!(req.header.len(), 1);
    assert_eq!(req.header[0].key, "Authorization");
    assert_eq!(req.header[0].value, "Bearer XYZ");
    assert_eq!(req.header[0]._type, Some(s("text")));
}

#[test]
fn forward_header_without_override_keeps_example() {
    let doc = spec_doc(vec![(
        "/me",
        vec![("get", operation(&[], vec![param("header", "X-Trace", Some("abc"))]))],
    )]);
    let c = to_postman_colletion_2c1(doc, fwd_opt("h", "", "", vec![("other", "v")]));
    let req = c.item[0].item.as_ref().unwrap()[0].request.as_ref().unwrap();
    assert_eq!(req.header[0].value, "abc");
}

#[test]
fn header_value_takes_first_matching_override() {
    let maps = vec![
        PostmanConvertOptionMapHeader { key: s("ACCEPT"), value: s("first") },
        PostmanConvertOptionMapHeader { key: s("accept"), value: s("second") },
    ];
    assert_eq!(header_value(&s("Accept"), s("ex"), &maps), "first");
    assert_eq!(header_value(&s("Other"), s("ex"), &maps), "ex");
}

#[test]
fn forward_untagged_operation_goes_to_base() {
    let doc = spec_doc(vec![("/a", vec![("get", operation(&[], vec![]))])]);
    let c = to_postman_colletion_2c1(doc, fwd_opt("h", "", "pre-", vec![]));
    assert_eq!(c.item.len(), 1);
    assert_eq!(c.item[0].name, "pre-_base");
}

#[test]
fn forward_groups_by_tag_in_tag_order() {
    let doc = spec_doc(vec![
        ("/a", vec![("get", operation(&["Zeta"], vec![])), ("post", operation(&["Alpha"], vec![]))]),
        ("/b", vec![("get", operation(&["Zeta", "Other"], vec![]))]),
    ]);
    let c = to_postman_colletion_2c1(doc, fwd_opt("h", "/v1", "T:", vec![]));
    assert_eq!(c.item.len(), 2);
    assert_eq!(c.item[0].name, "T:Alpha");
    assert_eq!(c.item[1].name, "T:Zeta");
    let alpha = c.item[0].item.as_ref().unwrap();
    assert_eq!(alpha.len(), 1);
    assert_eq!(alpha[0].request.as_ref().unwrap().method, "post");
    let zeta = c.item[1].item.as_ref().unwrap();
    assert_eq!(zeta.len(), 2);
    assert_eq!(zeta[0].name, "/v1/a");
    assert_eq!(zeta[1].name, "/v1/b");
    assert_eq!(zeta[1].request.as_ref().unwrap().url.raw, "h/v1/b");
}

#[test]
fn forward_query_and_body() {
    let mut op = operation(
        &["Q"],
        vec![
            param("query", "limit", Some("10")),
            OpenApi3Parameter {
                description: s(""),
                _in: s("query"),
                name: s("n"),
                required: true,
                schema: OpenApi3Schema::IntegerType(OpenApi3SchemaIntegerType {
                    _type: s("integer"),
                    default: None,
                    example: Some(ExampleValue::Json(s("7"))),
                }),
            },
            param("cookie", "ignored", Some("x")),
        ],
    );
    op.request_body = Some(OpenApi3OperationMethodRequestBody {
        content: OpenApi3OperationMethodRequestBodyContent::ApplicationJson(
            OpenApi3OperationMethodRequestBodyJson {
                schema: OpenApi3Schema::ObjectType(OpenApi3SchemaObjectType {
                    properties: StrMap::new(),
                    example: None,
                }),
                example: Some(ExampleValue::Json(s("{\"a\":1}"))),
            },
        ),
    });
    let doc = spec_doc(vec![("/items", vec![("post", op)])]);
    let c = to_postman_colletion_2c1(doc, fwd_opt("h", "", "", vec![]));
    let req = c.item[0].item.as_ref().unwrap()[0].request.as_ref().unwrap();
    let q = req.url.query.as_ref().unwrap();
    assert_eq!(q.len(), 2);
    assert_eq!(q[0].key, "limit");
    assert!(matches!(&q[0].value, ExampleValue::Text(t) if t == "10"));
    assert!(matches!(&q[1].value, ExampleValue::Text(t) if t == "7"));
    assert!(req.header.is_empty());
    assert!(req.url.variable.is_none());
    let body = req.body.as_ref().unwrap();
    assert_eq!(body.mode, "raw");
    assert_eq!(body.raw, "{\"a\":1}");
    assert_eq!(body.options.as_ref().unwrap().raw.language, "json");
}

#[test]
fn value_and_schema_text() {
    assert_eq!(get_value_to_string(None), "");
    assert_eq!(get_value_to_string(Some(ExampleValue::Text(s("plain")))), "plain");
    assert_eq!(get_value_to_string(Some(ExampleValue::Json(s("[1,2]")))), "[1,2]");
    assert_eq!(get_schema_to_string(&string_schema(Some("e"))), "e");
    assert_eq!(get_schema_to_string(&string_schema(None)), "");
}

#[test]
fn collection_path_trims_and_translates() {
    assert_eq!(collection_path("//a/{b}/c"), vec![s("a"), s(":b"), s("c")]);
    assert_eq!(collection_path(""), vec![s("")]);
    assert_eq!(collection_path("/x/"), vec![s("x"), s("")]);
}

#[test]
fn segment_translation_round_trips() {
    assert_eq!(to_collection_segment("{id}"), ":id");
    assert_eq!(to_spec_segment(":id"), "{id}");
    assert_eq!(to_spec_segment("users"), "users");
    assert_eq!(to_collection_segment("users"), "users");
    for seg in [":id", "users", ":", "x{y}"] {
        assert_eq!(to_collection_segment(&to_spec_segment(seg)), seg);
    }
    for seg in ["{id}", "users", "{}", "a:b"] {
        assert_eq!(to_spec_segment(&to_collection_segment(seg)), seg);
    }
}

#[test]
fn strings_compare_and_decimal() {
    assert!(compare_str("a", "b") < 0);
    assert!(compare_str("b", "a") > 0);
    assert_eq!(compare_str("ab", "ab"), 0);
    assert!(compare_str("ab", "abc") < 0);
    assert_eq!(decimal_string(0), "0");
    assert_eq!(decimal_string(404), "404");
    assert_eq!(decimal_string(4294967295), "4294967295");
}

#[test]
fn strmap_keeps_order_and_overwrites() {
    let mut m: StrMap<u32> = StrMap::new();
    m.insert(s("b"), 1);
    m.insert(s("a"), 2);
    m.insert(s("c"), 3);
    m.insert(s("b"), 4);
    let keys: Vec<&str> = m.entries.iter().map(|e| e.0.as_str()).collect();
    assert_eq!(keys, vec!["a", "b", "c"]);
    assert_eq!(m.entries[1].1, 4);
    assert_eq!(m.len(), 3);
    assert_eq!(m.index_of("c"), Some(2));
    assert_eq!(m.index_of("d"), None);
}

#[test]
fn reverse_synthesizes_default_response() {
    let c = collection(vec![folder(
        "F",
        vec![
            leaf("a", request("GET", &["a"], vec![]), None),
            leaf(
                "b",
                request("GET", &["b"], vec![]),
                Some(vec![PostmanCollectionResponse { status: Some(s("Fine")), code: None, body: s("x") }]),
            ),
        ],
    )]);
    let doc = to_openapi3(c, rev_opt(vec![]));
    for p in ["/a", "/b"] {
        let op = op_at(&doc, p, "get");
        assert_eq!(op.responses.len(), 1);
        let r = &op.responses.entries[0];
        assert_eq!(r.0, "200");
        assert_eq!(r.1.description, Some(s("OK")));
        let content = r.1.content.as_ref().unwrap();
        assert_eq!(content.entries.len(), 1);
        assert_eq!(content.entries[0].0, "application/json");
        match content.entries[0].1.schema.as_ref().unwrap() {
            OpenApi3Schema::ObjectType(o) => {
                assert!(o.example.is_none());
                assert_eq!(o.properties.len(), 0);
            },
            _ => panic!("object schema expected"),
        }
    }
}

#[test]
fn reverse_keys_responses_by_code() {
    let resps = vec![
        PostmanCollectionResponse { status: Some(s("Not Found")), code: Some(404), body: s("nf") },
        PostmanCollectionResponse { status: Some(s("OK")), code: Some(200), body: s("first") },
        PostmanCollectionResponse { status: None, code: None, body: s("skip") },
        PostmanCollectionResponse { status: Some(s("Again")), code: Some(200), body: s("second") },
    ];
    let c = collection(vec![leaf("a", request("get", &["a"], vec![]), Some(resps))]);
    let doc = to_openapi3(c, rev_opt(vec![]));
    let op = op_at(&doc, "/a", "get");
    assert_eq!(op.responses.len(), 2);
    assert_eq!(op.responses.entries[0].0, "200");
    assert_eq!(op.responses.entries[1].0, "404");
    let r200 = &op.responses.entries[0].1;
    assert_eq!(r200.description, Some(s("Again")));
    match r200.content.as_ref().unwrap().entries[0].1.schema.as_ref().unwrap() {
        OpenApi3Schema::ObjectType(o) => {
            assert!(matches!(&o.example, Some(ExampleValue::Text(t)) if t == "second"))
        },
        _ => panic!("object schema expected"),
    }
}

#[test]
fn reverse_security_from_bearer_auth() {
    let mut with_auth = request("get", &["s"], vec![]);
    with_auth.auth = Some(PostmanCollectionRequestAuth { _type: s("bearer"), bearer: Some(vec![]), basic: None });
    let c = collection(vec![
        leaf("s", with_auth, None),
        leaf("n", request("get", &["n"], vec![]), None),
    ]);
    let doc = to_openapi3(c, rev_opt(vec![]));
    let sec = op_at(&doc, "/s", "get").security.as_ref().unwrap();
    assert_eq!(sec.len(), 1);
    assert_eq!(sec[0].entries.len(), 1);
    assert_eq!(sec[0].entries[0].0, "bearer");
    assert!(sec[0].entries[0].1.is_empty());
    assert!(op_at(&doc, "/n", "get").security.is_none());
}

#[test]
fn reverse_path_variables_and_tags() {
    let c = collection(vec![folder(
        "Top",
        vec![folder(
            "Inner",
            vec![leaf("u", request("DELETE", &["users", ":id"], vec![("id", "42"), ("x", "0")]), None)],
        )],
    )]);
    let doc = to_openapi3(c, rev_opt(vec![]));
    let op = op_at(&doc, "/users/{id}", "delete");
    assert_eq!(op.tags, vec![s("Top")]);
    assert_eq!(op.parameters.len(), 1);
    let p = &op.parameters[0];
    assert_eq!(p._in, "path");
    assert_eq!(p.name, "id");
    assert!(p.required);
    assert_eq!(string_example(p), Some(s("42")));
}

#[test]
fn reverse_mapping_is_ordered_substring_replacement() {
    let c = collection(vec![leaf("a", request("get", &["{{base}}", "v"], vec![]), None)]);
    let doc = to_openapi3(c, rev_opt(vec![("{{base}}", "api"), ("api/v", "x")]));
    assert!(ops_at(&doc, "/x").len() == 1);
    assert_eq!(doc.paths.len(), 1);
}

#[test]
fn reverse_header_and_query_mapping() {
    let mut req = request("get", &["q"], vec![]);
    req.header = vec![PostmanCollectionHeader { key: s("Token"), _type: None, value: s("raw") }];
    req.url.query = Some(vec![
        PostmanCollectionUrlQuery { key: s("k"), value: ExampleValue::Text(s("{{v}}")) },
        PostmanCollectionUrlQuery { key: s("j"), value: ExampleValue::Json(s("3")) },
    ]);
    req.body = Some(PostmanCollectionBody { mode: s("raw"), raw: s("{}"), options: None });
    let c = collection(vec![leaf("q", req, None)]);
    let doc = to_openapi3(c, rev_opt(vec![("{{v}}", "one"), ("Token", "secret"), ("{{v}}", "two")]));
    let op = op_at(&doc, "/q", "get");
    assert_eq!(op.parameters.len(), 3);
    assert_eq!(op.parameters[0]._in, "query");
    assert_eq!(string_example(&op.parameters[0]), Some(s("two")));
    assert_eq!(string_example(&op.parameters[1]), None);
    assert_eq!(op.parameters[2]._in, "header");
    assert_eq!(string_example(&op.parameters[2]), Some(s("secret")));
    match &op.request_body.as_ref().unwrap().content {
        OpenApi3OperationMethodRequestBodyContent::ApplicationJson(j) => {
            assert!(matches!(&j.example, Some(ExampleValue::Text(t)) if t == "{}"))
        },
    }
}

#[test]
fn reverse_document_header() {
    let c = collection(vec![]);
    let mut opt = rev_opt(vec![]);
    opt.servers = vec![OpenApi3Server { description: s("d"), url: s("u") }];
    let doc = to_openapi3(c, opt);
    assert_eq!(doc.info.title, "Coll");
    assert_eq!(doc.info.version, "0.1.0");
    assert_eq!(doc.openapi, "3.0.0");
    assert_eq!(doc.servers.len(), 1);
    let schemes = doc.components.as_ref().unwrap().security_schemes.as_ref().unwrap();
    assert_eq!(schemes.entries.len(), 1);
    assert_eq!(schemes.entries[0].0, "bearer");
    assert_eq!(schemes.entries[0].1._in, "header");
    assert_eq!(schemes.entries[0].1.name, "Authorization");
    assert_eq!(schemes.entries[0].1._type, "apiKey");
}

#[test]
fn round_trip_keeps_paths_and_methods() {
    let doc = spec_doc(vec![
        ("/users/{id}", vec![("get", operation(&["U"], vec![param("path", "id", Some("1"))])), ("put", operation(&[], vec![]))]),
        ("/z", vec![("post", operation(&["A"], vec![]))]),
    ]);
    let c = to_postman_colletion_2c1(doc, fwd_opt("h", "", "", vec![]));
    let back = to_openapi3(c, rev_opt(vec![]));
    op_at(&back, "/users/{id}", "get");
    op_at(&back, "/users/{id}", "put");
    op_at(&back, "/z", "post");
}

#[test]
fn first_key_index_finds_first_equal_key() {
    let keys = vec![s("x"), s("authorization"), s("authorization")];
    assert_eq!(first_key_index(&s("authorization"), &keys), Some(1));
    assert_eq!(first_key_index(&s("Authorization"), &keys), None);
    assert_eq!(first_key_index(&s("x"), &vec![]), None);
}

#[test]
fn reverse_last_leaf_with_a_key_wins() {
    let mut first = request("get", &["same"], vec![]);
    first.description = Some(s("first"));
    let mut second = request("GET", &["same"], vec![]);
    second.description = Some(s("second"));
    let c = collection(vec![
        folder("One", vec![folder("Deep", vec![leaf("a", first, None)])]),
        folder("Two", vec![leaf("b", second, None)]),
    ]);
    let doc = to_openapi3(c, rev_opt(vec![]));
    assert_eq!(doc.paths.len(), 1);
    assert_eq!(ops_at(&doc, "/same").len(), 1);
    let op = op_at(&doc, "/same", "get");
    assert_eq!(op.description, Some(s("second")));
    assert_eq!(op.tags, vec![s("Two")]);
}

#[test]
fn reverse_mapping_applies_pairs_in_order() {
    let c = collection(vec![leaf("a", request("get", &["a"], vec![]), None)]);
    let doc = to_openapi3(c, rev_opt(vec![("a", "b"), ("b", "c")]));
    assert_eq!(doc.paths.len(), 1);
    assert_eq!(doc.paths.entries[0].0, "/c");
    let c2 = collection(vec![leaf("a", request("get", &["a"], vec![]), None)]);
    let doc2 = to_openapi3(c2, rev_opt(vec![("b", "c"), ("a", "b")]));
    assert_eq!(doc2.paths.entries[0].0, "/b");
}

#[test]
fn reverse_empty_folder_adds_nothing() {
    let c = collection(vec![folder("Empty", vec![])]);
    let doc = to_openapi3(c, rev_opt(vec![]));
    assert_eq!(doc.paths.len(), 0);
}
