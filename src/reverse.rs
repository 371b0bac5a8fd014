use vstd::prelude::*;
use crate::model::{
    ExampleValue, OpenApi3, OpenApi3Components, OpenApi3ComponentsSecuritySchemesItem,
    OpenApi3ConvertMap, OpenApi3ConvertOption, OpenApi3Info, OpenApi3OperationMethod,
    OpenApi3OperationMethodRequestBody, OpenApi3OperationMethodRequestBodyContent,
    OpenApi3OperationMethodRequestBodyJson, OpenApi3OperationMethodSecurity, OpenApi3Operations,
    OpenApi3Parameter, OpenApi3Response, OpenApi3ResponseContent, OpenApi3ResponseContents,
    OpenApi3Responses, OpenApi3Schema, OpenApi3SchemaObjectType, OpenApi3SchemaStringType,
};
use crate::postman_model::{
    PostmanCollection2c1, PostmanCollectionItem, PostmanCollectionRequest,
    PostmanCollectionResponse, PostmanCollectionUrl, PostmanCollectionUrlQuery,
    PostmanCollectionVariable,
};
use crate::strmap::{keys_of, lemma_sorted_distinct, StrMap};
use crate::text::{
    ascii_lower_of, ascii_lowercase, compare_str, concat_str, decimal_of, decimal_string,
    join_on_slash, join_slash, replace_all, replace_str, spec_segment_of, to_spec_segment, views,
};

verus! {

/// A variable as a key and a value.
pub open spec fn var_view(v: PostmanCollectionVariable) -> (Seq<char>, Seq<char>) {
    (v.key@, v.value@)
}

pub open spec fn var_views(vs: Seq<PostmanCollectionVariable>) -> Seq<(Seq<char>, Seq<char>)> {
    vs.map_values(|v: PostmanCollectionVariable| var_view(v))
}

/// The variables of `vars` whose key is `name`, in order.
pub open spec fn vars_named(vars: Seq<(Seq<char>, Seq<char>)>, name: Seq<char>) -> Seq<(Seq<char>, Seq<char>)>
    decreases vars.len(),
{
    if vars.len() == 0 {
        vars
    } else if vars.last().0 == name {
        vars_named(vars.drop_last(), name).push(vars.last())
    } else {
        vars_named(vars.drop_last(), name)
    }
}

/// For each variable segment (`:name`) of `segs` in turn, the variables of
/// `vars` that it names.
pub open spec fn extracted_vars(segs: Seq<Seq<char>>, vars: Seq<(Seq<char>, Seq<char>)>) -> Seq<(Seq<char>, Seq<char>)>
    decreases segs.len(),
{
    if segs.len() == 0 {
        Seq::empty()
    } else if crate::text::is_collection_var(segs.last()) {
        extracted_vars(segs.drop_last(), vars) + vars_named(vars, segs.last().drop_first())
    } else {
        extracted_vars(segs.drop_last(), vars)
    }
}

/// The variables table of a URL; empty where there is none.
pub open spec fn url_vars(url: PostmanCollectionUrl) -> Seq<(Seq<char>, Seq<char>)> {
    match url.variable {
        Some(v) => var_views(v@),
        None => Seq::empty(),
    }
}

/// The spec path of a URL: `/`, then its segments translated and joined.
pub open spec fn spec_path_of(url: PostmanCollectionUrl) -> Seq<char> {
    seq!['/'] + join_slash(views(url.path@).map_values(|s: Seq<char>| spec_segment_of(s)))
}

impl PostmanCollectionUrl {
    /// The path in the spec format and the variables that its variable
    /// segments name, looked up by key.
    pub fn path_extract(&self) -> (r: (String, Vec<PostmanCollectionVariable>))
        ensures
            r.0@ == spec_path_of(*self),
            var_views(r.1@) == extracted_vars(views(self.path@), url_vars(*self)),
    {
        let empty_vec: Vec<PostmanCollectionVariable> = Vec::new();
        let thevars = match &self.variable {
            Some(v) => v,
            None => &empty_vec,
        };
        assert(var_views(thevars@) == url_vars(*self)) by {
            assert(var_views(empty_vec@) =~= Seq::<(Seq<char>, Seq<char>)>::empty());
        }
        let ghost segs = views(self.path@);
        let mut paths: Vec<String> = Vec::new();
        let mut vars: Vec<PostmanCollectionVariable> = Vec::new();
        let mut i: usize = 0;
        while i < self.path.len()
            invariant
                segs == views(self.path@),
                i <= segs.len(),
                var_views(thevars@) == url_vars(*self),
                views(paths@) == segs.take(i as int).map_values(|s: Seq<char>| spec_segment_of(s)),
                var_views(vars@) == extracted_vars(segs.take(i as int), var_views(thevars@)),
            decreases segs.len() - i,
        {
            let path = &self.path[i];
            assert(segs.take(i + 1).drop_last() =~= segs.take(i as int));
            assert(segs.take(i + 1).last() == path@);
            let ghost prev_paths = views(paths@);
            let seg = to_spec_segment(path.as_str());
            paths.push(seg);
            assert(views(paths@) =~= prev_paths.push(spec_segment_of(path@)));
            if crate::text::starts_with_char(path.as_str(), ':') {
                let n = path.as_str().unicode_len();
                let variable = path.as_str().substring_char(1, n);
                assert(variable@ =~= path@.drop_first());
                let ghost base = var_views(vars@);
                let ghost tv = var_views(thevars@);
                let mut j: usize = 0;
                assert(vars_named(tv.take(0), variable@) =~= Seq::<(Seq<char>, Seq<char>)>::empty());
                assert(base + vars_named(tv.take(0), variable@) =~= base);
                while j < thevars.len()
                    invariant
                        tv == var_views(thevars@),
                        j <= tv.len(),
                        var_views(vars@) == base + vars_named(tv.take(j as int), variable@),
                    decreases tv.len() - j,
                {
                    let v = &thevars[j];
                    assert(tv.take(j + 1).drop_last() =~= tv.take(j as int));
                    assert(tv.take(j + 1).last() == var_view(*v));
                    if compare_str(v.key.as_str(), variable) == 0 {
                        let ghost prev = var_views(vars@);
                        vars.push(PostmanCollectionVariable { key: v.key.clone(), value: v.value.clone() });
                        assert(var_views(vars@) =~= prev.push(var_view(*v)));
                    }
                    j = j + 1;
                }
                assert(tv.take(tv.len() as int) =~= tv);
            }
            i = i + 1;
        }
        assert(segs.take(segs.len() as int) =~= segs);
        let joined = join_on_slash(&paths);
        let p = concat_str("/", joined.as_str());
        proof {
            reveal_strlit("/");
            assert("/"@ =~= seq!['/']);
        }
        (p, vars)
    }
}

/// The value that the mapping gives for `probe`: that of the last pair whose
/// key is `probe`, else `dflt`.
pub open spec fn mapped_value(maps: Seq<OpenApi3ConvertMap>, probe: Seq<char>, dflt: Seq<char>) -> Seq<char>
    decreases maps.len(),
{
    if maps.len() == 0 {
        dflt
    } else if maps.last().key@ == probe {
        maps.last().value@
    } else {
        mapped_value(maps.drop_last(), probe, dflt)
    }
}

/// Every mapping pair applied in turn to `path` as a substring replacement.
pub open spec fn apply_mapping(path: Seq<char>, maps: Seq<OpenApi3ConvertMap>) -> Seq<char>
    decreases maps.len(),
{
    if maps.len() == 0 {
        path
    } else {
        replace_all(apply_mapping(path, maps.drop_last()), maps.last().key@, maps.last().value@)
    }
}

/// A string-typed parameter with the given location, name, requirement and
/// example text.
pub open spec fn string_param_ok(
    p: OpenApi3Parameter,
    loc: Seq<char>,
    name: Seq<char>,
    required: bool,
    example: Option<Seq<char>>,
) -> bool {
    &&& p.description@.len() == 0
    &&& p._in@ == loc
    &&& p.name@ == name
    &&& p.required == required
    &&& match p.schema {
        OpenApi3Schema::StringType(s) => {
            &&& s._type@ == "string"@
            &&& s._enum is None
            &&& s.default is None
            &&& match example {
                Some(e) => s.example is Some && s.example->0 is Text && s.example->0->Text_0@ == e,
                None => s.example is None,
            }
        },
        _ => false,
    }
}

/// The example of a query parameter: a string value through the mapping,
/// nothing for another value.
pub open spec fn query_example(q: PostmanCollectionUrlQuery, maps: Seq<OpenApi3ConvertMap>) -> Option<Seq<char>> {
    match q.value {
        ExampleValue::Text(s) => Some(mapped_value(maps, s@, s@)),
        ExampleValue::Json(_) => None,
    }
}

/// The query entries of a request; none where there are none.
pub open spec fn queries_of(req: PostmanCollectionRequest) -> Seq<PostmanCollectionUrlQuery> {
    match req.url.query {
        Some(q) => q@,
        None => Seq::empty(),
    }
}

/// The query parameters of a request, then its header parameters.
pub open spec fn header_query_params_ok(
    ps: Seq<OpenApi3Parameter>,
    req: PostmanCollectionRequest,
    maps: Seq<OpenApi3ConvertMap>,
) -> bool {
    let qs = queries_of(req);
    let hs = req.header@;
    &&& ps.len() == qs.len() + hs.len()
    &&& forall|k: int|
        0 <= k < qs.len() ==> string_param_ok(
            #[trigger] ps[k],
            "query"@,
            qs[k].key@,
            false,
            query_example(qs[k], maps),
        )
    &&& forall|k: int|
        0 <= k < hs.len() ==> string_param_ok(
            #[trigger] ps[qs.len() + k],
            "header"@,
            hs[k].key@,
            false,
            Some(mapped_value(maps, hs[k].key@, hs[k].value@)),
        )
}

fn mapped_string(maps: &Vec<OpenApi3ConvertMap>, probe: &String, dflt: &String) -> (r: String)
    ensures
        r@ == mapped_value(maps@, probe@, dflt@),
{
    let mut val = dflt.clone();
    let mut i: usize = 0;
    assert(maps@.take(0) =~= Seq::<OpenApi3ConvertMap>::empty());
    while i < maps.len()
        invariant
            i <= maps@.len(),
            val@ == mapped_value(maps@.take(i as int), probe@, dflt@),
        decreases maps@.len() - i,
    {
        assert(maps@.take(i + 1).drop_last() =~= maps@.take(i as int));
        if compare_str(maps[i].key.as_str(), probe.as_str()) == 0 {
            val = maps[i].value.clone();
        }
        i = i + 1;
    }
    assert(maps@.take(maps@.len() as int) =~= maps@);
    val
}

fn string_param(loc: &str, name: &String, required: bool, example: Option<String>) -> (r: OpenApi3Parameter)
    ensures
        string_param_ok(
            r,
            loc@,
            name@,
            required,
            match example {
                Some(e) => Some(e@),
                None => None,
            },
        ),
{
    let ex = match example {
        Some(e) => Some(ExampleValue::Text(e)),
        None => None,
    };
    proof {
        reveal_strlit("");
    }
    OpenApi3Parameter {
        description: String::from_str(""),
        _in: String::from_str(loc),
        name: name.clone(),
        required: required,
        schema: OpenApi3Schema::StringType(
            OpenApi3SchemaStringType {
                _type: String::from_str("string"),
                _enum: None,
                default: None,
                example: ex,
            },
        ),
    }
}

impl PostmanCollectionRequest {
    /// The query parameters, then the header parameters, of the request.
    pub fn oa3_get_parameters_for_header_query(&self, convert_option: &OpenApi3ConvertOption) -> (r: Vec<OpenApi3Parameter>)
        ensures
            header_query_params_ok(r@, *self, convert_option.mapping@),
    {
        let ghost maps = convert_option.mapping@;
        let mut params: Vec<OpenApi3Parameter> = Vec::new();
        if let Some(urlquery) = &self.url.query {
            let mut i: usize = 0;
            while i < urlquery.len()
                invariant
                    maps == convert_option.mapping@,
                    queries_of(*self) == urlquery@,
                    i <= urlquery@.len(),
                    params@.len() == i,
                    forall|k: int|
                        0 <= k < i ==> string_param_ok(
                            #[trigger] params@[k],
                            "query"@,
                            urlquery@[k].key@,
                            false,
                            query_example(urlquery@[k], maps),
                        ),
                decreases urlquery@.len() - i,
            {
                let query = &urlquery[i];
                let example = match &query.value {
                    ExampleValue::Text(s) => Some(mapped_string(&convert_option.mapping, s, s)),
                    ExampleValue::Json(_) => None,
                };
                params.push(string_param("query", &query.key, false, example));
                i = i + 1;
            }
        }
        let nq = params.len();
        let mut i: usize = 0;
        while i < self.header.len()
            invariant
                maps == convert_option.mapping@,
                nq == queries_of(*self).len(),
                i <= self.header@.len(),
                params@.len() == nq + i,
                forall|k: int|
                    0 <= k < nq ==> string_param_ok(
                        #[trigger] params@[k],
                        "query"@,
                        queries_of(*self)[k].key@,
                        false,
                        query_example(queries_of(*self)[k], maps),
                    ),
                forall|k: int|
                    0 <= k < i ==> string_param_ok(
                        #[trigger] params@[nq + k],
                        "header"@,
                        self.header@[k].key@,
                        false,
                        Some(mapped_value(maps, self.header@[k].key@, self.header@[k].value@)),
                    ),
            decreases self.header@.len() - i,
        {
            let headeritem = &self.header[i];
            let val = mapped_string(&convert_option.mapping, &headeritem.key, &headeritem.value);
            params.push(string_param("header", &headeritem.key, false, Some(val)));
            assert(params@[nq + i as int] == params@.last());
            i = i + 1;
        }
        params
    }
}

/// Whether the request carries a bearer-type auth block: a `bearer` table,
/// or the type `bearer`.
pub open spec fn has_bearer(req: PostmanCollectionRequest) -> bool {
    req.auth is Some && (req.auth->0.bearer is Some || req.auth->0._type@ == "bearer"@)
}

/// One requirement naming the auth type with no scopes where the request
/// has bearer auth; none otherwise.
pub open spec fn security_ok(sec: OpenApi3OperationMethodSecurity, req: PostmanCollectionRequest) -> bool {
    if has_bearer(req) {
        &&& sec is Some
        &&& sec->0@.len() == 1
        &&& sec->0@[0].wf()
        &&& sec->0@[0].entries@.len() == 1
        &&& sec->0@[0].entries@[0].0@ == req.auth->0._type@
        &&& sec->0@[0].entries@[0].1@.len() == 0
    } else {
        sec is None
    }
}

/// An object schema with no properties and the given example.
pub open spec fn empty_object_ok(s: OpenApi3Schema, example: Option<ExampleValue>) -> bool {
    match s {
        OpenApi3Schema::ObjectType(o) => o.properties.entries@.len() == 0 && o.example == example,
        _ => false,
    }
}

/// A JSON request body holding the raw body text as its example, where the
/// request has a body.
pub open spec fn request_body_ok(rb: Option<OpenApi3OperationMethodRequestBody>, req: PostmanCollectionRequest) -> bool {
    match req.body {
        Some(b) => rb is Some && match rb->0.content {
            OpenApi3OperationMethodRequestBodyContent::ApplicationJson(j) => {
                &&& empty_object_ok(j.schema, None)
                &&& j.example is Some
                &&& j.example->0 is Text
                &&& j.example->0->Text_0@ == b.raw@
            },
        },
        None => rb is None,
    }
}

impl PostmanCollectionRequest {
    /// The security requirements of the request.
    pub fn oa3_get_securities(&self) -> (r: OpenApi3OperationMethodSecurity)
        ensures
            security_ok(r, *self),
    {
        if let Some(auth) = &self.auth {
            proof {
                reveal_strlit("bearer");
            }
            if auth.bearer.is_some() || compare_str(auth._type.as_str(), "bearer") == 0 {
                let mut bmap: StrMap<Vec<String>> = StrMap::new();
                bmap.insert(auth._type.clone(), Vec::new());
                let mut v: Vec<StrMap<Vec<String>>> = Vec::new();
                v.push(bmap);
                return Some(v);
            }
        }
        None
    }

    /// The request body of the operation: a JSON object schema, the raw body
    /// as example.
    pub fn oa3_get_request_body(&self) -> (r: Option<OpenApi3OperationMethodRequestBody>)
        ensures
            request_body_ok(r, *self),
    {
        if let Some(body) = &self.body {
            Some(
                OpenApi3OperationMethodRequestBody {
                    content: OpenApi3OperationMethodRequestBodyContent::ApplicationJson(
                        OpenApi3OperationMethodRequestBodyJson {
                            schema: OpenApi3Schema::ObjectType(
                                OpenApi3SchemaObjectType { properties: StrMap::new(), example: None },
                            ),
                            example: Some(ExampleValue::Text(body.raw.clone())),
                        },
                    ),
                },
            )
        } else {
            None
        }
    }
}

/// A response with the given description whose single JSON content is an
/// object schema with the given example.
pub open spec fn response_ok(r: OpenApi3Response, description: Option<Seq<char>>, example: Option<ExampleValue>) -> bool {
    &&& match description {
        Some(d) => r.description is Some && r.description->0@ == d,
        None => r.description is None,
    }
    &&& r.content is Some
    &&& r.content->0.wf()
    &&& r.content->0.entries@.len() == 1
    &&& r.content->0.entries@[0].0@ == "application/json"@
    &&& r.content->0.entries@[0].1.description is None
    &&& r.content->0.entries@[0].1.schema is Some
    &&& empty_object_ok(r.content->0.entries@[0].1.schema->0, example)
}

/// The status text of a captured response.
pub open spec fn status_of(c: PostmanCollectionResponse) -> Option<Seq<char>> {
    match c.status {
        Some(s) => Some(s@),
        None => None,
    }
}

/// Whether any captured response has a code.
pub open spec fn any_coded(cs: Seq<PostmanCollectionResponse>) -> bool {
    exists|k: int| 0 <= k < cs.len() && (#[trigger] cs[k]).code is Some
}

/// The entry keyed `key` is made from the last coded response `cs[k]` whose
/// code reads `key`.
pub open spec fn made_from(r: OpenApi3Response, key: Seq<char>, cs: Seq<PostmanCollectionResponse>, k: int) -> bool {
    &&& 0 <= k < cs.len()
    &&& cs[k].code is Some
    &&& decimal_of(cs[k].code->0 as nat) == key
    &&& response_ok(r, status_of(cs[k]), Some(ExampleValue::Text(cs[k].body)))
    &&& forall|j: int|
        k < j < cs.len() && (#[trigger] cs[j]).code is Some ==> decimal_of(cs[j].code->0 as nat) != key
}

/// The entry is made from some captured response of `cs`, as `made_from` says.
pub open spec fn entry_made(e: (String, OpenApi3Response), cs: Seq<PostmanCollectionResponse>) -> bool {
    exists|k: int| made_from(e.1, e.0@, cs, k)
}

/// The responses of an operation made from its captured responses: one per
/// code, the last response of each code winning; or, where none has a code,
/// a single `200` `OK` with an empty example.
pub open spec fn responses_ok(rs: OpenApi3Responses, cs: Seq<PostmanCollectionResponse>) -> bool {
    &&& rs.wf()
    &&& if any_coded(cs) {
        &&& forall|k: int|
            0 <= k < cs.len() && (#[trigger] cs[k]).code is Some ==> rs.has_key(
                decimal_of(cs[k].code->0 as nat),
            )
        &&& forall|a: int| 0 <= a < rs.entries@.len() ==> entry_made(#[trigger] rs.entries@[a], cs)
    } else {
        &&& rs.entries@.len() == 1
        &&& rs.entries@[0].0@ == "200"@
        &&& response_ok(rs.entries@[0].1, Some("OK"@), None)
    }
}

fn json_response(description: Option<String>, example: Option<ExampleValue>) -> (r: OpenApi3Response)
    ensures
        response_ok(
            r,
            match description {
                Some(d) => Some(d@),
                None => None,
            },
            example,
        ),
{
    let mut response_content: OpenApi3ResponseContents = StrMap::new();
    response_content.insert(
        String::from_str("application/json"),
        OpenApi3ResponseContent {
            description: None,
            schema: Some(
                OpenApi3Schema::ObjectType(
                    OpenApi3SchemaObjectType { properties: StrMap::new(), example: example },
                ),
            ),
        },
    );
    OpenApi3Response { description: description, content: Some(response_content) }
}

proof fn lemma_made_from_extend(
    r: OpenApi3Response,
    key: Seq<char>,
    cs: Seq<PostmanCollectionResponse>,
    i: int,
    k: int,
)
    requires
        0 <= i < cs.len(),
        made_from(r, key, cs.take(i), k),
        cs[i].code is Some ==> decimal_of(cs[i].code->0 as nat) != key,
    ensures
        made_from(r, key, cs.take(i + 1), k),
{
    let t = cs.take(i + 1);
    assert forall|j: int| k < j < t.len() && (#[trigger] t[j]).code is Some implies decimal_of(
        t[j].code->0 as nat,
    ) != key by {
        if j < i {
            assert(cs.take(i)[j] == t[j]);
        }
    }
}

/// The responses of an operation from its captured responses.
pub fn oa3_responses(pman_responses: &Vec<PostmanCollectionResponse>) -> (r: OpenApi3Responses)
    ensures
        responses_ok(r, pman_responses@),
{
    let ghost cs = pman_responses@;
    let mut responses: OpenApi3Responses = StrMap::new();
    let mut i: usize = 0;
    while i < pman_responses.len()
        invariant
            cs == pman_responses@,
            i <= cs.len(),
            responses.wf(),
            forall|k: int|
                0 <= k < i && (#[trigger] cs[k]).code is Some ==> responses.has_key(
                    decimal_of(cs[k].code->0 as nat),
                ),
            forall|a: int|
                0 <= a < responses.entries@.len() ==> entry_made(
                    #[trigger] responses.entries@[a],
                    cs.take(i as int),
                ),
            responses.entries@.len() == 0 <==> !any_coded(cs.take(i as int)),
        decreases cs.len() - i,
    {
        let resp = &pman_responses[i];
        let ghost old_map = responses;
        if let Some(code) = resp.code {
            let status = match &resp.status {
                Some(s) => Some(s.clone()),
                None => None,
            };
            let entry = json_response(status, Some(ExampleValue::Text(resp.body.clone())));
            let key = decimal_string(code);
            let ghost gk = key;
            let ghost ge = entry;
            responses.insert(key, entry);
            proof {
                let t1 = cs.take(i + 1);
                assert(t1.take(i as int) =~= cs.take(i as int));
                assert(cs[i as int].code == Some(code));
                assert(decimal_of(cs[i as int].code->0 as nat) == gk@);
                if old_map.has_key(gk@) {
                    let idx = choose|idx: int|
                        0 <= idx < old_map.entries@.len() && old_map.entries@[idx].0@ == gk@
                            && responses.entries@ == old_map.entries@.update(idx, (gk, ge));
                    assert(made_from(ge, gk@, t1, i as int));
                    assert forall|a: int| 0 <= a < responses.entries@.len() implies entry_made(
                        #[trigger] responses.entries@[a],
                        t1,
                    ) by {
                        if a != idx {
                            lemma_sorted_distinct(keys_of(old_map.entries@), a, idx);
                            assert(keys_of(old_map.entries@)[idx] == gk@);
                            assert(keys_of(old_map.entries@)[a] == old_map.entries@[a].0@);
                            let k = choose|k: int| made_from(old_map.entries@[a].1, old_map.entries@[a].0@, cs.take(i as int), k);
                            lemma_made_from_extend(old_map.entries@[a].1, old_map.entries@[a].0@, cs, i as int, k);
                        } else {
                            assert(made_from(responses.entries@[a].1, responses.entries@[a].0@, t1, i as int));
                        }
                    }
                    assert forall|k: int|
                        0 <= k < i + 1 && (#[trigger] cs[k]).code is Some implies responses.has_key(
                            decimal_of(cs[k].code->0 as nat),
                        ) by {
                        if k < i {
                            let a = choose|a: int|
                                0 <= a < old_map.entries@.len() && old_map.entries@[a].0@ == decimal_of(cs[k].code->0 as nat);
                            assert(responses.entries@[a].0@ == decimal_of(cs[k].code->0 as nat));
                        } else {
                            assert(responses.entries@[idx].0@ == decimal_of(cs[k].code->0 as nat));
                        }
                    }
                } else {
                    let jj = choose|jj: int|
                        0 <= jj <= old_map.entries@.len() && responses.entries@
                            == old_map.entries@.insert(jj, (gk, ge));
                    assert forall|a: int| 0 <= a < responses.entries@.len() implies entry_made(
                        #[trigger] responses.entries@[a],
                        t1,
                    ) by {
                        if a < jj {
                            assert(responses.entries@[a] == old_map.entries@[a]);
                            let k = choose|k: int| made_from(old_map.entries@[a].1, old_map.entries@[a].0@, cs.take(i as int), k);
                            lemma_made_from_extend(old_map.entries@[a].1, old_map.entries@[a].0@, cs, i as int, k);
                        } else if a > jj {
                            let b = a - 1;
                            assert(responses.entries@[a] == old_map.entries@[b]);
                            let k = choose|k: int| made_from(old_map.entries@[b].1, old_map.entries@[b].0@, cs.take(i as int), k);
                            lemma_made_from_extend(old_map.entries@[b].1, old_map.entries@[b].0@, cs, i as int, k);
                        } else {
                            assert(made_from(responses.entries@[a].1, responses.entries@[a].0@, t1, i as int));
                        }
                    }
                    assert forall|k: int|
                        0 <= k < i + 1 && (#[trigger] cs[k]).code is Some implies responses.has_key(
                            decimal_of(cs[k].code->0 as nat),
                        ) by {
                        if k < i {
                            let a = choose|a: int|
                                0 <= a < old_map.entries@.len() && old_map.entries@[a].0@ == decimal_of(cs[k].code->0 as nat);
                            if a < jj {
                                assert(responses.entries@[a].0@ == decimal_of(cs[k].code->0 as nat));
                            } else {
                                assert(responses.entries@[a + 1].0@ == decimal_of(cs[k].code->0 as nat));
                            }
                        } else {
                            assert(responses.entries@[jj].0@ == decimal_of(cs[k].code->0 as nat));
                        }
                    }
                }
                assert(t1[i as int].code is Some);
                assert(any_coded(t1));
            }
        } else {
            proof {
                assert(cs[i as int].code is None);
                let t1 = cs.take(i + 1);
                assert(t1.take(i as int) =~= cs.take(i as int));
                assert forall|a: int| 0 <= a < responses.entries@.len() implies entry_made(
                        #[trigger] responses.entries@[a],
                        t1,
                    ) by {
                    let k = choose|k: int| made_from(responses.entries@[a].1, responses.entries@[a].0@, cs.take(i as int), k);
                    assert(made_from(responses.entries@[a].1, responses.entries@[a].0@, cs.take(i as int), k));
                    lemma_made_from_extend(responses.entries@[a].1, responses.entries@[a].0@, cs, i as int, k);
                    assert(made_from(responses.entries@[a].1, responses.entries@[a].0@, t1, k));
                }
                if any_coded(t1) {
                    let k = choose|k: int| 0 <= k < t1.len() && (#[trigger] t1[k]).code is Some;
                    assert(cs.take(i as int)[k] == t1[k]);
                }
            }
        }
        i = i + 1;
    }
    assert(cs.take(cs.len() as int) =~= cs);
    if responses.len() == 0 {
        proof {
            reveal_strlit("OK");
        }
        let entry = json_response(Some(String::from_str("OK")), None);
        responses.insert(String::from_str("200"), entry);
    }
    responses
}

/// The view of an optional string.
pub open spec fn opt_view(o: Option<String>) -> Option<Seq<char>> {
    match o {
        Some(s) => Some(s@),
        None => None,
    }
}

/// The path variables of a request: those that its variable segments name.
pub open spec fn request_vars(req: PostmanCollectionRequest) -> Seq<(Seq<char>, Seq<char>)> {
    extracted_vars(views(req.url.path@), url_vars(req.url))
}

/// The operation's path key: the request's spec path, through the mapping.
pub open spec fn path_key(req: PostmanCollectionRequest, maps: Seq<OpenApi3ConvertMap>) -> Seq<char> {
    apply_mapping(spec_path_of(req.url), maps)
}

/// The operation made from the request `req` with captured responses `cs`
/// under the grouping tag `tag`.
pub open spec fn op_ok(
    op: OpenApi3OperationMethod,
    req: PostmanCollectionRequest,
    cs: Seq<PostmanCollectionResponse>,
    tag: Option<Seq<char>>,
    maps: Seq<OpenApi3ConvertMap>,
) -> bool {
    let hq = (queries_of(req).len() + req.header@.len()) as int;
    let vars = request_vars(req);
    &&& match req.description {
        Some(d) => op.description is Some && op.description->0@ == d@,
        None => op.description is None,
    }
    &&& op.operation_id is None
    &&& views(op.tags@) == match tag {
        Some(t) => seq![t],
        None => Seq::empty(),
    }
    &&& op.parameters@.len() == hq + vars.len()
    &&& header_query_params_ok(op.parameters@.take(hq), req, maps)
    &&& forall|k: int|
        0 <= k < vars.len() ==> string_param_ok(
            #[trigger] op.parameters@[hq + k],
            "path"@,
            vars[k].0,
            true,
            Some(vars[k].1),
        )
    &&& responses_ok(op.responses, cs)
    &&& request_body_ok(op.request_body, req)
    &&& security_ok(op.security, req)
}

fn copy_opt_string(s: &Option<String>) -> (r: Option<String>)
    ensures
        r == *s,
{
    match s {
        Some(v) => Some(v.clone()),
        None => None,
    }
}

/// The path key, the lowercase method and the operation made from a request.
pub fn request_operation(
    req: &PostmanCollectionRequest,
    pman_responses: &Vec<PostmanCollectionResponse>,
    tag: &Option<String>,
    convert_option: &OpenApi3ConvertOption,
) -> (r: (String, String, OpenApi3OperationMethod))
    ensures
        r.0@ == path_key(*req, convert_option.mapping@),
        r.1@ == ascii_lower_of(req.method@),
        op_ok(
            r.2,
            *req,
            pman_responses@,
            opt_view(*tag),
            convert_option.mapping@,
        ),
{
    let mut tags: Vec<String> = Vec::new();
    if let Some(tagstr) = tag {
        tags.push(tagstr.clone());
    }
    let ghost maps = convert_option.mapping@;
    let mut parameters = req.oa3_get_parameters_for_header_query(convert_option);
    let ghost hq = parameters@.len();
    let ghost hq_params = parameters@;
    let (mut path, variables) = req.url.path_extract();
    let mut i: usize = 0;
    while i < variables.len()
        invariant
            hq == hq_params.len(),
            header_query_params_ok(hq_params, *req, maps),
            var_views(variables@) == request_vars(*req),
            i <= variables@.len(),
            parameters@.len() == hq + i,
            parameters@.take(hq as int) == hq_params,
            forall|k: int|
                0 <= k < i ==> string_param_ok(
                    #[trigger] parameters@[hq + k],
                    "path"@,
                    variables@[k].key@,
                    true,
                    Some(variables@[k].value@),
                ),
        decreases variables@.len() - i,
    {
        let variable = &variables[i];
        let ghost before = parameters@;
        parameters.push(string_param("path", &variable.key, true, Some(variable.value.clone())));
        assert(parameters@.take(hq as int) =~= before.take(hq as int));
        assert(parameters@[hq + i] == parameters@.last());
        i = i + 1;
    }
    proof {
        let vars = request_vars(*req);
        assert forall|k: int| 0 <= k < vars.len() implies string_param_ok(
            #[trigger] parameters@[hq + k],
            "path"@,
            vars[k].0,
            true,
            Some(vars[k].1),
        ) by {
            assert(vars[k] == var_view(variables@[k]));
        }
    }
    let mut j: usize = 0;
    assert(convert_option.mapping@.take(0) =~= Seq::<OpenApi3ConvertMap>::empty());
    while j < convert_option.mapping.len()
        invariant
            j <= convert_option.mapping@.len(),
            path@ == apply_mapping(spec_path_of(req.url), convert_option.mapping@.take(j as int)),
        decreases convert_option.mapping@.len() - j,
    {
        let mapp = &convert_option.mapping[j];
        assert(convert_option.mapping@.take(j + 1).drop_last() =~= convert_option.mapping@.take(j as int));
        path = replace_str(path.as_str(), mapp.key.as_str(), mapp.value.as_str());
        j = j + 1;
    }
    assert(convert_option.mapping@.take(convert_option.mapping@.len() as int) =~= convert_option.mapping@);
    let method = ascii_lowercase(req.method.as_str());
    let responses = oa3_responses(pman_responses);
    let op = OpenApi3OperationMethod {
        description: copy_opt_string(&req.description),
        operation_id: None,
        parameters: parameters,
        responses: responses,
        tags: tags,
        security: req.oa3_get_securities(),
        request_body: req.oa3_get_request_body(),
    };
    proof {
        let tg = opt_view(*tag);
        assert(views(op.tags@) =~= match tg {
            Some(t) => seq![t],
            None => Seq::<Seq<char>>::empty(),
        });
    }
    (path, method, op)
}

/// The node of the tree `item` reached by taking, at each level, the child
/// whose index is the next of `path`.
pub open spec fn node_at(item: PostmanCollectionItem, path: Seq<int>) -> Option<PostmanCollectionItem>
    decreases path.len(),
{
    if path.len() == 0 {
        Some(item)
    } else if item.item is Some && 0 <= path[0] < item.item->0@.len() {
        node_at(item.item->0@[path[0]], path.drop_first())
    } else {
        None
    }
}

/// Whether `leaf` is a node of the tree `item` that holds a request.
pub open spec fn in_tree(item: PostmanCollectionItem, leaf: PostmanCollectionItem) -> bool {
    leaf.request is Some && exists|path: Seq<int>| #[trigger] node_at(item, path) == Some(leaf)
}

/// The captured responses of a node; none where it has none.
pub open spec fn responses_of(item: PostmanCollectionItem) -> Seq<PostmanCollectionResponse> {
    match item.response {
        Some(v) => v@,
        None => Seq::empty(),
    }
}

/// The paths map is in key order, and so is each of its method maps, none
/// of which is empty.
pub open spec fn paths_wf(paths: StrMap<OpenApi3Operations>) -> bool {
    &&& paths.wf()
    &&& forall|a: int| 0 <= a < paths.entries@.len() ==> (#[trigger] paths.entries@[a]).1.wf()
    &&& forall|a: int| 0 <= a < paths.entries@.len() ==> (#[trigger] paths.entries@[a]).1.entries@.len() > 0
}

/// The paths map holds an operation at path `p` and method `m`.
pub open spec fn has_op(paths: StrMap<OpenApi3Operations>, p: Seq<char>, m: Seq<char>) -> bool {
    exists|a: int|
        0 <= a < paths.entries@.len() && (#[trigger] paths.entries@[a]).0@ == p
            && paths.entries@[a].1.has_key(m)
}

/// The paths map holds the operation `op` at path `p` and method `m`.
pub open spec fn holds_op(
    paths: StrMap<OpenApi3Operations>,
    p: Seq<char>,
    m: Seq<char>,
    op: OpenApi3OperationMethod,
) -> bool {
    exists|a: int, b: int|
        0 <= a < paths.entries@.len() && (#[trigger] paths.entries@[a]).0@ == p && 0 <= b
            < paths.entries@[a].1.entries@.len() && (#[trigger] paths.entries@[a].1.entries@[b]).0@
            == m && paths.entries@[a].1.entries@[b].1 == op
}

/// Every operation of `paths` is `op` at `path` and `method`, or was in
/// `before` at the same path and method.
pub open spec fn only_added(
    paths: StrMap<OpenApi3Operations>,
    before: StrMap<OpenApi3Operations>,
    path: Seq<char>,
    method: Seq<char>,
    op: OpenApi3OperationMethod,
) -> bool {
    forall|a: int, b: int|
        0 <= a < paths.entries@.len() && 0 <= b < paths.entries@[a].1.entries@.len() ==> ((
        paths.entries@[a].0@ == path && (#[trigger] paths.entries@[a].1.entries@[b]).0@ == method
            && paths.entries@[a].1.entries@[b].1 == op) || holds_op(
            before,
            paths.entries@[a].0@,
            paths.entries@[a].1.entries@[b].0@,
            paths.entries@[a].1.entries@[b].1,
        ))
}

proof fn lemma_keys_differ(paths: StrMap<OpenApi3Operations>, a: int, b: int)
    requires
        paths.wf(),
        0 <= a < paths.entries@.len(),
        0 <= b < paths.entries@.len(),
        paths.entries@[a].0@ == paths.entries@[b].0@,
    ensures
        a == b,
{
    if a != b {
        lemma_sorted_distinct(keys_of(paths.entries@), a, b);
        assert(keys_of(paths.entries@)[a] == paths.entries@[a].0@);
        assert(keys_of(paths.entries@)[b] == paths.entries@[b].0@);
    }
}

/// Puts the operation `op` at path `path` and method `method`, in place of
/// any that was there.
pub fn merge_operation(
    paths: &mut StrMap<OpenApi3Operations>,
    path: String,
    method: String,
    op: OpenApi3OperationMethod,
)
    requires
        paths_wf(*old(paths)),
    ensures
        paths_wf(*final(paths)),
        holds_op(*final(paths), path@, method@, op),
        forall|p: Seq<char>, m: Seq<char>|
            has_op(*old(paths), p, m) ==> #[trigger] has_op(*final(paths), p, m),
        only_added(*final(paths), *old(paths), path@, method@, op),
        forall|p: Seq<char>, m: Seq<char>, o: OpenApi3OperationMethod|
            #[trigger] holds_op(*old(paths), p, m, o) && !(p == path@ && m == method@) ==> holds_op(
                *final(paths),
                p,
                m,
                o,
            ),
{
    let ghost old_map = *paths;
    let ghost gp = path;
    let ghost gm = method;
    let ghost gop = op;
    match paths.index_of(path.as_str()) {
        Some(idx) => {
            let mut inner = paths.replace_value(idx, StrMap::new());
            let ghost old_inner = inner;
            inner.insert(method, op);
            let ghost new_inner = inner;
            paths.replace_value(idx, inner);
            proof {
                assert(keys_of(paths.entries@) =~= keys_of(old_map.entries@));
                assert(paths.entries@[idx as int].1 == new_inner);
                assert(old_map.entries@[idx as int].1 == old_inner);
                assert(old_map.entries@[idx as int].0@ == gp@);
                assert forall|a: int| 0 <= a < paths.entries@.len() implies (
                #[trigger] paths.entries@[a]).1.entries@.len() > 0 by {
                    if a != idx {
                        assert(paths.entries@[a] == old_map.entries@[a]);
                    }
                }
                assert forall|p: Seq<char>, m: Seq<char>, o: OpenApi3OperationMethod|
                    #[trigger] holds_op(old_map, p, m, o) && !(p == gp@ && m == gm@) implies holds_op(
                        *paths,
                        p,
                        m,
                        o,
                    ) by {
                    let (a, b) = choose|a: int, b: int|
                        0 <= a < old_map.entries@.len() && (#[trigger] old_map.entries@[a]).0@ == p && 0 <= b
                            < old_map.entries@[a].1.entries@.len() && (#[trigger] old_map.entries@[a].1.entries@[b]).0@
                            == m && old_map.entries@[a].1.entries@[b].1 == o;
                    if a != idx {
                        assert(paths.entries@[a] == old_map.entries@[a]);
                        assert(paths.entries@[a].1.entries@[b] == old_map.entries@[a].1.entries@[b]);
                    } else {
                        lemma_keys_differ(old_map, idx as int, a);
                        assert(m != gm@);
                        if old_inner.has_key(gm@) {
                            let c = choose|c: int|
                                0 <= c < old_inner.entries@.len() && old_inner.entries@[c].0@ == gm@
                                    && new_inner.entries@ == old_inner.entries@.update(c, (gm, gop));
                            assert(paths.entries@[a].1.entries@[b] == old_map.entries@[a].1.entries@[b]);
                        } else {
                            let c = choose|c: int|
                                0 <= c <= old_inner.entries@.len() && new_inner.entries@
                                    == old_inner.entries@.insert(c, (gm, gop));
                            if b < c {
                                assert(paths.entries@[a].1.entries@[b] == old_map.entries@[a].1.entries@[b]);
                            } else {
                                assert(paths.entries@[a].1.entries@[b + 1] == old_map.entries@[a].1.entries@[b]);
                            }
                        }
                    }
                }
                if old_inner.has_key(gm@) {
                    let b = choose|b: int|
                        0 <= b < old_inner.entries@.len() && old_inner.entries@[b].0@ == gm@
                            && new_inner.entries@ == old_inner.entries@.update(b, (gm, gop));
                    assert(paths.entries@[idx as int].1.entries@[b].0@ == gm@);
                } else {
                    let b = choose|b: int|
                        0 <= b <= old_inner.entries@.len() && new_inner.entries@
                            == old_inner.entries@.insert(b, (gm, gop));
                    assert(paths.entries@[idx as int].1.entries@[b].0@ == gm@);
                }
                assert forall|p: Seq<char>, m: Seq<char>|
                    has_op(old_map, p, m) implies #[trigger] has_op(*paths, p, m) by {
                    let a = choose|a: int|
                        0 <= a < old_map.entries@.len() && (#[trigger] old_map.entries@[a]).0@ == p
                            && old_map.entries@[a].1.has_key(m);
                    if a == idx {
                        let b = choose|b: int|
                            0 <= b < old_inner.entries@.len() && old_inner.entries@[b].0@ == m;
                        if old_inner.has_key(gm@) {
                            let c = choose|c: int|
                                0 <= c < old_inner.entries@.len() && old_inner.entries@[c].0@ == gm@
                                    && new_inner.entries@ == old_inner.entries@.update(c, (gm, gop));
                            assert(new_inner.entries@[b].0@ == m);
                        } else {
                            let c = choose|c: int|
                                0 <= c <= old_inner.entries@.len() && new_inner.entries@
                                    == old_inner.entries@.insert(c, (gm, gop));
                            if b < c {
                                assert(new_inner.entries@[b].0@ == m);
                            } else {
                                assert(new_inner.entries@[b + 1].0@ == m);
                            }
                        }
                        assert(paths.entries@[a].1 == new_inner);
                    } else {
                        assert(paths.entries@[a] == old_map.entries@[a]);
                    }
                }
                assert forall|a: int, b: int|
                    0 <= a < paths.entries@.len() && 0 <= b < paths.entries@[a].1.entries@.len() implies ((
                    paths.entries@[a].0@ == gp@ && (#[trigger] paths.entries@[a].1.entries@[b]).0@ == gm@
                        && paths.entries@[a].1.entries@[b].1 == gop) || holds_op(
                        old_map,
                        paths.entries@[a].0@,
                        paths.entries@[a].1.entries@[b].0@,
                        paths.entries@[a].1.entries@[b].1,
                    )) by {
                    if a != idx {
                        assert(paths.entries@[a] == old_map.entries@[a]);
                        assert(old_map.entries@[a].1.entries@[b] == paths.entries@[a].1.entries@[b]);
                    } else {
                        assert(paths.entries@[a].0@ == gp@);
                        assert(old_map.entries@[a].1 == old_inner);
                        if old_inner.has_key(gm@) {
                            let c = choose|c: int|
                                0 <= c < old_inner.entries@.len() && old_inner.entries@[c].0@ == gm@
                                    && new_inner.entries@ == old_inner.entries@.update(c, (gm, gop));
                            if b != c {
                                assert(old_inner.entries@[b] == new_inner.entries@[b]);
                                assert(old_map.entries@[a].1.entries@[b] == paths.entries@[a].1.entries@[b]);
                            }
                        } else {
                            let c = choose|c: int|
                                0 <= c <= old_inner.entries@.len() && new_inner.entries@
                                    == old_inner.entries@.insert(c, (gm, gop));
                            if b < c {
                                assert(old_map.entries@[a].1.entries@[b] == paths.entries@[a].1.entries@[b]);
                            } else if b > c {
                                let b1 = b - 1;
                                assert(old_map.entries@[a].1.entries@[b1] == paths.entries@[a].1.entries@[b]);
                            }
                        }
                    }
                }
            }
        },
        None => {
            let mut inner: OpenApi3Operations = StrMap::new();
            inner.insert(method, op);
            let ghost new_inner = inner;
            paths.insert(path, inner);
            proof {
                let j = choose|j: int|
                    0 <= j <= old_map.entries@.len() && paths.entries@ == old_map.entries@.insert(
                        j,
                        (gp, new_inner),
                    );
                assert(new_inner.entries@.len() == 1);
                assert(new_inner.entries@[0].0@ == gm@);
                assert forall|a: int| 0 <= a < paths.entries@.len() implies (
                #[trigger] paths.entries@[a]).1.entries@.len() > 0 by {
                    if a < j {
                        assert(paths.entries@[a] == old_map.entries@[a]);
                    } else if a > j {
                        assert(paths.entries@[a] == old_map.entries@[a - 1]);
                    }
                }
                assert forall|p: Seq<char>, m: Seq<char>, o: OpenApi3OperationMethod|
                    #[trigger] holds_op(old_map, p, m, o) && !(p == gp@ && m == gm@) implies holds_op(
                        *paths,
                        p,
                        m,
                        o,
                    ) by {
                    let (a, b) = choose|a: int, b: int|
                        0 <= a < old_map.entries@.len() && (#[trigger] old_map.entries@[a]).0@ == p && 0 <= b
                            < old_map.entries@[a].1.entries@.len() && (#[trigger] old_map.entries@[a].1.entries@[b]).0@
                            == m && old_map.entries@[a].1.entries@[b].1 == o;
                    if a < j {
                        assert(paths.entries@[a] == old_map.entries@[a]);
                        assert(paths.entries@[a].1.entries@[b] == old_map.entries@[a].1.entries@[b]);
                    } else {
                        assert(paths.entries@[a + 1] == old_map.entries@[a]);
                        assert(paths.entries@[a + 1].1.entries@[b] == old_map.entries@[a].1.entries@[b]);
                    }
                }
                assert(paths.entries@[j].1.entries@[0].0@ == gm@);
                assert forall|a: int| 0 <= a < paths.entries@.len() implies (
                #[trigger] paths.entries@[a]).1.wf() by {
                    if a < j {
                        assert(paths.entries@[a] == old_map.entries@[a]);
                    } else if a > j {
                        assert(paths.entries@[a] == old_map.entries@[a - 1]);
                    }
                }
                assert forall|p: Seq<char>, m: Seq<char>|
                    has_op(old_map, p, m) implies #[trigger] has_op(*paths, p, m) by {
                    let a = choose|a: int|
                        0 <= a < old_map.entries@.len() && (#[trigger] old_map.entries@[a]).0@ == p
                            && old_map.entries@[a].1.has_key(m);
                    if a < j {
                        assert(paths.entries@[a] == old_map.entries@[a]);
                    } else {
                        assert(paths.entries@[a + 1] == old_map.entries@[a]);
                    }
                }
                assert forall|a: int, b: int|
                    0 <= a < paths.entries@.len() && 0 <= b < paths.entries@[a].1.entries@.len() implies ((
                    paths.entries@[a].0@ == gp@ && (#[trigger] paths.entries@[a].1.entries@[b]).0@ == gm@
                        && paths.entries@[a].1.entries@[b].1 == gop) || holds_op(
                        old_map,
                        paths.entries@[a].0@,
                        paths.entries@[a].1.entries@[b].0@,
                        paths.entries@[a].1.entries@[b].1,
                    )) by {
                    if a < j {
                        assert(paths.entries@[a] == old_map.entries@[a]);
                        assert(old_map.entries@[a].1.entries@[b] == paths.entries@[a].1.entries@[b]);
                    } else if a > j {
                        let a1 = a - 1;
                        assert(paths.entries@[a] == old_map.entries@[a1]);
                        assert(old_map.entries@[a1].1.entries@[b] == paths.entries@[a].1.entries@[b]);
                    } else {
                        assert(paths.entries@[a].1 == new_inner);
                    }
                }
            }
        },
    }
}

/// Every request leaf of `item` has an operation in `paths`, at its path key
/// and its lowercase method.
pub open spec fn tree_reached(
    paths: StrMap<OpenApi3Operations>,
    item: PostmanCollectionItem,
    maps: Seq<OpenApi3ConvertMap>,
) -> bool {
    forall|leaf: PostmanCollectionItem|
        #[trigger] in_tree(item, leaf) ==> has_op(
            paths,
            path_key(leaf.request->0, maps),
            ascii_lower_of(leaf.request->0.method@),
        )
}

/// The number of children of a node.
pub open spec fn child_count(item: PostmanCollectionItem) -> int {
    match item.item {
        Some(v) => v@.len() as int,
        None => 0,
    }
}

/// `leaf` is the request-holding node of `item` at index path `q`.
pub open spec fn leaf_at(item: PostmanCollectionItem, q: Seq<int>, leaf: PostmanCollectionItem) -> bool {
    node_at(item, q) == Some(leaf) && leaf.request is Some
}

/// The request of `leaf` has path key `p` and lowercase method `m`.
pub open spec fn leaf_key_is(leaf: PostmanCollectionItem, maps: Seq<OpenApi3ConvertMap>, p: Seq<char>, m: Seq<char>) -> bool {
    path_key(leaf.request->0, maps) == p && ascii_lower_of(leaf.request->0.method@) == m
}

/// The index path `q` is the root's own, or goes into one of the first `n`
/// children.
pub open spec fn within(q: Seq<int>, n: int) -> bool {
    q.len() == 0 || q[0] < n
}

/// `q1` comes before `q2` in depth-first pre-order: it is a proper prefix of
/// `q2`, or it is smaller where they first differ.
pub open spec fn preorder_lt(q1: Seq<int>, q2: Seq<int>) -> bool {
    (q1.len() < q2.len() && q2.take(q1.len() as int) == q1) || exists|j: int|
        #![trigger q1[j], q2[j]]
        0 <= j < q1.len() && j < q2.len() && q1.take(j) == q2.take(j) && q1[j] < q2[j]
}

/// `leaf`, at `q`, is the last request leaf within the first `n` children
/// (and the root) of `item`, in depth-first order, whose key is `(p, m)`.
pub open spec fn last_within(
    item: PostmanCollectionItem,
    n: int,
    q: Seq<int>,
    leaf: PostmanCollectionItem,
    p: Seq<char>,
    m: Seq<char>,
    maps: Seq<OpenApi3ConvertMap>,
) -> bool {
    &&& leaf_at(item, q, leaf)
    &&& within(q, n)
    &&& leaf_key_is(leaf, maps, p, m)
    &&& forall|q2: Seq<int>, l2: PostmanCollectionItem|
        #[trigger] leaf_at(item, q2, l2) && within(q2, n) && leaf_key_is(l2, maps, p, m) ==> !preorder_lt(q, q2)
}

/// No request leaf within the first `n` children (and the root) of `item` has
/// the key `(p, m)`.
pub open spec fn none_within(
    item: PostmanCollectionItem,
    n: int,
    p: Seq<char>,
    m: Seq<char>,
    maps: Seq<OpenApi3ConvertMap>,
) -> bool {
    forall|q2: Seq<int>, l2: PostmanCollectionItem|
        #[trigger] leaf_at(item, q2, l2) && within(q2, n) ==> !leaf_key_is(l2, maps, p, m)
}

/// Each operation of `paths` is the one made, with the tag `tf(q)`, from the
/// last leaf within the first `n` children of `item` that has its key; or, where
/// no such leaf has its key, was in `start` as it is.
pub open spec fn written_by(
    paths: StrMap<OpenApi3Operations>,
    start: StrMap<OpenApi3Operations>,
    item: PostmanCollectionItem,
    n: int,
    tf: spec_fn(Seq<int>) -> Option<Seq<char>>,
    maps: Seq<OpenApi3ConvertMap>,
) -> bool {
    forall|p: Seq<char>, m: Seq<char>, o: OpenApi3OperationMethod|
        #[trigger] holds_op(paths, p, m, o) ==> (exists|q: Seq<int>, l: PostmanCollectionItem|
            #[trigger] last_within(item, n, q, l, p, m, maps) && op_ok(
                o,
                l.request->0,
                responses_of(l),
                tf(q),
                maps,
            )) || (holds_op(start, p, m, o) && none_within(item, n, p, m, maps))
}

/// Every operation of `start` whose key no leaf within the first `n`
/// children of `item` has is still in `paths`, unchanged.
pub open spec fn kept(
    paths: StrMap<OpenApi3Operations>,
    start: StrMap<OpenApi3Operations>,
    item: PostmanCollectionItem,
    n: int,
    maps: Seq<OpenApi3ConvertMap>,
) -> bool {
    forall|p: Seq<char>, m: Seq<char>, o: OpenApi3OperationMethod|
        #[trigger] holds_op(start, p, m, o) && none_within(item, n, p, m, maps) ==> holds_op(paths, p, m, o)
}

proof fn lemma_preorder_cons(i: int, x: Seq<int>, y: Seq<int>)
    requires
        preorder_lt(seq![i] + x, seq![i] + y),
    ensures
        preorder_lt(x, y),
{
    let a = seq![i] + x;
    let b = seq![i] + y;
    if a.len() < b.len() && b.take(a.len() as int) == a {
        assert forall|k: int| 0 <= k < x.len() implies y.take(x.len() as int)[k] == x[k] by {
            assert(b.take(a.len() as int)[k + 1] == a[k + 1]);
        }
        assert(y.take(x.len() as int) =~= x);
    } else {
        let j = choose|j: int|
            #![trigger a[j], b[j]]
            0 <= j < a.len() && j < b.len() && a.take(j) == b.take(j) && a[j] < b[j];
        assert(j > 0);
        let jm = j - 1;
        assert forall|k: int| 0 <= k < jm implies #[trigger] x.take(jm)[k] == y.take(jm)[k] by {
            assert(a.take(j)[k + 1] == b.take(j)[k + 1]);
        }
        assert(x.take(jm) =~= y.take(jm));
        assert(x[jm] == a[j] && y[jm] == b[j]);
    }
}

proof fn lemma_preorder_later_child(q: Seq<int>, q2: Seq<int>, i: int)
    requires
        q.len() > 0,
        q[0] == i,
        q2.len() == 0 || q2[0] < i,
    ensures
        !preorder_lt(q, q2),
{
    if q.len() < q2.len() && q2.take(q.len() as int) == q {
        assert(q2.take(q.len() as int)[0] == q2[0]);
    }
    assert forall|j: int|
        #![trigger q[j], q2[j]]
        0 <= j < q.len() && j < q2.len() && q.take(j) == q2.take(j) implies !(q[j] < q2[j]) by {
        if j > 0 {
            assert(q.take(j)[0] == q2.take(j)[0]);
        }
    }
}

proof fn lemma_leaf_in_child(item: PostmanCollectionItem, i: int, q: Seq<int>, leaf: PostmanCollectionItem)
    requires
        item.item is Some,
        0 <= i < item.item->0@.len(),
    ensures
        leaf_at(item, seq![i] + q, leaf) == leaf_at(item.item->0@[i], q, leaf),
{
    assert((seq![i] + q).drop_first() =~= q);
}

proof fn lemma_leaf_within(item: PostmanCollectionItem, q: Seq<int>, leaf: PostmanCollectionItem)
    requires
        leaf_at(item, q, leaf),
    ensures
        within(q, child_count(item)),
{
}

proof fn lemma_split_leaf(item: PostmanCollectionItem, i: int, q2: Seq<int>, l2: PostmanCollectionItem)
    requires
        item.item is Some,
        0 <= i < item.item->0@.len(),
        leaf_at(item, q2, l2),
        within(q2, i + 1),
        !within(q2, i),
    ensures
        q2 == seq![i] + q2.drop_first(),
        leaf_at(item.item->0@[i], q2.drop_first(), l2),
        within(q2.drop_first(), child_count(item.item->0@[i])),
{
    assert(q2 =~= seq![i] + q2.drop_first());
    lemma_leaf_in_child(item, i, q2.drop_first(), l2);
    lemma_leaf_within(item.item->0@[i], q2.drop_first(), l2);
}

proof fn lemma_child_step(
    item: PostmanCollectionItem,
    i: int,
    before: StrMap<OpenApi3Operations>,
    after: StrMap<OpenApi3Operations>,
    start: StrMap<OpenApi3Operations>,
    tf: spec_fn(Seq<int>) -> Option<Seq<char>>,
    ctf: spec_fn(Seq<int>) -> Option<Seq<char>>,
    maps: Seq<OpenApi3ConvertMap>,
)
    requires
        item.item is Some,
        0 <= i < item.item->0@.len(),
        forall|q: Seq<int>| q.len() > 0 && q[0] == i ==> #[trigger] tf(q) == ctf(q.drop_first()),
        written_by(before, start, item, i, tf, maps),
        kept(before, start, item, i, maps),
        written_by(after, before, item.item->0@[i], child_count(item.item->0@[i]), ctf, maps),
        kept(after, before, item.item->0@[i], child_count(item.item->0@[i]), maps),
    ensures
        written_by(after, start, item, i + 1, tf, maps),
        kept(after, start, item, i + 1, maps),
{
    let child = item.item->0@[i];
    let cc = child_count(child);
    assert forall|p: Seq<char>, m: Seq<char>, o: OpenApi3OperationMethod|
        #[trigger] holds_op(after, p, m, o) implies (exists|q: Seq<int>, l: PostmanCollectionItem|
            #[trigger] last_within(item, i + 1, q, l, p, m, maps) && op_ok(
                o,
                l.request->0,
                responses_of(l),
                tf(q),
                maps,
            )) || (holds_op(start, p, m, o) && none_within(item, i + 1, p, m, maps)) by {
        if exists|q1: Seq<int>, l: PostmanCollectionItem|
            #[trigger] last_within(child, cc, q1, l, p, m, maps) && op_ok(o, l.request->0, responses_of(l), ctf(q1), maps) {
            let (q1, l) = choose|q1: Seq<int>, l: PostmanCollectionItem|
                #[trigger] last_within(child, cc, q1, l, p, m, maps) && op_ok(o, l.request->0, responses_of(l), ctf(q1), maps);
            let q = seq![i] + q1;
            lemma_leaf_in_child(item, i, q1, l);
            assert(q.drop_first() =~= q1);
            assert(tf(q) == ctf(q1));
            assert forall|q2: Seq<int>, l2: PostmanCollectionItem|
                #[trigger] leaf_at(item, q2, l2) && within(q2, i + 1) && leaf_key_is(l2, maps, p, m) implies !preorder_lt(q, q2) by {
                if within(q2, i) {
                    lemma_preorder_later_child(q, q2, i);
                } else {
                    lemma_split_leaf(item, i, q2, l2);
                    assert(leaf_at(child, q2.drop_first(), l2));
                    if preorder_lt(q, q2) {
                        lemma_preorder_cons(i, q1, q2.drop_first());
                    }
                }
            }
            assert(last_within(item, i + 1, q, l, p, m, maps));
        } else {
            assert(holds_op(before, p, m, o) && none_within(child, cc, p, m, maps));
            assert forall|q2: Seq<int>, l2: PostmanCollectionItem|
                #[trigger] leaf_at(item, q2, l2) && within(q2, i + 1) && !within(q2, i) implies !leaf_key_is(l2, maps, p, m) by {
                lemma_split_leaf(item, i, q2, l2);
                assert(leaf_at(child, q2.drop_first(), l2));
            }
            if exists|q: Seq<int>, l: PostmanCollectionItem|
                #[trigger] last_within(item, i, q, l, p, m, maps) && op_ok(o, l.request->0, responses_of(l), tf(q), maps) {
                let (q, l) = choose|q: Seq<int>, l: PostmanCollectionItem|
                    #[trigger] last_within(item, i, q, l, p, m, maps) && op_ok(o, l.request->0, responses_of(l), tf(q), maps);
                assert forall|q2: Seq<int>, l2: PostmanCollectionItem|
                    #[trigger] leaf_at(item, q2, l2) && within(q2, i + 1) && leaf_key_is(l2, maps, p, m) implies !preorder_lt(q, q2) by {
                    if !within(q2, i) {
                        assert(!leaf_key_is(l2, maps, p, m));
                    }
                }
                assert(last_within(item, i + 1, q, l, p, m, maps));
            } else {
                assert(holds_op(start, p, m, o) && none_within(item, i, p, m, maps));
                assert forall|q2: Seq<int>, l2: PostmanCollectionItem|
                    #[trigger] leaf_at(item, q2, l2) && within(q2, i + 1) implies !leaf_key_is(l2, maps, p, m) by {
                    if within(q2, i) {
                    } else {
                        assert(!leaf_key_is(l2, maps, p, m));
                    }
                }
            }
        }
    }
    assert forall|p: Seq<char>, m: Seq<char>, o: OpenApi3OperationMethod|
        #[trigger] holds_op(start, p, m, o) && none_within(item, i + 1, p, m, maps) implies holds_op(after, p, m, o) by {
        assert(none_within(item, i, p, m, maps));
        assert forall|q1: Seq<int>, l1: PostmanCollectionItem|
            #[trigger] leaf_at(child, q1, l1) && within(q1, cc) implies !leaf_key_is(l1, maps, p, m) by {
            lemma_leaf_in_child(item, i, q1, l1);
            assert(leaf_at(item, seq![i] + q1, l1));
        }
        assert(holds_op(before, p, m, o));
    }
}

proof fn lemma_holds_op_unique(
    paths: StrMap<OpenApi3Operations>,
    p: Seq<char>,
    m: Seq<char>,
    o1: OpenApi3OperationMethod,
    o2: OpenApi3OperationMethod,
)
    requires
        paths_wf(paths),
        holds_op(paths, p, m, o1),
        holds_op(paths, p, m, o2),
    ensures
        o1 == o2,
{
    let (a1, b1) = choose|a: int, b: int|
        0 <= a < paths.entries@.len() && (#[trigger] paths.entries@[a]).0@ == p && 0 <= b
            < paths.entries@[a].1.entries@.len() && (#[trigger] paths.entries@[a].1.entries@[b]).0@
            == m && paths.entries@[a].1.entries@[b].1 == o1;
    let (a2, b2) = choose|a: int, b: int|
        0 <= a < paths.entries@.len() && (#[trigger] paths.entries@[a]).0@ == p && 0 <= b
            < paths.entries@[a].1.entries@.len() && (#[trigger] paths.entries@[a].1.entries@[b]).0@
            == m && paths.entries@[a].1.entries@[b].1 == o2;
    lemma_keys_differ(paths, a1, a2);
    let inner = paths.entries@[a1].1;
    if b1 != b2 {
        assert(inner.wf());
        lemma_sorted_distinct(keys_of(inner.entries@), b1, b2);
        assert(keys_of(inner.entries@)[b1] == inner.entries@[b1].0@);
        assert(keys_of(inner.entries@)[b2] == inner.entries@[b2].0@);
    }
}

/// Merges into `paths` an operation for each request leaf of the tree
/// `pmanitem`, all under the grouping tag `tag`: leaves in depth-first
/// order, each inserting or overwriting the operation at its path key and
/// lowercase method, so that the last leaf with a key wins.
pub fn pmanitem_to_oa3ops(
    paths: &mut StrMap<OpenApi3Operations>,
    pmanitem: &PostmanCollectionItem,
    tag: &Option<String>,
    convert_option: &OpenApi3ConvertOption,
)
    requires
        paths_wf(*old(paths)),
    ensures
        paths_wf(*final(paths)),
        forall|p: Seq<char>, m: Seq<char>|
            has_op(*old(paths), p, m) ==> #[trigger] has_op(*final(paths), p, m),
        tree_reached(*final(paths), *pmanitem, convert_option.mapping@),
        written_by(
            *final(paths),
            *old(paths),
            *pmanitem,
            child_count(*pmanitem),
            |q: Seq<int>| opt_view(*tag),
            convert_option.mapping@,
        ),
        kept(*final(paths), *old(paths), *pmanitem, child_count(*pmanitem), convert_option.mapping@),
        pmanitem.request is Some && pmanitem.item is None ==> exists|o: OpenApi3OperationMethod|
            #[trigger] holds_op(
                *final(paths),
                path_key(pmanitem.request->0, convert_option.mapping@),
                ascii_lower_of(pmanitem.request->0.method@),
                o,
            ) && op_ok(
                o,
                pmanitem.request->0,
                responses_of(*pmanitem),
                opt_view(*tag),
                convert_option.mapping@,
            ),
        pmanitem.request is None && child_count(*pmanitem) == 0 ==> *final(paths) == *old(paths),
    decreases *pmanitem,
{
    let ghost maps = convert_option.mapping@;
    let ghost start = *paths;
    let ghost tf = |q: Seq<int>| opt_view(*tag);
    let ghost empty_path = Seq::<int>::empty();
    proof {
        assert(node_at(*pmanitem, empty_path) == Some(*pmanitem));
        assert forall|q2: Seq<int>, l2: PostmanCollectionItem|
            #[trigger] leaf_at(*pmanitem, q2, l2) && within(q2, 0) implies q2 == empty_path && l2
                == *pmanitem by {
            assert(q2 =~= empty_path);
        }
    }
    if let Some(pmanrequest) = &pmanitem.request {
        let response_empty_vec: Vec<PostmanCollectionResponse> = Vec::new();
        let pman_responses = match &pmanitem.response {
            Some(v) => v,
            None => &response_empty_vec,
        };
        let (path, method, op) = request_operation(pmanrequest, pman_responses, tag, convert_option);
        let ghost gp = path@;
        let ghost gm = method@;
        let ghost gop = op;
        merge_operation(paths, path, method, op);
        proof {
            assert(responses_of(*pmanitem) == pman_responses@);
            assert(leaf_at(*pmanitem, empty_path, *pmanitem));
            assert(leaf_key_is(*pmanitem, maps, gp, gm));
            assert forall|p: Seq<char>, m: Seq<char>, o: OpenApi3OperationMethod|
                #[trigger] holds_op(*paths, p, m, o) implies (exists|q: Seq<int>, l: PostmanCollectionItem|
                    #[trigger] last_within(*pmanitem, 0, q, l, p, m, maps) && op_ok(
                        o,
                        l.request->0,
                        responses_of(l),
                        tf(q),
                        maps,
                    )) || (holds_op(start, p, m, o) && none_within(*pmanitem, 0, p, m, maps)) by {
                if p == gp && m == gm {
                    lemma_holds_op_unique(*paths, p, m, o, gop);
                    assert(last_within(*pmanitem, 0, empty_path, *pmanitem, p, m, maps));
                    assert(tf(empty_path) == opt_view(*tag));
                } else {
                    let (a, b) = choose|a: int, b: int|
                        0 <= a < paths.entries@.len() && (#[trigger] paths.entries@[a]).0@ == p && 0 <= b
                            < paths.entries@[a].1.entries@.len() && (#[trigger] paths.entries@[a].1.entries@[b]).0@
                            == m && paths.entries@[a].1.entries@[b].1 == o;
                    assert(holds_op(start, p, m, o));
                }
            }
            assert forall|p: Seq<char>, m: Seq<char>, o: OpenApi3OperationMethod|
                #[trigger] holds_op(start, p, m, o) && none_within(*pmanitem, 0, p, m, maps) implies holds_op(
                    *paths,
                    p,
                    m,
                    o,
                ) by {
                assert(!leaf_key_is(*pmanitem, maps, p, m));
            }
        }
    }
    let ghost after_own = *paths;
    proof {
        if pmanitem.request is None {
            assert(after_own == start);
        }
    }
    if let Some(inneritem) = &pmanitem.item {
        let mut i: usize = 0;
        while i < inneritem.len()
            invariant
                pmanitem.item == Some(*inneritem),
                maps == convert_option.mapping@,
                tf == (|q: Seq<int>| opt_view(*tag)),
                i <= inneritem@.len(),
                paths_wf(*paths),
                forall|p: Seq<char>, m: Seq<char>|
                    has_op(start, p, m) ==> #[trigger] has_op(*paths, p, m),
                pmanitem.request is Some ==> has_op(
                    *paths,
                    path_key(pmanitem.request->0, maps),
                    ascii_lower_of(pmanitem.request->0.method@),
                ),
                forall|j: int| 0 <= j < i ==> tree_reached(*paths, #[trigger] inneritem@[j], maps),
                written_by(*paths, start, *pmanitem, i as int, tf, maps),
                kept(*paths, start, *pmanitem, i as int, maps),
                i == 0 ==> *paths == after_own,
            decreases inneritem@.len() - i,
        {
            let ghost before = *paths;
            proof {
                broadcast use vstd::std_specs::vec::axiom_vec_index_decreases;
                assert(decreases_to!(*pmanitem => pmanitem.item));
                assert(decreases_to!(pmanitem.item => pmanitem.item->0));
                assert(decreases_to!(*inneritem => inneritem[i as int]));
            }
            pmanitem_to_oa3ops(paths, &inneritem[i], tag, convert_option);
            assert forall|j: int| 0 <= j < i + 1 implies tree_reached(*paths, #[trigger] inneritem@[j], maps) by {
                if j < i {
                    assert(tree_reached(before, inneritem@[j], maps));
                }
            }
            proof {
                assert forall|q: Seq<int>| q.len() > 0 && q[0] == i implies #[trigger] tf(q) == tf(
                    q.drop_first(),
                ) by {}
                lemma_child_step(*pmanitem, i as int, before, *paths, start, tf, tf, maps);
            }
            i = i + 1;
        }
    }
    proof {
        assert forall|leaf: PostmanCollectionItem| #[trigger] in_tree(*pmanitem, leaf) implies has_op(
            *paths,
            path_key(leaf.request->0, maps),
            ascii_lower_of(leaf.request->0.method@),
        ) by {
            let path = choose|path: Seq<int>| #[trigger] node_at(*pmanitem, path) == Some(leaf);
            if path.len() > 0 {
                let inner = pmanitem.item->0;
                let j = path[0];
                assert(node_at(inner@[j], path.drop_first()) == Some(leaf));
                assert(in_tree(inner@[j], leaf));
                assert(tree_reached(*paths, inner@[j], maps));
            }
        }
        if pmanitem.request is Some && pmanitem.item is None {
            let req = pmanitem.request->0;
            let k = path_key(req, maps);
            let m = ascii_lower_of(req.method@);
            assert(in_tree(*pmanitem, *pmanitem));
            assert(has_op(*paths, k, m));
            let a = choose|a: int|
                0 <= a < paths.entries@.len() && (#[trigger] paths.entries@[a]).0@ == k
                    && paths.entries@[a].1.has_key(m);
            let b = choose|b: int|
                0 <= b < paths.entries@[a].1.entries@.len() && paths.entries@[a].1.entries@[b].0@ == m;
            let o = paths.entries@[a].1.entries@[b].1;
            assert(holds_op(*paths, k, m, o));
            assert(leaf_at(*pmanitem, empty_path, *pmanitem));
            if exists|q: Seq<int>, l: PostmanCollectionItem|
                #[trigger] last_within(*pmanitem, 0, q, l, k, m, maps) && op_ok(o, l.request->0, responses_of(l), tf(q), maps) {
                let (q, l) = choose|q: Seq<int>, l: PostmanCollectionItem|
                    #[trigger] last_within(*pmanitem, 0, q, l, k, m, maps) && op_ok(o, l.request->0, responses_of(l), tf(q), maps);
                assert(q == empty_path && l == *pmanitem);
            } else {
                assert(!none_within(*pmanitem, 0, k, m, maps));
            }
        }
    }
}

/// The single security scheme of every produced document: `bearer`, an API
/// key sent in the `Authorization` header.
pub open spec fn bearer_scheme_ok(c: Option<OpenApi3Components>) -> bool {
    &&& c is Some
    &&& c->0.security_schemes is Some
    &&& {
        let m = c->0.security_schemes->0;
        &&& m.wf()
        &&& m.entries@.len() == 1
        &&& m.entries@[0].0@ == "bearer"@
        &&& m.entries@[0].1._in@ == "header"@
        &&& m.entries@[0].1.name@ == "Authorization"@
        &&& m.entries@[0].1._type@ == "apiKey"@
    }
}

/// Every request leaf of every top-level item of `pman` has an operation in
/// `spec`, at its path key and its lowercase method.
pub open spec fn reverse_reached(pman: PostmanCollection2c1, opt: OpenApi3ConvertOption, spec: OpenApi3) -> bool {
    forall|k: int| 0 <= k < pman.item@.len() ==> tree_reached(spec.paths, #[trigger] pman.item@[k], opt.mapping@)
}

/// The whole collection seen as one tree: its top-level items are the
/// children of a root that holds no request.
pub open spec fn doc_root(pman: PostmanCollection2c1) -> PostmanCollectionItem {
    PostmanCollectionItem { name: pman.info.name, item: Some(pman.item), request: None, response: None }
}

/// Each operation of `paths` is the one made from the last request leaf of
/// the collection, in depth-first order, that has its key, tagged with the
/// name of the top-level item that holds that leaf.
pub open spec fn doc_written(
    paths: StrMap<OpenApi3Operations>,
    pman: PostmanCollection2c1,
    maps: Seq<OpenApi3ConvertMap>,
) -> bool {
    forall|p: Seq<char>, m: Seq<char>, o: OpenApi3OperationMethod|
        #[trigger] holds_op(paths, p, m, o) ==> exists|q: Seq<int>, l: PostmanCollectionItem|
            #[trigger] last_within(doc_root(pman), pman.item@.len() as int, q, l, p, m, maps) && q.len() > 0
                && op_ok(o, l.request->0, responses_of(l), Some(pman.item@[q[0]].name@), maps)
}

/// Converts a collection into a spec document: an operation for each request
/// leaf, at its path key and lowercase method, tagged with the name of the
/// top-level item that holds it; where leaves share a key, the last wins.
pub fn to_openapi3(pman: PostmanCollection2c1, convert_option: OpenApi3ConvertOption) -> (r: OpenApi3)
    ensures
        r.info.title@ == pman.info.name@,
        r.info.description@.len() == 0,
        r.info.version@ == "0.1.0"@,
        r.openapi@ == "3.0.0"@,
        paths_wf(r.paths),
        reverse_reached(pman, convert_option, r),
        doc_written(r.paths, pman, convert_option.mapping@),
        bearer_scheme_ok(r.components),
        r.servers == convert_option.servers,
{
    let ghost maps = convert_option.mapping@;
    let ghost root = doc_root(pman);
    let ghost tf = |q: Seq<int>| Some(pman.item@[q[0]].name@);
    let mut paths: StrMap<OpenApi3Operations> = StrMap::new();
    let ghost empty = paths;
    let mut i: usize = 0;
    while i < pman.item.len()
        invariant
            i <= pman.item@.len(),
            maps == convert_option.mapping@,
            root == doc_root(pman),
            tf == (|q: Seq<int>| Some(pman.item@[q[0]].name@)),
            empty.entries@.len() == 0,
            paths_wf(paths),
            forall|k: int| 0 <= k < i ==> tree_reached(paths, #[trigger] pman.item@[k], maps),
            written_by(paths, empty, root, i as int, tf, maps),
            kept(paths, empty, root, i as int, maps),
        decreases pman.item@.len() - i,
    {
        let ghost before = paths;
        let pmanitem = &pman.item[i];
        let tag = Some(pmanitem.name.clone());
        pmanitem_to_oa3ops(&mut paths, pmanitem, &tag, &convert_option);
        proof {
            assert(root.item->0@[i as int] == pman.item@[i as int]);
            assert forall|q: Seq<int>| q.len() > 0 && q[0] == i implies #[trigger] tf(q) == opt_view(tag) by {}
            lemma_child_step(root, i as int, before, paths, empty, tf, |q: Seq<int>| opt_view(tag), maps);
            assert forall|k: int| 0 <= k < i + 1 implies tree_reached(paths, #[trigger] pman.item@[k], maps) by {
                if k < i {
                    assert(tree_reached(before, pman.item@[k], maps));
                }
            }
        }
        i = i + 1;
    }
    proof {
        assert forall|p: Seq<char>, m: Seq<char>, o: OpenApi3OperationMethod|
            #[trigger] holds_op(paths, p, m, o) implies exists|q: Seq<int>, l: PostmanCollectionItem|
                #[trigger] last_within(root, pman.item@.len() as int, q, l, p, m, maps) && q.len() > 0
                    && op_ok(o, l.request->0, responses_of(l), Some(pman.item@[q[0]].name@), maps) by {
            assert(!holds_op(empty, p, m, o));
            let (q, l) = choose|q: Seq<int>, l: PostmanCollectionItem|
                #[trigger] last_within(root, pman.item@.len() as int, q, l, p, m, maps) && op_ok(
                    o,
                    l.request->0,
                    responses_of(l),
                    tf(q),
                    maps,
                );
            if q.len() == 0 {
                assert(node_at(root, q) == Some(root));
            }
        }
    }
    let mut security_schemes: StrMap<OpenApi3ComponentsSecuritySchemesItem> = StrMap::new();
    security_schemes.insert(
        String::from_str("bearer"),
        OpenApi3ComponentsSecuritySchemesItem {
            _in: String::from_str("header"),
            name: String::from_str("Authorization"),
            _type: String::from_str("apiKey"),
        },
    );
    proof {
        reveal_strlit("");
    }
    OpenApi3 {
        info: OpenApi3Info {
            description: String::from_str(""),
            title: pman.info.name,
            version: String::from_str("0.1.0"),
        },
        openapi: String::from_str("3.0.0"),
        paths: paths,
        components: Some(OpenApi3Components { security_schemes: Some(security_schemes) }),
        servers: convert_option.servers,
    }
}

} // verus!
