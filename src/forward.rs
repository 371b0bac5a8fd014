use vstd::prelude::*;
use crate::model::{
    example_text, ExampleValue, OpenApi3, OpenApi3OperationMethod,
    OpenApi3OperationMethodRequestBodyContent, OpenApi3Operations, OpenApi3Parameter,
    OpenApi3Schema,
};
use crate::postman_model::{
    PostmanCollection2c1, PostmanCollectionBody, PostmanCollectionBodyOptions,
    PostmanCollectionBodyOptionsRaw, PostmanCollectionHeader, PostmanCollectionInfo,
    PostmanCollectionItem, PostmanCollectionRequest, PostmanCollectionUrl,
    PostmanCollectionUrlQuery, PostmanCollectionVariable, PostmanConvertOption,
    PostmanConvertOptionMapHeader,
};
use crate::strmap::{keys_of, lemma_sorted_distinct, sorted_keys, StrMap};
use crate::text::{
    collection_segment_of, compare_str, concat_str, join_on_slash, join_slash, lower_of,
    lowercase, split_on_slash, split_slash, to_collection_segment, trim_leading_slashes,
    trim_slashes, views,
};

verus! {

/// The parameters of `ps` whose location is `loc`, in order.
pub open spec fn params_at(ps: Seq<OpenApi3Parameter>, loc: Seq<char>) -> Seq<OpenApi3Parameter>
    decreases ps.len(),
{
    if ps.len() == 0 {
        ps
    } else if ps.last()._in@ == loc {
        params_at(ps.drop_last(), loc).push(ps.last())
    } else {
        params_at(ps.drop_last(), loc)
    }
}

/// `i` is the first position of `keys` that holds `k`.
pub open spec fn is_first_match(keys: Seq<Seq<char>>, k: Seq<char>, i: int) -> bool {
    &&& 0 <= i < keys.len()
    &&& keys[i] == k
    &&& forall|j: int| 0 <= j < i ==> keys[j] != k
}

/// The keys of the overrides, lowercased.
pub open spec fn lowered_keys(maps: Seq<PostmanConvertOptionMapHeader>) -> Seq<Seq<char>> {
    maps.map_values(|h: PostmanConvertOptionMapHeader| lower_of(h.key@))
}

/// The value of the first override whose key, lowercased, is `lname`.
pub open spec fn header_override(maps: Seq<PostmanConvertOptionMapHeader>, lname: Seq<char>) -> Option<Seq<char>> {
    if exists|i: int| is_first_match(lowered_keys(maps), lname, i) {
        Some(maps[choose|i: int| is_first_match(lowered_keys(maps), lname, i)].value@)
    } else {
        None
    }
}

/// The value sent for a header parameter: its override, matched without
/// regard to case, or else its example text.
pub open spec fn header_text(maps: Seq<PostmanConvertOptionMapHeader>, p: OpenApi3Parameter) -> Seq<char> {
    match header_override(maps, lower_of(p.name@)) {
        Some(v) => v,
        None => example_text(p.schema.example()),
    }
}

pub open spec fn query_ok(q: PostmanCollectionUrlQuery, p: OpenApi3Parameter) -> bool {
    &&& q.key@ == p.name@
    &&& match q.value {
        ExampleValue::Text(s) => s@ == example_text(p.schema.example()),
        ExampleValue::Json(_) => false,
    }
}

pub open spec fn header_ok(
    h: PostmanCollectionHeader,
    p: OpenApi3Parameter,
    maps: Seq<PostmanConvertOptionMapHeader>,
) -> bool {
    &&& h.key@ == p.name@
    &&& h._type is Some
    &&& h._type->0@ == "text"@
    &&& h.value@ == header_text(maps, p)
}

pub open spec fn variable_ok(v: PostmanCollectionVariable, p: OpenApi3Parameter) -> bool {
    v.key@ == p.name@ && v.value@ == example_text(p.schema.example())
}

/// The request path segments of a full spec path: leading slashes dropped,
/// cut at `/`, each segment translated.
pub open spec fn collection_path_of(path: Seq<char>) -> Seq<Seq<char>> {
    split_slash(trim_slashes(path)).map_values(|s: Seq<char>| collection_segment_of(s))
}

/// The text of a request body's example.
pub open spec fn body_text(op: OpenApi3OperationMethod) -> Seq<char>
    recommends
        op.request_body is Some,
{
    match op.request_body->0.content {
        OpenApi3OperationMethodRequestBodyContent::ApplicationJson(a) => example_text(a.example),
    }
}

/// The request leaf made for the operation `op` of method `method` at the
/// full path `path`.
pub open spec fn leaf_ok(
    item: PostmanCollectionItem,
    path: Seq<char>,
    method: Seq<char>,
    op: OpenApi3OperationMethod,
    opt: PostmanConvertOption,
) -> bool {
    let qs = params_at(op.parameters@, "query"@);
    let hs = params_at(op.parameters@, "header"@);
    let vs = params_at(op.parameters@, "path"@);
    let segs = collection_path_of(path);
    &&& item.name@ == path
    &&& item.item is None
    &&& item.response is None
    &&& item.request is Some
    &&& {
        let req = item.request->0;
        &&& req.auth is None
        &&& req.description is None
        &&& req.method@ == method
        &&& views(req.url.path@) == segs
        &&& req.url.raw@ == opt.host@ + seq!['/'] + join_slash(segs)
        &&& views(req.url.host@) == seq![opt.host@]
        &&& (qs.len() == 0 <==> req.url.query is None)
        &&& (req.url.query is Some ==> {
            let q = req.url.query->0@;
            q.len() == qs.len() && forall|k: int| 0 <= k < q.len() ==> query_ok(#[trigger] q[k], qs[k])
        })
        &&& req.header@.len() == hs.len()
        &&& forall|k: int|
            0 <= k < hs.len() ==> header_ok(#[trigger] req.header@[k], hs[k], opt.map_header@)
        &&& (vs.len() == 0 <==> req.url.variable is None)
        &&& (req.url.variable is Some ==> {
            let v = req.url.variable->0@;
            v.len() == vs.len() && forall|k: int| 0 <= k < v.len() ==> variable_ok(#[trigger] v[k], vs[k])
        })
        &&& (op.request_body is None <==> req.body is None)
        &&& (req.body is Some ==> {
            let b = req.body->0;
            &&& b.mode@ == "raw"@
            &&& b.raw@ == body_text(op)
            &&& b.options is Some
            &&& b.options->0.raw.language@ == "json"@
        })
    }
}

fn copy_example(e: &Option<ExampleValue>) -> (r: Option<ExampleValue>)
    ensures
        r == *e,
{
    match e {
        Some(v) => Some(v.duplicate()),
        None => None,
    }
}

/// The text of an optional example: a string as it is, another value as its
/// JSON text, nothing as the empty string.
pub fn get_value_to_string(example_value: Option<ExampleValue>) -> (r: String)
    ensures
        r@ == example_text(example_value),
{
    match example_value {
        Some(v) => match v {
            ExampleValue::Text(s) => s,
            ExampleValue::Json(j) => j,
        },
        None => String::new(),
    }
}

/// The text of a schema's example, whatever the schema's shape.
pub fn get_schema_to_string(schema: &OpenApi3Schema) -> (r: String)
    ensures
        r@ == example_text(schema.example()),
{
    let example_value = match schema {
        OpenApi3Schema::ArrayType(s) => copy_example(&s.example),
        OpenApi3Schema::ObjectType(s) => copy_example(&s.example),
        OpenApi3Schema::StringType(s) => copy_example(&s.example),
        OpenApi3Schema::IntegerType(s) => copy_example(&s.example),
        OpenApi3Schema::BooleanType(s) => copy_example(&s.example),
    };
    get_value_to_string(example_value)
}

/// Whether `s` is the word `w`.
fn is_word(s: &String, w: &str) -> (r: bool)
    ensures
        r == (s@ == w@),
{
    compare_str(s.as_str(), w) == 0
}

/// The first position of `keys` that holds `lc_name`, if any.
pub fn first_key_index(lc_name: &String, keys: &Vec<String>) -> (r: Option<usize>)
    ensures
        match r {
            Some(i) => is_first_match(views(keys@), lc_name@, i as int),
            None => forall|j: int| 0 <= j < keys@.len() ==> keys@[j]@ != lc_name@,
        },
{
    let mut i: usize = 0;
    while i < keys.len()
        invariant
            i <= keys@.len(),
            forall|j: int| 0 <= j < i ==> keys@[j]@ != lc_name@,
        decreases keys@.len() - i,
    {
        if compare_str(keys[i].as_str(), lc_name.as_str()) == 0 {
            return Some(i);
        }
        i = i + 1;
    }
    None
}

/// The value sent for a header parameter named `name` with example text
/// `example`.
pub fn header_value(name: &String, example: String, maps: &Vec<PostmanConvertOptionMapHeader>) -> (r: String)
    ensures
        r@ == match header_override(maps@, lower_of(name@)) {
            Some(v) => v,
            None => example@,
        },
{
    let lc_name = lowercase(name.as_str());
    let mut keys: Vec<String> = Vec::new();
    let mut i: usize = 0;
    while i < maps.len()
        invariant
            i <= maps@.len(),
            views(keys@) == lowered_keys(maps@).take(i as int),
        decreases maps@.len() - i,
    {
        let lk = lowercase(maps[i].key.as_str());
        let ghost prev = views(keys@);
        keys.push(lk);
        assert(views(keys@) =~= prev.push(lower_of(maps@[i as int].key@)));
        assert(lowered_keys(maps@)[i as int] == lower_of(maps@[i as int].key@));
        assert(views(keys@) =~= lowered_keys(maps@).take(i + 1));
        i = i + 1;
    }
    assert(views(keys@) =~= lowered_keys(maps@));
    match first_key_index(&lc_name, &keys) {
        Some(k) => {
            proof {
                let lk = lowered_keys(maps@);
                assert(is_first_match(lk, lc_name@, k as int));
                let c = choose|c: int| is_first_match(lk, lc_name@, c);
                if c < k {
                    assert(views(keys@)[c] == lk[c]);
                } else if c > k {
                    assert(lk[k as int] == lc_name@);
                }
            }
            maps[k].value.clone()
        },
        None => {
            proof {
                let lk = lowered_keys(maps@);
                assert forall|c: int| !is_first_match(lk, lc_name@, c) by {
                    if 0 <= c < lk.len() {
                        assert(views(keys@)[c] == lk[c]);
                    }
                }
            }
            example
        },
    }
}

proof fn lemma_params_at_step(ps: Seq<OpenApi3Parameter>, i: int, loc: Seq<char>)
    requires
        0 <= i < ps.len(),
    ensures
        params_at(ps.take(i + 1), loc) == if ps[i]._in@ == loc {
            params_at(ps.take(i), loc).push(ps[i])
        } else {
            params_at(ps.take(i), loc)
        },
{
    assert(ps.take(i + 1).drop_last() =~= ps.take(i));
}

/// The path segments of `path` in the collection format.
pub fn collection_path(path: &str) -> (r: Vec<String>)
    ensures
        views(r@) == collection_path_of(path@),
{
    let trimmed = trim_leading_slashes(path);
    let segs = split_on_slash(trimmed.as_str());
    let mut out: Vec<String> = Vec::new();
    let mut i: usize = 0;
    while i < segs.len()
        invariant
            i <= segs@.len(),
            views(segs@) == split_slash(trim_slashes(path@)),
            views(out@) == views(segs@.take(i as int)).map_values(
                |s: Seq<char>| collection_segment_of(s),
            ),
        decreases segs@.len() - i,
    {
        let ghost prev = views(out@);
        let seg = to_collection_segment(segs[i].as_str());
        out.push(seg);
        assert(views(out@) =~= prev.push(collection_segment_of(segs@[i as int]@)));
        assert(views(segs@.take(i + 1)) =~= views(segs@.take(i as int)).push(segs@[i as int]@));
        assert(views(out@) =~= views(segs@.take(i + 1)).map_values(
            |s: Seq<char>| collection_segment_of(s),
        ));
        i = i + 1;
    }
    assert(segs@.take(segs@.len() as int) =~= segs@);
    assert(views(out@) =~= collection_path_of(path@));
    out
}

/// The request leaf for the operation `operation` of method `method` at the
/// full path `path`.
pub fn to_postman_request_item(
    path: &String,
    method: &String,
    operation: &OpenApi3OperationMethod,
    opt: &PostmanConvertOption,
) -> (r: PostmanCollectionItem)
    ensures
        leaf_ok(r, path@, method@, *operation, *opt),
{
    let ghost ps = operation.parameters@;
    let mut header_vec: Vec<PostmanCollectionHeader> = Vec::new();
    let mut query_vec: Vec<PostmanCollectionUrlQuery> = Vec::new();
    let mut variable_vec: Vec<PostmanCollectionVariable> = Vec::new();
    let mut i: usize = 0;
    while i < operation.parameters.len()
        invariant
            ps == operation.parameters@,
            i <= ps.len(),
            query_vec@.len() == params_at(ps.take(i as int), "query"@).len(),
            forall|k: int|
                0 <= k < query_vec@.len() ==> query_ok(
                    #[trigger] query_vec@[k],
                    params_at(ps.take(i as int), "query"@)[k],
                ),
            header_vec@.len() == params_at(ps.take(i as int), "header"@).len(),
            forall|k: int|
                0 <= k < header_vec@.len() ==> header_ok(
                    #[trigger] header_vec@[k],
                    params_at(ps.take(i as int), "header"@)[k],
                    opt.map_header@,
                ),
            variable_vec@.len() == params_at(ps.take(i as int), "path"@).len(),
            forall|k: int|
                0 <= k < variable_vec@.len() ==> variable_ok(
                    #[trigger] variable_vec@[k],
                    params_at(ps.take(i as int), "path"@)[k],
                ),
        decreases ps.len() - i,
    {
        let parameter = &operation.parameters[i];
        proof {
            lemma_params_at_step(ps, i as int, "query"@);
            lemma_params_at_step(ps, i as int, "header"@);
            lemma_params_at_step(ps, i as int, "path"@);
        }
        proof {
            reveal_strlit("query");
            reveal_strlit("header");
            reveal_strlit("path");
            assert("query"@ != "header"@ && "query"@ != "path"@ && "header"@ != "path"@) by {
                assert("query"@.len() == 5 && "header"@.len() == 6 && "path"@.len() == 4);
            }
        }
        let example_value = get_schema_to_string(&parameter.schema);
        if is_word(&parameter._in, "query") {
            query_vec.push(
                PostmanCollectionUrlQuery {
                    key: parameter.name.clone(),
                    value: ExampleValue::Text(example_value),
                },
            );
        } else if is_word(&parameter._in, "header") {
            let v = header_value(&parameter.name, example_value, &opt.map_header);
            header_vec.push(
                PostmanCollectionHeader {
                    key: parameter.name.clone(),
                    _type: Some(String::from_str("text")),
                    value: v,
                },
            );
        } else if is_word(&parameter._in, "path") {
            variable_vec.push(
                PostmanCollectionVariable { key: parameter.name.clone(), value: example_value },
            );
        }
        i = i + 1;
    }
    assert(ps.take(ps.len() as int) =~= ps);
    let query = if query_vec.len() > 0 {
        Some(query_vec)
    } else {
        None
    };
    let variable = if variable_vec.len() > 0 {
        Some(variable_vec)
    } else {
        None
    };
    let body: Option<PostmanCollectionBody> = match &operation.request_body {
        Some(rb) => {
            let raw = match &rb.content {
                OpenApi3OperationMethodRequestBodyContent::ApplicationJson(a) => {
                    get_value_to_string(copy_example(&a.example))
                },
            };
            Some(
                PostmanCollectionBody {
                    mode: String::from_str("raw"),
                    raw: raw,
                    options: Some(
                        PostmanCollectionBodyOptions {
                            raw: PostmanCollectionBodyOptionsRaw {
                                language: String::from_str("json"),
                            },
                        },
                    ),
                },
            )
        },
        None => None,
    };
    let paths = collection_path(path.as_str());
    let joined = join_on_slash(&paths);
    proof {
        reveal_strlit("/");
        assert("/"@ =~= seq!['/']);
    }
    let mut raw = concat_str(opt.host.as_str(), "/");
    raw.append(joined.as_str());
    let mut host: Vec<String> = Vec::new();
    host.push(opt.host.clone());
    assert(views(host@) =~= seq![opt.host@]);
    PostmanCollectionItem {
        name: path.clone(),
        item: None,
        request: Some(
            PostmanCollectionRequest {
                auth: None,
                url: PostmanCollectionUrl {
                    raw: raw,
                    host: host,
                    path: paths,
                    query: query,
                    variable: variable,
                },
                body: body,
                header: header_vec,
                description: None,
                method: method.clone(),
            },
        ),
        response: None,
    }
}

/// One operation of a spec document: its path, its method and itself.
pub type OpRef = (Seq<char>, Seq<char>, OpenApi3OperationMethod);

/// The operations under one path, in method order.
pub open spec fn ops_of_path(p: Seq<char>, ms: Seq<(String, OpenApi3OperationMethod)>) -> Seq<OpRef> {
    ms.map_values(|e: (String, OpenApi3OperationMethod)| (p, e.0@, e.1))
}

/// All operations of the paths `ps`, by path and then by method.
pub open spec fn flat_ops(ps: Seq<(String, OpenApi3Operations)>) -> Seq<OpRef>
    decreases ps.len(),
{
    if ps.len() == 0 {
        Seq::empty()
    } else {
        flat_ops(ps.drop_last()) + ops_of_path(ps.last().0@, ps.last().1.entries@)
    }
}

/// The grouping tag of an operation: its first tag, or `_base`.
pub open spec fn tag_of(op: OpenApi3OperationMethod) -> Seq<char> {
    if op.tags@.len() > 0 {
        op.tags@[0]@
    } else {
        "_base"@
    }
}

/// A tagged request leaf made for the operation `o`.
pub open spec fn pair_ok(x: (String, PostmanCollectionItem), o: OpRef, opt: PostmanConvertOption) -> bool {
    x.0@ == tag_of(o.2) && leaf_ok(x.1, opt.preceding_path@ + o.0, o.1, o.2, opt)
}

/// `xs` made for the operations `os`, one for one.
pub open spec fn pairs_ok(
    xs: Seq<(String, PostmanCollectionItem)>,
    os: Seq<OpRef>,
    opt: PostmanConvertOption,
) -> bool {
    xs.len() == os.len() && forall|k: int| 0 <= k < xs.len() ==> pair_ok(#[trigger] xs[k], os[k], opt)
}

/// The tag of an operation.
pub fn operation_tag(op: &OpenApi3OperationMethod) -> (r: String)
    ensures
        r@ == tag_of(*op),
{
    if op.tags.len() > 0 {
        op.tags[0].clone()
    } else {
        String::from_str("_base")
    }
}

/// The tagged request leaves of all operations of `openapi3`, by path and
/// then by method.
pub fn request_items(openapi3: &OpenApi3, opt: &PostmanConvertOption) -> (r: Vec<(String, PostmanCollectionItem)>)
    ensures
        pairs_ok(r@, flat_ops(openapi3.paths.entries@), *opt),
{
    let ghost ps = openapi3.paths.entries@;
    let mut out: Vec<(String, PostmanCollectionItem)> = Vec::new();
    let mut i: usize = 0;
    while i < openapi3.paths.entries.len()
        invariant
            ps == openapi3.paths.entries@,
            i <= ps.len(),
            pairs_ok(out@, flat_ops(ps.take(i as int)), *opt),
        decreases ps.len() - i,
    {
        let rawpath = &openapi3.paths.entries[i].0;
        let operations = &openapi3.paths.entries[i].1;
        let path = concat_str(opt.preceding_path.as_str(), rawpath.as_str());
        let ghost ms = operations.entries@;
        let ghost base = flat_ops(ps.take(i as int));
        let mut j: usize = 0;
        assert(ops_of_path(rawpath@, ms.take(0)) =~= Seq::<OpRef>::empty());
        assert(base + ops_of_path(rawpath@, ms.take(0)) =~= base);
        while j < operations.entries.len()
            invariant
                ms == operations.entries@,
                ps == openapi3.paths.entries@,
                i < ps.len(),
                rawpath == ps[i as int].0,
                ms == ps[i as int].1.entries@,
                base == flat_ops(ps.take(i as int)),
                j <= ms.len(),
                path@ == opt.preceding_path@ + rawpath@,
                pairs_ok(out@, base + ops_of_path(rawpath@, ms.take(j as int)), *opt),
            decreases ms.len() - j,
        {
            let method = &operations.entries[j].0;
            let operation = &operations.entries[j].1;
            let tag = operation_tag(operation);
            let leaf = to_postman_request_item(&path, method, operation, opt);
            let ghost prev = base + ops_of_path(rawpath@, ms.take(j as int));
            out.push((tag, leaf));
            assert(base + ops_of_path(rawpath@, ms.take(j + 1)) =~= prev.push(
                (rawpath@, method@, *operation),
            ));
            j = j + 1;
        }
        assert(ms.take(ms.len() as int) =~= ms);
        assert(ps.take(i + 1).drop_last() =~= ps.take(i as int));
        assert(flat_ops(ps.take(i + 1)) == base + ops_of_path(rawpath@, ms));
        i = i + 1;
    }
    assert(ps.take(ps.len() as int) =~= ps);
    out
}

/// The leaves among `pairs` tagged `t`, in order.
pub open spec fn with_tag(pairs: Seq<(String, PostmanCollectionItem)>, t: Seq<char>) -> Seq<PostmanCollectionItem>
    decreases pairs.len(),
{
    if pairs.len() == 0 {
        Seq::empty()
    } else if pairs.last().0@ == t {
        with_tag(pairs.drop_last(), t).push(pairs.last().1)
    } else {
        with_tag(pairs.drop_last(), t)
    }
}

/// The folder of tag `t`: named `prepend` followed by the tag, holding the
/// leaves tagged `t` in order.
pub open spec fn folder_ok(
    f: PostmanCollectionItem,
    t: Seq<char>,
    pairs: Seq<(String, PostmanCollectionItem)>,
    prepend: Seq<char>,
) -> bool {
    &&& f.name@ == prepend + t
    &&& f.request is None
    &&& f.response is None
    &&& f.item is Some
    &&& f.item->0@ == with_tag(pairs, t)
}

/// `items` are the folders of the tags `tags`, which are in ascending
/// order, each the tag of some pair, and together all the tags of `pairs`.
pub open spec fn grouped_by(
    items: Seq<PostmanCollectionItem>,
    tags: Seq<Seq<char>>,
    pairs: Seq<(String, PostmanCollectionItem)>,
    prepend: Seq<char>,
) -> bool {
    &&& items.len() == tags.len()
    &&& sorted_keys(tags)
    &&& forall|f: int| 0 <= f < items.len() ==> folder_ok(#[trigger] items[f], tags[f], pairs, prepend)
    &&& forall|f: int| 0 <= f < tags.len() ==> with_tag(pairs, #[trigger] tags[f]).len() > 0
    &&& forall|k: int| 0 <= k < pairs.len() ==> tags.contains(#[trigger] pairs[k].0@)
}

proof fn lemma_with_tag_step(pairs: Seq<(String, PostmanCollectionItem)>, n: int, u: Seq<char>)
    requires
        0 <= n < pairs.len(),
    ensures
        with_tag(pairs.take(n + 1), u) == if pairs[n].0@ == u {
            with_tag(pairs.take(n), u).push(pairs[n].1)
        } else {
            with_tag(pairs.take(n), u)
        },
{
    assert(pairs.take(n + 1).drop_last() =~= pairs.take(n));
}

proof fn lemma_with_tag_absent(pairs: Seq<(String, PostmanCollectionItem)>, t: Seq<char>)
    requires
        forall|k: int| 0 <= k < pairs.len() ==> pairs[k].0@ != t,
    ensures
        with_tag(pairs, t).len() == 0,
    decreases pairs.len(),
{
    if pairs.len() > 0 {
        lemma_with_tag_absent(pairs.drop_last(), t);
    }
}

/// Folders of request leaves, one for each tag, in tag order.
pub fn group_by_tag(pairs: Vec<(String, PostmanCollectionItem)>, prepend_tag: &String) -> (r: Vec<PostmanCollectionItem>)
    ensures
        exists|tags: Seq<Seq<char>>| grouped_by(r@, tags, pairs@, prepend_tag@),
{
    let ghost orig = pairs@;
    let mut rest = pairs;
    let mut map: StrMap<Vec<PostmanCollectionItem>> = StrMap::new();
    assert(orig.skip(0) =~= orig);
    while rest.len() > 0
        invariant
            rest@.len() <= orig.len(),
            rest@ == orig.skip(orig.len() - rest@.len()),
            map.wf(),
            forall|a: int|
                0 <= a < map.entries@.len() ==> (#[trigger] map.entries@[a]).1@ == with_tag(
                    orig.take(orig.len() - rest@.len()),
                    map.entries@[a].0@,
                ) && with_tag(orig.take(orig.len() - rest@.len()), map.entries@[a].0@).len() > 0,
            forall|k: int| 0 <= k < orig.len() - rest@.len() ==> map.has_key(#[trigger] orig[k].0@),
        decreases rest@.len(),
    {
        let ghost n = orig.len() - rest@.len();
        let ghost old_map = map;
        let (tag, leaf) = rest.remove(0);
        assert(rest@ =~= orig.skip(n + 1));
        assert((tag, leaf) == orig[n]);
        proof {
            assert forall|u: Seq<char>| #![auto] with_tag(orig.take(n + 1), u) == if orig[n].0@ == u {
                with_tag(orig.take(n), u).push(orig[n].1)
            } else {
                with_tag(orig.take(n), u)
            } by {
                lemma_with_tag_step(orig, n, u);
            }
        }
        match map.index_of(tag.as_str()) {
            Some(idx) => {
                let mut kids = map.replace_value(idx, Vec::new());
                kids.push(leaf);
                map.replace_value(idx, kids);
                proof {
                    assert(keys_of(map.entries@) =~= keys_of(old_map.entries@));
                    assert forall|a: int| 0 <= a < map.entries@.len() implies (#[trigger] map.entries@[a]).1@
                        == with_tag(orig.take(n + 1), map.entries@[a].0@) && with_tag(
                        orig.take(n + 1),
                        map.entries@[a].0@,
                    ).len() > 0 by {
                        if a != idx {
                            lemma_sorted_distinct(keys_of(old_map.entries@), a, idx as int);
                            assert(keys_of(old_map.entries@)[a] == old_map.entries@[a].0@);
                        }
                    }
                    assert forall|k: int| 0 <= k < n + 1 implies map.has_key(#[trigger] orig[k].0@) by {
                        if k < n {
                            let a = choose|a: int|
                                0 <= a < old_map.entries@.len() && old_map.entries@[a].0@ == orig[k].0@;
                            assert(map.entries@[a].0@ == orig[k].0@);
                        } else {
                            assert(map.entries@[idx as int].0@ == orig[k].0@);
                        }
                    }
                }
            },
            None => {
                let ghost t = tag;
                let ghost l = leaf;
                let mut kids: Vec<PostmanCollectionItem> = Vec::new();
                kids.push(leaf);
                proof {
                    assert forall|k: int| 0 <= k < n implies orig.take(n)[k].0@ != t@ by {
                        if orig.take(n)[k].0@ == t@ {
                            assert(old_map.has_key(orig[k].0@));
                        }
                    }
                    lemma_with_tag_absent(orig.take(n), t@);
                    assert(kids@ =~= with_tag(orig.take(n + 1), t@));
                }
                map.insert(tag, kids);
                proof {
                    let j = choose|j: int|
                        0 <= j <= old_map.entries@.len() && map.entries@ == old_map.entries@.insert(
                            j,
                            (t, kids),
                        );
                    assert forall|a: int| 0 <= a < map.entries@.len() implies (#[trigger] map.entries@[a]).1@
                        == with_tag(orig.take(n + 1), map.entries@[a].0@) && with_tag(
                        orig.take(n + 1),
                        map.entries@[a].0@,
                    ).len() > 0 by {
                        if a < j {
                            assert(map.entries@[a] == old_map.entries@[a]);
                            assert(old_map.entries@[a].0@ != t@);
                        } else if a > j {
                            assert(map.entries@[a] == old_map.entries@[a - 1]);
                            assert(old_map.entries@[a - 1].0@ != t@);
                        }
                    }
                    assert forall|k: int| 0 <= k < n + 1 implies map.has_key(#[trigger] orig[k].0@) by {
                        if k < n {
                            let a = choose|a: int|
                                0 <= a < old_map.entries@.len() && old_map.entries@[a].0@ == orig[k].0@;
                            if a < j {
                                assert(map.entries@[a].0@ == orig[k].0@);
                            } else {
                                assert(map.entries@[a + 1].0@ == orig[k].0@);
                            }
                        } else {
                            assert(map.entries@[j].0@ == orig[k].0@);
                        }
                    }
                }
            },
        }
    }
    assert(orig.take(orig.len() as int) =~= orig);
    let ghost all = map.entries@;
    let mut ents = map.entries;
    let mut out: Vec<PostmanCollectionItem> = Vec::new();
    assert(all.skip(0) =~= all);
    while ents.len() > 0
        invariant
            ents@.len() <= all.len(),
            ents@ == all.skip(all.len() - ents@.len()),
            out@.len() == all.len() - ents@.len(),
            forall|f: int|
                0 <= f < out@.len() ==> folder_ok(#[trigger] out@[f], all[f].0@, orig, prepend_tag@),
            forall|a: int| 0 <= a < all.len() ==> (#[trigger] all[a]).1@ == with_tag(orig, all[a].0@),
        decreases ents@.len(),
    {
        let ghost m = all.len() - ents@.len();
        let (tag, kids) = ents.remove(0);
        assert(ents@ =~= all.skip(m + 1));
        assert((tag, kids) == all[m]);
        let name = concat_str(prepend_tag.as_str(), tag.as_str());
        out.push(PostmanCollectionItem { name: name, item: Some(kids), request: None, response: None });
    }
    proof {
        let tags = keys_of(all);
        assert forall|k: int| 0 <= k < orig.len() implies tags.contains(#[trigger] orig[k].0@) by {
            let a = choose|a: int| 0 <= a < all.len() && all[a].0@ == orig[k].0@;
            assert(tags[a] == orig[k].0@);
        }
        assert forall|f: int| 0 <= f < tags.len() implies with_tag(orig, #[trigger] tags[f]).len() > 0 by {
            assert(all[f].1@ == with_tag(orig, all[f].0@));
        }
        assert(grouped_by(out@, tags, orig, prepend_tag@));
    }
    out
}

/// A leaf lies among the leaves of its own tag.
pub proof fn lemma_with_tag_contains(pairs: Seq<(String, PostmanCollectionItem)>, k: int)
    requires
        0 <= k < pairs.len(),
    ensures
        with_tag(pairs, pairs[k].0@).contains(pairs[k].1),
    decreases pairs.len(),
{
    let t = pairs[k].0@;
    if k == pairs.len() - 1 {
        assert(with_tag(pairs, t).last() == pairs[k].1);
    } else {
        lemma_with_tag_contains(pairs.drop_last(), k);
        let w = with_tag(pairs.drop_last(), t);
        let i = choose|i: int| 0 <= i < w.len() && w[i] == pairs[k].1;
        if pairs.last().0@ == t {
            assert(with_tag(pairs, t)[i] == pairs[k].1);
        }
    }
}

/// Grouping is stable: two leaves with the same tag lie in one folder, named
/// by the prefix followed by the tag, and no other folder has that tag.
pub proof fn lemma_grouping_stable(
    items: Seq<PostmanCollectionItem>,
    tags: Seq<Seq<char>>,
    pairs: Seq<(String, PostmanCollectionItem)>,
    prepend: Seq<char>,
    k1: int,
    k2: int,
)
    requires
        grouped_by(items, tags, pairs, prepend),
        0 <= k1 < pairs.len(),
        0 <= k2 < pairs.len(),
        pairs[k1].0@ == pairs[k2].0@,
    ensures
        exists|f: int|
            0 <= f < items.len() && (#[trigger] items[f]).name@ == prepend + pairs[k1].0@
                && items[f].item->0@.contains(pairs[k1].1) && items[f].item->0@.contains(pairs[k2].1)
                && forall|g: int| 0 <= g < items.len() && g != f ==> tags[g] != pairs[k1].0@,
{
    let t = pairs[k1].0@;
    assert(tags.contains(pairs[k1].0@));
    let f = choose|f: int| 0 <= f < tags.len() && tags[f] == t;
    assert(folder_ok(items[f], tags[f], pairs, prepend));
    lemma_with_tag_contains(pairs, k1);
    lemma_with_tag_contains(pairs, k2);
    assert forall|g: int| 0 <= g < items.len() && g != f implies tags[g] != t by {
        lemma_sorted_distinct(tags, f, g);
    }
}

/// An operation without tags is made a leaf tagged `_base`.
pub proof fn lemma_untagged_base(
    pairs: Seq<(String, PostmanCollectionItem)>,
    os: Seq<OpRef>,
    opt: PostmanConvertOption,
    k: int,
)
    requires
        pairs_ok(pairs, os, opt),
        0 <= k < os.len(),
        os[k].2.tags@.len() == 0,
    ensures
        pairs[k].0@ == "_base"@,
{
    assert(pair_ok(pairs[k], os[k], opt));
}

/// The schema address of the collection format that is produced.
pub const COLLECTION_SCHEMA: &'static str = "https://schema.getpostman.com/json/collection/v2.1.0/collection.json";

/// `coll` is what the conversion of `doc` with `opt` gives: request leaves
/// made for the operations one for one, grouped into folders by tag.
pub open spec fn forward_result(doc: OpenApi3, opt: PostmanConvertOption, coll: PostmanCollection2c1) -> bool {
    exists|pairs: Seq<(String, PostmanCollectionItem)>, tags: Seq<Seq<char>>|
        pairs_ok(pairs, flat_ops(doc.paths.entries@), opt) && grouped_by(
            coll.item@,
            tags,
            pairs,
            opt.prepend_tag@,
        )
}

/// Converts a spec document into a collection: one request leaf per
/// operation, under one folder per grouping tag, folders in tag order.
pub fn to_postman_colletion_2c1(openapi3: OpenApi3, postman_convert_option: PostmanConvertOption) -> (r: PostmanCollection2c1)
    ensures
        r.info.name@ == openapi3.info.title@,
        r.info.description is Some,
        r.info.description->0@ == openapi3.info.description@,
        r.info.schema@ == COLLECTION_SCHEMA@,
        forward_result(openapi3, postman_convert_option, r),
{
    let pairs = request_items(&openapi3, &postman_convert_option);
    let ghost gp = pairs@;
    let item_base = group_by_tag(pairs, &postman_convert_option.prepend_tag);
    let ghost tags = choose|tags: Seq<Seq<char>>|
        grouped_by(item_base@, tags, gp, postman_convert_option.prepend_tag@);
    assert(pairs_ok(gp, flat_ops(openapi3.paths.entries@), postman_convert_option)
        && grouped_by(item_base@, tags, gp, postman_convert_option.prepend_tag@));
    let r = PostmanCollection2c1 {
        info: PostmanCollectionInfo {
            name: openapi3.info.title,
            description: Some(openapi3.info.description),
            schema: String::from_str(COLLECTION_SCHEMA),
        },
        item: item_base,
    };
    assert(pairs_ok(gp, flat_ops(openapi3.paths.entries@), postman_convert_option)
        && grouped_by(r.item@, tags, gp, postman_convert_option.prepend_tag@));
    r
}

} // verus!
