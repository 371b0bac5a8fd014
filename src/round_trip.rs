use vstd::prelude::*;
use crate::forward::{
    collection_path_of, flat_ops, folder_ok, forward_result, grouped_by, lemma_with_tag_contains,
    leaf_ok, pair_ok, pairs_ok, with_tag,
};
use crate::model::{OpenApi3, OpenApi3ConvertOption};
use crate::postman_model::{PostmanCollection2c1, PostmanCollectionItem, PostmanConvertOption};
use crate::model::OpenApi3OperationMethod;
use crate::reverse::{
    apply_mapping, doc_root, doc_written, has_op, holds_op, in_tree, last_within, leaf_at,
    leaf_key_is, node_at, op_ok, responses_of, reverse_reached, spec_path_of, tree_reached,
};
use crate::text::{
    ascii_lower_of, is_collection_var, join_slash, lemma_segment_round_trip, spec_segment_of,
    split_slash, trim_slashes,
};

verus! {

/// The spec path that a spec path comes back as, once it has been made a
/// request path and read back.
pub open spec fn round_path(s: Seq<char>) -> Seq<char> {
    seq!['/'] + join_slash(collection_path_of(s).map_values(|x: Seq<char>| spec_segment_of(x)))
}

proof fn lemma_split_nonempty(t: Seq<char>)
    ensures
        split_slash(t).len() >= 1,
    decreases t.len(),
{
    if t.len() > 0 {
        lemma_split_nonempty(t.drop_last());
    }
}

proof fn lemma_join_split(t: Seq<char>)
    ensures
        join_slash(split_slash(t)) == t,
    decreases t.len(),
{
    if t.len() > 0 {
        let r = split_slash(t.drop_last());
        lemma_join_split(t.drop_last());
        lemma_split_nonempty(t.drop_last());
        let c = t.last();
        if c == '/' {
            let r2 = r.push(Seq::empty());
            assert(t =~= t.drop_last().push(c));
            assert(r2.drop_last() =~= r);
            assert(join_slash(r2) =~= t);
        } else {
            let r2 = r.update(r.len() - 1, r.last().push(c));
            assert(t =~= t.drop_last().push(c));
            if r.len() == 1 {
                assert(join_slash(r) == r[0]);
                assert(r2[0] == r[0].push(c));
                assert(join_slash(r2) =~= t);
            } else {
                assert(r2.drop_last() =~= r.drop_last());
                assert(join_slash(r2) =~= t);
            }
        }
    }
}

/// A spec path that starts with a single `/` and has no segment of the form
/// `:name` comes back unchanged.
pub proof fn lemma_round_path_identity(s: Seq<char>)
    requires
        s.len() >= 1,
        s[0] == '/',
        s.len() == 1 || s[1] != '/',
        forall|i: int|
            0 <= i < split_slash(s.drop_first()).len() ==> !is_collection_var(
                #[trigger] split_slash(s.drop_first())[i],
            ),
    ensures
        round_path(s) == s,
{
    let t = s.drop_first();
    assert(trim_slashes(t) == t);
    assert(s.drop_first() == t);
    let parts = split_slash(t);
    let back = collection_path_of(s).map_values(|x: Seq<char>| spec_segment_of(x));
    assert(trim_slashes(s) == trim_slashes(s.drop_first()));
    assert forall|i: int| 0 <= i < parts.len() implies back[i] == parts[i] by {
        lemma_segment_round_trip(parts[i]);
    }
    assert(back =~= parts);
    lemma_join_split(t);
    assert(round_path(s) =~= s);
}

/// A method with no ASCII capital letter is its own lowercase.
pub proof fn lemma_ascii_lower_identity(m: Seq<char>)
    requires
        forall|i: int| 0 <= i < m.len() ==> !(65 <= (#[trigger] m[i] as u32) <= 90),
    ensures
        ascii_lower_of(m) == m,
{
    assert(ascii_lower_of(m) =~= m);
}

/// Forward then reverse conversion: every operation of the spec document is
/// reached again, at its path as it comes back through the preceding path
/// and the mapping, under its method in lowercase.
pub proof fn lemma_round_trip(
    doc: OpenApi3,
    fopt: PostmanConvertOption,
    coll: PostmanCollection2c1,
    ropt: OpenApi3ConvertOption,
    spec: OpenApi3,
    k: int,
)
    requires
        forward_result(doc, fopt, coll),
        reverse_reached(coll, ropt, spec),
        0 <= k < flat_ops(doc.paths.entries@).len(),
    ensures
        has_op(
            spec.paths,
            apply_mapping(round_path(fopt.preceding_path@ + flat_ops(doc.paths.entries@)[k].0), ropt.mapping@),
            ascii_lower_of(flat_ops(doc.paths.entries@)[k].1),
        ),
{
    let os = flat_ops(doc.paths.entries@);
    let (pairs, tags) = choose|pairs: Seq<(String, PostmanCollectionItem)>, tags: Seq<Seq<char>>|
        pairs_ok(pairs, os, fopt) && grouped_by(coll.item@, tags, pairs, fopt.prepend_tag@);
    assert(pair_ok(pairs[k], os[k], fopt));
    let leaf = pairs[k].1;
    let t = pairs[k].0@;
    assert(tags.contains(pairs[k].0@));
    let f = choose|f: int| 0 <= f < tags.len() && tags[f] == t;
    let folder = coll.item@[f];
    assert(folder_ok(folder, tags[f], pairs, fopt.prepend_tag@));
    lemma_with_tag_contains(pairs, k);
    let kids = with_tag(pairs, t);
    let idx = choose|idx: int| 0 <= idx < kids.len() && kids[idx] == leaf;
    assert(seq![idx].drop_first() =~= Seq::<int>::empty());
    assert(folder.item->0@[idx] == leaf);
    assert(node_at(folder, seq![idx]) == node_at(leaf, seq![idx].drop_first()));
    assert(node_at(folder, seq![idx]) == Some(leaf));
    assert(in_tree(folder, leaf));
    assert(tree_reached(spec.paths, coll.item@[f], ropt.mapping@));
    let req = leaf.request->0;
    assert(leaf_ok(leaf, fopt.preceding_path@ + os[k].0, os[k].1, os[k].2, fopt));
    assert(spec_path_of(req.url) == round_path(fopt.preceding_path@ + os[k].0));
}

/// The round trip with no preceding path and no mapping: a spec path that
/// starts with a single `/`, with no `:name` segment, and a method without
/// ASCII capitals, are reached again exactly.
pub proof fn lemma_round_trip_plain(
    doc: OpenApi3,
    fopt: PostmanConvertOption,
    coll: PostmanCollection2c1,
    ropt: OpenApi3ConvertOption,
    spec: OpenApi3,
    k: int,
)
    requires
        forward_result(doc, fopt, coll),
        reverse_reached(coll, ropt, spec),
        fopt.preceding_path@.len() == 0,
        ropt.mapping@.len() == 0,
        0 <= k < flat_ops(doc.paths.entries@).len(),
        ({
            let p = flat_ops(doc.paths.entries@)[k].0;
            &&& p.len() >= 1
            &&& p[0] == '/'
            &&& (p.len() == 1 || p[1] != '/')
            &&& forall|i: int|
                0 <= i < split_slash(p.drop_first()).len() ==> !is_collection_var(
                    #[trigger] split_slash(p.drop_first())[i],
                )
        }),
        forall|i: int|
            0 <= i < flat_ops(doc.paths.entries@)[k].1.len() ==> !(65 <= (
            #[trigger] flat_ops(doc.paths.entries@)[k].1[i] as u32) <= 90),
    ensures
        has_op(spec.paths, flat_ops(doc.paths.entries@)[k].0, flat_ops(doc.paths.entries@)[k].1),
{
    let o = flat_ops(doc.paths.entries@)[k];
    lemma_round_trip(doc, fopt, coll, ropt, spec, k);
    assert(fopt.preceding_path@ + o.0 =~= o.0);
    lemma_round_path_identity(o.0);
    lemma_ascii_lower_identity(o.1);
}

proof fn lemma_with_tag_from(pairs: Seq<(String, PostmanCollectionItem)>, t: Seq<char>, idx: int)
    requires
        0 <= idx < with_tag(pairs, t).len(),
    ensures
        exists|k: int| 0 <= k < pairs.len() && pairs[k].0@ == t && #[trigger] pairs[k].1 == with_tag(pairs, t)[idx],
    decreases pairs.len(),
{
    let w0 = with_tag(pairs.drop_last(), t);
    if pairs.last().0@ == t && idx == w0.len() {
        assert(pairs[pairs.len() - 1].1 == with_tag(pairs, t)[idx]);
    } else {
        lemma_with_tag_from(pairs.drop_last(), t, idx);
        let k = choose|k: int|
            0 <= k < pairs.drop_last().len() && pairs.drop_last()[k].0@ == t && #[trigger] pairs.drop_last()[k].1 == w0[idx];
        assert(pairs[k] == pairs.drop_last()[k]);
        assert(with_tag(pairs, t)[idx] == w0[idx]);
    }
}

/// Forward then reverse conversion adds nothing: every operation of the
/// result sits at the path that some operation of the spec document comes
/// back as, through the preceding path and the mapping, under that
/// operation's method in lowercase.
pub proof fn lemma_round_trip_only(
    doc: OpenApi3,
    fopt: PostmanConvertOption,
    coll: PostmanCollection2c1,
    ropt: OpenApi3ConvertOption,
    spec: OpenApi3,
    p: Seq<char>,
    m: Seq<char>,
    o: OpenApi3OperationMethod,
)
    requires
        forward_result(doc, fopt, coll),
        doc_written(spec.paths, coll, ropt.mapping@),
        holds_op(spec.paths, p, m, o),
    ensures
        exists|k: int|
            0 <= k < flat_ops(doc.paths.entries@).len() && p == apply_mapping(
                round_path(fopt.preceding_path@ + flat_ops(doc.paths.entries@)[k].0),
                ropt.mapping@,
            ) && m == ascii_lower_of(#[trigger] flat_ops(doc.paths.entries@)[k].1),
{
    let os = flat_ops(doc.paths.entries@);
    let maps = ropt.mapping@;
    let (pairs, tags) = choose|pairs: Seq<(String, PostmanCollectionItem)>, tags: Seq<Seq<char>>|
        pairs_ok(pairs, os, fopt) && grouped_by(coll.item@, tags, pairs, fopt.prepend_tag@);
    let root = doc_root(coll);
    let (q, l) = choose|q: Seq<int>, l: PostmanCollectionItem|
        #[trigger] last_within(root, coll.item@.len() as int, q, l, p, m, maps) && q.len() > 0
            && op_ok(o, l.request->0, responses_of(l), Some(coll.item@[q[0]].name@), maps);
    assert(leaf_at(root, q, l));
    let f = q[0];
    assert(node_at(root, q) == node_at(coll.item@[f], q.drop_first()));
    let folder = coll.item@[f];
    let q1 = q.drop_first();
    assert(folder_ok(folder, tags[f], pairs, fopt.prepend_tag@));
    if q1.len() == 0 {
        assert(node_at(folder, q1) == Some(folder));
    }
    let idx = q1[0];
    let kids = with_tag(pairs, tags[f]);
    assert(node_at(folder, q1) == node_at(kids[idx], q1.drop_first()));
    lemma_with_tag_from(pairs, tags[f], idx);
    let k = choose|k: int| 0 <= k < pairs.len() && pairs[k].0@ == tags[f] && #[trigger] pairs[k].1 == kids[idx];
    assert(pair_ok(pairs[k], os[k], fopt));
    assert(leaf_ok(pairs[k].1, fopt.preceding_path@ + os[k].0, os[k].1, os[k].2, fopt));
    if q1.drop_first().len() > 0 {
        assert(node_at(kids[idx], q1.drop_first()) is None);
    }
    assert(node_at(kids[idx], q1.drop_first()) == Some(kids[idx]));
    assert(l == pairs[k].1);
    assert(leaf_key_is(l, maps, p, m));
    assert(spec_path_of(l.request->0.url) == round_path(fopt.preceding_path@ + os[k].0));
}

} // verus!
