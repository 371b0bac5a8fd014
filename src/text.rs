use vstd::prelude::*;
use vstd::string::*;

verus! {

/// Lexicographic order on character sequences, by code point. This is the
/// order of `String`'s `Ord` (UTF-8 preserves code-point order).
pub open spec fn str_lt(a: Seq<char>, b: Seq<char>) -> bool
    decreases a.len(),
{
    if a.len() == 0 {
        b.len() > 0
    } else if b.len() == 0 {
        false
    } else if a[0] == b[0] {
        str_lt(a.drop_first(), b.drop_first())
    } else {
        (a[0] as u32) < (b[0] as u32)
    }
}

pub proof fn lemma_str_lt_irreflexive(a: Seq<char>)
    ensures
        !str_lt(a, a),
    decreases a.len(),
{
    if a.len() > 0 {
        lemma_str_lt_irreflexive(a.drop_first());
    }
}

pub proof fn lemma_str_lt_transitive(a: Seq<char>, b: Seq<char>, c: Seq<char>)
    requires
        str_lt(a, b),
        str_lt(b, c),
    ensures
        str_lt(a, c),
    decreases a.len(),
{
    if a.len() > 0 && b.len() > 0 && c.len() > 0 && a[0] == b[0] && b[0] == c[0] {
        lemma_str_lt_transitive(a.drop_first(), b.drop_first(), c.drop_first());
    }
}

proof fn lemma_str_lt_step(a: Seq<char>, b: Seq<char>, i: int)
    requires
        0 <= i < a.len(),
        i < b.len(),
        a[i] == b[i],
    ensures
        str_lt(a.skip(i), b.skip(i)) == str_lt(a.skip(i + 1), b.skip(i + 1)),
{
    assert(a.skip(i).drop_first() =~= a.skip(i + 1));
    assert(b.skip(i).drop_first() =~= b.skip(i + 1));
}

/// Three-way comparison of two strings in the order of `str_lt`:
/// negative, zero or positive.
pub fn compare_str(a: &str, b: &str) -> (r: i8)
    ensures
        r < 0 <==> str_lt(a@, b@),
        r == 0 <==> a@ == b@,
        r > 0 <==> str_lt(b@, a@),
{
    let la = a.unicode_len();
    let lb = b.unicode_len();
    let mut i: usize = 0;
    assert(a@.skip(0) =~= a@);
    assert(b@.skip(0) =~= b@);
    while i < la && i < lb
        invariant
            la == a@.len(),
            lb == b@.len(),
            i <= la,
            i <= lb,
            forall|j: int| 0 <= j < i ==> a@[j] == b@[j],
            str_lt(a@, b@) == str_lt(a@.skip(i as int), b@.skip(i as int)),
            str_lt(b@, a@) == str_lt(b@.skip(i as int), a@.skip(i as int)),
        decreases la - i,
    {
        let ca = a.get_char(i);
        let cb = b.get_char(i);
        if ca != cb {
            assert(a@.skip(i as int)[0] == ca && b@.skip(i as int)[0] == cb);
            assert(a@.skip(i as int).len() > 0 && b@.skip(i as int).len() > 0);
            if (ca as u32) < (cb as u32) {
                return -1;
            } else {
                return 1;
            }
        }
        proof {
            lemma_str_lt_step(a@, b@, i as int);
            lemma_str_lt_step(b@, a@, i as int);
        }
        i = i + 1;
    }
    if i == la && i == lb {
        assert(a@ =~= b@);
        proof {
            lemma_str_lt_irreflexive(a@);
        }
        0
    } else if i == la {
        assert(a@.skip(i as int).len() == 0 && b@.skip(i as int).len() > 0);
        -1
    } else {
        assert(b@.skip(i as int).len() == 0 && a@.skip(i as int).len() > 0);
        1
    }
}


/// The view of each string of a sequence.
pub open spec fn views(v: Seq<String>) -> Seq<Seq<char>> {
    v.map_values(|x: String| x@)
}

/// `s` without its leading `/` characters.
pub open spec fn trim_slashes(s: Seq<char>) -> Seq<char>
    decreases s.len(),
{
    if s.len() > 0 && s[0] == '/' {
        trim_slashes(s.drop_first())
    } else {
        s
    }
}

/// The pieces of `s` between `/` separators; one empty piece for an empty `s`.
pub open spec fn split_slash(s: Seq<char>) -> Seq<Seq<char>>
    decreases s.len(),
{
    if s.len() == 0 {
        seq![Seq::empty()]
    } else {
        let r = split_slash(s.drop_last());
        if s.last() == '/' {
            r.push(Seq::empty())
        } else {
            r.update(r.len() - 1, r.last().push(s.last()))
        }
    }
}

/// The pieces joined with `/` between each two.
pub open spec fn join_slash(segs: Seq<Seq<char>>) -> Seq<char>
    decreases segs.len(),
{
    if segs.len() == 0 {
        Seq::empty()
    } else if segs.len() == 1 {
        segs[0]
    } else {
        join_slash(segs.drop_last()) + seq!['/'] + segs.last()
    }
}

/// A path segment of the spec format (`{name}`) in the collection format
/// (`:name`); any other segment is kept.
pub open spec fn collection_segment_of(s: Seq<char>) -> Seq<char> {
    if s.len() >= 2 && s[0] == '{' && s.last() == '}' {
        seq![':'] + s.subrange(1, s.len() - 1)
    } else {
        s
    }
}

/// Whether a collection path segment names a variable (`:name`).
pub open spec fn is_collection_var(s: Seq<char>) -> bool {
    s.len() >= 1 && s[0] == ':'
}

/// Whether a spec path segment names a variable (`{name}`).
pub open spec fn is_spec_var(s: Seq<char>) -> bool {
    s.len() >= 2 && s[0] == '{' && s.last() == '}'
}

/// A path segment of the collection format (`:name`) in the spec format
/// (`{name}`); any other segment is kept.
pub open spec fn spec_segment_of(s: Seq<char>) -> Seq<char> {
    if is_collection_var(s) {
        seq!['{'] + s.drop_first() + seq!['}']
    } else {
        s
    }
}

/// Path-segment translation is a bijection: a segment that is not already a
/// spec variable comes back from the spec format unchanged, and a segment
/// that is not already a collection variable comes back from the collection
/// format unchanged.
pub proof fn lemma_segment_round_trip(s: Seq<char>)
    ensures
        !is_spec_var(s) ==> collection_segment_of(spec_segment_of(s)) == s,
        !is_collection_var(s) ==> spec_segment_of(collection_segment_of(s)) == s,
{
    if is_collection_var(s) {
        let t = spec_segment_of(s);
        assert(t.subrange(1, t.len() - 1) =~= s.drop_first());
        assert(seq![':'] + s.drop_first() =~= s);
    }
    if is_spec_var(s) {
        let t = collection_segment_of(s);
        assert(t.drop_first() =~= s.subrange(1, s.len() - 1));
        assert(seq!['{'] + s.subrange(1, s.len() - 1) + seq!['}'] =~= s);
    }
}

/// Every non-overlapping occurrence of `from` in `s`, taken from the left,
/// replaced by `to`. An empty `from` matches before each character and at
/// the end.
pub open spec fn replace_all(s: Seq<char>, from: Seq<char>, to: Seq<char>) -> Seq<char>
    decreases s.len(),
{
    if from.len() == 0 {
        if s.len() == 0 {
            to
        } else {
            to + seq![s[0]] + replace_all(s.drop_first(), from, to)
        }
    } else if s.len() < from.len() {
        s
    } else if s.take(from.len() as int) == from {
        to + replace_all(s.skip(from.len() as int), from, to)
    } else {
        seq![s[0]] + replace_all(s.drop_first(), from, to)
    }
}

/// The decimal digit for `d < 10`.
pub open spec fn digit_of(d: nat) -> char {
    if d == 0 { '0' } else if d == 1 { '1' } else if d == 2 { '2' } else if d == 3 { '3' }
    else if d == 4 { '4' } else if d == 5 { '5' } else if d == 6 { '6' } else if d == 7 { '7' }
    else if d == 8 { '8' } else { '9' }
}

/// The decimal text of `n`, without leading zeros.
pub open spec fn decimal_of(n: nat) -> Seq<char>
    decreases n,
{
    if n < 10 {
        seq![digit_of(n)]
    } else {
        decimal_of(n / 10).push(digit_of(n % 10))
    }
}

/// An ASCII capital letter as its small letter; any other character kept.
pub open spec fn ascii_lower_char(c: char) -> char {
    if 65 <= (c as u32) <= 90 {
        ((c as u32 + 32) as u8) as char
    } else {
        c
    }
}

/// Every ASCII capital letter of `s` made small.
pub open spec fn ascii_lower_of(s: Seq<char>) -> Seq<char> {
    s.map_values(|c: char| ascii_lower_char(c))
}

/// Relies on `str::to_ascii_lowercase`: ASCII letters `A` to `Z` become `a`
/// to `z`, every other character stays.
#[verifier::external_body]
pub(crate) fn ascii_lowercase(s: &str) -> (r: String)
    ensures
        r@ == ascii_lower_of(s@),
{
    s.to_ascii_lowercase()
}

/// What `str::to_lowercase` makes of a string.
pub uninterp spec fn lower_of(s: Seq<char>) -> Seq<char>;

/// Relies on `str::to_lowercase`: the Unicode lowercase mapping of each
/// character, which depends on the characters alone.
#[verifier::external_body]
pub(crate) fn lowercase(s: &str) -> (r: String)
    ensures
        r@ == lower_of(s@),
{
    s.to_lowercase()
}

/// Relies on `str::replace`: every match of `from`, left to right, replaced
/// by `to`.
#[verifier::external_body]
pub(crate) fn replace_str(s: &str, from: &str, to: &str) -> (r: String)
    ensures
        r@ == replace_all(s@, from@, to@),
{
    s.replace(from, to)
}

/// Appends the character of `src` at `i` to `dst`.
pub fn push_char_at(dst: &mut String, src: &str, i: usize)
    requires
        i < src@.len(),
    ensures
        final(dst)@ == old(dst)@.push(src@[i as int]),
{
    let n = src.unicode_len();
    let c = src.substring_char(i, i + 1);
    assert(c@ =~= seq![src@[i as int]]);
    dst.append(c);
}

/// `a` followed by `b`.
pub fn concat_str(a: &str, b: &str) -> (r: String)
    ensures
        r@ == a@ + b@,
{
    let mut r = String::from_str(a);
    r.append(b);
    r
}

/// Whether `s` begins with the character `c`.
pub fn starts_with_char(s: &str, c: char) -> (r: bool)
    ensures
        r == (s@.len() > 0 && s@[0] == c),
{
    let n = s.unicode_len();
    if n == 0 {
        false
    } else {
        s.get_char(0) == c
    }
}

proof fn lemma_trim_skip(s: Seq<char>, i: int)
    requires
        0 <= i < s.len(),
        s[i] == '/',
    ensures
        trim_slashes(s.skip(i)) == trim_slashes(s.skip(i + 1)),
{
    assert(s.skip(i).drop_first() =~= s.skip(i + 1));
}

/// `s` without its leading slashes.
pub fn trim_leading_slashes(s: &str) -> (r: String)
    ensures
        r@ == trim_slashes(s@),
{
    let n = s.unicode_len();
    let mut i: usize = 0;
    assert(s@.skip(0) =~= s@);
    while i < n && s.get_char(i) == '/'
        invariant
            n == s@.len(),
            i <= n,
            trim_slashes(s@) == trim_slashes(s@.skip(i as int)),
        decreases n - i,
    {
        proof {
            lemma_trim_skip(s@, i as int);
        }
        i = i + 1;
    }
    let t = s.substring_char(i, n);
    assert(t@ =~= s@.skip(i as int));
    String::from_str(t)
}

/// `s` cut at each `/`.
pub fn split_on_slash(s: &str) -> (r: Vec<String>)
    ensures
        views(r@) == split_slash(s@),
{
    let n = s.unicode_len();
    let mut segs: Vec<String> = Vec::new();
    let mut cur = String::new();
    let mut i: usize = 0;
    assert(s@.take(0) =~= Seq::<char>::empty());
    assert(views(segs@).push(cur@) =~= split_slash(s@.take(0)));
    while i < n
        invariant
            n == s@.len(),
            i <= n,
            views(segs@).push(cur@) == split_slash(s@.take(i as int)),
        decreases n - i,
    {
        let ghost before = views(segs@).push(cur@);
        assert(s@.take(i + 1).drop_last() =~= s@.take(i as int));
        assert(s@.take(i + 1).last() == s@[i as int]);
        if s.get_char(i) == '/' {
            let done = cur;
            segs.push(done);
            cur = String::new();
            assert(views(segs@).push(cur@) =~= before.push(Seq::empty()));
        } else {
            push_char_at(&mut cur, s, i);
            assert(views(segs@).push(cur@) =~= before.update(
                before.len() - 1,
                before.last().push(s@[i as int]),
            ));
        }
        i = i + 1;
    }
    assert(s@.take(n as int) =~= s@);
    segs.push(cur);
    assert(views(segs@) =~= split_slash(s@));
    segs
}

/// The strings of `segs` with `/` between each two.
pub fn join_on_slash(segs: &Vec<String>) -> (r: String)
    ensures
        r@ == join_slash(views(segs@)),
{
    let mut r = String::new();
    let mut i: usize = 0;
    while i < segs.len()
        invariant
            i <= segs.len(),
            r@ == join_slash(views(segs@.take(i as int))),
        decreases segs.len() - i,
    {
        let ghost prev = views(segs@.take(i as int));
        assert(views(segs@.take(i + 1)).drop_last() =~= prev);
        if i > 0 {
            r.append("/");
        }
        r.append(segs[i].as_str());
        proof {
            reveal_strlit("/");
        }
        assert(r@ =~= join_slash(views(segs@.take(i + 1))));
        i = i + 1;
    }
    assert(segs@.take(segs.len() as int) =~= segs@);
    r
}

/// A spec path segment in the collection format.
pub fn to_collection_segment(s: &str) -> (r: String)
    ensures
        r@ == collection_segment_of(s@),
{
    let n = s.unicode_len();
    if n >= 2 && s.get_char(0) == '{' && s.get_char(n - 1) == '}' {
        let mut r = String::from_str(":");
        proof {
            reveal_strlit(":");
        }
        r.append(s.substring_char(1, n - 1));
        assert(r@ =~= collection_segment_of(s@));
        r
    } else {
        String::from_str(s)
    }
}

/// A collection path segment in the spec format.
pub fn to_spec_segment(s: &str) -> (r: String)
    ensures
        r@ == spec_segment_of(s@),
{
    let n = s.unicode_len();
    if n >= 1 && s.get_char(0) == ':' {
        let mut r = String::from_str("{");
        r.append(s.substring_char(1, n));
        r.append("}");
        proof {
            reveal_strlit("{");
            reveal_strlit("}");
        }
        assert(r@ =~= spec_segment_of(s@));
        r
    } else {
        String::from_str(s)
    }
}

fn digit_str(d: u32) -> (r: &'static str)
    requires
        d < 10,
    ensures
        r@ == seq![digit_of(d as nat)],
{
    proof {
        reveal_strlit("0"); reveal_strlit("1"); reveal_strlit("2"); reveal_strlit("3");
        reveal_strlit("4"); reveal_strlit("5"); reveal_strlit("6"); reveal_strlit("7");
        reveal_strlit("8"); reveal_strlit("9");
    }
    let r = if d == 0 { "0" } else if d == 1 { "1" } else if d == 2 { "2" } else if d == 3 { "3" }
    else if d == 4 { "4" } else if d == 5 { "5" } else if d == 6 { "6" } else if d == 7 { "7" }
    else if d == 8 { "8" } else { "9" };
    assert(r@ =~= seq![digit_of(d as nat)]);
    r
}

/// The decimal text of `n`.
pub fn decimal_string(n: u32) -> (r: String)
    ensures
        r@ == decimal_of(n as nat),
    decreases n,
{
    if n < 10 {
        String::from_str(digit_str(n))
    } else {
        let mut r = decimal_string(n / 10);
        r.append(digit_str(n % 10));
        assert(r@ =~= decimal_of(n as nat));
        r
    }
}

} // verus!
