use vstd::prelude::*;
use crate::text::{compare_str, lemma_str_lt_irreflexive, lemma_str_lt_transitive, str_lt};

verus! {

/// A map keyed by strings whose entries are kept in ascending key order
/// (`str_lt`), each key once.
pub struct StrMap<V> {
    pub entries: Vec<(String, V)>,
}

/// The keys of a sequence of entries, in order.
pub open spec fn keys_of<V>(e: Seq<(String, V)>) -> Seq<Seq<char>> {
    e.map_values(|x: (String, V)| x.0@)
}

/// Keys strictly ascending, hence distinct.
pub open spec fn sorted_keys(k: Seq<Seq<char>>) -> bool {
    forall|i: int, j: int| 0 <= i < j < k.len() ==> str_lt(#[trigger] k[i], #[trigger] k[j])
}

/// Sorted keys are distinct.
pub proof fn lemma_sorted_distinct(k: Seq<Seq<char>>, a: int, b: int)
    requires
        sorted_keys(k),
        0 <= a < k.len(),
        0 <= b < k.len(),
        a != b,
    ensures
        k[a] != k[b],
{
    lemma_str_lt_irreflexive(k[a]);
    if a < b {
        assert(str_lt(k[a], k[b]));
    } else {
        assert(str_lt(k[b], k[a]));
    }
}

impl<V> StrMap<V> {
    pub open spec fn keys(&self) -> Seq<Seq<char>> {
        keys_of(self.entries@)
    }

    pub open spec fn wf(&self) -> bool {
        sorted_keys(self.keys())
    }

    pub open spec fn has_key(&self, k: Seq<char>) -> bool {
        exists|i: int| 0 <= i < self.entries@.len() && self.entries@[i].0@ == k
    }

    /// The value held under `k`, where `k` is present.
    pub open spec fn value_of(&self, k: Seq<char>) -> V
        recommends
            self.has_key(k),
    {
        self.entries@[choose|i: int| 0 <= i < self.entries@.len() && self.entries@[i].0@ == k].1
    }

    /// An empty map.
    pub fn new() -> (r: Self)
        ensures
            r.entries@.len() == 0,
            r.wf(),
    {
        StrMap { entries: Vec::new() }
    }

    /// The number of entries.
    pub fn len(&self) -> (r: usize)
        ensures
            r == self.entries@.len(),
    {
        self.entries.len()
    }

    /// The position of `k`, if present.
    pub fn index_of(&self, k: &str) -> (r: Option<usize>)
        ensures
            match r {
                Some(i) => i < self.entries@.len() && self.entries@[i as int].0@ == k@,
                None => !self.has_key(k@),
            },
    {
        let mut i: usize = 0;
        while i < self.entries.len()
            invariant
                i <= self.entries@.len(),
                forall|j: int| 0 <= j < i ==> self.entries@[j].0@ != k@,
            decreases self.entries@.len() - i,
        {
            if compare_str(self.entries[i].0.as_str(), k) == 0 {
                return Some(i);
            }
            i = i + 1;
        }
        None
    }

    /// Puts `v` in place of the value at position `i`, keeping the key, and
    /// hands back the value that was there.
    pub fn replace_value(&mut self, i: usize, v: V) -> (r: V)
        requires
            i < old(self).entries@.len(),
        ensures
            r == old(self).entries@[i as int].1,
            final(self).entries@ == old(self).entries@.update(
                i as int,
                (old(self).entries@[i as int].0, v),
            ),
    {
        let (k, prev) = self.entries.remove(i);
        self.entries.insert(i, (k, v));
        assert(self.entries@ =~= old(self).entries@.update(i as int, (old(self).entries@[i as int].0, v)));
        prev
    }

    /// Sets the value under `k` to `v`: in place where `k` is present, else
    /// as a new entry at the position that keeps the keys in order.
    pub fn insert(&mut self, k: String, v: V)
        requires
            old(self).wf(),
        ensures
            final(self).wf(),
            old(self).has_key(k@) ==> exists|i: int|
                0 <= i < old(self).entries@.len() && old(self).entries@[i].0@ == k@
                    && final(self).entries@ == old(self).entries@.update(i, (k, v)),
            !old(self).has_key(k@) ==> exists|i: int|
                0 <= i <= old(self).entries@.len() && final(self).entries@
                    == old(self).entries@.insert(i, (k, v)),
    {
        let ghost old_e = self.entries@;
        let mut i: usize = 0;
        while i < self.entries.len()
            invariant
                self.entries@ == old_e,
                old(self).entries@ == old_e,
                sorted_keys(keys_of(old_e)),
                i <= old_e.len(),
                forall|j: int| 0 <= j < i ==> str_lt(#[trigger] old_e[j].0@, k@),
            decreases old_e.len() - i,
        {
            let c = compare_str(self.entries[i].0.as_str(), k.as_str());
            if c == 0 {
                self.entries.remove(i);
                self.entries.insert(i, (k, v));
                assert(self.entries@ =~= old_e.update(i as int, (k, v)));
                assert(keys_of(self.entries@) =~= keys_of(old_e));
                assert(old_e[i as int].0@ == k@);
                assert(exists|j: int|
                    0 <= j < old_e.len() && old_e[j].0@ == k@ && self.entries@ == old_e.update(
                        j,
                        (k, v),
                    )) by {
                    assert(self.entries@ =~= old_e.update(i as int, (k, v)));
                }
                return;
            } else if c > 0 {
                self.entries.insert(i, (k, v));
                proof {
                    assert(self.entries@ =~= old_e.insert(i as int, (k, v)));
                    assert forall|j: int| 0 <= j < old_e.len() implies old_e[j].0@ != k@ by {
                        if j < i {
                            lemma_str_lt_irreflexive(k@);
                        } else if j > i {
                            assert(str_lt(keys_of(old_e)[i as int], keys_of(old_e)[j]));
                            lemma_str_lt_transitive(k@, old_e[i as int].0@, old_e[j].0@);
                            lemma_str_lt_irreflexive(k@);
                        } else {
                            lemma_str_lt_irreflexive(k@);
                        }
                    }
                    assert(!(exists|j: int| 0 <= j < old_e.len() && old_e[j].0@ == k@));
                    let nk = keys_of(self.entries@);
                    assert forall|a: int, b: int| 0 <= a < b < nk.len() implies str_lt(
                        #[trigger] nk[a],
                        #[trigger] nk[b],
                    ) by {
                        if b < i {
                            assert(str_lt(keys_of(old_e)[a], keys_of(old_e)[b]));
                        } else if b == i {
                        } else if a < i {
                            assert(str_lt(keys_of(old_e)[i as int], keys_of(old_e)[b - 1])
                                || i == b - 1);
                            lemma_str_lt_transitive(nk[a], k@, old_e[i as int].0@);
                            if i < b - 1 {
                                lemma_str_lt_transitive(nk[a], old_e[i as int].0@, nk[b]);
                            }
                        } else if a == i {
                            if i < b - 1 {
                                assert(str_lt(keys_of(old_e)[i as int], keys_of(old_e)[b - 1]));
                                lemma_str_lt_transitive(k@, old_e[i as int].0@, nk[b]);
                            }
                        } else {
                            assert(str_lt(keys_of(old_e)[a - 1], keys_of(old_e)[b - 1]));
                        }
                    }
                }
                return;
            }
            i = i + 1;
        }
        self.entries.push((k, v));
        proof {
            assert(self.entries@ =~= old_e.insert(old_e.len() as int, (k, v)));
            assert forall|j: int| 0 <= j < old_e.len() implies old_e[j].0@ != k@ by {
                lemma_str_lt_irreflexive(k@);
            }
            assert(!(exists|j: int| 0 <= j < old_e.len() && old_e[j].0@ == k@));
            let nk = keys_of(self.entries@);
            assert forall|a: int, b: int| 0 <= a < b < nk.len() implies str_lt(
                #[trigger] nk[a],
                #[trigger] nk[b],
            ) by {
                if b < old_e.len() {
                    assert(str_lt(keys_of(old_e)[a], keys_of(old_e)[b]));
                }
            }
        }
    }
}

} // verus!
