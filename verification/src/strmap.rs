//! An ordered mapping with `String` keys, stored as a vector of pairs kept
//! strictly sorted by lexicographic key order. Keys are unique, iteration is
//! deterministic, and the view is a `Map` from key characters to the value's
//! deep view.

use crate::text::{lemma_lex_lt_connected, lemma_lex_lt_irrefl, lemma_lex_lt_trans, lex_lt, str_eq,
    str_lt};
use vstd::prelude::*;

verus! {

/// Index of the first pair whose key is `k`, or `-1` when no pair has it.
pub open spec fn assoc_find<T>(s: Seq<(Seq<char>, T)>, k: Seq<char>) -> int
    decreases s.len(),
{
    if s.len() == 0 {
        -1
    } else if s[0].0 == k {
        0
    } else if assoc_find(s.drop_first(), k) < 0 {
        -1
    } else {
        1 + assoc_find(s.drop_first(), k)
    }
}

/// The mapping a pair sequence denotes; on duplicate keys the first pair wins.
pub open spec fn assoc_map<T>(s: Seq<(Seq<char>, T)>) -> Map<Seq<char>, T> {
    Map::new(|k: Seq<char>| assoc_find(s, k) >= 0, |k: Seq<char>| s[assoc_find(s, k)].1)
}

/// No two pairs share a key.
pub open spec fn distinct_keys<T>(s: Seq<(Seq<char>, T)>) -> bool {
    forall|i: int, j: int| 0 <= i < j < s.len() ==> s[i].0 != s[j].0
}

/// Keys strictly increase in lexicographic order.
pub open spec fn sorted_keys<T>(s: Seq<(Seq<char>, T)>) -> bool {
    forall|i: int, j: int| 0 <= i < j < s.len() ==> lex_lt(s[i].0, s[j].0)
}

pub proof fn lemma_sorted_distinct<T>(s: Seq<(Seq<char>, T)>)
    requires
        sorted_keys(s),
    ensures
        distinct_keys(s),
{
    assert forall|i: int, j: int| 0 <= i < j < s.len() implies s[i].0 != s[j].0 by {
        assert(lex_lt(s[i].0, s[j].0));
        lemma_lex_lt_irrefl(s[i].0);
    }
}

pub proof fn lemma_assoc_find_props<T>(s: Seq<(Seq<char>, T)>, k: Seq<char>)
    ensures
        -1 <= assoc_find(s, k) < s.len(),
        assoc_find(s, k) >= 0 ==> s[assoc_find(s, k)].0 == k,
        assoc_find(s, k) == -1 ==> forall|j: int| 0 <= j < s.len() ==> s[j].0 != k,
    decreases s.len(),
{
    if s.len() > 0 && s[0].0 != k {
        lemma_assoc_find_props(s.drop_first(), k);
        if assoc_find(s.drop_first(), k) == -1 {
            assert forall|j: int| 0 <= j < s.len() implies s[j].0 != k by {
                if j > 0 {
                    assert(s.drop_first()[j - 1] == s[j]);
                }
            }
        }
    }
}

/// The first index bearing `k` pins down `assoc_find`.
pub proof fn lemma_assoc_find_is<T>(s: Seq<(Seq<char>, T)>, k: Seq<char>, i: int)
    requires
        0 <= i < s.len(),
        s[i].0 == k,
        forall|j: int| 0 <= j < i ==> s[j].0 != k,
    ensures
        assoc_find(s, k) == i,
    decreases i,
{
    if i > 0 {
        assert(s[0].0 != k);
        assert forall|j: int| 0 <= j < i - 1 implies s.drop_first()[j].0 != k by {
            assert(s.drop_first()[j] == s[j + 1]);
        }
        assert(s.drop_first()[i - 1] == s[i]);
        lemma_assoc_find_is(s.drop_first(), k, i - 1);
    }
}

pub proof fn lemma_assoc_find_none<T>(s: Seq<(Seq<char>, T)>, k: Seq<char>)
    requires
        forall|j: int| 0 <= j < s.len() ==> s[j].0 != k,
    ensures
        assoc_find(s, k) == -1,
{
    lemma_assoc_find_props(s, k);
    if assoc_find(s, k) >= 0 {
        assert(s[assoc_find(s, k)].0 == k);
    }
}

/// `assoc_find` looks only at keys: sequences with the same keys agree.
pub proof fn lemma_assoc_find_same_keys<T>(
    s1: Seq<(Seq<char>, T)>,
    s2: Seq<(Seq<char>, T)>,
    k: Seq<char>,
)
    requires
        s1.len() == s2.len(),
        forall|i: int| 0 <= i < s1.len() ==> s1[i].0 == s2[i].0,
    ensures
        assoc_find(s1, k) == assoc_find(s2, k),
    decreases s1.len(),
{
    if s1.len() > 0 {
        assert forall|i: int| 0 <= i < s1.drop_first().len() implies s1.drop_first()[i].0
            == s2.drop_first()[i].0 by {
            assert(s1.drop_first()[i] == s1[i + 1]);
            assert(s2.drop_first()[i] == s2[i + 1]);
        }
        lemma_assoc_find_same_keys(s1.drop_first(), s2.drop_first(), k);
    }
}

/// What appending a pair does to `assoc_find`.
pub proof fn lemma_assoc_find_push<T>(s: Seq<(Seq<char>, T)>, p: (Seq<char>, T), k: Seq<char>)
    ensures
        assoc_find(s.push(p), k) == if assoc_find(s, k) >= 0 {
            assoc_find(s, k)
        } else if p.0 == k {
            s.len() as int
        } else {
            -1
        },
    decreases s.len(),
{
    lemma_assoc_find_props(s, k);
    if s.len() == 0 {
        assert(s.push(p)[0] == p);
        if p.0 != k {
            assert(assoc_find(s.push(p).drop_first(), k) == -1) by {
                assert(s.push(p).drop_first() =~= Seq::<(Seq<char>, T)>::empty());
            }
        }
    } else {
        assert(s.push(p)[0] == s[0]);
        assert(s.push(p).drop_first() =~= s.drop_first().push(p));
        lemma_assoc_find_push(s.drop_first(), p, k);
    }
}

/// With distinct keys, the pair at any index is what the map holds for its key.
pub proof fn lemma_assoc_at<T>(s: Seq<(Seq<char>, T)>, i: int)
    requires
        distinct_keys(s),
        0 <= i < s.len(),
    ensures
        assoc_find(s, s[i].0) == i,
        assoc_map(s).contains_key(s[i].0),
        assoc_map(s)[s[i].0] == s[i].1,
{
    lemma_assoc_find_is(s, s[i].0, i);
}

/// With distinct keys the map has exactly as many entries as the sequence.
pub proof fn lemma_assoc_dom_len<T>(s: Seq<(Seq<char>, T)>)
    requires
        distinct_keys(s),
    ensures
        assoc_map(s).dom().finite(),
        assoc_map(s).dom().len() == s.len(),
    decreases s.len(),
{
    if s.len() == 0 {
        assert(assoc_map(s).dom() =~= Set::<Seq<char>>::empty());
    } else {
        let t = s.drop_first();
        assert forall|i: int, j: int| 0 <= i < j < t.len() implies t[i].0 != t[j].0 by {
            assert(t[i] == s[i + 1] && t[j] == s[j + 1]);
        }
        lemma_assoc_dom_len(t);
        assert forall|k: Seq<char>| assoc_map(s).dom().contains(k) <==> (k == s[0].0
            || assoc_map(t).dom().contains(k)) by {
            lemma_assoc_find_props(s, k);
            lemma_assoc_find_props(t, k);
        }
        assert(assoc_map(s).dom() =~= assoc_map(t).dom().insert(s[0].0));
        assert(!assoc_map(t).dom().contains(s[0].0)) by {
            lemma_assoc_find_props(t, s[0].0);
            if assoc_find(t, s[0].0) >= 0 {
                let j = assoc_find(t, s[0].0);
                assert(t[j] == s[j + 1]);
            }
        }
    }
}

/// Inserting a pair between its lexicographic neighbours keeps the sequence
/// sorted and inserts into the denoted map.
pub proof fn lemma_sorted_insert<T>(s: Seq<(Seq<char>, T)>, i: int, k: Seq<char>, v: T)
    requires
        sorted_keys(s),
        0 <= i <= s.len(),
        forall|j: int| 0 <= j < i ==> lex_lt(s[j].0, k),
        i < s.len() ==> lex_lt(k, s[i].0),
    ensures
        sorted_keys(s.insert(i, (k, v))),
        assoc_map(s.insert(i, (k, v))) == assoc_map(s).insert(k, v),
{
    let s2 = s.insert(i, (k, v));
    assert(s2.len() == s.len() + 1);
    assert forall|p: int, q: int| 0 <= p < q < s2.len() implies lex_lt(s2[p].0, s2[q].0) by {
        if p < i && q < i {
            assert(s2[p] == s[p] && s2[q] == s[q]);
        } else if p < i && q == i {
            assert(s2[p] == s[p]);
        } else if p < i && q > i {
            assert(s2[p] == s[p] && s2[q] == s[q - 1]);
            if q - 1 == p {
                assert(lex_lt(s[p].0, k) && lex_lt(k, s[q - 1].0));
                lemma_lex_lt_trans(s[p].0, k, s[q - 1].0);
            }
        } else if p == i && q > i {
            assert(s2[q] == s[q - 1]);
            if q - 1 > i - 1 && q - 1 < s.len() && i < s.len() && q - 1 > i {
                assert(lex_lt(s[i as int].0, s[q - 1].0));
            }
            if q - 1 == i {
                assert(lex_lt(k, s[i as int].0));
            } else {
                lemma_lex_lt_trans(k, s[i as int].0, s[q - 1].0);
            }
        } else {
            assert(p > i && q > i);
            assert(s2[p] == s[p - 1] && s2[q] == s[q - 1]);
        }
    }
    lemma_sorted_distinct(s);
    lemma_sorted_distinct(s2);
    assert forall|q: Seq<char>|
        #![trigger assoc_map(s2).dom().contains(q)]
        #![trigger assoc_map(s).insert(k, v).dom().contains(q)]
        true implies {
        &&& assoc_map(s2).contains_key(q) <==> assoc_map(s).insert(k, v).contains_key(q)
        &&& (assoc_map(s2).contains_key(q) ==> assoc_map(s2)[q] == assoc_map(s).insert(k, v)[q])
    } by {
        if q == k {
            lemma_assoc_at(s2, i);
        } else {
            lemma_assoc_find_props(s, q);
            let j = assoc_find(s, q);
            if j >= 0 {
                let j2 = if j < i {
                    j
                } else {
                    j + 1
                };
                assert(s2[j2] == s[j]);
                lemma_assoc_at(s2, j2);
            } else {
                assert forall|j2: int| 0 <= j2 < s2.len() implies s2[j2].0 != q by {
                    if j2 < i {
                        assert(s2[j2] == s[j2]);
                    } else if j2 > i {
                        assert(s2[j2] == s[j2 - 1]);
                    }
                }
                lemma_assoc_find_none(s2, q);
            }
        }
    }
    assert(assoc_map(s2) =~= assoc_map(s).insert(k, v));
}

/// Replacing the value at an index whose key is `k` updates the denoted map.
pub proof fn lemma_sorted_update<T>(s: Seq<(Seq<char>, T)>, i: int, k: Seq<char>, v: T)
    requires
        sorted_keys(s),
        0 <= i < s.len(),
        s[i].0 == k,
    ensures
        sorted_keys(s.update(i, (k, v))),
        assoc_map(s.update(i, (k, v))) == assoc_map(s).insert(k, v),
{
    let s2 = s.update(i, (k, v));
    assert forall|p: int, q: int| 0 <= p < q < s2.len() implies lex_lt(s2[p].0, s2[q].0) by {
        assert(s2[p].0 == s[p].0 && s2[q].0 == s[q].0);
    }
    lemma_sorted_distinct(s);
    lemma_sorted_distinct(s2);
    assert forall|q: Seq<char>|
        #![trigger assoc_map(s2).dom().contains(q)]
        #![trigger assoc_map(s).insert(k, v).dom().contains(q)]
        true implies {
        &&& assoc_map(s2).contains_key(q) <==> assoc_map(s).insert(k, v).contains_key(q)
        &&& (assoc_map(s2).contains_key(q) ==> assoc_map(s2)[q] == assoc_map(s).insert(k, v)[q])
    } by {
        if q == k {
            lemma_assoc_at(s2, i);
        } else {
            lemma_assoc_find_props(s, q);
            let j = assoc_find(s, q);
            if j >= 0 {
                assert(s2[j] == s[j] || j == i);
                assert(j != i);
                lemma_assoc_at(s2, j);
                lemma_assoc_at(s, j);
            } else {
                assert forall|j2: int| 0 <= j2 < s2.len() implies s2[j2].0 != q by {
                    assert(s2[j2].0 == s[j2].0);
                }
                lemma_assoc_find_none(s2, q);
            }
        }
    }
    assert(assoc_map(s2) =~= assoc_map(s).insert(k, v));
}

/// An ordered mapping from `String` keys to values of type `T`, keys unique
/// and kept in lexicographic order.
#[derive(Debug)]
pub struct StrMap<T> {
    entries: Vec<(String, T)>,
}

impl<T: DeepView> View for StrMap<T> {
    type V = Map<Seq<char>, T::V>;

    closed spec fn view(&self) -> Map<Seq<char>, T::V> {
        assoc_map(self.entries.deep_view())
    }
}

impl<T: DeepView> StrMap<T> {
    /// The key/value pairs in storage order, keys sorted.
    pub closed spec fn kv_seq(&self) -> Seq<(Seq<char>, T::V)> {
        self.entries.deep_view()
    }

    /// Well-formedness: keys strictly sorted (hence unique).
    pub closed spec fn wf(&self) -> bool {
        sorted_keys(self.kv_seq())
    }

    /// The view is the mapping the pair sequence denotes.
    pub proof fn lemma_view_is_kv(&self)
        ensures
            self@ == assoc_map(self.kv_seq()),
            self.wf() ==> sorted_keys(self.kv_seq()),
            self.wf() ==> distinct_keys(self.kv_seq()),
    {
        if self.wf() {
            lemma_sorted_distinct(self.kv_seq());
        }
    }

    /// Every stored pair is in the view.
    pub proof fn lemma_kv_in_view(&self, i: int)
        requires
            self.wf(),
            0 <= i < self.kv_seq().len(),
        ensures
            self@.contains_key(self.kv_seq()[i].0),
            self@[self.kv_seq()[i].0] == self.kv_seq()[i].1,
    {
        lemma_sorted_distinct(self.kv_seq());
        lemma_assoc_at(self.kv_seq(), i);
    }

    /// Every key in the view is a stored pair.
    pub proof fn lemma_view_in_kv(&self, k: Seq<char>)
        requires
            self@.contains_key(k),
        ensures
            exists|i: int|
                0 <= i < self.kv_seq().len() && self.kv_seq()[i].0 == k && self.kv_seq()[i].1
                    == self@[k],
    {
        lemma_assoc_find_props(self.kv_seq(), k);
        let i = assoc_find(self.kv_seq(), k);
        assert(0 <= i < self.kv_seq().len() && self.kv_seq()[i].0 == k && self.kv_seq()[i].1
            == self@[k]);
    }

    /// The map has as many entries as stored pairs.
    pub proof fn lemma_dom_len(&self)
        requires
            self.wf(),
        ensures
            self@.dom().finite(),
            self@.dom().len() == self.kv_seq().len(),
    {
        lemma_sorted_distinct(self.kv_seq());
        lemma_assoc_dom_len(self.kv_seq());
    }

    /// An empty mapping.
    pub fn new() -> (m: Self)
        ensures
            m.wf(),
            m@ == Map::<Seq<char>, T::V>::empty(),
            m.kv_seq() == Seq::<(Seq<char>, T::V)>::empty(),
    {
        let m = StrMap { entries: Vec::new() };
        proof {
            assert(m.kv_seq() =~= Seq::<(Seq<char>, T::V)>::empty());
            assert(m@ =~= Map::<Seq<char>, T::V>::empty());
        }
        m
    }

    /// Number of entries; for a well-formed mapping, the size of its domain.
    pub fn len(&self) -> (n: usize)
        ensures
            n == self.kv_seq().len(),
            self.wf() ==> n == self@.dom().len(),
    {
        proof {
            if self.wf() {
                self.lemma_dom_len();
            }
        }
        self.entries.len()
    }

    /// The key of the `i`-th pair in key order.
    pub fn key_at(&self, i: usize) -> (k: &String)
        requires
            i < self.kv_seq().len(),
        ensures
            k@ == self.kv_seq()[i as int].0,
    {
        &self.entries[i].0
    }

    /// The value of the `i`-th pair in key order.
    pub fn value_at(&self, i: usize) -> (v: &T)
        requires
            i < self.kv_seq().len(),
        ensures
            v.deep_view() == self.kv_seq()[i as int].1,
    {
        &self.entries[i].1
    }

    /// Looks a key up.
    pub fn get(&self, key: &str) -> (r: Option<&T>)
        requires
            self.wf(),
        ensures
            match r {
                Some(v) => self@.contains_key(key@) && v.deep_view() == self@[key@],
                None => !self@.contains_key(key@),
            },
    {
        let n = self.entries.len();
        let mut i: usize = 0;
        while i < n
            invariant
                0 <= i <= n == self.kv_seq().len(),
                self.wf(),
                forall|j: int| 0 <= j < i ==> self.kv_seq()[j].0 != key@,
            decreases n - i,
        {
            if str_eq(self.entries[i].0.as_str(), key) {
                proof {
                    lemma_sorted_distinct(self.kv_seq());
                    lemma_assoc_at(self.kv_seq(), i as int);
                }
                return Some(&self.entries[i].1);
            }
            i = i + 1;
        }
        proof {
            lemma_assoc_find_none(self.kv_seq(), key@);
        }
        None
    }

    /// Whether a key is present.
    pub fn contains_key(&self, key: &str) -> (r: bool)
        requires
            self.wf(),
        ensures
            r == self@.contains_key(key@),
    {
        match self.get(key) {
            Some(_) => true,
            None => false,
        }
    }

    /// Inserts a pair, replacing the value if the key is already present.
    pub fn insert(&mut self, key: String, value: T)
        requires
            old(self).wf(),
        ensures
            final(self).wf(),
            final(self)@ == old(self)@.insert(key@, value.deep_view()),
    {
        let n = self.entries.len();
        let mut i: usize = 0;
        while i < n && str_lt(self.entries[i].0.as_str(), key.as_str())
            invariant
                0 <= i <= n == self.kv_seq().len(),
                self.wf(),
                self == old(self),
                forall|j: int| 0 <= j < i ==> lex_lt(self.kv_seq()[j].0, key@),
            decreases n - i,
        {
            i = i + 1;
        }
        let ghost s = self.kv_seq();
        if i < n && str_eq(self.entries[i].0.as_str(), key.as_str()) {
            proof {
                lemma_sorted_update(s, i as int, key@, value.deep_view());
            }
            self.entries.remove(i);
            self.entries.insert(i, (key, value));
            proof {
                assert(self.kv_seq() =~= s.update(i as int, (key@, value.deep_view())));
            }
        } else {
            proof {
                if i < n {
                    assert(!lex_lt(s[i as int].0, key@));
                    if s[i as int].0 != key@ {
                        if !lex_lt(key@, s[i as int].0) {
                            lemma_lex_lt_connected(s[i as int].0, key@);
                        }
                    }
                    assert(lex_lt(key@, s[i as int].0));
                }
                lemma_sorted_insert(s, i as int, key@, value.deep_view());
            }
            self.entries.insert(i, (key, value));
            proof {
                assert(self.kv_seq() =~= s.insert(i as int, (key@, value.deep_view())));
            }
        }
    }
}

} // verus!
