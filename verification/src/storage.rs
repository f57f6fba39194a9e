//! The single-node key-value store and its interface types.
//!
//! [`MemStorage`] is the in-memory store each back-end runs: a string map,
//! a map of append-only string lists, and a monotonic clock.  Its state is
//! modelled by the lookup functions [`MemStorage::kv_of`],
//! [`MemStorage::list_of`] and [`MemStorage::clock_of`], and every
//! operation's contract pins the new state down pointwise.
use crate::err::TribblerError;
use crate::strutil::{has_prefix, has_suffix, str_ends_with, str_eq, str_starts_with};
use vstd::prelude::*;

verus! {

/// A key paired with a value.
pub struct KeyValue {
    /// the key
    pub key: String,
    /// the value
    pub value: String,
}

impl KeyValue {
    /// Builds a [`KeyValue`] from two string slices.
    pub fn new(key: &str, value: &str) -> (kv: KeyValue)
        ensures
            kv.key@ == key@,
            kv.value@ == value@,
    {
        KeyValue { key: key.to_owned(), value: value.to_owned() }
    }
}

/// An exact-match prefix and suffix pattern on keys.
pub struct Pattern {
    /// exact-match string prefix
    pub prefix: String,
    /// exact-match string suffix
    pub suffix: String,
}

impl Pattern {
    /// What it means for a key to match the pattern.
    pub open spec fn spec_matches(self, k: Seq<char>) -> bool {
        has_prefix(k, self.prefix@) && has_suffix(k, self.suffix@)
    }

    /// Whether `k` starts with the prefix and ends with the suffix.
    pub fn matches(&self, k: &str) -> (r: bool)
        ensures
            r == self.spec_matches(k@),
    {
        str_starts_with(k, self.prefix.as_str()) && str_ends_with(k, self.suffix.as_str())
    }
}

/// A wrapper around a vector of strings.
pub struct List(pub Vec<String>);

/// First-match lookup in an association sequence of key/value pairs.
pub open spec fn assoc_lookup<V>(s: Seq<(Seq<char>, V)>, k: Seq<char>) -> Option<V>
    decreases s.len(),
{
    if s.len() == 0 {
        None
    } else if s[0].0 == k {
        Some(s[0].1)
    } else {
        assoc_lookup(s.drop_first(), k)
    }
}

/// The keys of an association sequence are pairwise distinct.
pub open spec fn assoc_distinct<V>(s: Seq<(Seq<char>, V)>) -> bool {
    forall|i: int, j: int| 0 <= i < j < s.len() ==> s[i].0 != s[j].0
}

/// If no entry carries the key, the lookup returns `None`.
pub(crate) proof fn lemma_assoc_lookup_absent<V>(s: Seq<(Seq<char>, V)>, k: Seq<char>)
    requires
        forall|i: int| 0 <= i < s.len() ==> s[i].0 != k,
    ensures
        assoc_lookup(s, k) == None::<V>,
    decreases s.len(),
{
    if s.len() > 0 {
        assert(forall|i: int|
            0 <= i < s.drop_first().len() ==> s.drop_first()[i] == s[i + 1]);
        lemma_assoc_lookup_absent(s.drop_first(), k);
    }
}

/// The first entry carrying a key is what the lookup returns.
pub(crate) proof fn lemma_assoc_first_match<V>(s: Seq<(Seq<char>, V)>, i: int)
    requires
        0 <= i < s.len(),
        forall|j: int| 0 <= j < i ==> s[j].0 != s[i].0,
    ensures
        assoc_lookup(s, s[i].0) == Some(s[i].1),
    decreases s.len(),
{
    if i > 0 {
        assert(s.drop_first()[i - 1] == s[i]);
        assert(forall|j: int|
            0 <= j < s.drop_first().len() ==> s.drop_first()[j] == s[j + 1]);
        lemma_assoc_first_match(s.drop_first(), i - 1);
    }
}

/// The lookup answers exactly when some entry carries the key.
pub(crate) proof fn lemma_assoc_some_iff<V>(s: Seq<(Seq<char>, V)>, k: Seq<char>)
    ensures
        assoc_lookup(s, k) is Some <==> exists|i: int| 0 <= i < s.len() && s[i].0 == k,
    decreases s.len(),
{
    if s.len() > 0 {
        lemma_assoc_some_iff(s.drop_first(), k);
        assert(forall|i: int|
            0 <= i < s.drop_first().len() ==> s.drop_first()[i] == s[i + 1]);
        if s[0].0 != k {
            if exists|i: int| 0 <= i < s.len() && s[i].0 == k {
                let i = choose|i: int| 0 <= i < s.len() && s[i].0 == k;
                assert(s.drop_first()[i - 1] == s[i]);
            }
        }
    }
}

/// Last-entry unfolding of the first-match lookup: a trailing entry only
/// answers for its key when no earlier entry carries it.
pub(crate) proof fn lemma_assoc_front_back<V>(s: Seq<(Seq<char>, V)>, k: Seq<char>)
    requires
        s.len() > 0,
    ensures
        assoc_lookup(s, k) == if assoc_lookup(s.drop_last(), k) is Some {
            assoc_lookup(s.drop_last(), k)
        } else if s.last().0 == k {
            Some(s.last().1)
        } else {
            None::<V>
        },
    decreases s.len(),
{
    if s.len() == 1 {
        assert(s.drop_last() =~= Seq::<(Seq<char>, V)>::empty());
        assert(s[0] == s.last());
    } else {
        assert(s.drop_first().len() > 0);
        assert(s.drop_first().drop_last() =~= s.drop_last().drop_first());
        assert(s.drop_first().last() == s.last());
        assert(s.drop_last()[0] == s[0]);
        lemma_assoc_front_back(s.drop_first(), k);
    }
}

/// Push form of [`lemma_assoc_front_back`].
pub(crate) proof fn lemma_assoc_lookup_push_back<V>(s: Seq<(Seq<char>, V)>, e: (Seq<char>, V), k: Seq<char>)
    ensures
        assoc_lookup(s.push(e), k) == if assoc_lookup(s, k) is Some {
            assoc_lookup(s, k)
        } else if e.0 == k {
            Some(e.1)
        } else {
            None::<V>
        },
{
    lemma_assoc_front_back(s.push(e), k);
    assert(s.push(e).drop_last() =~= s);
    assert(s.push(e).last() == e);
}

/// Removing every entry with key `key` leaves the lookup at other keys
/// unchanged and makes the lookup at `key` come up empty.
proof fn lemma_assoc_lookup_filter<V>(
    s: Seq<(Seq<char>, V)>,
    pred: spec_fn((Seq<char>, V)) -> bool,
    key: Seq<char>,
    k: Seq<char>,
)
    requires
        forall|e: (Seq<char>, V)| #[trigger] pred(e) == (e.0 != key),
    ensures
        k != key ==> assoc_lookup(s.filter(pred), k) == assoc_lookup(s, k),
        assoc_lookup(s.filter(pred), key) == None::<V>,
    decreases s.len(),
{
    reveal(Seq::filter);
    if s.len() > 0 {
        lemma_assoc_lookup_filter(s.drop_last(), pred, key, k);
        let g = s.drop_last().filter(pred);
        if pred(s.last()) {
            lemma_assoc_front_back(s, k);
            lemma_assoc_front_back(s, key);
            lemma_assoc_lookup_push_back(g, s.last(), k);
            lemma_assoc_lookup_push_back(g, s.last(), key);
        } else {
            lemma_assoc_front_back(s, k);
        }
    } else {
        assert(s.filter(pred) =~= s);
    }
}

/// Every element of a filtered sequence occurs in the original.
proof fn lemma_filter_sub<A>(s: Seq<A>, pred: spec_fn(A) -> bool)
    ensures
        forall|j: int| 0 <= j < s.filter(pred).len() ==> s.contains(#[trigger] s.filter(pred)[j]),
    decreases s.len(),
{
    reveal(Seq::filter);
    if s.len() > 0 {
        lemma_filter_sub(s.drop_last(), pred);
        let f = s.filter(pred);
        let g = s.drop_last().filter(pred);
        assert forall|j: int| 0 <= j < f.len() implies s.contains(f[j]) by {
            if pred(s.last()) && j == f.len() - 1 {
                assert(f[j] == s.last());
                assert(s[s.len() - 1] == s.last());
            } else {
                assert(f[j] == g[j]);
                assert(s.drop_last().contains(g[j]));
                let x = choose|x: int| 0 <= x < s.drop_last().len() && s.drop_last()[x] == g[j];
                assert(s[x] == g[j]);
            }
        }
    }
}

/// Filtering an association sequence with distinct keys keeps the keys
/// distinct.
proof fn lemma_assoc_filter_distinct<V>(
    s: Seq<(Seq<char>, V)>,
    pred: spec_fn((Seq<char>, V)) -> bool,
)
    requires
        assoc_distinct(s),
    ensures
        assoc_distinct(s.filter(pred)),
    decreases s.len(),
{
    reveal(Seq::filter);
    if s.len() > 0 {
        assert(assoc_distinct(s.drop_last())) by {
            assert(forall|i: int| 0 <= i < s.drop_last().len() ==> s.drop_last()[i] == s[i]);
        }
        lemma_assoc_filter_distinct(s.drop_last(), pred);
        let g = s.drop_last().filter(pred);
        if pred(s.last()) {
            lemma_filter_sub(s.drop_last(), pred);
            assert forall|i: int, j: int|
                0 <= i < j < g.push(s.last()).len() implies g.push(s.last())[i].0 != g.push(
                s.last(),
            )[j].0 by {
                if j == g.len() {
                    assert(g.push(s.last())[i] == g[i]);
                    assert(s.drop_last().contains(g[i]));
                    let x = choose|x: int|
                        0 <= x < s.drop_last().len() && s.drop_last()[x] == g[i];
                    assert(s[x] == g[i]);
                    assert(s[x].0 != s[s.len() - 1].0);
                } else {
                    assert(g.push(s.last())[i] == g[i]);
                    assert(g.push(s.last())[j] == g[j]);
                }
            }
        }
    }
}

/// The string-cell lookup after a `set`, pointwise: at the written key an
/// empty value deletes and any other value overwrites; elsewhere nothing
/// changes.
pub open spec fn set_result(
    prev: Option<Seq<char>>,
    k: Seq<char>,
    key: Seq<char>,
    value: Seq<char>,
) -> Option<Seq<char>> {
    if k == key {
        if value.len() == 0 {
            None
        } else {
            Some(value)
        }
    } else {
        prev
    }
}

/// A list with every entry equal to `v` taken out, order kept.
pub open spec fn remove_all(l: Seq<Seq<char>>, v: Seq<char>) -> Seq<Seq<char>>
    decreases l.len(),
{
    if l.len() == 0 {
        Seq::empty()
    } else if l.last() == v {
        remove_all(l.drop_last(), v)
    } else {
        remove_all(l.drop_last(), v).push(l.last())
    }
}

/// How many entries of a list equal a value.
pub open spec fn count_matches(l: Seq<Seq<char>>, v: Seq<char>) -> nat
    decreases l.len(),
{
    if l.len() == 0 {
        0
    } else {
        count_matches(l.drop_last(), v) + if l.last() == v {
            1nat
        } else {
            0nat
        }
    }
}

/// The value a `clock(at_least)` call returns.
pub open spec fn clock_read(c: u64, at_least: u64) -> u64 {
    if c < at_least {
        at_least
    } else {
        c
    }
}

/// The clock state after a `clock(at_least)` call.
pub open spec fn clock_next(c: u64, at_least: u64) -> u64 {
    if clock_read(c, at_least) < u64::MAX {
        (clock_read(c, at_least) + 1) as u64
    } else {
        clock_read(c, at_least)
    }
}

/// Setting a non-empty value and reading it back gives the value.
pub proof fn lemma_set_then_get(prev: Option<Seq<char>>, key: Seq<char>, value: Seq<char>)
    requires
        value.len() > 0,
    ensures
        set_result(prev, key, key, value) == Some(value),
{
}

/// Setting the empty value deletes the key.
pub proof fn lemma_set_empty_deletes(prev: Option<Seq<char>>, key: Seq<char>)
    ensures
        set_result(prev, key, key, Seq::<char>::empty()) == None::<Seq<char>>,
{
}

/// A list without the value has a zero match count.
proof fn lemma_count_matches_absent(l: Seq<Seq<char>>, v: Seq<char>)
    requires
        !l.contains(v),
    ensures
        count_matches(l, v) == 0,
    decreases l.len(),
{
    if l.len() > 0 {
        assert(l[l.len() - 1] != v);
        assert(forall|i: int| 0 <= i < l.drop_last().len() ==> l.drop_last()[i] == l[i]);
        lemma_count_matches_absent(l.drop_last(), v);
    }
}

/// Appending a value that a list does not yet hold and then removing it by
/// value removes exactly one entry.
pub proof fn lemma_append_then_remove(l: Seq<Seq<char>>, v: Seq<char>)
    requires
        !l.contains(v),
    ensures
        count_matches(l.push(v), v) == 1,
{
    assert(l.push(v).drop_last() =~= l);
    assert(l.push(v).last() == v);
    lemma_count_matches_absent(l, v);
}

/// Two successive clock reads on one store: the later one is strictly
/// larger unless the first already returned the 64-bit maximum.
pub proof fn lemma_clock_strictly_increases(c0: u64, a1: u64, a2: u64)
    ensures
        clock_read(c0, a1) < clock_read(clock_next(c0, a1), a2) || clock_read(c0, a1)
            == u64::MAX,
{
}

/// A clock read never answers below `at_least`, nor below the state.
pub proof fn lemma_clock_read_bounds(c: u64, at_least: u64)
    ensures
        clock_read(c, at_least) >= at_least,
        clock_read(c, at_least) >= c,
        clock_next(c, at_least) >= clock_read(c, at_least),
{
}

/// Finds the first entry with the given key.
pub(crate) fn assoc_find<V: DeepView>(v: &Vec<(String, V)>, key: &str) -> (r: Option<usize>)
    ensures
        match r {
            Some(i) => 0 <= i < v@.len() && v.deep_view()[i as int].0 == key@ && forall|j: int|
                0 <= j < i ==> v.deep_view()[j].0 != key@,
            None => forall|j: int| 0 <= j < v@.len() ==> v.deep_view()[j].0 != key@,
        },
{
    let mut i: usize = 0;
    while i < v.len()
        invariant
            i <= v@.len(),
            forall|j: int| 0 <= j < i ==> v.deep_view()[j].0 != key@,
        decreases v@.len() - i,
    {
        if str_eq(v[i].0.as_str(), key) {
            proof {
                assert(v.deep_view()[i as int].0 == v@[i as int].0@);
            }
            return Some(i);
        }
        proof {
            assert(v.deep_view()[i as int].0 == v@[i as int].0@);
        }
        i = i + 1;
    }
    None
}

/// Removing an entry takes its key out of the lookup and leaves every
/// other key unchanged.
pub(crate) proof fn lemma_assoc_remove<V>(s: Seq<(Seq<char>, V)>, i: int, k: Seq<char>)
    requires
        assoc_distinct(s),
        0 <= i < s.len(),
    ensures
        s[i].0 == k ==> assoc_lookup(s.remove(i), k) == None::<V>,
        s[i].0 != k ==> assoc_lookup(s.remove(i), k) == assoc_lookup(s, k),
    decreases s.len(),
{
    if i == 0 {
        assert(s.remove(0) =~= s.drop_first());
        if s[0].0 == k {
            assert(forall|j: int|
                0 <= j < s.drop_first().len() ==> #[trigger] s.drop_first()[j] == s[j + 1]);
            lemma_assoc_lookup_absent(s.drop_first(), k);
        }
    } else {
        assert(forall|j: int|
            0 <= j < s.drop_first().len() ==> #[trigger] s.drop_first()[j] == s[j + 1]);
        assert(assoc_distinct(s.drop_first()));
        assert(s.remove(i)[0] == s[0]);
        assert(s.remove(i).drop_first() =~= s.drop_first().remove(i - 1));
        lemma_assoc_remove(s.drop_first(), i - 1, k);
        if s[0].0 == k {
            assert(assoc_lookup(s.remove(i), k) == Some(s[0].1));
        }
    }
}

/// Clones a vector of strings element by element.
fn clone_string_vec(v: &Vec<String>) -> (r: Vec<String>)
    ensures
        r.deep_view() == v.deep_view(),
{
    let mut out: Vec<String> = Vec::new();
    let mut i: usize = 0;
    while i < v.len()
        invariant
            i <= v@.len(),
            out@.len() == i,
            forall|j: int| 0 <= j < i ==> out@[j]@ == v@[j]@,
        decreases v@.len() - i,
    {
        out.push(v[i].clone());
        i = i + 1;
    }
    proof {
        assert(out.deep_view() =~= v.deep_view());
    }
    out
}

/// An in-memory implementation of the back-end storage service: one string
/// map, one map of append-only lists, and a monotonic clock.
pub struct MemStorage {
    kvs: Vec<(String, String)>,
    kv_list: Vec<(String, Vec<String>)>,
    clock: u64,
}

impl MemStorage {
    /// The stored value of a string cell, or `None` when unset.
    pub closed spec fn kv_of(self, k: Seq<char>) -> Option<Seq<char>> {
        assoc_lookup(self.kvs.deep_view(), k)
    }

    /// The stored list under a key; the empty sequence when unset.
    pub closed spec fn list_of(self, k: Seq<char>) -> Seq<Seq<char>> {
        match assoc_lookup(self.kv_list.deep_view(), k) {
            Some(l) => l,
            None => Seq::empty(),
        }
    }

    /// The clock state: the smallest value the next read may return.
    pub closed spec fn clock_of(self) -> u64 {
        self.clock
    }

    /// Internal well-formedness: keys are unique, cells hold no empty
    /// value, and no empty list is kept.
    pub closed spec fn wf(self) -> bool {
        &&& assoc_distinct(self.kvs.deep_view())
        &&& assoc_distinct(self.kv_list.deep_view())
        &&& forall|i: int|
            0 <= i < self.kvs@.len() ==> #[trigger] self.kvs.deep_view()[i].1.len() > 0
        &&& forall|i: int|
            0 <= i < self.kv_list@.len() ==> #[trigger] self.kv_list.deep_view()[i].1.len() > 0
    }

    /// Creates an empty store.
    pub fn new() -> (s: MemStorage)
        ensures
            s.wf(),
            forall|k: Seq<char>| #[trigger] s.kv_of(k) == None::<Seq<char>>,
            forall|k: Seq<char>| #[trigger] s.list_of(k) == Seq::<Seq<char>>::empty(),
            s.clock_of() == 0,
    {
        let s = MemStorage { kvs: Vec::new(), kv_list: Vec::new(), clock: 0 };
        proof {
            assert(s.kvs.deep_view() =~= Seq::<(Seq<char>, Seq<char>)>::empty());
            assert(s.kv_list.deep_view() =~= Seq::<(Seq<char>, Seq<Seq<char>>)>::empty());
        }
        s
    }

    /// Gets a value; `None` when no value is set.
    pub fn get(&self, key: &str) -> (r: Result<Option<String>, TribblerError>)
        ensures
            r matches Ok(v) && v.deep_view() == self.kv_of(key@),
    {
        match assoc_find(&self.kvs, key) {
            Some(i) => {
                proof {
                    lemma_assoc_first_match(self.kvs.deep_view(), i as int);
                    assert(self.kvs.deep_view()[i as int].1 == self.kvs@[i as int].1@);
                }
                Ok(Some(self.kvs[i].1.clone()))
            },
            None => {
                proof {
                    lemma_assoc_lookup_absent(self.kvs.deep_view(), key@);
                }
                Ok(None)
            },
        }
    }

    /// Sets a string cell; an empty value deletes the key.
    pub fn set(&mut self, kv: &KeyValue) -> (r: Result<bool, TribblerError>)
        requires
            old(self).wf(),
        ensures
            final(self).wf(),
            r == Ok::<bool, TribblerError>(true),
            forall|k: Seq<char>| #[trigger]
                final(self).kv_of(k) == set_result(old(self).kv_of(k), k, kv.key@, kv.value@),
            forall|k: Seq<char>| #[trigger] final(self).list_of(k) == old(self).list_of(k),
            final(self).clock_of() == old(self).clock_of(),
    {
        let ghost s0 = self.kvs.deep_view();
        let ghost pred = |e: (Seq<char>, Seq<char>)| e.0 != kv.key@;
        let mut out: Vec<(String, String)> = Vec::new();
        let mut j: usize = 0;
        proof {
            assert(s0.subrange(0, 0) =~= Seq::<(Seq<char>, Seq<char>)>::empty());
            assert(out.deep_view() =~= s0.subrange(0, 0).filter(pred));
        }
        while j < self.kvs.len()
            invariant
                self.kvs.deep_view() == s0,
                self.kvs@.len() == s0.len(),
                j <= s0.len(),
                out.deep_view() == s0.subrange(0, j as int).filter(pred),
                pred == (|e: (Seq<char>, Seq<char>)| e.0 != kv.key@),
            decreases s0.len() - j,
        {
            proof {
                reveal(Seq::filter);
                assert(s0.subrange(0, j + 1).drop_last() =~= s0.subrange(0, j as int));
                assert(s0.subrange(0, j + 1).last() == s0[j as int]);
                assert(s0[j as int] == (self.kvs@[j as int].0@, self.kvs@[j as int].1@));
            }
            let ghost outdv = out.deep_view();
            let matched = str_eq(self.kvs[j].0.as_str(), kv.key.as_str());
            if !matched {
                let e0 = self.kvs[j].0.clone();
                let e1 = self.kvs[j].1.clone();
                out.push((e0, e1));
                proof {
                    assert(out.deep_view() =~= outdv.push(s0[j as int]));
                }
            }
            proof {
                assert(out.deep_view() =~= s0.subrange(0, j + 1).filter(pred));
            }
            j = j + 1;
        }
        proof {
            assert(s0.subrange(0, s0.len() as int) =~= s0);
        }
        let ghost f = s0.filter(pred);
        let wrote = !kv.value.as_str().is_empty();
        if wrote {
            let nk = kv.key.clone();
            let nv = kv.value.clone();
            let ghost outdv = out.deep_view();
            out.push((nk, nv));
            proof {
                assert(out.deep_view() =~= outdv.push((kv.key@, kv.value@)));
            }
        }
        self.kvs = out;
        proof {
            lemma_assoc_filter_distinct(s0, pred);
            lemma_filter_sub(s0, pred);
            assert forall|k: Seq<char>| #[trigger]
                self.kv_of(k) == set_result(
                old(self).kv_of(k),
                k,
                kv.key@,
                kv.value@,
            ) by {
                lemma_assoc_lookup_filter(s0, pred, kv.key@, k);
                if wrote {
                    lemma_assoc_lookup_push_back(f, (kv.key@, kv.value@), k);
                }
            }
            assert(self.wf()) by {
                if wrote {
                    assert forall|i: int, j2: int|
                        0 <= i < j2 < self.kvs.deep_view().len() implies self.kvs.deep_view()[i].0 != self.kvs.deep_view()[j2].0 by {
                        if j2 == f.len() {
                            assert(self.kvs.deep_view()[i] == f[i]);
                            s0.lemma_filter_pred(pred, i);
                        }
                    }
                }
                assert forall|i: int|
                    0 <= i < self.kvs@.len() implies #[trigger] self.kvs.deep_view()[i].1.len() > 0 by {
                    if !wrote || i < f.len() {
                        assert(self.kvs.deep_view()[i] == f[i]);
                        assert(s0.contains(f[i]));
                        let x = choose|x: int| 0 <= x < s0.len() && s0[x] == f[i];
                        assert(s0[x].1.len() > 0);
                    }
                }
            }
            assert(forall|k: Seq<char>| #[trigger]
                self.list_of(k) == old(self).list_of(k));
        }
        Ok(true)
    }

    /// Lists the keys of non-empty string cells that match the pattern.
    /// The order of the answer carries no meaning.
    pub fn keys(&self, p: &Pattern) -> (r: Result<List, TribblerError>)
        requires
            self.wf(),
        ensures
            r matches Ok(l) && l.0.deep_view().no_duplicates() && forall|k: Seq<char>| #[trigger]
                l.0.deep_view().contains(k) <==> (self.kv_of(k) is Some && p.spec_matches(k)),
    {
        let ghost dv = self.kvs.deep_view();
        let mut out: Vec<String> = Vec::new();
        let mut j: usize = 0;
        while j < self.kvs.len()
            invariant
                self.kvs.deep_view() == dv,
                self.kvs@.len() == dv.len(),
                j <= dv.len(),
                assoc_distinct(dv),
                out.deep_view().no_duplicates(),
                forall|k: Seq<char>| #[trigger]
                    out.deep_view().contains(k) <==> exists|x: int|
                        0 <= x < j && #[trigger] dv[x].0 == k && p.spec_matches(k),
            decreases dv.len() - j,
        {
            proof {
                assert(dv[j as int].0 == self.kvs@[j as int].0@);
            }
            let ghost odv = out.deep_view();
            if p.matches(self.kvs[j].0.as_str()) {
                out.push(self.kvs[j].0.clone());
                proof {
                    assert(out.deep_view() =~= odv.push(dv[j as int].0));
                    assert(!odv.contains(dv[j as int].0));
                    assert forall|k: Seq<char>| #[trigger]
                        out.deep_view().contains(k) <==> exists|x: int|
                            0 <= x < j + 1 && #[trigger] dv[x].0 == k && p.spec_matches(
                            k,
                        ) by {
                        let ndv = out.deep_view();
                        if ndv.contains(k) {
                            let w = choose|w: int| 0 <= w < ndv.len() && ndv[w] == k;
                            if w < odv.len() {
                                assert(odv[w] == k);
                                assert(odv.contains(k));
                            } else {
                                assert(k == dv[j as int].0);
                            }
                        }
                        if exists|x: int|
                            0 <= x < j + 1 && #[trigger] dv[x].0 == k && p.spec_matches(k) {
                            let x = choose|x: int|
                                0 <= x < j + 1 && #[trigger] dv[x].0 == k && p.spec_matches(k);
                            if x < j {
                                assert(odv.contains(k));
                                let w = choose|w: int| 0 <= w < odv.len() && odv[w] == k;
                                assert(ndv[w] == k);
                            } else {
                                assert(ndv[ndv.len() - 1] == k);
                            }
                        }
                    }
                }
            } else {
                proof {
                    assert forall|k: Seq<char>| #[trigger]
                        out.deep_view().contains(k) <==> exists|x: int|
                            0 <= x < j + 1 && #[trigger] dv[x].0 == k && p.spec_matches(
                            k,
                        ) by {
                        if exists|x: int|
                            0 <= x < j + 1 && #[trigger] dv[x].0 == k && p.spec_matches(k) {
                            let x = choose|x: int|
                                0 <= x < j + 1 && #[trigger] dv[x].0 == k && p.spec_matches(k);
                            assert(x < j || k == dv[j as int].0);
                        }
                    }
                }
            }
            j = j + 1;
        }
        proof {
            assert forall|k: Seq<char>| #[trigger]
                out.deep_view().contains(k) <==> (self.kv_of(k) is Some && p.spec_matches(
                k,
            )) by {
                lemma_assoc_some_iff(dv, k);
            }
        }
        Ok(List(out))
    }

    /// Lists the keys of non-empty lists that match the pattern, in
    /// ascending order.
    pub fn list_keys(&self, p: &Pattern) -> (r: Result<List, TribblerError>)
        requires
            self.wf(),
        ensures
            r matches Ok(l) && l.0.deep_view().no_duplicates() && vstd::relations::sorted_by(
                l.0.deep_view(),
                |a: Seq<char>, b: Seq<char>| crate::strutil::lex_le(a, b),
            ) && forall|k: Seq<char>| #[trigger]
                l.0.deep_view().contains(k) <==> (self.list_of(k).len() > 0 && p.spec_matches(k)),
            r matches Ok(l) ==> forall|m1: int, m2: int|
                0 <= m1 < m2 < l.0.deep_view().len() ==> crate::strutil::lex_le(
                    #[trigger] l.0.deep_view()[m1],
                    #[trigger] l.0.deep_view()[m2],
                ),
    {
        broadcast use vstd::seq_lib::group_to_multiset_ensures;

        let ghost dv = self.kv_list.deep_view();
        let mut raw: Vec<String> = Vec::new();
        let mut j: usize = 0;
        while j < self.kv_list.len()
            invariant
                self.kv_list.deep_view() == dv,
                self.kv_list@.len() == dv.len(),
                j <= dv.len(),
                assoc_distinct(dv),
                raw.deep_view().no_duplicates(),
                forall|k: Seq<char>| #[trigger]
                    raw.deep_view().contains(k) <==> exists|x: int|
                        0 <= x < j && #[trigger] dv[x].0 == k && p.spec_matches(k),
            decreases dv.len() - j,
        {
            proof {
                assert(dv[j as int].0 == self.kv_list@[j as int].0@);
            }
            let ghost odv = raw.deep_view();
            if p.matches(self.kv_list[j].0.as_str()) {
                raw.push(self.kv_list[j].0.clone());
                proof {
                    assert(raw.deep_view() =~= odv.push(dv[j as int].0));
                    assert(!odv.contains(dv[j as int].0));
                    assert forall|k: Seq<char>| #[trigger]
                        raw.deep_view().contains(k) <==> exists|x: int|
                            0 <= x < j + 1 && #[trigger] dv[x].0 == k && p.spec_matches(
                            k,
                        ) by {
                        let ndv = raw.deep_view();
                        if ndv.contains(k) {
                            let w = choose|w: int| 0 <= w < ndv.len() && ndv[w] == k;
                            if w < odv.len() {
                                assert(odv[w] == k);
                                assert(odv.contains(k));
                            } else {
                                assert(k == dv[j as int].0);
                            }
                        }
                        if exists|x: int|
                            0 <= x < j + 1 && #[trigger] dv[x].0 == k && p.spec_matches(k) {
                            let x = choose|x: int|
                                0 <= x < j + 1 && #[trigger] dv[x].0 == k && p.spec_matches(k);
                            if x < j {
                                assert(odv.contains(k));
                                let w = choose|w: int| 0 <= w < odv.len() && odv[w] == k;
                                assert(ndv[w] == k);
                            } else {
                                assert(ndv[ndv.len() - 1] == k);
                            }
                        }
                    }
                }
            } else {
                proof {
                    assert forall|k: Seq<char>| #[trigger]
                        raw.deep_view().contains(k) <==> exists|x: int|
                            0 <= x < j + 1 && #[trigger] dv[x].0 == k && p.spec_matches(
                            k,
                        ) by {
                        if exists|x: int|
                            0 <= x < j + 1 && #[trigger] dv[x].0 == k && p.spec_matches(k) {
                            let x = choose|x: int|
                                0 <= x < j + 1 && #[trigger] dv[x].0 == k && p.spec_matches(k);
                            assert(x < j || k == dv[j as int].0);
                        }
                    }
                }
            }
            j = j + 1;
        }
        let sorted = crate::strutil::sort_strings(&raw);
        proof {
            let rs = raw.deep_view();
            let ss = sorted.deep_view();
            rs.lemma_multiset_has_no_duplicates();
            assert forall|k: Seq<char>| #[trigger] ss.contains(k) == rs.contains(k) by {
                assert(ss.contains(k) <==> ss.to_multiset().count(k) > 0);
                assert(rs.contains(k) <==> rs.to_multiset().count(k) > 0);
            }
            ss.lemma_multiset_has_no_duplicates_conv();
            assert forall|k: Seq<char>| #[trigger]
                ss.contains(k) <==> (self.list_of(k).len() > 0 && p.spec_matches(k)) by {
                lemma_assoc_some_iff(dv, k);
                if self.list_of(k).len() > 0 {
                    assert(assoc_lookup(dv, k) is Some);
                }
                if assoc_lookup(dv, k) is Some {
                    let x = choose|x: int| 0 <= x < dv.len() && dv[x].0 == k;
                    lemma_assoc_first_match(dv, x);
                    assert(dv[x].1.len() > 0);
                }
            }
        }
        Ok(List(sorted))
    }

    /// Gets the list under a key; empty if not set.
    pub fn list_get(&self, key: &str) -> (r: Result<List, TribblerError>)
        ensures
            r matches Ok(l) && l.0.deep_view() == self.list_of(key@),
    {
        match assoc_find(&self.kv_list, key) {
            Some(i) => {
                proof {
                    lemma_assoc_first_match(self.kv_list.deep_view(), i as int);
                    assert(self.kv_list.deep_view()[i as int].1 == self.kv_list@[
                        i as int].1.deep_view());
                }
                Ok(List(clone_string_vec(&self.kv_list[i].1)))
            },
            None => {
                proof {
                    lemma_assoc_lookup_absent(self.kv_list.deep_view(), key@);
                }
                let out: Vec<String> = Vec::new();
                proof {
                    assert(out.deep_view() =~= Seq::<Seq<char>>::empty());
                }
                Ok(List(out))
            },
        }
    }

    /// Appends a value to the list under a key.
    pub fn list_append(&mut self, kv: &KeyValue) -> (r: Result<bool, TribblerError>)
        requires
            old(self).wf(),
        ensures
            final(self).wf(),
            r == Ok::<bool, TribblerError>(true),
            forall|k: Seq<char>| #[trigger]
                final(self).list_of(k) == if k == kv.key@ {
                    old(self).list_of(k).push(kv.value@)
                } else {
                    old(self).list_of(k)
                },
            forall|k: Seq<char>| #[trigger] final(self).kv_of(k) == old(self).kv_of(k),
            final(self).clock_of() == old(self).clock_of(),
    {
        let ghost s0 = self.kv_list.deep_view();
        match assoc_find(&self.kv_list, kv.key.as_str()) {
            Some(i) => {
                proof {
                    lemma_assoc_first_match(s0, i as int);
                    assert(s0[i as int].1 == self.kv_list@[i as int].1.deep_view());
                }
                let mut e = self.kv_list.remove(i);
                let ghost l0 = e.1.deep_view();
                e.1.push(kv.value.clone());
                proof {
                    assert(e.1.deep_view() =~= l0.push(kv.value@));
                    assert(self.kv_list.deep_view() =~= s0.remove(i as int));
                }
                let ghost sr = self.kv_list.deep_view();
                self.kv_list.push(e);
                proof {
                    assert(self.kv_list.deep_view() =~= sr.push(
                        (kv.key@, l0.push(kv.value@))));
                    assert forall|k: Seq<char>| #[trigger]
                        self.list_of(k) == if k == kv.key@ {
                            old(self).list_of(k).push(kv.value@)
                        } else {
                            old(self).list_of(k)
                        } by {
                        lemma_assoc_remove(s0, i as int, k);
                        lemma_assoc_lookup_push_back(sr, (kv.key@, l0.push(kv.value@)), k);
                    }
                    assert(self.wf()) by {
                        assert forall|a: int, b: int|
                            0 <= a < b < self.kv_list.deep_view().len() implies self
                            .kv_list.deep_view()[a].0 != self.kv_list.deep_view()[b].0 by {
                            if b == sr.len() {
                                assert(self.kv_list.deep_view()[a] == sr[a]);
                                assert(sr[a] == if a < i {
                                    s0[a]
                                } else {
                                    s0[a + 1]
                                });
                            } else {
                                assert(self.kv_list.deep_view()[a] == sr[a]);
                                assert(self.kv_list.deep_view()[b] == sr[b]);
                                assert(sr[a] == if a < i {
                                    s0[a]
                                } else {
                                    s0[a + 1]
                                });
                                assert(sr[b] == if b < i {
                                    s0[b]
                                } else {
                                    s0[b + 1]
                                });
                            }
                        }
                        assert forall|a: int|
                            0 <= a < self.kv_list@.len() implies #[trigger] self
                            .kv_list.deep_view()[a].1.len() > 0 by {
                            if a < sr.len() {
                                assert(self.kv_list.deep_view()[a] == sr[a]);
                                assert(sr[a] == if a < i {
                                    s0[a]
                                } else {
                                    s0[a + 1]
                                });
                            }
                        }
                    }
                }
                Ok(true)
            },
            None => {
                proof {
                    lemma_assoc_lookup_absent(s0, kv.key@);
                }
                let mut l: Vec<String> = Vec::new();
                l.push(kv.value.clone());
                proof {
                    assert(l.deep_view() =~= Seq::<Seq<char>>::empty().push(kv.value@));
                }
                self.kv_list.push((kv.key.clone(), l));
                proof {
                    assert(self.kv_list.deep_view() =~= s0.push(
                        (kv.key@, Seq::<Seq<char>>::empty().push(kv.value@))));
                    assert forall|k: Seq<char>| #[trigger]
                        self.list_of(k) == if k == kv.key@ {
                            old(self).list_of(k).push(kv.value@)
                        } else {
                            old(self).list_of(k)
                        } by {
                        lemma_assoc_lookup_push_back(
                            s0,
                            (kv.key@, Seq::<Seq<char>>::empty().push(kv.value@)),
                            k,
                        );
                    }
                    assert(self.wf()) by {
                        assert forall|a: int, b: int|
                            0 <= a < b < self.kv_list.deep_view().len() implies self
                            .kv_list.deep_view()[a].0 != self.kv_list.deep_view()[b].0 by {
                            if b == s0.len() {
                                assert(self.kv_list.deep_view()[a] == s0[a]);
                            } else {
                                assert(self.kv_list.deep_view()[a] == s0[a]);
                                assert(self.kv_list.deep_view()[b] == s0[b]);
                            }
                        }
                        assert forall|a: int|
                            0 <= a < self.kv_list@.len() implies #[trigger] self
                            .kv_list.deep_view()[a].1.len() > 0 by {
                            if a < s0.len() {
                                assert(self.kv_list.deep_view()[a] == s0[a]);
                            }
                        }
                    }
                }
                Ok(true)
            },
        }
    }

    /// Removes every entry equal to `kv.value` from the list under
    /// `kv.key` and reports how many went; an emptied list is dropped.
    pub fn list_remove(&mut self, kv: &KeyValue) -> (r: Result<u32, TribblerError>)
        requires
            old(self).wf(),
        ensures
            final(self).wf(),
            forall|k: Seq<char>| #[trigger]
                final(self).list_of(k) == if k == kv.key@ {
                    remove_all(old(self).list_of(k), kv.value@)
                } else {
                    old(self).list_of(k)
                },
            forall|k: Seq<char>| #[trigger] final(self).kv_of(k) == old(self).kv_of(k),
            final(self).clock_of() == old(self).clock_of(),
            r matches Ok(c) && ({
                let cnt = count_matches(old(self).list_of(kv.key@), kv.value@);
                cnt <= u32::MAX as nat ==> c as nat == cnt
            }),
    {
        let ghost s0 = self.kv_list.deep_view();
        let ghost predv = |x: Seq<char>| x != kv.value@;
        match assoc_find(&self.kv_list, kv.key.as_str()) {
            Some(i) => {
                proof {
                    lemma_assoc_first_match(s0, i as int);
                    assert(s0[i as int].1 == self.kv_list@[i as int].1.deep_view());
                }
                let e = self.kv_list.remove(i);
                proof {
                    assert(self.kv_list.deep_view() =~= s0.remove(i as int));
                }
                let ghost sr = self.kv_list.deep_view();
                let ghost ldv = e.1.deep_view();
                let mut out: Vec<String> = Vec::new();
                let mut j: usize = 0;
                proof {
                    assert(ldv.subrange(0, 0) =~= Seq::<Seq<char>>::empty());
                    assert(out.deep_view() =~= ldv.subrange(0, 0).filter(predv));
                }
                while j < e.1.len()
                    invariant
                        e.1.deep_view() == ldv,
                        e.1@.len() == ldv.len(),
                        j <= ldv.len(),
                        out.deep_view() == ldv.subrange(0, j as int).filter(predv),
                        out@.len() <= j,
                        predv == (|x: Seq<char>| x != kv.value@),
                    decreases ldv.len() - j,
                {
                    proof {
                        reveal(Seq::filter);
                        assert(ldv.subrange(0, j + 1).drop_last() =~= ldv.subrange(
                            0,
                            j as int,
                        ));
                        assert(ldv.subrange(0, j + 1).last() == ldv[j as int]);
                        assert(ldv[j as int] == e.1@[j as int]@);
                    }
                    let ghost outdv = out.deep_view();
                    if !str_eq(e.1[j].as_str(), kv.value.as_str()) {
                        out.push(e.1[j].clone());
                        proof {
                            assert(out.deep_view() =~= outdv.push(ldv[j as int]));
                        }
                    }
                    proof {
                        assert(out.deep_view() =~= ldv.subrange(0, j + 1).filter(predv));
                    }
                    j = j + 1;
                }
                proof {
                    assert(ldv.subrange(0, ldv.len() as int) =~= ldv);
                    lemma_count_filter_general(ldv, predv, kv.value@);
                }
                let removed = e.1.len() - out.len();
                let ghost f = ldv.filter(predv);
                if out.len() > 0 {
                    self.kv_list.push((e.0, out));
                    proof {
                        assert(self.kv_list.deep_view() =~= sr.push((kv.key@, f)));
                        assert forall|k: Seq<char>| #[trigger]
                            self.list_of(k) == if k == kv.key@ {
                                remove_all(old(self).list_of(k), kv.value@)
                            } else {
                                old(self).list_of(k)
                            } by {
                            lemma_assoc_remove(s0, i as int, k);
                            lemma_assoc_lookup_push_back(sr, (kv.key@, f), k);
                            lemma_filter_is_remove_all(old(self).list_of(k), predv, kv.value@);
                        }
                        assert(self.wf()) by {
                            assert forall|a: int, b: int|
                                0 <= a < b < self.kv_list.deep_view().len() implies self
                                .kv_list.deep_view()[a].0 != self.kv_list.deep_view()[b].0 by {
                                assert(a < sr.len());
                                assert(self.kv_list.deep_view()[a] == sr[a]);
                                assert(sr[a] == if a < i {
                                    s0[a]
                                } else {
                                    s0[a + 1]
                                });
                                if b < sr.len() {
                                    assert(self.kv_list.deep_view()[b] == sr[b]);
                                    assert(sr[b] == if b < i {
                                        s0[b]
                                    } else {
                                        s0[b + 1]
                                    });
                                }
                            }
                            assert forall|a: int|
                                0 <= a < self.kv_list@.len() implies #[trigger] self
                                .kv_list.deep_view()[a].1.len() > 0 by {
                                if a < sr.len() {
                                    assert(self.kv_list.deep_view()[a] == sr[a]);
                                    assert(sr[a] == if a < i {
                                        s0[a]
                                    } else {
                                        s0[a + 1]
                                    });
                                }
                            }
                        }
                    }
                } else {
                    proof {
                        assert(f =~= out.deep_view());
                        assert(f.len() == 0);
                        assert forall|k: Seq<char>| #[trigger]
                            self.list_of(k) == if k == kv.key@ {
                                remove_all(old(self).list_of(k), kv.value@)
                            } else {
                                old(self).list_of(k)
                            } by {
                            lemma_assoc_remove(s0, i as int, k);
                            lemma_filter_is_remove_all(old(self).list_of(k), predv, kv.value@);
                            if k == kv.key@ {
                                assert(remove_all(old(self).list_of(k), kv.value@) =~= Seq::<
                                    Seq<char>>::empty());
                            }
                        }
                        assert(self.wf()) by {
                            assert forall|a: int, b: int|
                                0 <= a < b < self.kv_list.deep_view().len() implies self
                                .kv_list.deep_view()[a].0 != self.kv_list.deep_view()[b].0 by {
                                assert(sr[a] == if a < i {
                                    s0[a]
                                } else {
                                    s0[a + 1]
                                });
                                assert(sr[b] == if b < i {
                                    s0[b]
                                } else {
                                    s0[b + 1]
                                });
                            }
                            assert forall|a: int|
                                0 <= a < self.kv_list@.len() implies #[trigger] self
                                .kv_list.deep_view()[a].1.len() > 0 by {
                                assert(sr[a] == if a < i {
                                    s0[a]
                                } else {
                                    s0[a + 1]
                                });
                            }
                        }
                    }
                }
                proof {
                    assert(removed == count_matches(ldv, kv.value@));
                }
                Ok(#[verifier::truncate] (removed as u32))
            },
            None => {
                proof {
                    lemma_assoc_lookup_absent(s0, kv.key@);
                    assert(count_matches(Seq::<Seq<char>>::empty(), kv.value@) == 0);
                    assert forall|k: Seq<char>| #[trigger]
                        self.list_of(k) == if k == kv.key@ {
                            remove_all(old(self).list_of(k), kv.value@)
                        } else {
                            old(self).list_of(k)
                        } by {
                        if k == kv.key@ {
                            assert(old(self).list_of(k) =~= Seq::<Seq<char>>::empty());
                            assert(remove_all(old(self).list_of(k), kv.value@) =~= Seq::<
                                Seq<char>>::empty());
                        }
                    }
                }
                Ok(0)
            },
        }
    }

    /// Returns an auto-incrementing clock.  The returned value is no
    /// smaller than `at_least` and strictly larger than the last returned
    /// value, unless that was the 64-bit maximum.
    pub fn clock(&mut self, at_least: u64) -> (r: Result<u64, TribblerError>)
        requires
            old(self).wf(),
        ensures
            final(self).wf(),
            r == Ok::<u64, TribblerError>(clock_read(old(self).clock_of(), at_least)),
            final(self).clock_of() == clock_next(old(self).clock_of(), at_least),
            forall|k: Seq<char>| #[trigger] final(self).kv_of(k) == old(self).kv_of(k),
            forall|k: Seq<char>| #[trigger] final(self).list_of(k) == old(self).list_of(k),
    {
        if self.clock < at_least {
            self.clock = at_least;
        }
        let ret = self.clock;
        if self.clock < u64::MAX {
            self.clock = self.clock + 1;
        }
        Ok(ret)
    }
}

/// `count_matches` against a general keep-predicate that means "differs
/// from `v`".
proof fn lemma_count_filter_general(
    l: Seq<Seq<char>>,
    pred: spec_fn(Seq<char>) -> bool,
    v: Seq<char>,
)
    requires
        forall|x: Seq<char>| #[trigger] pred(x) == (x != v),
    ensures
        l.filter(pred).len() + count_matches(l, v) == l.len(),
    decreases l.len(),
{
    reveal(Seq::filter);
    if l.len() > 0 {
        lemma_count_filter_general(l.drop_last(), pred, v);
    }
}

/// Filtering by a "differs from `v`" predicate computes [`remove_all`].
pub(crate) proof fn lemma_filter_is_remove_all(
    l: Seq<Seq<char>>,
    pred: spec_fn(Seq<char>) -> bool,
    v: Seq<char>,
)
    requires
        forall|x: Seq<char>| #[trigger] pred(x) == (x != v),
    ensures
        l.filter(pred) == remove_all(l, v),
    decreases l.len(),
{
    reveal(Seq::filter);
    if l.len() > 0 {
        lemma_filter_is_remove_all(l.drop_last(), pred, v);
        assert(l.filter(pred) =~= remove_all(l, v));
    } else {
        assert(l.filter(pred) =~= remove_all(l, v));
    }
}

/// [`remove_all`] drops exactly the matching count.
pub proof fn lemma_remove_all_count(l: Seq<Seq<char>>, v: Seq<char>)
    ensures
        remove_all(l, v).len() + count_matches(l, v) == l.len(),
    decreases l.len(),
{
    if l.len() > 0 {
        lemma_remove_all_count(l.drop_last(), v);
    }
}

} // verus!
