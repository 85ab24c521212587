//! Maps from text to values, kept in the order of their keys.
use crate::text;
use vstd::prelude::*;

verus! {

/// The number of leading entries whose key comes before `key`.
pub open spec fn place<T>(e: Seq<(Seq<char>, T)>, key: Seq<char>) -> int
    decreases e.len(),
{
    if e.len() > 0 && text::lt(e[0].0, key) {
        1 + place(e.drop_first(), key)
    } else {
        0
    }
}

/// The value under a key.
pub open spec fn lookup<T>(e: Seq<(Seq<char>, T)>, key: Seq<char>) -> Option<T> {
    let p = place(e, key);
    if 0 <= p < e.len() && e[p].0 == key {
        Some(e[p].1)
    } else {
        None
    }
}

/// The entries with `value` under `key`.
pub open spec fn put<T>(e: Seq<(Seq<char>, T)>, key: Seq<char>, value: T) -> Seq<(Seq<char>, T)> {
    let p = place(e, key);
    if 0 <= p < e.len() && e[p].0 == key {
        e.update(p, (key, value))
    } else {
        e.insert(p, (key, value))
    }
}

/// The entries without `key`.
pub open spec fn without<T>(e: Seq<(Seq<char>, T)>, key: Seq<char>) -> Seq<(Seq<char>, T)> {
    let p = place(e, key);
    if 0 <= p < e.len() && e[p].0 == key {
        e.remove(p)
    } else {
        e
    }
}

/// The keys in order.
pub open spec fn keys<T>(e: Seq<(Seq<char>, T)>) -> Seq<Seq<char>> {
    Seq::new(e.len(), |i: int| e[i].0)
}

pub proof fn lemma_place<T>(e: Seq<(Seq<char>, T)>, key: Seq<char>)
    ensures
        0 <= place(e, key) <= e.len(),
        forall|i: int| 0 <= i < place(e, key) ==> text::lt(#[trigger] e[i].0, key),
        place(e, key) < e.len() ==> !text::lt(e[place(e, key)].0, key),
    decreases e.len(),
{
    if e.len() > 0 && text::lt(e[0].0, key) {
        lemma_place(e.drop_first(), key);
        assert forall|i: int| 0 <= i < place(e, key) implies text::lt(#[trigger] e[i].0, key) by {
            if i > 0 {
                assert(e.drop_first()[i - 1] == e[i]);
            }
        }
    }
}

pub proof fn lemma_place_is<T>(e: Seq<(Seq<char>, T)>, key: Seq<char>, p: int)
    requires
        0 <= p <= e.len(),
        forall|i: int| 0 <= i < p ==> text::lt(#[trigger] e[i].0, key),
        p < e.len() ==> !text::lt(e[p].0, key),
    ensures
        place(e, key) == p,
    decreases e.len(),
{
    if p > 0 {
        assert(text::lt(e[0].0, key));
        let r = e.drop_first();
        assert forall|i: int| 0 <= i < p - 1 implies text::lt(#[trigger] r[i].0, key) by {
            assert(r[i] == e[i + 1]);
        }
        lemma_place_is(r, key, p - 1);
    }
}

/// What was put under a key is found there.
pub proof fn law_lookup_put<T>(e: Seq<(Seq<char>, T)>, key: Seq<char>, value: T)
    ensures
        lookup(put(e, key, value), key) == Some(value),
{
    lemma_place(e, key);
    text::lemma_lt_irreflexive(key);
    let p = place(e, key);
    let n = put(e, key, value);
    assert forall|i: int| 0 <= i < p implies text::lt(#[trigger] n[i].0, key) by {
        assert(n[i] == e[i]);
    }
    assert(n[p] == (key, value));
    lemma_place_is(n, key, p);
}

/// In a sorted map, an entry is found by its key, wherever it stands.
pub proof fn lemma_lookup_at<T>(e: Seq<(Seq<char>, T)>, i: int)
    requires
        text::ascending(keys(e)),
        0 <= i < e.len(),
    ensures
        place(e, e[i].0) == i,
        lookup(e, e[i].0) == Some(e[i].1),
{
    let k = keys(e);
    assert forall|j: int| 0 <= j < i implies text::lt(#[trigger] e[j].0, e[i].0) by {
        assert(text::lt(k[j], k[i]));
    }
    text::lemma_lt_irreflexive(e[i].0);
    lemma_place_is(e, e[i].0, i);
}

/// A key that is nowhere is not found, and the other way round.
pub proof fn lemma_lookup_none<T>(e: Seq<(Seq<char>, T)>, key: Seq<char>)
    requires
        text::ascending(keys(e)),
    ensures
        lookup(e, key) is None == !keys(e).contains(key),
{
    if keys(e).contains(key) {
        let i = keys(e).index_of(key);
        assert(e[i].0 == key);
        lemma_lookup_at(e, i);
    }
    lemma_place(e, key);
    if lookup(e, key) is Some {
        assert(keys(e)[place(e, key)] == key);
    }
}

/// Putting keeps the keys in order.
pub proof fn law_put_sorted<T>(e: Seq<(Seq<char>, T)>, key: Seq<char>, value: T)
    requires
        text::ascending(keys(e)),
    ensures
        text::ascending(keys(put(e, key, value))),
        forall|k: Seq<char>| #[trigger]
            keys(put(e, key, value)).contains(k) == (keys(e).contains(k) || k == key),
{
    lemma_place(e, key);
    let p = place(e, key);
    let a = keys(e);
    let n = put(e, key, value);
    let b = keys(n);
    if p < e.len() && e[p].0 == key {
        assert(b =~= a);
        assert(a[p] == key);
    } else {
        assert(b =~= a.insert(p, key));
        if p < a.len() {
            text::lemma_lt_total(a[p], key);
        }
        assert forall|i: int, j: int| 0 <= i < j < b.len() implies text::lt(
            #[trigger] b[i],
            #[trigger] b[j],
        ) by {
            if j < p {
                assert(b[i] == a[i] && b[j] == a[j]);
            } else if j == p {
                assert(b[i] == a[i] && a[i] == e[i].0);
            } else {
                assert(b[j] == a[j - 1]);
                if i < p {
                    assert(b[i] == a[i]);
                } else if i == p {
                    if j - 1 > p {
                        assert(text::lt(a[p], a[j - 1]));
                        text::lemma_lt_transitive(key, a[p], a[j - 1]);
                    }
                } else {
                    assert(b[i] == a[i - 1]);
                }
            }
        }
        assert forall|k: Seq<char>| #[trigger] b.contains(k) == (a.contains(k) || k == key) by {
            assert(b[p] == key);
            if a.contains(k) {
                let i = a.index_of(k);
                if i < p {
                    assert(b[i] == k);
                } else {
                    assert(b[i + 1] == k);
                }
            }
            if b.contains(k) {
                let i = b.index_of(k);
                if i < p {
                    assert(a[i] == k);
                } else if i > p {
                    assert(a[i - 1] == k);
                }
            }
        }
    }
}

/// Putting under one key leaves what is under the others.
pub proof fn law_put_other<T>(e: Seq<(Seq<char>, T)>, key: Seq<char>, value: T, other: Seq<char>)
    requires
        text::ascending(keys(e)),
        other != key,
    ensures
        lookup(put(e, key, value), other) == lookup(e, other),
{
    let n = put(e, key, value);
    law_put_sorted(e, key, value);
    lemma_place(e, key);
    let p = place(e, key);
    lemma_lookup_none(e, other);
    lemma_lookup_none(n, other);
    if keys(e).contains(other) {
        let i = keys(e).index_of(other);
        lemma_lookup_at(e, i);
        if p < e.len() && e[p].0 == key {
            assert(n[i] == e[i]);
            lemma_lookup_at(n, i);
        } else if i < p {
            assert(n[i] == e[i]);
            lemma_lookup_at(n, i);
        } else {
            assert(n[i + 1] == e[i]);
            lemma_lookup_at(n, i + 1);
        }
    }
}

/// Removing keeps the order, and takes out that key alone.
pub proof fn law_without_sorted<T>(e: Seq<(Seq<char>, T)>, key: Seq<char>)
    requires
        text::ascending(keys(e)),
    ensures
        text::ascending(keys(without(e, key))),
        forall|k: Seq<char>| #[trigger]
            keys(without(e, key)).contains(k) == (keys(e).contains(k) && k != key),
{
    lemma_place(e, key);
    let p = place(e, key);
    let a = keys(e);
    let b = keys(without(e, key));
    lemma_lookup_none(e, key);
    if p < e.len() && e[p].0 == key {
        assert(b =~= a.remove(p));
        assert forall|i: int, j: int| 0 <= i < j < b.len() implies text::lt(
            #[trigger] b[i],
            #[trigger] b[j],
        ) by {
            let x = if i < p {
                i
            } else {
                i + 1
            };
            let y = if j < p {
                j
            } else {
                j + 1
            };
            assert(b[i] == a[x] && b[j] == a[y]);
        }
        assert forall|k: Seq<char>| #[trigger] b.contains(k) == (a.contains(k) && k != key) by {
            if b.contains(k) {
                let i = b.index_of(k);
                let x = if i < p {
                    i
                } else {
                    i + 1
                };
                assert(a[x] == k);
                if k == key {
                    text::lemma_lt_irreflexive(key);
                    assert(a[p] == key);
                }
            }
            if a.contains(k) && k != key {
                let x = a.index_of(k);
                if x < p {
                    assert(b[x] == k);
                } else {
                    assert(b[x - 1] == k);
                }
            }
        }
    }
}

/// What every key gives after one was put.
pub proof fn lemma_lookup_put<T>(e: Seq<(Seq<char>, T)>, key: Seq<char>, value: T)
    requires
        text::ascending(keys(e)),
    ensures
        forall|k: Seq<char>| #[trigger]
            lookup(put(e, key, value), k) == if k == key {
                Some(value)
            } else {
                lookup(e, k)
            },
{
    assert forall|k: Seq<char>| #[trigger] lookup(put(e, key, value), k) == if k == key {
        Some(value)
    } else {
        lookup(e, k)
    } by {
        if k == key {
            law_lookup_put(e, key, value);
        } else {
            law_put_other(e, key, value, k);
        }
    }
}

/// A sorted map gives what its entries say.
pub proof fn law_lookup_is_an_entry<T>(e: Seq<(Seq<char>, T)>, key: Seq<char>, value: T)
    requires
        text::ascending(keys(e)),
    ensures
        (lookup(e, key) == Some(value)) == e.contains((key, value)),
{
    lemma_place(e, key);
    if lookup(e, key) == Some(value) {
        assert(e[place(e, key)] == (key, value));
    }
    if e.contains((key, value)) {
        let i = e.index_of((key, value));
        lemma_lookup_at(e, i);
    }
}

/// Sorted entries are told by what they give for each key.
pub proof fn lemma_same_entries<T>(e: Seq<(Seq<char>, T)>, f: Seq<(Seq<char>, T)>)
    requires
        text::ascending(keys(e)),
        text::ascending(keys(f)),
        forall|k: Seq<char>| #[trigger] lookup(e, k) == lookup(f, k),
    ensures
        e == f,
{
    assert forall|k: Seq<char>| #[trigger] keys(e).contains(k) == keys(f).contains(k) by {
        lemma_lookup_none(e, k);
        lemma_lookup_none(f, k);
        assert(lookup(e, k) == lookup(f, k));
    }
    text::lemma_ascending_unique(keys(e), keys(f));
    assert(keys(e).len() == e.len() && keys(f).len() == f.len());
    assert forall|i: int| 0 <= i < e.len() implies e[i] == f[i] by {
        assert(keys(e)[i] == keys(f)[i]);
        lemma_lookup_at(e, i);
        lemma_lookup_at(f, i);
    }
    assert(e =~= f);
}

/// Entries under different keys can be put in either order.
pub proof fn law_put_commutes<T>(
    e: Seq<(Seq<char>, T)>,
    a: Seq<char>,
    x: T,
    b: Seq<char>,
    y: T,
)
    requires
        text::ascending(keys(e)),
        a != b,
    ensures
        put(put(e, a, x), b, y) == put(put(e, b, y), a, x),
{
    let p = put(put(e, a, x), b, y);
    let q = put(put(e, b, y), a, x);
    law_put_sorted(e, a, x);
    law_put_sorted(e, b, y);
    law_put_sorted(put(e, a, x), b, y);
    law_put_sorted(put(e, b, y), a, x);
    lemma_lookup_put(e, a, x);
    lemma_lookup_put(e, b, y);
    lemma_lookup_put(put(e, a, x), b, y);
    lemma_lookup_put(put(e, b, y), a, x);
    lemma_same_entries(p, q);
}

/// The entries with the views of their values.
pub open spec fn mapped<T: View>(e: Seq<(Seq<char>, T)>) -> Seq<(Seq<char>, T::V)> {
    Seq::new(e.len(), |i: int| (e[i].0, e[i].1@))
}

pub proof fn lemma_mapped<T: View>(e: Seq<(Seq<char>, T)>, key: Seq<char>)
    ensures
        place(mapped(e), key) == place(e, key),
        0 <= place(e, key) <= e.len(),
        match lookup(e, key) {
            Some(v) => lookup(mapped(e), key) == Some(v@),
            None => lookup(mapped(e), key) is None,
        },
        keys(mapped(e)) == keys(e),
{
    lemma_place(e, key);
    let p = place(e, key);
    let m = mapped(e);
    assert forall|i: int| 0 <= i < p implies text::lt(#[trigger] m[i].0, key) by {
        assert(m[i].0 == e[i].0);
    }
    if p < e.len() {
        assert(m[p].0 == e[p].0);
    }
    lemma_place_is(m, key, p);
    assert(keys(m) =~= keys(e));
}

pub proof fn lemma_mapped_put<T: View>(e: Seq<(Seq<char>, T)>, key: Seq<char>, value: T)
    ensures
        mapped(put(e, key, value)) == put(mapped(e), key, value@),
{
    lemma_mapped(e, key);
    assert(mapped(put(e, key, value)) =~= put(mapped(e), key, value@));
}

/// The entries with a value under a key, if there is one.
pub open spec fn put_if<T>(e: Seq<(Seq<char>, T)>, key: Seq<char>, value: Option<T>) -> Seq<
    (Seq<char>, T),
> {
    match value {
        Some(v) => put(e, key, v),
        None => e,
    }
}

pub proof fn lemma_put_if<T>(e: Seq<(Seq<char>, T)>, key: Seq<char>, value: Option<T>)
    requires
        text::ascending(keys(e)),
    ensures
        text::ascending(keys(put_if(e, key, value))),
        forall|k: Seq<char>| #[trigger]
            lookup(put_if(e, key, value), k) == if k == key && value is Some {
                value
            } else {
                lookup(e, k)
            },
{
    if let Some(v) = value {
        law_put_sorted(e, key, v);
        lemma_lookup_put(e, key, v);
    }
}

pub proof fn lemma_empty<T>()
    ensures
        text::ascending(keys(Seq::<(Seq<char>, T)>::empty())),
        forall|k: Seq<char>| #[trigger] lookup(Seq::<(Seq<char>, T)>::empty(), k) is None,
{
}

/// A map whose keys are texts.
#[derive(Debug)]
pub struct TextMap<T> {
    pub entries: Vec<(String, T)>,
}

impl<T> View for TextMap<T> {
    type V = Seq<(Seq<char>, T)>;

    open spec fn view(&self) -> Seq<(Seq<char>, T)> {
        Seq::new(self.entries@.len(), |i: int| (self.entries@[i].0@, self.entries@[i].1))
    }
}

impl<T> TextMap<T> {
    /// Whether the keys are in order, each once.
    pub open spec fn sorted(self) -> bool {
        text::ascending(keys(self@))
    }

    pub fn new() -> (m: TextMap<T>)
        ensures
            m@ == Seq::<(Seq<char>, T)>::empty(),
            m.sorted(),
    {
        let m = TextMap { entries: Vec::new() };
        proof {
            assert(m@ =~= Seq::<(Seq<char>, T)>::empty());
        }
        m
    }

    pub fn len(&self) -> (n: usize)
        ensures
            n == self@.len(),
    {
        self.entries.len()
    }

    pub fn is_empty(&self) -> (b: bool)
        ensures
            b == (self@.len() == 0),
    {
        self.entries.len() == 0
    }

    fn seek(&self, key: &str) -> (p: usize)
        ensures
            p == place(self@, key@),
            p <= self@.len(),
    {
        let n: usize = self.entries.len();
        let mut p: usize = 0;
        while p < n && text::less(self.entries[p].0.as_str(), key)
            invariant
                p <= n == self@.len(),
                forall|i: int| 0 <= i < p ==> text::lt(#[trigger] self@[i].0, key@),
            decreases n - p,
        {
            p = p + 1;
        }
        proof {
            lemma_place_is(self@, key@, p as int);
        }
        p
    }

    pub fn get(&self, key: &str) -> (r: Option<&T>)
        ensures
            match r {
                Some(v) => lookup(self@, key@) == Some(*v),
                None => lookup(self@, key@) is None,
            },
    {
        let p = self.seek(key);
        if p < self.entries.len() && text::same(self.entries[p].0.as_str(), key) {
            Some(&self.entries[p].1)
        } else {
            None
        }
    }

    pub fn contains_key(&self, key: &str) -> (r: bool)
        ensures
            r == (lookup(self@, key@) is Some),
    {
        self.get(key).is_some()
    }

    pub fn insert(&mut self, key: String, value: T)
        ensures
            final(self)@ == put(old(self)@, key@, value),
            old(self).sorted() ==> final(self).sorted(),
    {
        let p = self.seek(key.as_str());
        let ghost before = self@;
        let ghost k = key@;
        proof {
            if text::ascending(keys(before)) {
                law_put_sorted(before, k, value);
            }
        }
        if p < self.entries.len() && text::same(self.entries[p].0.as_str(), key.as_str()) {
            self.entries.remove(p);
            self.entries.insert(p, (key, value));
            proof {
                assert(self@ =~= before.update(p as int, (k, value)));
            }
        } else {
            self.entries.insert(p, (key, value));
            proof {
                assert(self@ =~= before.insert(p as int, (k, value)));
            }
        }
    }

    pub fn remove(&mut self, key: &str) -> (r: Option<T>)
        ensures
            final(self)@ == without(old(self)@, key@),
            r == lookup(old(self)@, key@),
            old(self).sorted() ==> final(self).sorted(),
    {
        let p = self.seek(key);
        let ghost before = self@;
        proof {
            if text::ascending(keys(before)) {
                law_without_sorted(before, key@);
            }
        }
        if p < self.entries.len() && text::same(self.entries[p].0.as_str(), key) {
            let e = self.entries.remove(p);
            proof {
                assert(self@ =~= before.remove(p as int));
            }
            Some(e.1)
        } else {
            None
        }
    }
}

} // verus!
