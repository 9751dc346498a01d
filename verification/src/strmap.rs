//! A map keyed by strings whose entries are kept in ascending key order
//! (the order of `String`'s `Ord`: lexicographic over scalar values).

use vstd::prelude::*;

use crate::text::{chars_of, str_eq};

verus! {

/// Lexicographic order on character sequences (by scalar value).
pub open spec fn lex_lt(a: Seq<char>, b: Seq<char>) -> bool
    decreases a.len(),
{
    if a.len() == 0 {
        b.len() > 0
    } else if b.len() == 0 {
        false
    } else if a[0] != b[0] {
        a[0] < b[0]
    } else {
        lex_lt(a.drop_first(), b.drop_first())
    }
}

pub proof fn lemma_lex_irreflexive(a: Seq<char>)
    ensures
        !lex_lt(a, a),
    decreases a.len(),
{
    if a.len() > 0 {
        lemma_lex_irreflexive(a.drop_first());
    }
}

pub proof fn lemma_lex_asymmetric(a: Seq<char>, b: Seq<char>)
    ensures
        lex_lt(a, b) ==> !lex_lt(b, a),
    decreases a.len(),
{
    if a.len() > 0 && b.len() > 0 && a[0] == b[0] {
        lemma_lex_asymmetric(a.drop_first(), b.drop_first());
    }
}

pub proof fn lemma_lex_transitive(a: Seq<char>, b: Seq<char>, c: Seq<char>)
    requires
        lex_lt(a, b),
        lex_lt(b, c),
    ensures
        lex_lt(a, c),
    decreases a.len(),
{
    if a.len() > 0 && b.len() > 0 && c.len() > 0 && a[0] == b[0] && b[0] == c[0] {
        lemma_lex_transitive(a.drop_first(), b.drop_first(), c.drop_first());
    }
}

pub proof fn lemma_lex_total(a: Seq<char>, b: Seq<char>)
    ensures
        a == b || lex_lt(a, b) || lex_lt(b, a),
    decreases a.len(),
{
    if a.len() > 0 && b.len() > 0 && a[0] == b[0] {
        lemma_lex_total(a.drop_first(), b.drop_first());
        if a.drop_first() == b.drop_first() {
            assert(a == seq![a[0]] + a.drop_first());
            assert(b == seq![b[0]] + b.drop_first());
        }
    } else if a.len() == 0 && b.len() == 0 {
        assert(a =~= b);
    }
}

/// Compares two strings in `lex_lt` order: `-1`, `0` or `1`.
pub fn compare_str(a: &str, b: &str) -> (r: i8)
    ensures
        r == 0 <==> a@ == b@,
        r < 0 <==> lex_lt(a@, b@),
        r > 0 <==> lex_lt(b@, a@),
{
    let x = chars_of(a);
    let y = chars_of(b);
    let mut i: usize = 0;
    proof {
        lemma_lex_asymmetric(a@, b@);
        lemma_lex_irreflexive(a@);
        assert(x@.skip(0) == x@);
        assert(y@.skip(0) == y@);
    }
    while i < x.len() && i < y.len()
        invariant
            x@ == a@,
            y@ == b@,
            i <= x@.len(),
            i <= y@.len(),
            x@.take(i as int) == y@.take(i as int),
            lex_lt(a@, b@) == lex_lt(x@.skip(i as int), y@.skip(i as int)),
            lex_lt(b@, a@) == lex_lt(y@.skip(i as int), x@.skip(i as int)),
        decreases x@.len() - i,
    {
        if x[i] != y[i] {
            proof {
                assert(x@.skip(i as int)[0] == x@[i as int]);
                assert(y@.skip(i as int)[0] == y@[i as int]);
                assert(x@[i as int] != y@[i as int]);
                assert(a@ != b@);
            }
            if x[i] < y[i] {
                return -1;
            } else {
                return 1;
            }
        }
        proof {
            assert(x@.skip(i as int).drop_first() == x@.skip(i + 1));
            assert(y@.skip(i as int).drop_first() == y@.skip(i + 1));
            assert(x@.take(i + 1) == x@.take(i as int).push(x@[i as int]));
            assert(y@.take(i + 1) == y@.take(i as int).push(y@[i as int]));
        }
        i += 1;
    }
    if x.len() == y.len() {
        assert(x@ == x@.take(i as int));
        assert(y@ == y@.take(i as int));
        0
    } else if i == x.len() {
        proof {
            assert(x@ == x@.take(i as int));
            assert(y@.take(i as int) != y@) by {
                assert(y@.take(i as int).len() != y@.len());
            }
        }
        -1
    } else {
        proof {
            assert(y@ == y@.take(i as int));
            assert(x@.take(i as int).len() != x@.len());
        }
        1
    }
}

/// Entries viewed as (key characters, value).
pub open spec fn kv_of<V>(es: Seq<(String, V)>) -> Seq<(Seq<char>, V)> {
    es.map_values(|e: (String, V)| (e.0@, e.1))
}

/// A finite map from strings to values, stored as entries sorted by key.
#[derive(Debug)]
pub struct StrMap<V> {
    entries: Vec<(String, V)>,
}

impl<V> StrMap<V> {
    /// The entries as (key characters, value), in storage order.
    pub closed spec fn kv(self) -> Seq<(Seq<char>, V)> {
        kv_of(self.entries@)
    }

    /// Keys strictly ascending.
    pub open spec fn sorted_kv(s: Seq<(Seq<char>, V)>) -> bool {
        forall|i: int, j: int| 0 <= i < j < s.len() ==> lex_lt(#[trigger] s[i].0, #[trigger] s[j].0)
    }

    #[verifier::type_invariant]
    closed spec fn inv(self) -> bool {
        Self::sorted_kv(self.kv())
    }

    /// Whether `k` is a key.
    pub open spec fn has(self, k: Seq<char>) -> bool {
        exists|i: int| 0 <= i < self.kv().len() && #[trigger] self.kv()[i].0 == k
    }

    /// The map the entries denote.
    pub open spec fn view(self) -> Map<Seq<char>, V> {
        Map::new(
            |k: Seq<char>| self.has(k),
            |k: Seq<char>| self.kv()[Self::key_index(self.kv(), k)].1,
        )
    }

    /// The value at entry `i` is the map's value for its key.
    pub proof fn lemma_entry_in_view(&self, i: int)
        requires
            0 <= i < self.kv().len(),
            Self::sorted_kv(self.kv()),
        ensures
            self.view().contains_key(self.kv()[i].0),
            self.view()[self.kv()[i].0] == self.kv()[i].1,
    {
        let k = self.kv()[i].0;
        assert(self.has(k));
        Self::lemma_unique_index(self.kv(), i, k);
    }

    /// An empty map.
    pub fn new() -> (m: Self)
        ensures
            m.view() == Map::<Seq<char>, V>::empty(),
            m.kv().len() == 0,
    {
        let m = StrMap { entries: Vec::new() };
        assert(m.view() =~= Map::<Seq<char>, V>::empty());
        m
    }

    /// Number of entries.
    pub fn len(&self) -> (n: usize)
        ensures
            n == self.kv().len(),
            n == self.view().len(),
    {
        proof {
            use_type_invariant(self);
            self.lemma_view_len();
        }
        self.entries.len()
    }

    proof fn lemma_view_len(&self)
        requires
            Self::sorted_kv(self.kv()),
        ensures
            self.view().dom().finite(),
            self.view().len() == self.kv().len(),
    {
        let keys = self.kv().map_values(|e: (Seq<char>, V)| e.0);
        assert(self.view().dom() =~= keys.to_set()) by {
            assert forall|k: Seq<char>| self.view().dom().contains(k) implies keys.to_set().contains(k) by {
                let i = choose|i: int| 0 <= i < self.kv().len() && #[trigger] self.kv()[i].0 == k;
                assert(keys[i] == k);
            }
            assert forall|k: Seq<char>| keys.to_set().contains(k) implies self.view().dom().contains(k) by {
                let i = choose|i: int| 0 <= i < keys.len() && keys[i] == k;
                assert(self.kv()[i].0 == k);
            }
        }
        assert(keys.no_duplicates()) by {
            assert forall|i: int, j: int| 0 <= i < keys.len() && 0 <= j < keys.len() && i != j implies keys[i] != keys[j] by {
                if i < j {
                    assert(lex_lt(self.kv()[i].0, self.kv()[j].0));
                    lemma_lex_irreflexive(keys[i]);
                } else {
                    assert(lex_lt(self.kv()[j].0, self.kv()[i].0));
                    lemma_lex_irreflexive(keys[i]);
                }
            }
        }
        keys.unique_seq_to_set();
    }

    /// The key and value of entry `i` (entries ascend by key).
    pub fn entry(&self, i: usize) -> (r: (&String, &V))
        requires
            i < self.kv().len(),
        ensures
            r.0@ == self.kv()[i as int].0,
            *r.1 == self.kv()[i as int].1,
            self.view().contains_key(r.0@),
            self.view()[r.0@] == *r.1,
    {
        proof {
            use_type_invariant(self);
            self.lemma_entry_in_view(i as int);
        }
        let e = &self.entries[i];
        (&e.0, &e.1)
    }

    /// Position of key `k`, if present.
    fn position(&self, k: &str) -> (r: Option<usize>)
        ensures
            match r {
                Some(i) => i < self.kv().len() && self.kv()[i as int].0 == k@,
                None => !self.has(k@),
            },
    {
        let mut i: usize = 0;
        while i < self.entries.len()
            invariant
                i <= self.kv().len(),
                self.kv().len() == self.entries@.len(),
                forall|j: int| 0 <= j < i ==> self.kv()[j].0 != k@,
            decreases self.kv().len() - i,
        {
            if str_eq(self.entries[i].0.as_str(), k) {
                return Some(i);
            }
            i += 1;
        }
        None
    }

    /// The value for key `k`.
    pub fn get(&self, k: &str) -> (r: Option<&V>)
        ensures
            match r {
                Some(v) => self.view().contains_key(k@) && *v == self.view()[k@],
                None => !self.view().contains_key(k@),
            },
    {
        match self.position(k) {
            Some(i) => {
                proof {
                    use_type_invariant(self);
                    self.lemma_entry_in_view(i as int);
                }
                Some(&self.entries[i].1)
            },
            None => None,
        }
    }

    /// Whether `k` is a key.
    pub fn contains_key(&self, k: &str) -> (r: bool)
        ensures
            r == self.view().contains_key(k@),
    {
        self.position(k).is_some()
    }

    /// Sets the value for key `k`, replacing any previous value.
    pub fn insert(&mut self, k: String, v: V)
        ensures
            final(self).view() == old(self).view().insert(k@, v),
    {
        proof {
            use_type_invariant(&*self);
        }
        let ghost old_kv = self.kv();
        let n = self.entries.len();
        let mut p: usize = 0;
        while p < n && compare_str(self.entries[p].0.as_str(), k.as_str()) < 0
            invariant
                n == old_kv.len(),
                self.kv() == old_kv,
                n == self.entries@.len(),
                p <= n,
                forall|j: int| 0 <= j < p ==> lex_lt(#[trigger] old_kv[j].0, k@),
            decreases n - p,
        {
            p += 1;
        }
        let ghost kk = k@;
        let mut es: Vec<(String, V)> = Vec::new();
        std::mem::swap(&mut es, &mut self.entries);
        assert(kv_of(es@) == old_kv);
        if p < n && compare_str(es[p].0.as_str(), k.as_str()) == 0 {
            es.set(p, (k, v));
            proof {
                let new_kv = kv_of(es@);
                assert(new_kv =~= old_kv.update(p as int, (kk, v)));
                assert(Self::sorted_kv(new_kv)) by {
                    assert forall|i: int, j: int| 0 <= i < j < new_kv.len() implies lex_lt(
                        #[trigger] new_kv[i].0,
                        #[trigger] new_kv[j].0,
                    ) by {
                        assert(lex_lt(old_kv[i].0, old_kv[j].0));
                    }
                }
            }
            self.entries = es;
            proof {
                self.lemma_insert_view_replace(old_kv, p as int, kk, v);
            }
        } else {
            proof {
                if p < n {
                    lemma_lex_total(old_kv[p as int].0, kk);
                    assert(lex_lt(kk, old_kv[p as int].0));
                }
                assert forall|j: int| 0 <= j < old_kv.len() implies #[trigger] old_kv[j].0 != kk by {
                    if j < p {
                        assert(lex_lt(old_kv[j].0, kk));
                        lemma_lex_irreflexive(kk);
                    } else {
                        if j > p {
                            assert(lex_lt(old_kv[p as int].0, old_kv[j].0));
                            lemma_lex_transitive(kk, old_kv[p as int].0, old_kv[j].0);
                        }
                        lemma_lex_irreflexive(kk);
                    }
                }
            }
            es.insert(p, (k, v));
            proof {
                let new_kv = kv_of(es@);
                assert(new_kv =~= old_kv.insert(p as int, (kk, v)));
                assert(Self::sorted_kv(new_kv)) by {
                    assert forall|i: int, j: int| 0 <= i < j < new_kv.len() implies lex_lt(
                        #[trigger] new_kv[i].0,
                        #[trigger] new_kv[j].0,
                    ) by {
                        if j < p {
                            assert(lex_lt(old_kv[i].0, old_kv[j].0));
                        } else if j == p {
                            assert(lex_lt(old_kv[i].0, kk));
                        } else if i == p {
                            assert(lex_lt(kk, old_kv[p as int].0));
                            if j - 1 > p {
                                assert(lex_lt(old_kv[p as int].0, old_kv[j - 1].0));
                                lemma_lex_transitive(kk, old_kv[p as int].0, old_kv[j - 1].0);
                            }
                        } else if i < p {
                            assert(lex_lt(old_kv[i].0, old_kv[j - 1].0));
                        } else {
                            assert(lex_lt(old_kv[i - 1].0, old_kv[j - 1].0));
                        }
                    }
                }
            }
            self.entries = es;
            proof {
                self.lemma_insert_view_new(old_kv, p as int, kk, v);
            }
        }
    }

    proof fn lemma_insert_view_replace(&self, old_kv: Seq<(Seq<char>, V)>, p: int, k: Seq<char>, v: V)
        requires
            0 <= p < old_kv.len(),
            old_kv[p].0 == k,
            self.kv() == old_kv.update(p, (k, v)),
            Self::sorted_kv(old_kv),
            Self::sorted_kv(self.kv()),
        ensures
            self.view() == Self::view_of(old_kv).insert(k, v),
    {
        let m = Self::view_of(old_kv).insert(k, v);
        assert forall|key: Seq<char>| self.view().contains_key(key) == m.contains_key(key) by {
            if self.has(key) {
                let i = choose|i: int| 0 <= i < self.kv().len() && #[trigger] self.kv()[i].0 == key;
                assert(old_kv[i].0 == key);
            }
            if key != k && Self::view_of(old_kv).contains_key(key) {
                let i = choose|i: int| 0 <= i < old_kv.len() && #[trigger] old_kv[i].0 == key;
                assert(self.kv()[i].0 == key);
            }
            if key == k {
                assert(self.kv()[p].0 == key);
            }
        }
        assert forall|key: Seq<char>| #[trigger] self.view().contains_key(key) implies self.view()[key] == m[key] by {
            let i = choose|i: int| 0 <= i < self.kv().len() && #[trigger] self.kv()[i].0 == key;
            Self::lemma_unique_index(self.kv(), i, key);
            if key != k {
                let j = choose|j: int| 0 <= j < old_kv.len() && #[trigger] old_kv[j].0 == key;
                Self::lemma_unique_index(old_kv, j, key);
                assert(i != p);
                assert(old_kv[i].0 == key);
                Self::lemma_unique_index(old_kv, i, key);
            } else {
                Self::lemma_unique_index(self.kv(), p, key);
            }
        }
        assert(self.view() =~= m);
    }

    proof fn lemma_insert_view_new(&self, old_kv: Seq<(Seq<char>, V)>, p: int, k: Seq<char>, v: V)
        requires
            0 <= p <= old_kv.len(),
            forall|j: int| 0 <= j < old_kv.len() ==> #[trigger] old_kv[j].0 != k,
            self.kv() == old_kv.insert(p, (k, v)),
            Self::sorted_kv(old_kv),
            Self::sorted_kv(self.kv()),
        ensures
            self.view() == Self::view_of(old_kv).insert(k, v),
    {
        let m = Self::view_of(old_kv).insert(k, v);
        assert forall|key: Seq<char>| self.view().contains_key(key) == m.contains_key(key) by {
            if self.has(key) {
                let i = choose|i: int| 0 <= i < self.kv().len() && #[trigger] self.kv()[i].0 == key;
                if i < p {
                    assert(old_kv[i].0 == key);
                } else if i > p {
                    assert(old_kv[i - 1].0 == key);
                }
            }
            if key != k && Self::view_of(old_kv).contains_key(key) {
                let i = choose|i: int| 0 <= i < old_kv.len() && #[trigger] old_kv[i].0 == key;
                if i < p {
                    assert(self.kv()[i].0 == key);
                } else {
                    assert(self.kv()[i + 1].0 == key);
                }
            }
            if key == k {
                assert(self.kv()[p].0 == key);
            }
        }
        assert forall|key: Seq<char>| #[trigger] self.view().contains_key(key) implies self.view()[key] == m[key] by {
            let i = choose|i: int| 0 <= i < self.kv().len() && #[trigger] self.kv()[i].0 == key;
            Self::lemma_unique_index(self.kv(), i, key);
            if key != k {
                let j = choose|j: int| 0 <= j < old_kv.len() && #[trigger] old_kv[j].0 == key;
                Self::lemma_unique_index(old_kv, j, key);
                if i < p {
                    assert(old_kv[i].0 == key);
                    Self::lemma_unique_index(old_kv, i, key);
                } else {
                    assert(i != p);
                    assert(old_kv[i - 1].0 == key);
                    Self::lemma_unique_index(old_kv, i - 1, key);
                }
            } else {
                assert(self.kv()[p].0 == key);
                Self::lemma_unique_index(self.kv(), p, key);
            }
        }
        assert(self.view() =~= m);
    }

    /// The entries, ascending by key.
    pub fn into_entries(self) -> (r: Vec<(String, V)>)
        ensures
            kv_of(r@) == self.kv(),
            Self::sorted_kv(self.kv()),
            forall|i: int|
                0 <= i < self.kv().len() ==> self.view().contains_key(#[trigger] self.kv()[i].0)
                    && self.view()[self.kv()[i].0] == self.kv()[i].1,
    {
        proof {
            use_type_invariant(&self);
            assert forall|i: int| 0 <= i < self.kv().len() implies self.view().contains_key(#[trigger] self.kv()[i].0)
                && self.view()[self.kv()[i].0] == self.kv()[i].1 by {
                self.lemma_entry_in_view(i);
            }
        }
        self.entries
    }

    /// The map denoted by a key-sorted entry sequence.
    pub open spec fn view_of(s: Seq<(Seq<char>, V)>) -> Map<Seq<char>, V> {
        Map::new(
            |k: Seq<char>| exists|i: int| 0 <= i < s.len() && #[trigger] s[i].0 == k,
            |k: Seq<char>| s[Self::key_index(s, k)].1,
        )
    }

    /// A position holding key `k`.
    pub open spec fn key_index(s: Seq<(Seq<char>, V)>, k: Seq<char>) -> int {
        choose|j: int| 0 <= j < s.len() && #[trigger] s[j].0 == k
    }

    proof fn lemma_unique_index(s: Seq<(Seq<char>, V)>, i: int, k: Seq<char>)
        requires
            Self::sorted_kv(s),
            0 <= i < s.len(),
            s[i].0 == k,
        ensures
            Self::key_index(s, k) == i,
    {
        assert(0 <= i < s.len() && s[i].0 == k);
        let j = Self::key_index(s, k);
        assert(0 <= j < s.len() && s[j].0 == k);
        if j != i {
            lemma_lex_irreflexive(k);
            if j < i {
                assert(lex_lt(s[j].0, s[i].0));
            } else {
                assert(lex_lt(s[i].0, s[j].0));
            }
        }
    }
}

} // verus!
