//! Insertion-ordered maps backed by vectors of pairs: a binding keeps its
//! position when overwritten and new keys go to the end, so iteration order
//! is the order of first insertion and keys are never duplicated.

use vstd::prelude::*;

use crate::id::Id;

verus! {

/// First value bound to `k`, if any.
pub open spec fn spec_assoc_get<K, V>(m: Seq<(K, V)>, k: K) -> Option<V>
    decreases m.len(),
{
    if m.len() == 0 {
        None
    } else if m[0].0 == k {
        Some(m[0].1)
    } else {
        spec_assoc_get(m.drop_first(), k)
    }
}

/// Overwrites the first binding of `k` in place, or appends a new binding.
pub open spec fn spec_assoc_set<K, V>(m: Seq<(K, V)>, k: K, v: V) -> Seq<(K, V)>
    decreases m.len(),
{
    if m.len() == 0 {
        seq![(k, v)]
    } else if m[0].0 == k {
        seq![(k, v)] + m.drop_first()
    } else {
        seq![m[0]] + spec_assoc_set(m.drop_first(), k, v)
    }
}

/// Removes the first binding of `k`, if any.
pub open spec fn spec_assoc_remove<K, V>(m: Seq<(K, V)>, k: K) -> Seq<(K, V)>
    decreases m.len(),
{
    if m.len() == 0 {
        m
    } else if m[0].0 == k {
        m.drop_first()
    } else {
        seq![m[0]] + spec_assoc_remove(m.drop_first(), k)
    }
}

/// Whether no key occurs twice.
pub open spec fn spec_unique_keys<K, V>(m: Seq<(K, V)>) -> bool {
    forall|i: int, j: int| 0 <= i < j < m.len() ==> (#[trigger] m[i]).0 != (#[trigger] m[j]).0
}

/// Setting a binding finds it again.
pub proof fn lemma_assoc_get_set<K, V>(m: Seq<(K, V)>, k: K, v: V)
    ensures
        spec_assoc_get(spec_assoc_set(m, k, v), k) == Some(v),
    decreases m.len(),
{
    reveal_with_fuel(spec_assoc_get, 2);
    if m.len() == 0 {
    } else if m[0].0 == k {
        assert((seq![(k, v)] + m.drop_first())[0] == (k, v));
    } else {
        lemma_assoc_get_set(m.drop_first(), k, v);
        assert((seq![m[0]] + spec_assoc_set(m.drop_first(), k, v))[0] == m[0]);
        assert((seq![m[0]] + spec_assoc_set(m.drop_first(), k, v)).drop_first()
            =~= spec_assoc_set(m.drop_first(), k, v));
    }
}

/// Setting one key leaves other keys' bindings unchanged.
pub proof fn lemma_assoc_get_set_other<K, V>(m: Seq<(K, V)>, k: K, v: V, other: K)
    requires
        other != k,
    ensures
        spec_assoc_get(spec_assoc_set(m, k, v), other) == spec_assoc_get(m, other),
    decreases m.len(),
{
    reveal_with_fuel(spec_assoc_get, 3);
    if m.len() == 0 {
        assert(spec_assoc_set(m, k, v) == seq![(k, v)]);
        assert(seq![(k, v)][0] == (k, v));
        assert(seq![(k, v)].drop_first() =~= Seq::<(K, V)>::empty());
    } else if m[0].0 == k {
        assert((seq![(k, v)] + m.drop_first())[0] == (k, v));
        assert((seq![(k, v)] + m.drop_first()).drop_first() =~= m.drop_first());
    } else {
        lemma_assoc_get_set_other(m.drop_first(), k, v, other);
        assert((seq![m[0]] + spec_assoc_set(m.drop_first(), k, v))[0] == m[0]);
        assert((seq![m[0]] + spec_assoc_set(m.drop_first(), k, v)).drop_first()
            =~= spec_assoc_set(m.drop_first(), k, v));
    }
}

/// Removing one key leaves other keys' bindings unchanged, when keys are
/// unique.
pub proof fn lemma_assoc_get_remove_other<K, V>(m: Seq<(K, V)>, k: K, other: K)
    requires
        other != k,
    ensures
        spec_assoc_get(spec_assoc_remove(m, k), other) == spec_assoc_get(m, other),
    decreases m.len(),
{
    reveal_with_fuel(spec_assoc_get, 3);
    if m.len() == 0 {
    } else if m[0].0 == k {
    } else {
        lemma_assoc_get_remove_other(m.drop_first(), k, other);
        assert((seq![m[0]] + spec_assoc_remove(m.drop_first(), k))[0] == m[0]);
        assert((seq![m[0]] + spec_assoc_remove(m.drop_first(), k)).drop_first()
            =~= spec_assoc_remove(m.drop_first(), k));
    }
}

/// Setting an existing key rewrites its first binding in place.
pub proof fn lemma_assoc_set_at<K, V>(m: Seq<(K, V)>, k: K, v: V, idx: int)
    requires
        0 <= idx < m.len(),
        m[idx].0 == k,
        forall|j: int| 0 <= j < idx ==> (#[trigger] m[j]).0 != k,
    ensures
        spec_assoc_set(m, k, v) == m.update(idx, (k, v)),
    decreases m.len(),
{
    if idx == 0 {
        assert(spec_assoc_set(m, k, v) =~= m.update(0, (k, v)));
    } else {
        assert forall|j: int| 0 <= j < idx - 1 implies (#[trigger] m.drop_first()[j]).0 != k by {
            assert(m.drop_first()[j] == m[j + 1]);
        }
        assert(m.drop_first()[idx - 1] == m[idx]);
        lemma_assoc_set_at(m.drop_first(), k, v, idx - 1);
        assert(spec_assoc_set(m, k, v) =~= m.update(idx, (k, v)));
    }
}

/// Setting an absent key appends its binding.
pub proof fn lemma_assoc_set_absent<K, V>(m: Seq<(K, V)>, k: K, v: V)
    requires
        spec_assoc_get(m, k) is None,
    ensures
        spec_assoc_set(m, k, v) == m.push((k, v)),
    decreases m.len(),
{
    if m.len() == 0 {
        assert(spec_assoc_set(m, k, v) =~= m.push((k, v)));
    } else {
        lemma_assoc_set_absent(m.drop_first(), k, v);
        assert(spec_assoc_set(m, k, v) =~= m.push((k, v)));
    }
}

/// The keys of a map, in order.
pub open spec fn spec_assoc_keys<K, V>(m: Seq<(K, V)>) -> Seq<K> {
    Seq::new(m.len(), |i: int| m[i].0)
}

/// A key that no lookup finds occurs nowhere.
pub proof fn lemma_assoc_get_none_keys<K, V>(m: Seq<(K, V)>, k: K)
    requires
        spec_assoc_get(m, k) is None,
    ensures
        forall|i: int| 0 <= i < m.len() ==> (#[trigger] m[i]).0 != k,
    decreases m.len(),
{
    if m.len() > 0 {
        lemma_assoc_get_none_keys(m.drop_first(), k);
        assert forall|i: int| 0 <= i < m.len() implies (#[trigger] m[i]).0 != k by {
            if i > 0 {
                assert(m.drop_first()[i - 1] == m[i]);
            }
        }
    }
}

/// Setting a binding never duplicates a key: an existing key keeps its
/// position, a new key is appended once.
pub proof fn lemma_assoc_set_unique_keys<K, V>(m: Seq<(K, V)>, k: K, v: V)
    requires
        spec_unique_keys(m),
    ensures
        spec_unique_keys(spec_assoc_set(m, k, v)),
        spec_assoc_get(m, k) is Some ==> spec_assoc_keys(spec_assoc_set(m, k, v))
            == spec_assoc_keys(m),
        spec_assoc_get(m, k) is None ==> spec_assoc_keys(spec_assoc_set(m, k, v))
            == spec_assoc_keys(m).push(k),
    decreases m.len(),
{
    reveal_with_fuel(spec_assoc_get, 2);
    if m.len() == 0 {
        assert(spec_assoc_keys(spec_assoc_set(m, k, v)) =~= spec_assoc_keys(m).push(k));
    } else if m[0].0 == k {
        let r = seq![(k, v)] + m.drop_first();
        assert(r[0] == (k, v));
        assert(r.drop_first() =~= m.drop_first());
        assert forall|i: int, j: int| 0 <= i < j < r.len() implies (#[trigger] r[i]).0 != (
        #[trigger] r[j]).0 by {
            assert(r[i] == m[i] || (i == 0 && r[i].0 == m[0].0));
            assert(r[j] == m[j]);
        }
        assert(spec_assoc_keys(r) =~= spec_assoc_keys(m));
    } else {
        assert forall|i: int, j: int| 0 <= i < j < m.drop_first().len() implies (
        #[trigger] m.drop_first()[i]).0 != (#[trigger] m.drop_first()[j]).0 by {
            assert(m.drop_first()[i] == m[i + 1]);
            assert(m.drop_first()[j] == m[j + 1]);
        }
        lemma_assoc_set_unique_keys(m.drop_first(), k, v);
        let rest = spec_assoc_set(m.drop_first(), k, v);
        let r = seq![m[0]] + rest;
        assert(r[0] == m[0]);
        assert(r.drop_first() =~= rest);
        if spec_assoc_get(m.drop_first(), k) is Some {
            assert(spec_assoc_keys(rest) == spec_assoc_keys(m.drop_first()));
            assert(rest.len() == spec_assoc_keys(rest).len());
            assert(rest.len() == m.drop_first().len());
            assert forall|j: int| 0 <= j < r.len() implies spec_assoc_keys(r)[j]
                == spec_assoc_keys(m)[j] by {
                if j > 0 {
                    assert(r[j] == rest[j - 1]);
                    assert(m.drop_first()[j - 1] == m[j]);
                    assert(spec_assoc_keys(rest)[j - 1] == spec_assoc_keys(m.drop_first())[j
                        - 1]);
                }
            }
            assert(spec_assoc_keys(r) =~= spec_assoc_keys(m));
            assert forall|i: int, j: int| 0 <= i < j < r.len() implies (#[trigger] r[i]).0 != (
            #[trigger] r[j]).0 by {
                assert(r[i].0 == spec_assoc_keys(r)[i] && r[j].0 == spec_assoc_keys(r)[j]);
                assert(spec_assoc_keys(m)[i] == m[i].0 && spec_assoc_keys(m)[j] == m[j].0);
                assert(m[i].0 != m[j].0);
            }
        } else {
            lemma_assoc_get_none_keys(m, k);
            assert(spec_assoc_keys(rest) == spec_assoc_keys(m.drop_first()).push(k));
            assert(rest.len() == spec_assoc_keys(rest).len());
            assert(rest.len() == m.drop_first().len() + 1);
            assert forall|j: int| 0 <= j < r.len() implies spec_assoc_keys(r)[j]
                == spec_assoc_keys(m).push(k)[j] by {
                if j > 0 {
                    assert(r[j] == rest[j - 1]);
                    assert(spec_assoc_keys(r)[j] == rest[j - 1].0);
                    assert(rest[j - 1].0 == spec_assoc_keys(rest)[j - 1]);
                    assert(spec_assoc_keys(rest)[j - 1] == spec_assoc_keys(
                        m.drop_first(),
                    ).push(k)[j - 1]);
                    if j < m.len() {
                        assert(spec_assoc_keys(m.drop_first()).push(k)[j - 1]
                            == spec_assoc_keys(m.drop_first())[j - 1]);
                        assert(m.drop_first()[j - 1] == m[j]);
                        assert(spec_assoc_keys(m).push(k)[j] == m[j].0);
                    } else {
                        assert(spec_assoc_keys(m.drop_first()).push(k)[j - 1] == k);
                        assert(spec_assoc_keys(m).push(k)[j] == k);
                    }
                }
            }
            assert(spec_assoc_keys(r) =~= spec_assoc_keys(m).push(k));
            assert forall|i: int, j: int| 0 <= i < j < r.len() implies (#[trigger] r[i]).0 != (
            #[trigger] r[j]).0 by {
                assert(r[i].0 == spec_assoc_keys(r)[i] && r[j].0 == spec_assoc_keys(r)[j]);
                if j < m.len() {
                    assert(spec_assoc_keys(m)[i] == m[i].0 && spec_assoc_keys(m)[j] == m[j].0);
                    assert(m[i].0 != m[j].0);
                } else {
                    assert(spec_assoc_keys(r)[j] == k);
                    assert(spec_assoc_keys(m)[i] == m[i].0);
                    assert(m[i].0 != k);
                }
            }
        }
    }
}

/// An insertion-ordered map with string keys.
pub struct StrMap<V> {
    pub entries: Vec<(String, V)>,
}

impl<V> View for StrMap<V> {
    type V = Seq<(Seq<char>, V)>;

    open spec fn view(&self) -> Seq<(Seq<char>, V)> {
        Seq::new(self.entries@.len(), |i: int| (self.entries@[i].0@, self.entries@[i].1))
    }
}

impl<V> StrMap<V> {
    /// The empty map.
    pub fn new() -> (r: StrMap<V>)
        ensures
            r@ == Seq::<(Seq<char>, V)>::empty(),
    {
        let r = StrMap { entries: Vec::new() };
        proof {
            assert(r@ =~= Seq::<(Seq<char>, V)>::empty());
        }
        r
    }

    /// How many bindings the map holds.
    pub fn len(&self) -> (r: usize)
        ensures
            r == self@.len(),
    {
        self.entries.len()
    }

    /// Whether the map holds no binding.
    pub fn is_empty(&self) -> (r: bool)
        ensures
            r == (self@.len() == 0),
    {
        self.entries.is_empty()
    }

    /// The first value bound to `k`, if any.
    pub fn get<'a>(&'a self, k: &str) -> (r: Option<&'a V>)
        ensures
            match r {
                Some(v) => spec_assoc_get(self@, k@) == Some(*v),
                None => spec_assoc_get(self@, k@) is None,
            },
    {
        let key_string = k.to_owned();
        let ghost mv = self@;
        proof {
            assert(mv.skip(0) =~= mv);
        }
        let mut i: usize = 0;
        while i < self.entries.len()
            invariant
                i <= self.entries@.len(),
                key_string@ == k@,
                mv == self@,
                mv.len() == self.entries@.len(),
                forall|j: int|
                    0 <= j < mv.len() ==> #[trigger] mv[j] == (
                        self.entries@[j].0@,
                        self.entries@[j].1,
                    ),
                spec_assoc_get(mv, k@) == spec_assoc_get(mv.skip(i as int), k@),
            decreases self.entries@.len() - i,
        {
            proof {
                assert(mv.skip(i as int)[0] == mv[i as int]);
                assert(mv.skip(i as int).drop_first() =~= mv.skip(i + 1));
            }
            if self.entries[i].0.eq(&key_string) {
                return Some(&self.entries[i].1);
            }
            i = i + 1;
        }
        proof {
            assert(mv.skip(mv.len() as int) =~= Seq::<(Seq<char>, V)>::empty());
        }
        None
    }

    /// Binds `k` to `v`, overwriting in place or appending.
    pub fn set(&mut self, k: String, v: V)
        ensures
            final(self)@ == spec_assoc_set(old(self)@, k@, v),
    {
        let ghost mv = old(self)@;
        proof {
            assert(mv.skip(0) =~= mv);
        }
        let mut i: usize = 0;
        while i < self.entries.len()
            invariant
                *self == *old(self),
                i <= self.entries@.len(),
                mv == self@,
                mv.len() == self.entries@.len(),
                forall|j: int|
                    0 <= j < mv.len() ==> #[trigger] mv[j] == (
                        self.entries@[j].0@,
                        self.entries@[j].1,
                    ),
                forall|j: int| 0 <= j < i ==> mv[j].0 != k@,
                spec_assoc_set(mv, k@, v) == mv.subrange(0, i as int) + spec_assoc_set(
                    mv.skip(i as int),
                    k@,
                    v,
                ),
            decreases self.entries@.len() - i,
        {
            proof {
                assert(mv.skip(i as int)[0] == mv[i as int]);
                assert(mv.skip(i as int).drop_first() =~= mv.skip(i + 1));
            }
            if self.entries[i].0.eq(&k) {
                self.entries.remove(i);
                self.entries.insert(i, (k, v));
                proof {
                    assert(spec_assoc_set(mv.skip(i as int), k@, v) =~= seq![(k@, v)] + mv.skip(
                        i + 1,
                    ));
                    assert(self@ =~= mv.subrange(0, i as int) + seq![(k@, v)] + mv.skip(i + 1));
                    assert(self@ =~= spec_assoc_set(mv, k@, v));
                }
                return ;
            }
            proof {
                assert(spec_assoc_set(mv.skip(i as int), k@, v) =~= seq![mv[i as int]]
                    + spec_assoc_set(mv.skip(i + 1), k@, v));
                assert(mv.subrange(0, i as int) + seq![mv[i as int]] =~= mv.subrange(0, i + 1));
                assert(mv.subrange(0, i as int) + spec_assoc_set(mv.skip(i as int), k@, v)
                    =~= mv.subrange(0, i + 1) + spec_assoc_set(mv.skip(i + 1), k@, v));
            }
            i = i + 1;
        }
        self.entries.push((k, v));
        proof {
            assert(mv.skip(mv.len() as int) =~= Seq::<(Seq<char>, V)>::empty());
            assert(spec_assoc_set(mv.skip(mv.len() as int), k@, v) =~= seq![(k@, v)]);
            assert(mv.subrange(0, mv.len() as int) =~= mv);
            assert(self@ =~= mv + seq![(k@, v)]);
            assert(self@ =~= spec_assoc_set(mv, k@, v));
        }
    }

    /// Removes the first binding of `k`, if any.
    pub fn remove(&mut self, k: &str)
        ensures
            final(self)@ == spec_assoc_remove(old(self)@, k@),
    {
        let key_string = k.to_owned();
        let ghost mv = old(self)@;
        proof {
            assert(mv.skip(0) =~= mv);
        }
        let mut i: usize = 0;
        while i < self.entries.len()
            invariant
                *self == *old(self),
                i <= self.entries@.len(),
                key_string@ == k@,
                mv == self@,
                mv.len() == self.entries@.len(),
                forall|j: int|
                    0 <= j < mv.len() ==> #[trigger] mv[j] == (
                        self.entries@[j].0@,
                        self.entries@[j].1,
                    ),
                forall|j: int| 0 <= j < i ==> mv[j].0 != k@,
                spec_assoc_remove(mv, k@) == mv.subrange(0, i as int) + spec_assoc_remove(
                    mv.skip(i as int),
                    k@,
                ),
            decreases self.entries@.len() - i,
        {
            proof {
                assert(mv.skip(i as int)[0] == mv[i as int]);
                assert(mv.skip(i as int).drop_first() =~= mv.skip(i + 1));
            }
            if self.entries[i].0.eq(&key_string) {
                self.entries.remove(i);
                proof {
                    assert(spec_assoc_remove(mv.skip(i as int), k@) =~= mv.skip(i + 1));
                    assert(self@ =~= mv.subrange(0, i as int) + mv.skip(i + 1));
                    assert(self@ =~= spec_assoc_remove(mv, k@));
                }
                return ;
            }
            proof {
                assert(spec_assoc_remove(mv.skip(i as int), k@) =~= seq![mv[i as int]]
                    + spec_assoc_remove(mv.skip(i + 1), k@));
                assert(mv.subrange(0, i as int) + seq![mv[i as int]] =~= mv.subrange(0, i + 1));
                assert(mv.subrange(0, i as int) + spec_assoc_remove(mv.skip(i as int), k@)
                    =~= mv.subrange(0, i + 1) + spec_assoc_remove(mv.skip(i + 1), k@));
            }
            i = i + 1;
        }
        proof {
            assert(mv.skip(mv.len() as int) =~= Seq::<(Seq<char>, V)>::empty());
            assert(mv.subrange(0, mv.len() as int) =~= mv);
            assert(self@ =~= spec_assoc_remove(mv, k@));
        }
    }
}

/// An insertion-ordered map with object-id keys.
pub struct IdMap<V> {
    pub entries: Vec<(Id, V)>,
}

impl<V> View for IdMap<V> {
    type V = Seq<(Seq<u8>, V)>;

    open spec fn view(&self) -> Seq<(Seq<u8>, V)> {
        Seq::new(self.entries@.len(), |i: int| (self.entries@[i].0@, self.entries@[i].1))
    }
}

impl<V> IdMap<V> {
    /// The empty map.
    pub fn new() -> (r: IdMap<V>)
        ensures
            r@ == Seq::<(Seq<u8>, V)>::empty(),
    {
        let r = IdMap { entries: Vec::new() };
        proof {
            assert(r@ =~= Seq::<(Seq<u8>, V)>::empty());
        }
        r
    }

    /// How many bindings the map holds.
    pub fn len(&self) -> (r: usize)
        ensures
            r == self@.len(),
    {
        self.entries.len()
    }

    /// Whether `k` is bound.
    pub fn contains_key(&self, k: &Id) -> (r: bool)
        ensures
            r == (spec_assoc_get(self@, k@) is Some),
    {
        self.get(k).is_some()
    }

    /// The first value bound to `k`, if any.
    pub fn get<'a>(&'a self, k: &Id) -> (r: Option<&'a V>)
        ensures
            match r {
                Some(v) => spec_assoc_get(self@, k@) == Some(*v),
                None => spec_assoc_get(self@, k@) is None,
            },
    {
        let ghost mv = self@;
        proof {
            assert(mv.skip(0) =~= mv);
        }
        let mut i: usize = 0;
        while i < self.entries.len()
            invariant
                i <= self.entries@.len(),
                mv == self@,
                mv.len() == self.entries@.len(),
                forall|j: int|
                    0 <= j < mv.len() ==> #[trigger] mv[j] == (
                        self.entries@[j].0@,
                        self.entries@[j].1,
                    ),
                spec_assoc_get(mv, k@) == spec_assoc_get(mv.skip(i as int), k@),
            decreases self.entries@.len() - i,
        {
            proof {
                assert(mv.skip(i as int)[0] == mv[i as int]);
                assert(mv.skip(i as int).drop_first() =~= mv.skip(i + 1));
            }
            if self.entries[i].0.eq(k) {
                return Some(&self.entries[i].1);
            }
            i = i + 1;
        }
        proof {
            assert(mv.skip(mv.len() as int) =~= Seq::<(Seq<u8>, V)>::empty());
        }
        None
    }

    /// Binds `k` to `v`, overwriting in place or appending.
    pub fn set(&mut self, k: Id, v: V)
        ensures
            final(self)@ == spec_assoc_set(old(self)@, k@, v),
    {
        let ghost mv = old(self)@;
        proof {
            assert(mv.skip(0) =~= mv);
        }
        let mut i: usize = 0;
        while i < self.entries.len()
            invariant
                *self == *old(self),
                i <= self.entries@.len(),
                mv == self@,
                mv.len() == self.entries@.len(),
                forall|j: int|
                    0 <= j < mv.len() ==> #[trigger] mv[j] == (
                        self.entries@[j].0@,
                        self.entries@[j].1,
                    ),
                forall|j: int| 0 <= j < i ==> mv[j].0 != k@,
                spec_assoc_set(mv, k@, v) == mv.subrange(0, i as int) + spec_assoc_set(
                    mv.skip(i as int),
                    k@,
                    v,
                ),
            decreases self.entries@.len() - i,
        {
            proof {
                assert(mv.skip(i as int)[0] == mv[i as int]);
                assert(mv.skip(i as int).drop_first() =~= mv.skip(i + 1));
            }
            if self.entries[i].0.eq(&k) {
                self.entries.remove(i);
                self.entries.insert(i, (k, v));
                proof {
                    assert(spec_assoc_set(mv.skip(i as int), k@, v) =~= seq![(k@, v)] + mv.skip(
                        i + 1,
                    ));
                    assert(self@ =~= mv.subrange(0, i as int) + seq![(k@, v)] + mv.skip(i + 1));
                    assert(self@ =~= spec_assoc_set(mv, k@, v));
                }
                return ;
            }
            proof {
                assert(spec_assoc_set(mv.skip(i as int), k@, v) =~= seq![mv[i as int]]
                    + spec_assoc_set(mv.skip(i + 1), k@, v));
                assert(mv.subrange(0, i as int) + seq![mv[i as int]] =~= mv.subrange(0, i + 1));
                assert(mv.subrange(0, i as int) + spec_assoc_set(mv.skip(i as int), k@, v)
                    =~= mv.subrange(0, i + 1) + spec_assoc_set(mv.skip(i + 1), k@, v));
            }
            i = i + 1;
        }
        self.entries.push((k, v));
        proof {
            assert(mv.skip(mv.len() as int) =~= Seq::<(Seq<u8>, V)>::empty());
            assert(spec_assoc_set(mv.skip(mv.len() as int), k@, v) =~= seq![(k@, v)]);
            assert(mv.subrange(0, mv.len() as int) =~= mv);
            assert(self@ =~= mv + seq![(k@, v)]);
            assert(self@ =~= spec_assoc_set(mv, k@, v));
        }
    }
}

} // verus!
