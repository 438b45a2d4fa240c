//! Key-ordered associative containers backed by sorted vectors.
//!
//! The collectors accumulate into these instead of hash tables so that
//! iteration order in every output is stable and sorted by key.

use vstd::prelude::*;

use crate::order::{key_gt, Cmp, KeyOrder};

verus! {

/// Strict order derived from a `KeyOrder`.
pub open spec fn key_lt<K: KeyOrder>(a: K, b: K) -> bool {
    a.le(b) && a != b
}

/// A map from keys to values whose entries are kept sorted by key.
pub struct OrdMap<K, V> {
    pub entries: Vec<(K, V)>,
}

impl<K: KeyOrder + Copy, V> OrdMap<K, V> {
    /// Entries are strictly sorted by key, so keys are unique.
    pub open spec fn wf(self) -> bool {
        forall|p: int, q: int|
            0 <= p < q < self.entries@.len() ==> key_lt(
                #[trigger] self.entries@[p].0,
                #[trigger] self.entries@[q].0,
            )
    }

    pub open spec fn has_key(self, k: K) -> bool {
        exists|i: int| 0 <= i < self.entries@.len() && self.entries@[i].0 == k
    }

    pub fn new() -> (r: OrdMap<K, V>)
        ensures
            r.entries@ =~= Seq::<(K, V)>::empty(),
            r.wf(),
    {
        OrdMap { entries: Vec::new() }
    }

    pub fn len(&self) -> (r: usize)
        ensures
            r == self.entries@.len(),
    {
        self.entries.len()
    }

    /// Index of the first entry whose key is not strictly below `k`.
    fn lower_bound(&self, k: &K) -> (r: usize)
        requires
            self.wf(),
        ensures
            0 <= r <= self.entries@.len(),
            forall|i: int| 0 <= i < r ==> key_lt(#[trigger] self.entries@[i].0, *k),
            r < self.entries@.len() ==> !key_lt(self.entries@[r as int].0, *k),
    {
        let mut i: usize = 0;
        while i < self.entries.len()
            invariant
                0 <= i <= self.entries@.len(),
                self.wf(),
                forall|j: int| 0 <= j < i ==> key_lt(#[trigger] self.entries@[j].0, *k),
            decreases self.entries@.len() - i,
        {
            if !key_gt(k, &self.entries[i].0) {
                proof {
                    if self.entries@[i as int].0.le(*k) {
                        K::antisymmetric(self.entries@[i as int].0, *k);
                    }
                }
                return i;
            }
            proof {
                K::total(self.entries@[i as int].0, *k);
                if self.entries@[i as int].0 == *k {
                    K::reflexive(*k);
                }
            }
            i = i + 1;
        }
        i
    }

    pub fn get(&self, k: &K) -> (r: Option<&V>)
        requires
            self.wf(),
        ensures
            match r {
                Some(v) => map_get(self.entries@, *k) == Some(*v),
                None => !self.has_key(*k) && map_get(self.entries@, *k) is None,
            },
    {
        let i = self.lower_bound(k);
        if i < self.entries.len() {
            let c = self.entries[i].0.compare(k);
            if let Cmp::Equal = c {
                proof {
                    assert(self.entries@[i as int].0 == *k);
                    lemma_map_get_at(self.entries@, i as int);
                }
                return Some(&self.entries[i].1);
            }
        }
        proof {
            assert forall|j: int|
                0 <= j < self.entries@.len() implies (#[trigger] self.entries@[j]).0 != *k by {
                if j < i {
                } else if j == i {
                } else {
                    if self.entries@[j].0 == *k {
                        // entries[i].0 < entries[j].0 == k contradicts
                        // !key_lt(entries[i].0, k)
                        assert(key_lt(self.entries@[i as int].0, *k));
                    }
                }
            }
            lemma_map_get_absent(self.entries@, *k);
        }
        None
    }
}

/// Binding `key` to `value`, replacing any previous binding: the spec-level
/// effect of `OrdMap::set`.
pub open spec fn spec_map_set<K: KeyOrder, V>(s: Seq<(K, V)>, key: K, value: V) -> Seq<(K, V)>
    decreases s.len(),
{
    if s.len() == 0 {
        seq![(key, value)]
    } else if key == s[0].0 {
        s.update(0, (key, value))
    } else if key_lt(key, s[0].0) {
        s.insert(0, (key, value))
    } else {
        seq![s[0]] + spec_map_set(s.drop_first(), key, value)
    }
}

/// The value bound to `k`, if any.
pub open spec fn map_get<K, V>(s: Seq<(K, V)>, k: K) -> Option<V>
    decreases s.len(),
{
    if s.len() == 0 {
        None
    } else if s[0].0 == k {
        Some(s[0].1)
    } else {
        map_get(s.drop_first(), k)
    }
}

/// On a key-sorted sequence, `map_get` reads exactly the entry that holds
/// the key.
pub proof fn lemma_map_get_index<K: KeyOrder + Copy, V>(s: Seq<(K, V)>, k: K)
    requires
        forall|p: int, q: int| 0 <= p < q < s.len() ==> key_lt(#[trigger] s[p].0, #[trigger] s[q].0),
    ensures
        match map_get(s, k) {
            Some(v) => exists|i: int| 0 <= i < s.len() && s[i] == (k, v),
            None => forall|i: int| 0 <= i < s.len() ==> (#[trigger] s[i]).0 != k,
        },
    decreases s.len(),
{
    if s.len() > 0 && s[0].0 != k {
        let t = s.drop_first();
        assert(forall|i: int| 0 <= i < t.len() ==> #[trigger] t[i] == s[i + 1]);
        assert forall|p: int, q: int|
            0 <= p < q < t.len() implies key_lt(#[trigger] t[p].0, #[trigger] t[q].0) by {
            assert(t[p] == s[p + 1]);
            assert(t[q] == s[q + 1]);
            assert(key_lt(s[p + 1].0, s[q + 1].0));
        }
        lemma_map_get_index(t, k);
        match map_get(s, k) {
            Some(v) => {
                let i = choose|i: int| 0 <= i < t.len() && #[trigger] t[i] == (k, v);
                assert(s[i + 1] == (k, v));
            },
            None => {
                assert forall|i: int| 0 <= i < s.len() implies (#[trigger] s[i]).0 != k by {
                    if i > 0 {
                        assert(t[i - 1] == s[i]);
                    }
                }
            },
        }
    }
}

/// On a key-sorted sequence, `map_get` at the key of entry `i` reads that
/// entry's value.
pub proof fn lemma_map_get_at<K: KeyOrder + Copy, V>(s: Seq<(K, V)>, i: int)
    requires
        forall|p: int, q: int| 0 <= p < q < s.len() ==> key_lt(#[trigger] s[p].0, #[trigger] s[q].0),
        0 <= i < s.len(),
    ensures
        map_get(s, s[i].0) == Some(s[i].1),
    decreases i,
{
    if i > 0 {
        assert(key_lt(s[0].0, s[i].0));
        let t = s.drop_first();
        assert(forall|m: int| 0 <= m < t.len() ==> #[trigger] t[m] == s[m + 1]);
        assert forall|p: int, q: int|
            0 <= p < q < t.len() implies key_lt(#[trigger] t[p].0, #[trigger] t[q].0) by {
            assert(t[p] == s[p + 1]);
            assert(t[q] == s[q + 1]);
            assert(key_lt(s[p + 1].0, s[q + 1].0));
        }
        lemma_map_get_at(t, i - 1);
        assert(t[i - 1] == s[i]);
    }
}

/// A key no entry holds reads back nothing.
pub proof fn lemma_map_get_absent<K, V>(s: Seq<(K, V)>, k: K)
    requires
        forall|i: int| 0 <= i < s.len() ==> (#[trigger] s[i]).0 != k,
    ensures
        map_get(s, k) is None,
    decreases s.len(),
{
    if s.len() > 0 {
        let t = s.drop_first();
        assert(forall|m: int| 0 <= m < t.len() ==> #[trigger] t[m] == s[m + 1]);
        assert forall|i: int| 0 <= i < t.len() implies (#[trigger] t[i]).0 != k by {
            assert(t[i] == s[i + 1]);
        }
        lemma_map_get_absent(t, k);
    }
}

/// Whether some entry of the sequence holds the key.
pub open spec fn seq_has_key<K, V>(s: Seq<(K, V)>, k: K) -> bool {
    exists|i: int| 0 <= i < s.len() && (#[trigger] s[i]).0 == k
}

/// `spec_push_onto` adds exactly the pushed key to the key set.
pub proof fn lemma_push_onto_keys<K: KeyOrder + Copy, V>(
    s: Seq<(K, Seq<V>)>,
    key: K,
    value: V,
    k: K,
)
    ensures
        seq_has_key(spec_push_onto(s, key, value), k) <==> (seq_has_key(s, k) || k == key),
    decreases s.len(),
{
    let r = spec_push_onto(s, key, value);
    if s.len() == 0 {
        assert(r =~= seq![(key, seq![value])]);
        if k == key {
            assert(r[0].0 == k);
        }
        if seq_has_key(r, k) {
            let i = choose|i: int| 0 <= i < r.len() && (#[trigger] r[i]).0 == k;
        }
        if seq_has_key(s, k) {
            let i = choose|i: int| 0 <= i < s.len() && (#[trigger] s[i]).0 == k;
        }
    } else if key == s[0].0 {
        let r0 = s.update(0, (key, s[0].1.push(value)));
        assert(r == r0);
        if seq_has_key(r0, k) {
            let i = choose|i: int| 0 <= i < r0.len() && (#[trigger] r0[i]).0 == k;
            if i == 0 {
                assert(s[0].0 == k);
            } else {
                assert(s[i].0 == k);
            }
            assert(seq_has_key(s, k));
        }
        if seq_has_key(s, k) {
            let i = choose|i: int| 0 <= i < s.len() && (#[trigger] s[i]).0 == k;
            assert(r0[i].0 == k);
        }
        if k == key {
            assert(r0[0].0 == k);
        }
    } else if key_lt(key, s[0].0) {
        let r0 = s.insert(0, (key, seq![value]));
        assert(r == r0);
        if seq_has_key(r0, k) {
            let i = choose|i: int| 0 <= i < r0.len() && (#[trigger] r0[i]).0 == k;
            if i > 0 {
                assert(s[i - 1].0 == k);
                assert(seq_has_key(s, k));
            }
        }
        if seq_has_key(s, k) {
            let i = choose|i: int| 0 <= i < s.len() && (#[trigger] s[i]).0 == k;
            assert(r0[i + 1].0 == k);
        }
        if k == key {
            assert(r0[0].0 == k);
        }
    } else {
        lemma_push_onto_keys(s.drop_first(), key, value, k);
        let tail = spec_push_onto(s.drop_first(), key, value);
        let r0 = seq![s[0]] + tail;
        assert(r == r0);
        if seq_has_key(r0, k) {
            let i = choose|i: int| 0 <= i < r0.len() && (#[trigger] r0[i]).0 == k;
            if i == 0 {
                assert(s[0].0 == k);
                assert(seq_has_key(s, k));
            } else {
                assert(tail[i - 1].0 == k);
                assert(seq_has_key(tail, k));
                if seq_has_key(s.drop_first(), k) {
                    let m = choose|m: int|
                        0 <= m < s.drop_first().len() && (#[trigger] s.drop_first()[m]).0 == k;
                    assert(s[m + 1].0 == k);
                    assert(seq_has_key(s, k));
                }
            }
        }
        if seq_has_key(s, k) {
            let i = choose|i: int| 0 <= i < s.len() && (#[trigger] s[i]).0 == k;
            if i == 0 {
                assert(r0[0].0 == k);
            } else {
                assert(s.drop_first()[i - 1].0 == k);
                assert(seq_has_key(s.drop_first(), k));
                let m = choose|m: int| 0 <= m < tail.len() && (#[trigger] tail[m]).0 == k;
                assert(r0[m + 1].0 == k);
            }
            assert(seq_has_key(r0, k));
        }
        if k == key {
            assert(seq_has_key(tail, k));
            let m = choose|m: int| 0 <= m < tail.len() && (#[trigger] tail[m]).0 == k;
            assert(r0[m + 1].0 == k);
        }
    }
}

/// On a key-sorted accumulator view, the bucket of entry `i`'s key is that
/// entry's contents.
pub proof fn lemma_bucket_index<K: KeyOrder + Copy, V>(s: Seq<(K, Seq<V>)>, i: int)
    requires
        forall|p: int, q: int| 0 <= p < q < s.len() ==> key_lt(#[trigger] s[p].0, #[trigger] s[q].0),
        0 <= i < s.len(),
    ensures
        bucket_of(s, s[i].0) == s[i].1,
    decreases i,
{
    if i > 0 {
        assert(key_lt(s[0].0, s[i].0));
        let t = s.drop_first();
        assert(forall|m: int| 0 <= m < t.len() ==> #[trigger] t[m] == s[m + 1]);
        assert forall|p: int, q: int|
            0 <= p < q < t.len() implies key_lt(#[trigger] t[p].0, #[trigger] t[q].0) by {
            assert(t[p] == s[p + 1]);
            assert(t[q] == s[q + 1]);
            assert(key_lt(s[p + 1].0, s[q + 1].0));
        }
        lemma_bucket_index(t, i - 1);
        assert(t[i - 1] == s[i]);
    }
}

impl<K: KeyOrder + Copy, V> OrdMap<K, V> {
    /// Binds `key` to `value`, replacing any previous binding.
    pub fn set(&mut self, key: K, value: V)
        requires
            old(self).wf(),
        ensures
            final(self).wf(),
            final(self).entries@ == spec_map_set(old(self).entries@, key, value),
    {
        let ghost olds = self.entries@;
        let i = self.lower_bound(&key);
        let found = if i < self.entries.len() {
            match self.entries[i].0.compare(&key) {
                Cmp::Equal => true,
                _ => false,
            }
        } else {
            false
        };
        if found {
            let _ = self.entries.remove(i);
            self.entries.insert(i, (key, value));
            proof {
                assert(self.entries@ =~= olds.update(i as int, (key, value)));
                lemma_spec_map_set_at(olds, key, value, i as int);
                assert forall|p: int, q: int|
                    0 <= p < q < self.entries@.len() implies key_lt(
                    #[trigger] self.entries@[p].0,
                    #[trigger] self.entries@[q].0,
                ) by {
                    assert(self.entries@[p].0 == olds[p].0);
                    assert(self.entries@[q].0 == olds[q].0);
                }
            }
        } else {
            self.entries.insert(i, (key, value));
            proof {
                assert(self.entries@ =~= olds.insert(i as int, (key, value)));
                assert(i < olds.len() ==> key_lt(key, olds[i as int].0)) by {
                    if i < olds.len() {
                        K::total(olds[i as int].0, key);
                    }
                }
                assert forall|p: int, q: int|
                    0 <= p < q < self.entries@.len() implies key_lt(
                    #[trigger] self.entries@[p].0,
                    #[trigger] self.entries@[q].0,
                ) by {
                    if q < i {
                        assert(self.entries@[p].0 == olds[p].0);
                        assert(self.entries@[q].0 == olds[q].0);
                    } else if q == i {
                        assert(self.entries@[p].0 == olds[p].0);
                    } else if p == i {
                        assert(self.entries@[q].0 == olds[q - 1].0);
                        assert(key_lt(key, olds[i as int].0));
                        if q - 1 > i {
                            assert(key_lt(olds[i as int].0, olds[q - 1].0));
                            K::transitive(key, olds[i as int].0, olds[q - 1].0);
                            if key == olds[q - 1].0 {
                                K::antisymmetric(key, olds[i as int].0);
                            }
                        }
                    } else if p < i {
                        assert(self.entries@[p].0 == olds[p].0);
                        assert(self.entries@[q].0 == olds[q - 1].0);
                        assert(key_lt(olds[p].0, olds[q - 1].0));
                    } else {
                        assert(self.entries@[p].0 == olds[p - 1].0);
                        assert(self.entries@[q].0 == olds[q - 1].0);
                    }
                }
                lemma_spec_map_set_new(olds, key, value, i as int);
            }
        }
    }
}

/// When `key` sits at position `i`, `spec_map_set` rewrites that entry.
proof fn lemma_spec_map_set_at<K: KeyOrder + Copy, V>(s: Seq<(K, V)>, key: K, value: V, i: int)
    requires
        0 <= i < s.len(),
        s[i].0 == key,
        forall|j: int| 0 <= j < i ==> key_lt(#[trigger] s[j].0, key),
    ensures
        spec_map_set(s, key, value) == s.update(i, (key, value)),
    decreases i,
{
    if i == 0 {
        assert(spec_map_set(s, key, value) =~= s.update(0, (key, value)));
    } else {
        assert(s[0].0 != key);
        if key_lt(key, s[0].0) {
            K::antisymmetric(key, s[0].0);
            assert(false);
        }
        lemma_spec_map_set_at(s.drop_first(), key, value, i - 1);
        assert(spec_map_set(s, key, value) =~= seq![s[0]] + spec_map_set(
            s.drop_first(),
            key,
            value,
        ));
        assert(s.drop_first().update(i - 1, (key, value)) =~= s.update(i, (key, value)).drop_first());
        assert(spec_map_set(s, key, value) =~= s.update(i, (key, value)));
    }
}

/// When `key` is absent and `i` is its insertion point, `spec_map_set`
/// inserts the binding there.
proof fn lemma_spec_map_set_new<K: KeyOrder + Copy, V>(s: Seq<(K, V)>, key: K, value: V, i: int)
    requires
        0 <= i <= s.len(),
        forall|j: int| 0 <= j < i ==> key_lt(#[trigger] s[j].0, key),
        i < s.len() ==> !key_lt(s[i].0, key) && s[i].0 != key,
    ensures
        spec_map_set(s, key, value) == s.insert(i, (key, value)),
    decreases i,
{
    if s.len() == 0 {
        assert(spec_map_set(s, key, value) =~= s.insert(0, (key, value)));
    } else if i == 0 {
        K::total(key, s[0].0);
        assert(key_lt(key, s[0].0));
        assert(spec_map_set(s, key, value) =~= s.insert(0, (key, value)));
    } else {
        assert(key_lt(s[0].0, key));
        if key_lt(key, s[0].0) {
            K::antisymmetric(key, s[0].0);
            assert(false);
        }
        lemma_spec_map_set_new(s.drop_first(), key, value, i - 1);
        assert(spec_map_set(s, key, value) =~= seq![s[0]] + spec_map_set(
            s.drop_first(),
            key,
            value,
        ));
        assert(s.drop_first().insert(i - 1, (key, value)) =~= s.insert(i, (key, value)).drop_first());
        assert(spec_map_set(s, key, value) =~= s.insert(i, (key, value)));
    }
}

/// How `spec_map_set` changes each lookup on a key-sorted sequence: the set
/// key reads back the new value, every other key is untouched.
pub proof fn lemma_map_set_get<K: KeyOrder + Copy, V>(s: Seq<(K, V)>, key: K, value: V, k: K)
    requires
        forall|p: int, q: int| 0 <= p < q < s.len() ==> key_lt(#[trigger] s[p].0, #[trigger] s[q].0),
    ensures
        k == key ==> map_get(spec_map_set(s, key, value), k) == Some(value),
        k != key ==> map_get(spec_map_set(s, key, value), k) == map_get(s, k),
    decreases s.len(),
{
    let r = spec_map_set(s, key, value);
    if s.len() == 0 {
        assert(r =~= seq![(key, value)]);
        assert(r.drop_first().len() == 0);
        if k != key {
            assert(map_get(r.drop_first(), k) == None::<V>);
        }
    } else if key == s[0].0 {
        let r0 = s.update(0, (key, value));
        assert(r == r0);
        assert(r0.drop_first() =~= s.drop_first());
    } else if key_lt(key, s[0].0) {
        let r0 = s.insert(0, (key, value));
        assert(r == r0);
        assert(r0.drop_first() =~= s);
        if k == key {
            assert(map_get(r0, k) == Some(value));
        }
    } else {
        assert forall|p: int, q: int|
            0 <= p < q < s.drop_first().len() implies key_lt(
            #[trigger] s.drop_first()[p].0,
            #[trigger] s.drop_first()[q].0,
        ) by {
            assert(s.drop_first()[p] == s[p + 1]);
            assert(s.drop_first()[q] == s[q + 1]);
            assert(key_lt(s[p + 1].0, s[q + 1].0));
        }
        lemma_map_set_get(s.drop_first(), key, value, k);
        let tail = spec_map_set(s.drop_first(), key, value);
        let r0 = seq![s[0]] + tail;
        assert(r == r0);
        assert(r0[0] == s[0]);
        assert(r0.drop_first() =~= tail);
        if k == s[0].0 {
            assert(map_get(r0, k) == Some(s[0].1));
            if k == key {
                assert(false);
            }
        }
    }
}

/// Appends `value` to the bucket of `key`, creating the bucket if needed:
/// the spec-level effect of `push_onto_accumulator`.
pub open spec fn spec_push_onto<K: KeyOrder, V>(
    s: Seq<(K, Seq<V>)>,
    key: K,
    value: V,
) -> Seq<(K, Seq<V>)>
    decreases s.len(),
{
    if s.len() == 0 {
        seq![(key, seq![value])]
    } else if key == s[0].0 {
        s.update(0, (key, s[0].1.push(value)))
    } else if key_lt(key, s[0].0) {
        s.insert(0, (key, seq![value]))
    } else {
        seq![s[0]] + spec_push_onto(s.drop_first(), key, value)
    }
}

/// The bucket of `k`, or empty if there is none.
pub open spec fn bucket_of<K: KeyOrder, V>(s: Seq<(K, Seq<V>)>, k: K) -> Seq<V>
    decreases s.len(),
{
    if s.len() == 0 {
        Seq::empty()
    } else if s[0].0 == k {
        s[0].1
    } else {
        bucket_of(s.drop_first(), k)
    }
}

/// The abstract contents of an accumulator: its entries with vector buckets
/// read as sequences.
pub open spec fn acc_view<K, V>(m: OrdMap<K, Vec<V>>) -> Seq<(K, Seq<V>)> {
    m.entries@.map_values(|e: (K, Vec<V>)| (e.0, e.1@))
}

impl<K: KeyOrder + Copy, V> OrdMap<K, Vec<V>> {
    /// The bucket the accumulator holds for `k` (empty if none).
    pub open spec fn bucket(self, k: K) -> Seq<V> {
        bucket_of(acc_view(self), k)
    }
}

/// Adds `value` at the end of the vector that `accumulator` keeps for `key`,
/// starting a new one-element vector if the key is new.
pub fn push_onto_accumulator<K: KeyOrder + Copy, V>(
    accumulator: &mut OrdMap<K, Vec<V>>,
    key: K,
    value: V,
)
    requires
        old(accumulator).wf(),
    ensures
        final(accumulator).wf(),
        acc_view(*final(accumulator)) == spec_push_onto(acc_view(*old(accumulator)), key, value),
{
    let ghost olds = acc_view(*accumulator);
    let i = accumulator.lower_bound(&key);
    let found = if i < accumulator.entries.len() {
        match accumulator.entries[i].0.compare(&key) {
            Cmp::Equal => true,
            _ => false,
        }
    } else {
        false
    };
    if found {
        let (k0, mut bucket) = accumulator.entries.remove(i);
        bucket.push(value);
        accumulator.entries.insert(i, (k0, bucket));
        proof {
            assert(k0 == key);
            assert(accumulator.entries@ =~= old(accumulator).entries@.update(
                i as int,
                (k0, accumulator.entries@[i as int].1),
            ));
            assert(acc_view(*accumulator) =~= olds.update(i as int, (key, olds[i as int].1.push(value))));
            assert forall|j: int| 0 <= j < i implies key_lt(#[trigger] olds[j].0, key) by {
                assert(olds[j].0 == old(accumulator).entries@[j].0);
            }
            lemma_spec_push_onto_at(olds, key, value, i as int);
            assert forall|p: int, q: int|
                0 <= p < q < accumulator.entries@.len() implies key_lt(
                #[trigger] accumulator.entries@[p].0,
                #[trigger] accumulator.entries@[q].0,
            ) by {
                assert(accumulator.entries@[p].0 == old(accumulator).entries@[p].0);
                assert(accumulator.entries@[q].0 == old(accumulator).entries@[q].0);
            }
        }
    } else {
        let mut single: Vec<V> = Vec::new();
        single.push(value);
        accumulator.entries.insert(i, (key, single));
        proof {
            assert(acc_view(*accumulator) =~= olds.insert(i as int, (key, seq![value])));
            let es = old(accumulator).entries@;
            // key sits strictly between the entries before and after slot i
            assert(i < es.len() ==> key_lt(key, es[i as int].0)) by {
                if i < es.len() {
                    K::total(es[i as int].0, key);
                }
            }
            assert forall|p: int, q: int|
                0 <= p < q < accumulator.entries@.len() implies key_lt(
                #[trigger] accumulator.entries@[p].0,
                #[trigger] accumulator.entries@[q].0,
            ) by {
                if q < i {
                    assert(accumulator.entries@[p].0 == es[p].0);
                    assert(accumulator.entries@[q].0 == es[q].0);
                } else if q == i {
                    assert(accumulator.entries@[p].0 == es[p].0);
                } else if p == i {
                    assert(accumulator.entries@[q].0 == es[q - 1].0);
                    assert(key_lt(key, es[i as int].0));
                    if q - 1 > i {
                        assert(key_lt(es[i as int].0, es[q - 1].0));
                        K::transitive(key, es[i as int].0, es[q - 1].0);
                        if key == es[q - 1].0 {
                            K::antisymmetric(key, es[i as int].0);
                        }
                    }
                } else if p < i {
                    assert(accumulator.entries@[p].0 == es[p].0);
                    assert(accumulator.entries@[q].0 == es[q - 1].0);
                    assert(key_lt(es[p].0, es[q - 1].0));
                } else {
                    assert(accumulator.entries@[p].0 == es[p - 1].0);
                    assert(accumulator.entries@[q].0 == es[q - 1].0);
                }
            }
            assert forall|j: int| 0 <= j < i implies key_lt(#[trigger] olds[j].0, key) by {
                assert(olds[j].0 == es[j].0);
            }
            lemma_spec_push_onto_new(olds, key, value, i as int);
        }
    }
}

/// When `key` sits at position `i`, `spec_push_onto` updates that bucket.
proof fn lemma_spec_push_onto_at<K: KeyOrder + Copy, V>(
    s: Seq<(K, Seq<V>)>,
    key: K,
    value: V,
    i: int,
)
    requires
        0 <= i < s.len(),
        s[i].0 == key,
        forall|j: int| 0 <= j < i ==> key_lt(#[trigger] s[j].0, key),
    ensures
        spec_push_onto(s, key, value) == s.update(i, (key, s[i].1.push(value))),
    decreases i,
{
    if i == 0 {
        assert(spec_push_onto(s, key, value) =~= s.update(0, (key, s[0].1.push(value))));
    } else {
        assert(s[0].0 != key);
        if key_lt(key, s[0].0) {
            K::antisymmetric(key, s[0].0);
            assert(false);
        }
        lemma_spec_push_onto_at(s.drop_first(), key, value, i - 1);
        assert(spec_push_onto(s, key, value) =~= seq![s[0]] + spec_push_onto(
            s.drop_first(),
            key,
            value,
        ));
        assert(s.drop_first().update(i - 1, (key, s[i].1.push(value))) =~= s.update(
            i,
            (key, s[i].1.push(value)),
        ).drop_first());
        assert(spec_push_onto(s, key, value) =~= s.update(i, (key, s[i].1.push(value))));
    }
}

/// When `key` is absent and `i` is its insertion point, `spec_push_onto`
/// inserts a fresh one-element bucket there.
proof fn lemma_spec_push_onto_new<K: KeyOrder + Copy, V>(
    s: Seq<(K, Seq<V>)>,
    key: K,
    value: V,
    i: int,
)
    requires
        0 <= i <= s.len(),
        forall|j: int| 0 <= j < i ==> key_lt(#[trigger] s[j].0, key),
        i < s.len() ==> !key_lt(s[i].0, key) && s[i].0 != key,
    ensures
        spec_push_onto(s, key, value) == s.insert(i, (key, seq![value])),
    decreases i,
{
    if s.len() == 0 {
        assert(spec_push_onto(s, key, value) =~= s.insert(0, (key, seq![value])));
    } else if i == 0 {
        K::total(key, s[0].0);
        assert(key_lt(key, s[0].0));
        assert(spec_push_onto(s, key, value) =~= s.insert(0, (key, seq![value])));
    } else {
        assert(key_lt(s[0].0, key));
        assert(s[0].0 != key);
        if key_lt(key, s[0].0) {
            K::antisymmetric(key, s[0].0);
            assert(false);
        }
        lemma_spec_push_onto_new(s.drop_first(), key, value, i - 1);
        assert(spec_push_onto(s, key, value) =~= seq![s[0]] + spec_push_onto(
            s.drop_first(),
            key,
            value,
        ));
        assert(s.drop_first().insert(i - 1, (key, seq![value])) =~= s.insert(
            i,
            (key, seq![value]),
        ).drop_first());
        assert(spec_push_onto(s, key, value) =~= s.insert(i, (key, seq![value])));
    }
}

/// A key that appears in no entry has the empty bucket.
pub proof fn lemma_bucket_absent<K: KeyOrder + Copy, V>(s: Seq<(K, Seq<V>)>, k: K)
    requires
        forall|i: int| 0 <= i < s.len() ==> (#[trigger] s[i].0) != k,
    ensures
        bucket_of(s, k) == Seq::<V>::empty(),
    decreases s.len(),
{
    if s.len() > 0 {
        lemma_bucket_absent(s.drop_first(), k);
    }
}

/// How `spec_push_onto` changes each bucket of a key-sorted accumulator: the
/// pushed key gains `value` at the end of its bucket, every other bucket is
/// untouched.
pub proof fn lemma_push_onto_buckets<K: KeyOrder + Copy, V>(
    s: Seq<(K, Seq<V>)>,
    key: K,
    value: V,
    k: K,
)
    requires
        forall|p: int, q: int| 0 <= p < q < s.len() ==> key_lt(#[trigger] s[p].0, #[trigger] s[q].0),
    ensures
        k == key ==> bucket_of(spec_push_onto(s, key, value), k) == bucket_of(s, k).push(value),
        k != key ==> bucket_of(spec_push_onto(s, key, value), k) == bucket_of(s, k),
    decreases s.len(),
{
    let r = spec_push_onto(s, key, value);
    if s.len() == 0 {
        assert(r =~= seq![(key, seq![value])]);
        if k == key {
            assert(bucket_of(s, k) =~= Seq::<V>::empty());
            assert(bucket_of(r, k) =~= Seq::<V>::empty().push(value));
        } else {
            assert(r.drop_first().len() == 0);
            assert(bucket_of(r.drop_first(), k) =~= Seq::<V>::empty());
            assert(bucket_of(r, k) =~= Seq::<V>::empty());
        }
    } else if key == s[0].0 {
        let r0 = s.update(0, (key, s[0].1.push(value)));
        assert(r == r0);
        assert(r0.drop_first() =~= s.drop_first());
    } else if key_lt(key, s[0].0) {
        let r0 = s.insert(0, (key, seq![value]));
        assert(r == r0);
        assert(r0.drop_first() =~= s);
        if k == key {
            // key is strictly below every key of s, so its old bucket is empty
            assert forall|i: int| 0 <= i < s.len() implies (#[trigger] s[i].0) != key by {
                if i > 0 {
                    assert(key_lt(s[0].0, s[i].0));
                    K::transitive(key, s[0].0, s[i].0);
                    if s[i].0 == key {
                        K::antisymmetric(key, s[0].0);
                    }
                }
            }
            lemma_bucket_absent(s, key);
            assert(bucket_of(r0, k) =~= Seq::<V>::empty().push(value));
        }
    } else {
        assert forall|p: int, q: int|
            0 <= p < q < s.drop_first().len() implies key_lt(
            #[trigger] s.drop_first()[p].0,
            #[trigger] s.drop_first()[q].0,
        ) by {
            assert(s.drop_first()[p] == s[p + 1]);
            assert(s.drop_first()[q] == s[q + 1]);
            assert(key_lt(s[p + 1].0, s[q + 1].0));
        }
        lemma_push_onto_buckets(s.drop_first(), key, value, k);
        let tail = spec_push_onto(s.drop_first(), key, value);
        let r0 = seq![s[0]] + tail;
        assert(r == r0);
        assert(r0[0] == s[0]);
        assert(r0.drop_first() =~= tail);
        if k == s[0].0 {
            assert(bucket_of(r0, k) == r0[0].1);
        }
    }
}


/// Keys of a sequence of entries are strictly sorted.
pub open spec fn sorted_keys<K: KeyOrder, V>(s: Seq<(K, V)>) -> bool {
    forall|p: int, q: int| 0 <= p < q < s.len() ==> key_lt(#[trigger] s[p].0, #[trigger] s[q].0)
}

/// `spec_push_onto` keeps the entries strictly sorted by key.
pub proof fn lemma_push_onto_sorted<K: KeyOrder + Copy, V>(s: Seq<(K, Seq<V>)>, key: K, value: V)
    requires
        sorted_keys(s),
    ensures
        sorted_keys(spec_push_onto(s, key, value)),
    decreases s.len(),
{
    let r = spec_push_onto(s, key, value);
    if s.len() == 0 {
        assert(r =~= seq![(key, seq![value])]);
    } else if key == s[0].0 {
        let r0 = s.update(0, (key, s[0].1.push(value)));
        assert(r == r0);
        assert forall|p: int, q: int|
            0 <= p < q < r0.len() implies key_lt(#[trigger] r0[p].0, #[trigger] r0[q].0) by {
            assert(r0[p].0 == s[p].0);
            assert(r0[q].0 == s[q].0);
            assert(key_lt(s[p].0, s[q].0));
        }
    } else if key_lt(key, s[0].0) {
        let r0 = s.insert(0, (key, seq![value]));
        assert(r == r0);
        assert forall|p: int, q: int|
            0 <= p < q < r0.len() implies key_lt(#[trigger] r0[p].0, #[trigger] r0[q].0) by {
            if p == 0 {
                assert(r0[q].0 == s[q - 1].0);
                if q - 1 > 0 {
                    assert(key_lt(s[0].0, s[q - 1].0));
                    K::transitive(key, s[0].0, s[q - 1].0);
                    if key == s[q - 1].0 {
                        K::antisymmetric(key, s[0].0);
                    }
                }
            } else {
                assert(r0[p].0 == s[p - 1].0);
                assert(r0[q].0 == s[q - 1].0);
                assert(key_lt(s[p - 1].0, s[q - 1].0));
            }
        }
    } else {
        let t = s.drop_first();
        assert(forall|m: int| 0 <= m < t.len() ==> #[trigger] t[m] == s[m + 1]);
        assert forall|p: int, q: int|
            0 <= p < q < t.len() implies key_lt(#[trigger] t[p].0, #[trigger] t[q].0) by {
            assert(t[p] == s[p + 1]);
            assert(t[q] == s[q + 1]);
            assert(key_lt(s[p + 1].0, s[q + 1].0));
        }
        lemma_push_onto_sorted(t, key, value);
        let tail = spec_push_onto(t, key, value);
        let r0 = seq![s[0]] + tail;
        assert(r == r0);
        // the head key is strictly below key and every tail key
        assert(key_lt(s[0].0, key)) by {
            K::total(key, s[0].0);
        }
        assert forall|p: int, q: int|
            0 <= p < q < r0.len() implies key_lt(#[trigger] r0[p].0, #[trigger] r0[q].0) by {
            if p > 0 {
                assert(r0[p].0 == tail[p - 1].0);
                assert(r0[q].0 == tail[q - 1].0);
                assert(key_lt(tail[p - 1].0, tail[q - 1].0));
            } else {
                assert(r0[q].0 == tail[q - 1].0);
                assert(seq_has_key(tail, tail[q - 1].0));
                lemma_push_onto_keys(t, key, value, tail[q - 1].0);
                if tail[q - 1].0 == key {
                } else {
                    assert(seq_has_key(t, tail[q - 1].0));
                    let m = choose|m: int| 0 <= m < t.len() && (#[trigger] t[m]).0 == tail[q
                        - 1].0;
                    assert(t[m] == s[m + 1]);
                    assert(key_lt(s[0].0, s[m + 1].0));
                }
            }
        }
    }
}

/// Every bucket element after a push is the pushed value or an element some
/// bucket already held.
pub proof fn lemma_push_onto_members<K: KeyOrder + Copy, V>(s: Seq<(K, Seq<V>)>, key: K, value: V)
    ensures
        forall|i: int, j: int|
            0 <= i < spec_push_onto(s, key, value).len() && 0 <= j < spec_push_onto(
                s,
                key,
                value,
            )[i].1.len() ==> (#[trigger] spec_push_onto(s, key, value)[i].1[j]) == value || exists|
                i2: int,
                j2: int,
            |
                0 <= i2 < s.len() && 0 <= j2 < s[i2].1.len() && (#[trigger] s[i2].1[j2])
                    == spec_push_onto(s, key, value)[i].1[j],
    decreases s.len(),
{
    let r = spec_push_onto(s, key, value);
    if s.len() == 0 {
        assert(r =~= seq![(key, seq![value])]);
        assert forall|i: int, j: int|
            0 <= i < r.len() && 0 <= j < r[i].1.len() implies (#[trigger] r[i].1[j]) == value
            || exists|i2: int, j2: int|
            0 <= i2 < s.len() && 0 <= j2 < s[i2].1.len() && (#[trigger] s[i2].1[j2])
                == r[i].1[j] by {
            assert(r[i].1 =~= seq![value]);
        }
    } else if key == s[0].0 {
        let r0 = s.update(0, (key, s[0].1.push(value)));
        assert(r == r0);
        assert forall|i: int, j: int|
            0 <= i < r0.len() && 0 <= j < r0[i].1.len() implies (#[trigger] r0[i].1[j]) == value
            || exists|i2: int, j2: int|
            0 <= i2 < s.len() && 0 <= j2 < s[i2].1.len() && (#[trigger] s[i2].1[j2])
                == r0[i].1[j] by {
            if i == 0 {
                if j < s[0].1.len() {
                    assert(s[0].1[j] == r0[0].1[j]);
                }
            } else {
                assert(s[i].1[j] == r0[i].1[j]);
            }
        }
    } else if key_lt(key, s[0].0) {
        let r0 = s.insert(0, (key, seq![value]));
        assert(r == r0);
        assert forall|i: int, j: int|
            0 <= i < r0.len() && 0 <= j < r0[i].1.len() implies (#[trigger] r0[i].1[j]) == value
            || exists|i2: int, j2: int|
            0 <= i2 < s.len() && 0 <= j2 < s[i2].1.len() && (#[trigger] s[i2].1[j2])
                == r0[i].1[j] by {
            if i == 0 {
                assert(r0[0].1 =~= seq![value]);
            } else {
                assert(s[i - 1].1[j] == r0[i].1[j]);
            }
        }
    } else {
        let t = s.drop_first();
        assert(forall|m: int| 0 <= m < t.len() ==> #[trigger] t[m] == s[m + 1]);
        lemma_push_onto_members(t, key, value);
        let tail = spec_push_onto(t, key, value);
        let r0 = seq![s[0]] + tail;
        assert(r == r0);
        assert forall|i: int, j: int|
            0 <= i < r0.len() && 0 <= j < r0[i].1.len() implies (#[trigger] r0[i].1[j]) == value
            || exists|i2: int, j2: int|
            0 <= i2 < s.len() && 0 <= j2 < s[i2].1.len() && (#[trigger] s[i2].1[j2])
                == r0[i].1[j] by {
            if i == 0 {
                assert(r0[0].1 == s[0].1);
                assert(s[0].1[j] == r0[0].1[j]);
            } else {
                assert(r0[i].1 == tail[i - 1].1);
                if !(tail[i - 1].1[j] == value) {
                    let (i2, j2) = choose|i2: int, j2: int|
                        0 <= i2 < t.len() && 0 <= j2 < t[i2].1.len() && (#[trigger] t[i2].1[j2])
                            == tail[i - 1].1[j];
                    assert(t[i2] == s[i2 + 1]);
                    assert(s[i2 + 1].1[j2] == r0[i].1[j]);
                }
            }
        }
    }
}

/// `map_get` and `bucket_of` agree: the bucket is the looked-up value, or
/// empty when the key is absent.
pub proof fn lemma_map_get_vs_bucket<K: KeyOrder, V>(s: Seq<(K, Seq<V>)>, k: K)
    ensures
        match map_get(s, k) {
            Some(b) => bucket_of(s, k) == b,
            None => bucket_of(s, k) == Seq::<V>::empty(),
        },
    decreases s.len(),
{
    if s.len() > 0 && s[0].0 != k {
        lemma_map_get_vs_bucket(s.drop_first(), k);
    }
}

/// Lookup commutes with mapping a function over the values.
pub proof fn lemma_map_get_mapped<K, V, W>(s: Seq<(K, V)>, f: spec_fn(V) -> W, k: K)
    ensures
        map_get(s.map_values(|e: (K, V)| (e.0, f(e.1))), k) == match map_get(s, k) {
            Some(v) => Some(f(v)),
            None => None::<W>,
        },
    decreases s.len(),
{
    let m = s.map_values(|e: (K, V)| (e.0, f(e.1)));
    if s.len() == 0 {
    } else {
        assert(m.len() == s.len());
        assert(m[0] == (s[0].0, f(s[0].1)));
        if s[0].0 == k {
        } else {
            assert(m.drop_first() =~= s.drop_first().map_values(|e: (K, V)| (e.0, f(e.1))));
            lemma_map_get_mapped(s.drop_first(), f, k);
        }
    }
}

/// Two strictly key-sorted entry sequences with the same keys and the same
/// lookups are the same sequence.
pub proof fn lemma_sorted_assoc_unique<K: KeyOrder + Copy, W>(e1: Seq<(K, W)>, e2: Seq<(K, W)>)
    requires
        sorted_keys(e1),
        sorted_keys(e2),
        forall|k: K| #[trigger] seq_has_key(e1, k) <==> seq_has_key(e2, k),
        forall|k: K| #[trigger] map_get(e1, k) == map_get(e2, k),
    ensures
        e1 =~= e2,
    decreases e1.len(),
{
    if e1.len() == 0 && e2.len() == 0 {
    } else if e1.len() == 0 {
        assert(e2[0].0 == e2[0].0);
        assert(seq_has_key(e2, e2[0].0));
        assert(seq_has_key(e1, e2[0].0));
        let i = choose|i: int| 0 <= i < e1.len() && (#[trigger] e1[i]).0 == e2[0].0;
        assert(false);
    } else if e2.len() == 0 {
        assert(seq_has_key(e1, e1[0].0));
        assert(seq_has_key(e2, e1[0].0));
        let i = choose|i: int| 0 <= i < e2.len() && (#[trigger] e2[i]).0 == e1[0].0;
        assert(false);
    } else {
        // the head keys are the minima of equal key sets, hence equal
        assert(seq_has_key(e1, e1[0].0));
        assert(seq_has_key(e2, e1[0].0));
        let i2 = choose|i: int| 0 <= i < e2.len() && (#[trigger] e2[i]).0 == e1[0].0;
        assert(seq_has_key(e2, e2[0].0));
        assert(seq_has_key(e1, e2[0].0));
        let i1 = choose|i: int| 0 <= i < e1.len() && (#[trigger] e1[i]).0 == e2[0].0;
        assert(e1[0].0 == e2[0].0) by {
            if i1 > 0 {
                assert(key_lt(e1[0].0, e1[i1].0));
            }
            if i2 > 0 {
                assert(key_lt(e2[0].0, e2[i2].0));
            }
            if i1 == 0 && i2 == 0 {
            } else if i1 == 0 {
                // e1[0].0 == e2[0].0 directly
            } else if i2 == 0 {
            } else {
                // e1[0].0 < e1[i1].0 == e2[0].0 < e2[i2].0 == e1[0].0
                K::transitive(e1[0].0, e2[0].0, e1[0].0);
                K::antisymmetric(e1[0].0, e2[0].0);
            }
        }
        assert(e1[0].1 == e2[0].1) by {
            assert(map_get(e1, e1[0].0) == Some(e1[0].1));
            assert(map_get(e2, e2[0].0) == Some(e2[0].1));
        }
        let t1 = e1.drop_first();
        let t2 = e2.drop_first();
        assert(forall|m: int| 0 <= m < t1.len() ==> #[trigger] t1[m] == e1[m + 1]);
        assert(forall|m: int| 0 <= m < t2.len() ==> #[trigger] t2[m] == e2[m + 1]);
        assert forall|p: int, q: int|
            0 <= p < q < t1.len() implies key_lt(#[trigger] t1[p].0, #[trigger] t1[q].0) by {
            assert(t1[p] == e1[p + 1]);
            assert(t1[q] == e1[q + 1]);
            assert(key_lt(e1[p + 1].0, e1[q + 1].0));
        }
        assert forall|p: int, q: int|
            0 <= p < q < t2.len() implies key_lt(#[trigger] t2[p].0, #[trigger] t2[q].0) by {
            assert(t2[p] == e2[p + 1]);
            assert(t2[q] == e2[q + 1]);
            assert(key_lt(e2[p + 1].0, e2[q + 1].0));
        }
        assert forall|k: K| #[trigger] seq_has_key(t1, k) <==> seq_has_key(t2, k) by {
            lemma_tail_has_key(e1, k);
            lemma_tail_has_key(e2, k);
        }
        assert forall|k: K| #[trigger] map_get(t1, k) == map_get(t2, k) by {
            if k == e1[0].0 {
                lemma_tail_has_key(e1, k);
                lemma_tail_has_key(e2, k);
                assert(!seq_has_key(t1, k));
                assert(!seq_has_key(t2, k));
                assert forall|m: int| 0 <= m < t1.len() implies (#[trigger] t1[m]).0 != k by {
                    if t1[m].0 == k {
                        assert(seq_has_key(t1, k));
                    }
                }
                assert forall|m: int| 0 <= m < t2.len() implies (#[trigger] t2[m]).0 != k by {
                    if t2[m].0 == k {
                        assert(seq_has_key(t2, k));
                    }
                }
                lemma_map_get_absent(t1, k);
                lemma_map_get_absent(t2, k);
            } else {
                assert(map_get(e1, k) == map_get(t1, k));
                assert(map_get(e2, k) == map_get(t2, k));
            }
        }
        lemma_sorted_assoc_unique(t1, t2);
        assert forall|m: int| 0 <= m < e1.len() implies e1[m] == e2[m] by {
            if m > 0 {
                assert(t1[m - 1] == e1[m]);
                assert(t2[m - 1] == e2[m]);
            }
        }
    }
}

/// A key is in the tail of a strictly sorted sequence exactly when it is in
/// the whole sequence and is not the head key.
proof fn lemma_tail_has_key<K: KeyOrder + Copy, W>(e: Seq<(K, W)>, k: K)
    requires
        sorted_keys(e),
        e.len() > 0,
    ensures
        seq_has_key(e.drop_first(), k) <==> (seq_has_key(e, k) && k != e[0].0),
{
    let t = e.drop_first();
    assert(forall|m: int| 0 <= m < t.len() ==> #[trigger] t[m] == e[m + 1]);
    if seq_has_key(t, k) {
        let m = choose|m: int| 0 <= m < t.len() && (#[trigger] t[m]).0 == k;
        assert(e[m + 1].0 == k);
        assert(seq_has_key(e, k));
        assert(key_lt(e[0].0, e[m + 1].0));
    }
    if seq_has_key(e, k) && k != e[0].0 {
        let m = choose|m: int| 0 <= m < e.len() && (#[trigger] e[m]).0 == k;
        assert(m > 0);
        assert(t[m - 1].0 == k);
        assert(seq_has_key(t, k));
    }
}


/// An accumulator with each bucket element mapped through `f`.
pub open spec fn deep_map<K, V, W>(s: Seq<(K, Seq<V>)>, f: spec_fn(V) -> W) -> Seq<(K, Seq<W>)> {
    s.map_values(|e: (K, Seq<V>)| (e.0, e.1.map_values(f)))
}

/// Mapping the bucket elements commutes with pushing onto a bucket.
pub proof fn lemma_push_onto_mapped<K: KeyOrder + Copy, V, W>(
    s: Seq<(K, Seq<V>)>,
    key: K,
    value: V,
    f: spec_fn(V) -> W,
)
    ensures
        deep_map(spec_push_onto(s, key, value), f) == spec_push_onto(deep_map(s, f), key, f(value)),
    decreases s.len(),
{
    let r = spec_push_onto(s, key, value);
    let d = deep_map(s, f);
    if s.len() == 0 {
        assert(d.len() == 0);
        assert(spec_push_onto(d, key, f(value)) =~= seq![(key, seq![f(value)])]);
        assert(r =~= seq![(key, seq![value])]);
        assert(deep_map(r, f).len() == 1);
        assert(deep_map(r, f)[0].0 == key);
        assert(deep_map(r, f)[0].1 =~= seq![f(value)]);
        assert(deep_map(r, f)[0] == (key, seq![f(value)]));
        assert(deep_map(r, f) =~= seq![(key, seq![f(value)])]);
    } else if key == s[0].0 {
        assert(d[0].0 == key);
        assert(spec_push_onto(d, key, f(value)) == d.update(0, (key, d[0].1.push(f(value)))));
        assert(deep_map(r, f) =~= d.update(0, (key, d[0].1.push(f(value))))) by {
            assert(r == s.update(0, (key, s[0].1.push(value))));
            assert forall|m: int| 0 <= m < r.len() implies #[trigger] deep_map(r, f)[m]
                == d.update(0, (key, d[0].1.push(f(value))))[m] by {
                if m == 0 {
                    assert(deep_map(r, f)[0] == (key, s[0].1.push(value).map_values(f)));
                    assert(s[0].1.push(value).map_values(f) =~= s[0].1.map_values(f).push(
                        f(value),
                    ));
                } else {
                    assert(r[m] == s[m]);
                }
            }
        }
    } else if key_lt(key, s[0].0) {
        assert(d[0].0 == s[0].0);
        assert(spec_push_onto(d, key, f(value)) == d.insert(0, (key, seq![f(value)])));
        assert(deep_map(r, f) =~= d.insert(0, (key, seq![f(value)]))) by {
            assert(r == s.insert(0, (key, seq![value])));
            assert forall|m: int| 0 <= m < r.len() implies #[trigger] deep_map(r, f)[m]
                == d.insert(0, (key, seq![f(value)]))[m] by {
                if m == 0 {
                    assert(deep_map(r, f)[0] == (key, seq![value].map_values(f)));
                    assert(seq![value].map_values(f) =~= seq![f(value)]);
                } else {
                    assert(r[m] == s[m - 1]);
                    assert(d[m - 1] == (s[m - 1].0, s[m - 1].1.map_values(f)));
                }
            }
        }
    } else {
        let t = s.drop_first();
        lemma_push_onto_mapped(t, key, value, f);
        assert(d[0].0 == s[0].0);
        assert(spec_push_onto(d, key, f(value)) == seq![d[0]] + spec_push_onto(
            d.drop_first(),
            key,
            f(value),
        ));
        assert(d.drop_first() =~= deep_map(t, f));
        assert(r == seq![s[0]] + spec_push_onto(t, key, value));
        assert(deep_map(r, f) =~= seq![d[0]] + deep_map(spec_push_onto(t, key, value), f)) by {
            assert forall|m: int| 0 <= m < r.len() implies #[trigger] deep_map(r, f)[m] == (
            seq![d[0]] + deep_map(spec_push_onto(t, key, value), f))[m] by {
                if m == 0 {
                    assert(r[0] == s[0]);
                } else {
                    assert(r[m] == spec_push_onto(t, key, value)[m - 1]);
                }
            }
        }
    }
}


/// After a push, every old bucket element is still there, at its old
/// position in the bucket of its old key.
pub proof fn lemma_push_onto_member_kept<K: KeyOrder + Copy, V>(
    s: Seq<(K, Seq<V>)>,
    key: K,
    value: V,
    n: int,
    m: int,
)
    requires
        sorted_keys(s),
        0 <= n < s.len(),
        0 <= m < s[n].1.len(),
    ensures
        exists|n2: int|
            0 <= n2 < spec_push_onto(s, key, value).len() && (#[trigger] spec_push_onto(
                s,
                key,
                value,
            )[n2]).0 == s[n].0 && m < spec_push_onto(s, key, value)[n2].1.len() && spec_push_onto(
                s,
                key,
                value,
            )[n2].1[m] == s[n].1[m],
{
    let r = spec_push_onto(s, key, value);
    let k0 = s[n].0;
    lemma_bucket_index(s, n);
    lemma_push_onto_buckets(s, key, value, k0);
    lemma_push_onto_keys(s, key, value, k0);
    assert(seq_has_key(s, k0));
    assert(seq_has_key(r, k0));
    let n2 = choose|n2: int| 0 <= n2 < r.len() && (#[trigger] r[n2]).0 == k0;
    lemma_push_onto_sorted(s, key, value);
    lemma_bucket_index(r, n2);
    assert(bucket_of(r, k0) == r[n2].1);
    if k0 == key {
        assert(r[n2].1 == s[n].1.push(value));
        assert(r[n2].1[m] == s[n].1[m]);
    } else {
        assert(r[n2].1 == s[n].1);
    }
}

/// After a push, the pushed value sits at the end of its key's bucket.
pub proof fn lemma_push_onto_value_present<K: KeyOrder + Copy, V>(
    s: Seq<(K, Seq<V>)>,
    key: K,
    value: V,
)
    requires
        sorted_keys(s),
    ensures
        exists|n2: int, m2: int|
            0 <= n2 < spec_push_onto(s, key, value).len() && (#[trigger] spec_push_onto(
                s,
                key,
                value,
            )[n2]).0 == key && 0 <= m2 < spec_push_onto(s, key, value)[n2].1.len()
                && (#[trigger] spec_push_onto(s, key, value)[n2].1[m2]) == value,
{
    let r = spec_push_onto(s, key, value);
    lemma_push_onto_buckets(s, key, value, key);
    lemma_push_onto_keys(s, key, value, key);
    assert(seq_has_key(r, key));
    let n2 = choose|n2: int| 0 <= n2 < r.len() && (#[trigger] r[n2]).0 == key;
    lemma_push_onto_sorted(s, key, value);
    lemma_bucket_index(r, n2);
    assert(r[n2].1 == bucket_of(s, key).push(value));
    let m2 = bucket_of(s, key).len() as int;
    assert(r[n2].1[m2] == value);
}


/// Every bucket element after a push is the pushed value under the pushed
/// key, or an old element under its old key.
pub proof fn lemma_push_onto_members_keyed<K: KeyOrder + Copy, V>(
    s: Seq<(K, Seq<V>)>,
    key: K,
    value: V,
)
    ensures
        forall|i: int, j: int|
            0 <= i < spec_push_onto(s, key, value).len() && 0 <= j < spec_push_onto(
                s,
                key,
                value,
            )[i].1.len() ==> ((#[trigger] spec_push_onto(s, key, value)[i].1[j]) == value
                && spec_push_onto(s, key, value)[i].0 == key) || exists|i2: int, j2: int|
                0 <= i2 < s.len() && 0 <= j2 < s[i2].1.len() && (#[trigger] s[i2].1[j2])
                    == spec_push_onto(s, key, value)[i].1[j] && s[i2].0 == spec_push_onto(
                    s,
                    key,
                    value,
                )[i].0,
    decreases s.len(),
{
    let r = spec_push_onto(s, key, value);
    if s.len() == 0 {
        assert(r =~= seq![(key, seq![value])]);
        assert forall|i: int, j: int|
            0 <= i < r.len() && 0 <= j < r[i].1.len() implies ((#[trigger] r[i].1[j]) == value
            && r[i].0 == key) || exists|i2: int, j2: int|
            0 <= i2 < s.len() && 0 <= j2 < s[i2].1.len() && (#[trigger] s[i2].1[j2]) == r[i].1[j]
                && s[i2].0 == r[i].0 by {
            assert(r[i].1 =~= seq![value]);
        }
    } else if key == s[0].0 {
        let r0 = s.update(0, (key, s[0].1.push(value)));
        assert(r == r0);
        assert forall|i: int, j: int|
            0 <= i < r0.len() && 0 <= j < r0[i].1.len() implies ((#[trigger] r0[i].1[j]) == value
            && r0[i].0 == key) || exists|i2: int, j2: int|
            0 <= i2 < s.len() && 0 <= j2 < s[i2].1.len() && (#[trigger] s[i2].1[j2]) == r0[i].1[j]
                && s[i2].0 == r0[i].0 by {
            if i == 0 {
                if j < s[0].1.len() {
                    assert(s[0].1[j] == r0[0].1[j]);
                    assert(s[0].0 == r0[0].0);
                }
            } else {
                assert(s[i].1[j] == r0[i].1[j]);
                assert(s[i].0 == r0[i].0);
            }
        }
    } else if key_lt(key, s[0].0) {
        let r0 = s.insert(0, (key, seq![value]));
        assert(r == r0);
        assert forall|i: int, j: int|
            0 <= i < r0.len() && 0 <= j < r0[i].1.len() implies ((#[trigger] r0[i].1[j]) == value
            && r0[i].0 == key) || exists|i2: int, j2: int|
            0 <= i2 < s.len() && 0 <= j2 < s[i2].1.len() && (#[trigger] s[i2].1[j2]) == r0[i].1[j]
                && s[i2].0 == r0[i].0 by {
            if i == 0 {
                assert(r0[0].1 =~= seq![value]);
            } else {
                assert(s[i - 1].1[j] == r0[i].1[j]);
                assert(s[i - 1].0 == r0[i].0);
            }
        }
    } else {
        let t = s.drop_first();
        assert(forall|m: int| 0 <= m < t.len() ==> #[trigger] t[m] == s[m + 1]);
        lemma_push_onto_members_keyed(t, key, value);
        let tail = spec_push_onto(t, key, value);
        let r0 = seq![s[0]] + tail;
        assert(r == r0);
        assert forall|i: int, j: int|
            0 <= i < r0.len() && 0 <= j < r0[i].1.len() implies ((#[trigger] r0[i].1[j]) == value
            && r0[i].0 == key) || exists|i2: int, j2: int|
            0 <= i2 < s.len() && 0 <= j2 < s[i2].1.len() && (#[trigger] s[i2].1[j2]) == r0[i].1[j]
                && s[i2].0 == r0[i].0 by {
            if i == 0 {
                assert(r0[0] == s[0]);
                assert(s[0].1[j] == r0[0].1[j]);
            } else {
                assert(r0[i] == tail[i - 1]);
                if !(tail[i - 1].1[j] == value && tail[i - 1].0 == key) {
                    let (i2, j2) = choose|i2: int, j2: int|
                        0 <= i2 < t.len() && 0 <= j2 < t[i2].1.len() && (#[trigger] t[i2].1[j2])
                            == tail[i - 1].1[j] && t[i2].0 == tail[i - 1].0;
                    assert(t[i2] == s[i2 + 1]);
                    assert(s[i2 + 1].1[j2] == r0[i].1[j]);
                    assert(s[i2 + 1].0 == r0[i].0);
                }
            }
        }
    }
}


/// Every value after a `spec_map_set` is the written value or an old one.
pub proof fn lemma_map_set_values<K: KeyOrder + Copy, V>(s: Seq<(K, V)>, key: K, value: V)
    ensures
        forall|i: int|
            0 <= i < spec_map_set(s, key, value).len() ==> (#[trigger] spec_map_set(
                s,
                key,
                value,
            )[i]).1 == value || exists|j: int|
                0 <= j < s.len() && (#[trigger] s[j]).1 == spec_map_set(s, key, value)[i].1,
    decreases s.len(),
{
    let r = spec_map_set(s, key, value);
    if s.len() == 0 {
        assert(r =~= seq![(key, value)]);
    } else if key == s[0].0 {
        assert forall|i: int|
            0 <= i < r.len() implies (#[trigger] r[i]).1 == value || exists|j: int|
            0 <= j < s.len() && (#[trigger] s[j]).1 == r[i].1 by {
            if i > 0 {
                assert(s[i].1 == r[i].1);
            }
        }
    } else if key_lt(key, s[0].0) {
        assert forall|i: int|
            0 <= i < r.len() implies (#[trigger] r[i]).1 == value || exists|j: int|
            0 <= j < s.len() && (#[trigger] s[j]).1 == r[i].1 by {
            if i > 0 {
                assert(s[i - 1].1 == r[i].1);
            }
        }
    } else {
        let t = s.drop_first();
        assert(forall|m: int| 0 <= m < t.len() ==> #[trigger] t[m] == s[m + 1]);
        lemma_map_set_values(t, key, value);
        let tail = spec_map_set(t, key, value);
        assert(r == seq![s[0]] + tail);
        assert forall|i: int|
            0 <= i < r.len() implies (#[trigger] r[i]).1 == value || exists|j: int|
            0 <= j < s.len() && (#[trigger] s[j]).1 == r[i].1 by {
            if i == 0 {
                assert(s[0].1 == r[0].1);
            } else {
                assert(r[i] == tail[i - 1]);
                if tail[i - 1].1 != value {
                    let j = choose|j: int| 0 <= j < t.len() && (#[trigger] t[j]).1 == tail[i - 1].1;
                    assert(s[j + 1].1 == r[i].1);
                }
            }
        }
    }
}

/// Dropping the last entry does not change a lookup for another key.
pub proof fn lemma_map_get_drop_last<K, V>(s: Seq<(K, V)>, k: K)
    requires
        s.len() > 0,
        s.last().0 != k,
    ensures
        map_get(s, k) == map_get(s.drop_last(), k),
    decreases s.len(),
{
    if s.len() == 1 {
        assert(s.drop_last().len() == 0);
    } else {
        assert(s.drop_last()[0] == s[0]);
        if s[0].0 != k {
            let t = s.drop_first();
            assert(t.last() == s.last());
            lemma_map_get_drop_last(t, k);
            assert(t.drop_last() =~= s.drop_last().drop_first());
            assert(map_get(s.drop_last(), k) == map_get(s.drop_last().drop_first(), k));
        }
    }
}

} // verus!
