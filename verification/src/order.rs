//! A total order over key types, used by the sorted maps and sets that the
//! collectors accumulate into, and by the sorting routines.

use vstd::prelude::*;

verus! {

pub enum Cmp {
    Less,
    Equal,
    Greater,
}

/// A total order that agrees with spec equality, together with an
/// executable three-way comparison.
pub trait KeyOrder: Sized {
    spec fn le(self, other: Self) -> bool;

    proof fn reflexive(x: Self)
        ensures
            Self::le(x, x),
    ;

    proof fn transitive(x: Self, y: Self, z: Self)
        requires
            Self::le(x, y),
            Self::le(y, z),
        ensures
            Self::le(x, z),
    ;

    proof fn antisymmetric(x: Self, y: Self)
        requires
            Self::le(x, y),
            Self::le(y, x),
        ensures
            x == y,
    ;

    proof fn total(x: Self, y: Self)
        ensures
            Self::le(x, y) || Self::le(y, x),
    ;

    fn compare(&self, other: &Self) -> (c: Cmp)
        ensures
            match c {
                Cmp::Less => self.le(*other) && *self != *other,
                Cmp::Equal => *self == *other,
                Cmp::Greater => other.le(*self) && *self != *other,
            },
    ;
}

impl KeyOrder for u64 {
    open spec fn le(self, other: Self) -> bool {
        self <= other
    }

    proof fn reflexive(x: Self) {
    }

    proof fn transitive(x: Self, y: Self, z: Self) {
    }

    proof fn antisymmetric(x: Self, y: Self) {
    }

    proof fn total(x: Self, y: Self) {
    }

    fn compare(&self, other: &Self) -> (c: Cmp) {
        if *self < *other {
            Cmp::Less
        } else if *self == *other {
            Cmp::Equal
        } else {
            Cmp::Greater
        }
    }
}

impl KeyOrder for u128 {
    open spec fn le(self, other: Self) -> bool {
        self <= other
    }

    proof fn reflexive(x: Self) {
    }

    proof fn transitive(x: Self, y: Self, z: Self) {
    }

    proof fn antisymmetric(x: Self, y: Self) {
    }

    proof fn total(x: Self, y: Self) {
    }

    fn compare(&self, other: &Self) -> (c: Cmp) {
        if *self < *other {
            Cmp::Less
        } else if *self == *other {
            Cmp::Equal
        } else {
            Cmp::Greater
        }
    }
}

impl KeyOrder for i64 {
    open spec fn le(self, other: Self) -> bool {
        self <= other
    }

    proof fn reflexive(x: Self) {
    }

    proof fn transitive(x: Self, y: Self, z: Self) {
    }

    proof fn antisymmetric(x: Self, y: Self) {
    }

    proof fn total(x: Self, y: Self) {
    }

    fn compare(&self, other: &Self) -> (c: Cmp) {
        if *self < *other {
            Cmp::Less
        } else if *self == *other {
            Cmp::Equal
        } else {
            Cmp::Greater
        }
    }
}

impl KeyOrder for bool {
    open spec fn le(self, other: Self) -> bool {
        !self || other
    }

    proof fn reflexive(x: Self) {
    }

    proof fn transitive(x: Self, y: Self, z: Self) {
    }

    proof fn antisymmetric(x: Self, y: Self) {
    }

    proof fn total(x: Self, y: Self) {
    }

    fn compare(&self, other: &Self) -> (c: Cmp) {
        if *self == *other {
            Cmp::Equal
        } else if *other {
            Cmp::Less
        } else {
            Cmp::Greater
        }
    }
}

impl<A: KeyOrder + Copy, B: KeyOrder + Copy> KeyOrder for (A, B) {
    open spec fn le(self, other: Self) -> bool {
        if self.0 == other.0 {
            self.1.le(other.1)
        } else {
            self.0.le(other.0)
        }
    }

    proof fn reflexive(x: Self) {
        B::reflexive(x.1);
    }

    proof fn transitive(x: Self, y: Self, z: Self) {
        if x.0 == y.0 && y.0 == z.0 {
            B::transitive(x.1, y.1, z.1);
        } else if x.0 == y.0 {
            // x.0 == y.0, y.0 != z.0: y.0 le z.0 gives x.0 le z.0
        } else if y.0 == z.0 {
        } else {
            A::transitive(x.0, y.0, z.0);
            if x.0 == z.0 {
                A::antisymmetric(y.0, z.0);
            }
        }
    }

    proof fn antisymmetric(x: Self, y: Self) {
        if x.0 == y.0 {
            B::antisymmetric(x.1, y.1);
        } else {
            A::antisymmetric(x.0, y.0);
        }
    }

    proof fn total(x: Self, y: Self) {
        A::total(x.0, y.0);
        B::total(x.1, y.1);
    }

    fn compare(&self, other: &Self) -> (c: Cmp) {
        let c0 = self.0.compare(&other.0);
        match c0 {
            Cmp::Equal => self.1.compare(&other.1),
            Cmp::Less => Cmp::Less,
            Cmp::Greater => Cmp::Greater,
        }
    }
}

/// The `le` relation of a `KeyOrder` type, as a binary spec closure.
pub open spec fn le_of<K: KeyOrder>() -> spec_fn(K, K) -> bool {
    |a: K, b: K| a.le(b)
}

/// `le_of` satisfies vstd's `total_ordering`, which the sorting lemmas need.
pub proof fn lemma_le_of_total_ordering<K: KeyOrder>()
    ensures
        vstd::relations::total_ordering(le_of::<K>()),
{
    let leq = le_of::<K>();
    assert forall|x: K| #[trigger] leq(x, x) by {
        K::reflexive(x);
    }
    assert forall|x: K, y: K| #[trigger] leq(x, y) && #[trigger] leq(y, x) implies x == y by {
        K::antisymmetric(x, y);
    }
    assert forall|x: K, y: K, z: K| #[trigger] leq(x, y) && #[trigger] leq(y, z) implies leq(
        x,
        z,
    ) by {
        K::transitive(x, y, z);
    }
    assert forall|x: K, y: K| #[trigger] leq(x, y) || #[trigger] leq(y, x) by {
        K::total(x, y);
    }
}

/// True exactly when `a` comes strictly after `b` in the key order.
pub fn key_gt<K: KeyOrder>(a: &K, b: &K) -> (r: bool)
    ensures
        r == !a.le(*b),
{
    let c = a.compare(b);
    proof {
        K::reflexive(*a);
        K::total(*a, *b);
        if a.le(*b) && b.le(*a) {
            K::antisymmetric(*a, *b);
        }
    }
    match c {
        Cmp::Greater => true,
        _ => false,
    }
}

/// Sorts a vector in place by the key order. The result is the unique sorted
/// permutation of the input, written `sort_by` at the spec level.
pub fn sort_vec<K: KeyOrder + Copy>(v: &mut Vec<K>)
    ensures
        final(v)@ == old(v)@.sort_by(le_of::<K>()),
        final(v)@.to_multiset() == old(v)@.to_multiset(),
        vstd::relations::sorted_by(final(v)@, le_of::<K>()),
{
    proof {
        lemma_le_of_total_ordering::<K>();
    }
    let ghost leq = le_of::<K>();
    let ghost orig = v@;
    if v.len() <= 1 {
        proof {
            orig.lemma_sort_by_ensures(leq);
            vstd::seq_lib::lemma_sorted_unique(v@, orig.sort_by(leq), leq);
            assert(v@ =~= orig.sort_by(leq));
        }
        return ;
    }
    let mut i: usize = 1;
    while i < v.len()
        invariant
            1 <= i <= v@.len(),
            v@.to_multiset() == orig.to_multiset(),
            v@.len() == orig.len(),
            vstd::relations::sorted_by(v@.take(i as int), leq),
            leq == le_of::<K>(),
        decreases v@.len() - i,
    {
        let mut j: usize = i;
        while j > 0 && key_gt(&v[j - 1], &v[j])
            invariant
                0 <= j <= i < v@.len(),
                v@.to_multiset() == orig.to_multiset(),
                v@.len() == orig.len(),
                vstd::relations::sorted_by(v@.take(j as int), leq),
                vstd::relations::sorted_by(v@.subrange(j as int, i + 1), leq),
                forall|p: int, q: int|
                    0 <= p < j && j < q <= i ==> #[trigger] leq(v@[p], v@[q]),
                leq == le_of::<K>(),
            decreases j,
        {
            let ghost before = v@;
            let x = v[j - 1];
            let y = v[j];
            proof {
                K::total(x, y);
            }
            v.set(j - 1, y);
            v.set(j, x);
            proof {
                lemma_swap_multiset(before, v@, j - 1, j as int);
                assert(v@.take(j - 1) =~= before.take(j - 1));
                assert(before.take(j - 1) =~= before.take(j as int).take(j - 1));
                let sub = v@.subrange(j - 1, i + 1);
                assert forall|p: int, q: int| 0 <= p < q < sub.len() implies #[trigger] leq(
                    sub[p],
                    sub[q],
                ) by {
                    let oldsub = before.subrange(j as int, i + 1);
                    assert(forall|k: int|
                        0 <= k < oldsub.len() ==> oldsub[k] == before[j + k]);
                    if p == 0 && q == 1 {
                        assert(leq(y, x));
                    } else if p == 0 {
                        // y is the old v[j]; the old tail was sorted from j on
                        assert(sub[q] == before[j - 1 + q]);
                        assert(leq(oldsub[0], oldsub[q - 1]));
                        assert(sub[0] == oldsub[0]);
                        assert(sub[q] == oldsub[q - 1]);
                    } else if p == 1 {
                        // x against an element beyond j: the old bridge at
                        // position j - 1
                        assert(sub[q] == before[j - 1 + q]);
                        assert(leq(before[j - 1], before[j - 1 + q]));
                    } else {
                        assert(sub[p] == before[j - 1 + p]);
                        assert(sub[q] == before[j - 1 + q]);
                        assert(leq(oldsub[p - 1], oldsub[q - 1]));
                    }
                }
                assert forall|p: int, q: int|
                    0 <= p < j - 1 && j - 1 < q <= i implies #[trigger] leq(v@[p], v@[q]) by {
                    let pre = before.take(j as int);
                    assert(v@[p] == before[p]);
                    if q == j {
                        // the moved element x, once at j - 1, now at j
                        assert(leq(pre[p], pre[j - 1]));
                        assert(v@[q] == before[j - 1]);
                    } else {
                        // q > j: untouched tail; the old bridge applies
                        assert(v@[q] == before[q]);
                        assert(leq(before[p], before[q]));
                    }
                }
            }
            j = j - 1;
        }
        proof {
            // Either j == 0 or v[j-1] <= v[j]; stitch the three regions together.
            assert forall|p: int, q: int| 0 <= p < q <= i implies #[trigger] leq(v@[p], v@[q]) by {
                let sub = v@.subrange(j as int, i + 1);
                assert(forall|k: int| 0 <= k < sub.len() ==> sub[k] == v@[j + k]);
                if q < j {
                    assert(v@.take(j as int)[p] == v@[p]);
                    assert(v@.take(j as int)[q] == v@[q]);
                } else if p >= j {
                    assert(leq(sub[p - j], sub[q - j]));
                } else if q == j {
                    // p < j <= i, q == j: v[j-1] <= v[j] holds here (loop exited)
                    assert(leq(v@[j - 1], v@[j as int]));
                    if p < j - 1 {
                        assert(v@.take(j as int)[p] == v@[p]);
                        assert(v@.take(j as int)[j - 1] == v@[j - 1]);
                        assert(leq(v@[p], v@[j - 1]));
                        K::transitive(v@[p], v@[j - 1], v@[j as int]);
                    }
                } else {
                    assert(leq(v@[p], v@[q]));
                }
            }
            assert(vstd::relations::sorted_by(v@.take(i + 1), leq));
        }
        i = i + 1;
    }
    proof {
        assert(v@ =~= v@.take(i as int));
        assert(vstd::relations::sorted_by(v@, leq));
        orig.lemma_sort_by_ensures(leq);
        vstd::seq_lib::lemma_sorted_unique(v@, orig.sort_by(leq), leq);
        assert(v@ =~= orig.sort_by(leq));
    }
}

/// Two sequences with equal multisets are the same after swapping two
/// adjacent-or-distant positions.
proof fn lemma_swap_multiset<K>(s: Seq<K>, t: Seq<K>, i: int, j: int)
    requires
        0 <= i < j < s.len(),
        t.len() == s.len(),
        t[i] == s[j],
        t[j] == s[i],
        forall|k: int| 0 <= k < s.len() && k != i && k != j ==> t[k] == s[k],
    ensures
        s.to_multiset() =~= t.to_multiset(),
{
    assert(t =~= s.update(i, s[j]).update(j, s[i]));
    lemma_update_multiset(s, i, s[j]);
    lemma_update_multiset(s.update(i, s[j]), j, s[i]);
    broadcast use vstd::seq_lib::group_to_multiset_ensures;

    assert(s.update(i, s[j]).to_multiset() =~= s.to_multiset().remove(s[i]).insert(s[j]));
    assert(s.update(i, s[j])[j] == s[j]);
    assert(s.update(i, s[j]).update(j, s[i]).to_multiset() =~= s.update(i, s[j]).to_multiset()
        .remove(s[j]).insert(s[i]));
    assert(t.to_multiset() =~= s.to_multiset().remove(s[i]).insert(s[j]).remove(s[j]).insert(
        s[i],
    ));
    assert(s.to_multiset().remove(s[i]).insert(s[j]).remove(s[j]).insert(s[i]) =~= s.to_multiset());
}

/// Updating position `i` removes the old element from the multiset and
/// inserts the new one.
proof fn lemma_update_multiset<K>(s: Seq<K>, i: int, x: K)
    requires
        0 <= i < s.len(),
    ensures
        s.update(i, x).to_multiset() =~= s.to_multiset().remove(s[i]).insert(x),
{
    broadcast use vstd::seq_lib::group_to_multiset_ensures;

    assert(s.update(i, x) =~= s.remove(i).insert(i, x));
    assert(s.remove(i).to_multiset() =~= s.to_multiset().remove(s[i]));
    lemma_insert_multiset(s.remove(i), i, x);
}

/// Removing one occurrence from a sequence removes it from the filtered
/// multiset when it passes the predicate, and changes nothing otherwise.
proof fn lemma_filter_remove_multiset<A>(s: Seq<A>, pred: spec_fn(A) -> bool, i: int)
    requires
        0 <= i < s.len(),
    ensures
        pred(s[i]) ==> s.filter(pred).to_multiset() =~= s.remove(i).filter(pred).to_multiset()
            .insert(s[i]),
        !pred(s[i]) ==> s.filter(pred).to_multiset() =~= s.remove(i).filter(pred).to_multiset(),
    decreases s.len(),
{
    reveal(Seq::filter);
    broadcast use vstd::seq_lib::group_to_multiset_ensures;

    if i == s.len() - 1 {
        assert(s.remove(i) =~= s.drop_last());
    } else {
        let t = s.drop_last();
        assert(s.remove(i).drop_last() =~= t.remove(i));
        assert(s.remove(i).last() == s.last());
        lemma_filter_remove_multiset(t, pred, i);
        assert(t[i] == s[i]);
        if pred(s.last()) {
            assert(s.filter(pred) =~= t.filter(pred).push(s.last()));
            assert(s.remove(i).filter(pred) =~= t.remove(i).filter(pred).push(s.last()));
        } else {
            assert(s.filter(pred) =~= t.filter(pred));
            assert(s.remove(i).filter(pred) =~= t.remove(i).filter(pred));
        }
    }
}

/// Two sequences holding the same elements have the same elements after
/// filtering, as multisets.
pub proof fn lemma_filter_multiset<A>(s1: Seq<A>, s2: Seq<A>, pred: spec_fn(A) -> bool)
    requires
        s1.to_multiset() == s2.to_multiset(),
    ensures
        s1.filter(pred).to_multiset() == s2.filter(pred).to_multiset(),
    decreases s1.len(),
{
    reveal(Seq::filter);
    broadcast use vstd::seq_lib::group_to_multiset_ensures;

    if s1.len() == 0 {
        assert(s1.to_multiset().len() == 0);
        assert(s2.to_multiset().len() == 0);
        assert(s2.len() == 0);
    } else {
        let x = s1.last();
        assert(s1.to_multiset().count(x) > 0);
        assert(s2.contains(x));
        let i = choose|i: int| 0 <= i < s2.len() && s2[i] == x;
        let s1p = s1.drop_last();
        let s2p = s2.remove(i);
        assert(s1.remove(s1.len() - 1) =~= s1p);
        assert(s1p.to_multiset() =~= s1.to_multiset().remove(x));
        assert(s2p.to_multiset() =~= s2.to_multiset().remove(x));
        lemma_filter_multiset(s1p, s2p, pred);
        lemma_filter_remove_multiset(s1, pred, s1.len() - 1);
        lemma_filter_remove_multiset(s2, pred, i);
        if pred(x) {
            assert(s1.filter(pred).to_multiset() =~= s1p.filter(pred).to_multiset().insert(x));
            assert(s2.filter(pred).to_multiset() =~= s2p.filter(pred).to_multiset().insert(x));
        }
    }
}

/// Two sequences holding the same elements still do after mapping, as
/// multisets.
pub proof fn lemma_map_multiset<A, B>(s1: Seq<A>, s2: Seq<A>, f: spec_fn(A) -> B)
    requires
        s1.to_multiset() == s2.to_multiset(),
    ensures
        s1.map_values(f).to_multiset() == s2.map_values(f).to_multiset(),
    decreases s1.len(),
{
    broadcast use vstd::seq_lib::group_to_multiset_ensures;

    if s1.len() == 0 {
        assert(s1.to_multiset().len() == 0);
        assert(s2.to_multiset().len() == 0);
        assert(s2.len() == 0);
        assert(s1.map_values(f) =~= s2.map_values(f));
    } else {
        let x = s1.last();
        assert(s1.to_multiset().count(x) > 0);
        assert(s2.contains(x));
        let i = choose|i: int| 0 <= i < s2.len() && s2[i] == x;
        let s1p = s1.drop_last();
        let s2p = s2.remove(i);
        assert(s1.remove(s1.len() - 1) =~= s1p);
        assert(s1p.to_multiset() =~= s1.to_multiset().remove(x));
        assert(s2p.to_multiset() =~= s2.to_multiset().remove(x));
        lemma_map_multiset(s1p, s2p, f);
        assert(s1.map_values(f) =~= s1p.map_values(f).push(f(x)));
        assert(s1.map_values(f).to_multiset() =~= s1p.map_values(f).to_multiset().insert(f(x)));
        assert(s2.map_values(f).remove(i) =~= s2p.map_values(f));
        assert(s2.map_values(f)[i] == f(x));
        assert(s2p.map_values(f).to_multiset() =~= s2.map_values(f).to_multiset().remove(f(x)));
        assert(s2.map_values(f).to_multiset().count(f(x)) > 0) by {
            assert(s2.map_values(f).contains(f(x)));
        }
        assert(s1.map_values(f).to_multiset() =~= s2.map_values(f).to_multiset());
    }
}

/// Inserting an element anywhere inserts it into the multiset.
proof fn lemma_insert_multiset<K>(s: Seq<K>, i: int, x: K)
    requires
        0 <= i <= s.len(),
    ensures
        s.insert(i, x).to_multiset() =~= s.to_multiset().insert(x),
    decreases s.len(),
{
    broadcast use vstd::seq_lib::group_to_multiset_ensures;

    if i == s.len() {
        assert(s.insert(i, x) =~= s.push(x));
    } else {
        let t = s.insert(i, x);
        assert(t.len() == s.len() + 1);
        assert(t.last() == s.last());
        assert(t.drop_last() =~= s.drop_last().insert(i, x));
        lemma_insert_multiset(s.drop_last(), i, x);
        assert(s =~= s.drop_last().push(s.last()));
        assert(t =~= t.drop_last().push(s.last()));
        assert(t.to_multiset() =~= t.drop_last().to_multiset().insert(s.last()));
        assert(s.to_multiset() =~= s.drop_last().to_multiset().insert(s.last()));
    }
}

} // verus!
