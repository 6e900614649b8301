//! Strictly ascending enumerations of finite sets.
//!
//! Sorting a list and dropping its duplicates yields the one strictly
//! ascending sequence that holds exactly the list's elements. This module
//! states what that sequence is and computes it.

use vstd::prelude::*;
use vstd::relations::*;

verus! {

/// `s` lists exactly the members of `of`, each once, in ascending order.
pub open spec fn enumerates<K>(s: Seq<K>, of: Set<K>, lt: spec_fn(K, K) -> bool) -> bool {
    &&& sorted_by(s, lt)
    &&& forall|x: K| s.contains(x) <==> of.contains(x)
}

/// The ascending enumeration of `of`, where one exists.
pub open spec fn enumeration<K>(of: Set<K>, lt: spec_fn(K, K) -> bool) -> Seq<K> {
    choose|s: Seq<K>| enumerates(s, of, lt)
}

/// Under a strict total order a set has at most one ascending enumeration.
pub proof fn lemma_enumeration_unique<K>(a: Seq<K>, b: Seq<K>, of: Set<K>, lt: spec_fn(K, K) -> bool)
    requires
        strict_total_ordering(lt),
        enumerates(a, of, lt),
        enumerates(b, of, lt),
    ensures
        a == b,
    decreases a.len(),
{
    if a.len() == 0 {
        if b.len() > 0 {
            assert(b.contains(b[0]));
            assert(a.contains(b[0]));
        }
        assert(a =~= b);
    } else {
        let top = a.last();
        assert(a.contains(top));
        if b.len() == 0 {
            assert(b.contains(top));
        }
        let other = b.last();
        assert(b.contains(other));
        assert(b.contains(top));
        assert(a.contains(other));
        let i = choose|i: int| 0 <= i < a.len() && a[i] == other;
        let j = choose|j: int| 0 <= j < b.len() && b[j] == top;
        if i < a.len() - 1 {
            assert(lt(a[i], a[a.len() - 1]));
            if j < b.len() - 1 {
                assert(lt(b[j], b[b.len() - 1]));
            }
        }
        if j < b.len() - 1 {
            assert(lt(b[j], b[b.len() - 1]));
        }
        assert(top == other);
        let rest = of.remove(top);
        let a0 = a.drop_last();
        let b0 = b.drop_last();
        assert forall|x: K| a0.contains(x) <==> rest.contains(x) by {
            if a0.contains(x) {
                let k = choose|k: int| 0 <= k < a0.len() && a0[k] == x;
                assert(a[k] == x);
                assert(a.contains(x));
                assert(lt(a[k], a[a.len() - 1]));
            }
            if rest.contains(x) {
                assert(a.contains(x));
                let k = choose|k: int| 0 <= k < a.len() && a[k] == x;
                assert(a0[k] == x);
            }
        }
        assert forall|x: K| b0.contains(x) <==> rest.contains(x) by {
            if b0.contains(x) {
                let k = choose|k: int| 0 <= k < b0.len() && b0[k] == x;
                assert(b[k] == x);
                assert(b.contains(x));
                assert(lt(b[k], b[b.len() - 1]));
            }
            if rest.contains(x) {
                assert(b.contains(x));
                let k = choose|k: int| 0 <= k < b.len() && b[k] == x;
                assert(b0[k] == x);
            }
        }
        assert(sorted_by(a0, lt)) by {
            assert forall|p: int, q: int| 0 <= p < q < a0.len() implies #[trigger] lt(a0[p], a0[q]) by {
                assert(lt(a[p], a[q]));
            }
        }
        assert(sorted_by(b0, lt)) by {
            assert forall|p: int, q: int| 0 <= p < q < b0.len() implies #[trigger] lt(b0[p], b0[q]) by {
                assert(lt(b[p], b[q]));
            }
        }
        lemma_enumeration_unique(a0, b0, rest, lt);
        assert(a =~= a0.push(top));
        assert(b =~= b0.push(other));
    }
}

/// Any ascending enumeration of a set is its `enumeration`.
pub proof fn lemma_enumeration_is<K>(s: Seq<K>, of: Set<K>, lt: spec_fn(K, K) -> bool)
    requires
        strict_total_ordering(lt),
        enumerates(s, of, lt),
    ensures
        enumeration(of, lt) == s,
{
    lemma_enumeration_unique(enumeration(of, lt), s, of, lt);
}

/// Whether the set has an ascending enumeration.
pub open spec fn enumerable<K>(of: Set<K>, lt: spec_fn(K, K) -> bool) -> bool {
    exists|s: Seq<K>| enumerates(s, of, lt)
}

/// Where a set has an ascending enumeration, `enumeration` is one.
pub proof fn lemma_enumeration_enumerates<K>(of: Set<K>, lt: spec_fn(K, K) -> bool)
    requires
        enumerable(of, lt),
    ensures
        enumerates(enumeration(of, lt), of, lt),
{
}

/// The empty set is enumerated by the empty sequence.
pub proof fn lemma_enumerable_empty<K>(lt: spec_fn(K, K) -> bool)
    ensures
        enumerable(Set::<K>::empty(), lt),
{
    assert(enumerates(Seq::<K>::empty(), Set::<K>::empty(), lt));
}

/// An ascending sequence with one more value put where it belongs.
pub open spec fn inserted<K>(s: Seq<K>, x: K, lt: spec_fn(K, K) -> bool) -> Seq<K>
    decreases s.len(),
{
    if s.len() == 0 {
        seq![x]
    } else if lt(s.last(), x) {
        s.push(x)
    } else {
        inserted(s.drop_last(), x, lt).push(s.last())
    }
}

/// Putting a new value where it belongs keeps the sequence ascending and
/// adds the value to what the sequence holds.
pub proof fn lemma_inserted<K>(s: Seq<K>, x: K, lt: spec_fn(K, K) -> bool)
    requires
        strict_total_ordering(lt),
        sorted_by(s, lt),
        !s.contains(x),
    ensures
        sorted_by(inserted(s, x, lt), lt),
        forall|y: K| inserted(s, x, lt).contains(y) <==> (s.contains(y) || y == x),
    decreases s.len(),
{
    let r = inserted(s, x, lt);
    if s.len() == 0 {
        assert(r[0] == x);
        assert forall|y: K| r.contains(y) <==> (s.contains(y) || y == x) by {
            if r.contains(y) {
                let i = choose|i: int| 0 <= i < r.len() && r[i] == y;
            }
        }
    } else if lt(s.last(), x) {
        assert forall|i: int, j: int| 0 <= i < j < r.len() implies #[trigger] lt(r[i], r[j]) by {
            if j == s.len() {
                if i < s.len() - 1 {
                    assert(lt(s[i], s[s.len() - 1]));
                }
            } else {
                assert(lt(s[i], s[j]));
            }
        }
        assert forall|y: K| r.contains(y) <==> (s.contains(y) || y == x) by {
            if r.contains(y) {
                let i = choose|i: int| 0 <= i < r.len() && r[i] == y;
                if i < s.len() {
                    assert(s[i] == y);
                }
            }
            if s.contains(y) {
                let i = choose|i: int| 0 <= i < s.len() && s[i] == y;
                assert(r[i] == y);
            }
            if y == x {
                assert(r[s.len() as int] == y);
            }
        }
    } else {
        let head = s.drop_last();
        let top = s.last();
        assert(sorted_by(head, lt)) by {
            assert forall|i: int, j: int| 0 <= i < j < head.len() implies #[trigger] lt(
                head[i],
                head[j],
            ) by {
                assert(lt(s[i], s[j]));
            }
        }
        assert(!head.contains(x)) by {
            if head.contains(x) {
                let i = choose|i: int| 0 <= i < head.len() && head[i] == x;
                assert(s[i] == x);
            }
        }
        lemma_inserted(head, x, lt);
        let mid = inserted(head, x, lt);
        assert(s.contains(top)) by {
            assert(s[s.len() - 1] == top);
        }
        assert(lt(x, top));
        assert forall|i: int, j: int| 0 <= i < j < r.len() implies #[trigger] lt(r[i], r[j]) by {
            if j == mid.len() {
                assert(mid.contains(mid[i]));
                if mid[i] != x {
                    assert(head.contains(mid[i]));
                    let k = choose|k: int| 0 <= k < head.len() && head[k] == mid[i];
                    assert(lt(s[k], s[s.len() - 1]));
                }
            } else {
                assert(lt(mid[i], mid[j]));
            }
        }
        assert forall|y: K| r.contains(y) <==> (s.contains(y) || y == x) by {
            if r.contains(y) {
                let i = choose|i: int| 0 <= i < r.len() && r[i] == y;
                if i < mid.len() {
                    assert(mid.contains(mid[i]));
                    if y != x {
                        assert(head.contains(y));
                        let k = choose|k: int| 0 <= k < head.len() && head[k] == y;
                        assert(s[k] == y);
                    }
                }
            }
            if s.contains(y) {
                let i = choose|i: int| 0 <= i < s.len() && s[i] == y;
                if i < head.len() {
                    assert(head[i] == y);
                    assert(head.contains(y));
                    assert(mid.contains(y));
                    let k = choose|k: int| 0 <= k < mid.len() && mid[k] == y;
                    assert(r[k] == y);
                } else {
                    assert(r[mid.len() as int] == y);
                }
            }
            if y == x {
                assert(mid.contains(x));
                let k = choose|k: int| 0 <= k < mid.len() && mid[k] == x;
                assert(r[k] == x);
            }
        }
    }
}

/// A set with an ascending enumeration still has one when a value joins it.
pub proof fn lemma_enumerable_insert<K>(of: Set<K>, x: K, lt: spec_fn(K, K) -> bool)
    requires
        strict_total_ordering(lt),
        enumerable(of, lt),
    ensures
        enumerable(of.insert(x), lt),
{
    let s = choose|s: Seq<K>| enumerates(s, of, lt);
    if of.contains(x) {
        assert(of.insert(x) =~= of);
    } else {
        lemma_inserted(s, x, lt);
        assert(enumerates(inserted(s, x, lt), of.insert(x), lt));
    }
}

/// A value that is ordered by a key.
pub trait Ranked: Sized {
    /// What the value is ordered by.
    type Key;

    /// The key of this value.
    spec fn key(&self) -> Self::Key;

    /// The order on keys: `order()(a, b)` holds where `a` comes strictly before `b`.
    spec fn order() -> spec_fn(Self::Key, Self::Key) -> bool;

    /// The order on keys is a strict total order.
    proof fn order_is_strict_total()
        ensures
            strict_total_ordering(Self::order()),
    ;

    /// Whether this value's key comes strictly before the other's.
    fn precedes(&self, other: &Self) -> (r: bool)
        ensures
            r == (Self::order())(self.key(), other.key()),
    ;
}

/// The keys of a sequence of values, position by position.
pub open spec fn keys_of<T: Ranked>(s: Seq<T>) -> Seq<T::Key> {
    Seq::new(s.len(), |i: int| s[i].key())
}

/// Whether some value of `s` at position `from` or later has the key `k`.
pub open spec fn has_key_from<T: Ranked>(s: Seq<T>, from: int, k: T::Key) -> bool {
    exists|i: int| from <= i < s.len() && #[trigger] s[i].key() == k
}

/// The keys that occur in a sequence of values.
pub open spec fn key_set<T: Ranked>(s: Seq<T>) -> Set<T::Key> {
    Set::new(|k: T::Key| has_key_from(s, 0, k))
}

/// Appending a value adds its key to the keys of the sequence.
pub proof fn lemma_key_set_push<T: Ranked>(s: Seq<T>, x: T)
    ensures
        key_set(s.push(x)) == key_set(s).insert(x.key()),
{
    let grown = s.push(x);
    assert forall|k: T::Key| key_set(grown).contains(k) <==> key_set(s).insert(x.key()).contains(
        k,
    ) by {
        if has_key_from(grown, 0, k) {
            let i = choose|i: int| 0 <= i < grown.len() && #[trigger] grown[i].key() == k;
            if i < s.len() {
                assert(s[i].key() == k);
            }
        }
        if has_key_from(s, 0, k) {
            let i = choose|i: int| 0 <= i < s.len() && #[trigger] s[i].key() == k;
            assert(grown[i].key() == k);
        }
        if k == x.key() {
            assert(grown[s.len() as int].key() == k);
        }
    }
    assert(key_set(grown) =~= key_set(s).insert(x.key()));
}

/// An empty sequence has no keys.
pub proof fn lemma_key_set_empty<T: Ranked>()
    ensures
        key_set(Seq::<T>::empty()) == Set::<T::Key>::empty(),
{
    assert(key_set(Seq::<T>::empty()) =~= Set::<T::Key>::empty());
}

/// Sorts the values by key and keeps one value of each key.
pub fn sorted_distinct<T: Ranked>(items: Vec<T>) -> (out: Vec<T>)
    ensures
        enumerates(keys_of(out@), key_set(items@), T::order()),
        keys_of(out@) == enumeration(key_set(items@), T::order()),
        forall|j: int| 0 <= j < out.len() ==> items@.contains(#[trigger] out[j]),
{
    let ghost all = items@;
    let mut items = items;
    let mut out: Vec<T> = Vec::new();
    proof {
        T::order_is_strict_total();
    }
    while items.len() > 0
        invariant
            strict_total_ordering(T::order()),
            items.len() <= all.len(),
            items@ == all.take(items.len() as int),
            sorted_by(keys_of(out@), T::order()),
            forall|j: int| 0 <= j < out.len() ==> all.contains(#[trigger] out[j]),
            forall|j: int|
                0 <= j < out.len() ==> has_key_from(all, items.len() as int, #[trigger] out[j].key()),
            forall|i: int|
                items.len() <= i < all.len() ==> has_key_from(out@, 0, #[trigger] all[i].key()),
        decreases items.len(),
    {
        let ghost before = out@;
        let ghost n = items.len() - 1;
        let x = items.pop().unwrap();
        assert(x == all[n]);
        let mut p: usize = 0;
        while p < out.len() && out[p].precedes(&x)
            invariant
                p <= out.len(),
                forall|j: int| 0 <= j < p ==> (T::order())(#[trigger] out[j].key(), x.key()),
            decreases out.len() - p,
        {
            p = p + 1;
        }
        if p < out.len() && !x.precedes(&out[p]) {
            assert(out[p as int].key() == x.key());
            assert forall|j: int| 0 <= j < out.len() implies has_key_from(
                all,
                n,
                #[trigger] out[j].key(),
            ) by {
                let i = choose|i: int| n + 1 <= i < all.len() && #[trigger] all[i].key() == out[j].key();
                assert(all[i].key() == out[j].key());
            }
        } else {
            out.insert(p, x);
            assert forall|a: int, b: int| 0 <= a < b < out.len() implies #[trigger] (T::order())(
                keys_of(out@)[a],
                keys_of(out@)[b],
            ) by {
                let a0 = if a < p { a } else { a - 1 };
                let b0 = if b < p { b } else { b - 1 };
                if a != p && b != p {
                    assert((T::order())(keys_of(before)[a0], keys_of(before)[b0]));
                } else if a == p {
                    assert(b0 >= p);
                    if b0 > p {
                        assert((T::order())(keys_of(before)[p as int], keys_of(before)[b0]));
                    }
                } else {
                }
            }
            assert forall|j: int| 0 <= j < out.len() implies has_key_from(
                all,
                n,
                #[trigger] out[j].key(),
            ) by {
                if j == p {
                    assert(all[n].key() == out[j].key());
                } else {
                    let j0 = if j < p { j } else { j - 1 };
                    assert(before[j0] == out[j]);
                    let i = choose|i: int| n + 1 <= i < all.len() && #[trigger] all[i].key() == before[j0].key();
                    assert(all[i].key() == out[j].key());
                }
            }
            assert forall|j: int| 0 <= j < out.len() implies all.contains(#[trigger] out[j]) by {
                if j != p {
                    let j0 = if j < p { j } else { j - 1 };
                    assert(before[j0] == out[j]);
                }
            }
        }
        assert forall|i: int| n <= i < all.len() implies has_key_from(
            out@,
            0,
            #[trigger] all[i].key(),
        ) by {
            if i == n {
                assert(out[p as int].key() == all[i].key());
            } else {
                let j0 = choose|j: int| 0 <= j < before.len() && #[trigger] before[j].key() == all[i].key();
                if out@ == before {
                    assert(out[j0].key() == all[i].key());
                } else {
                    let j = if j0 < p { j0 } else { j0 + 1 };
                    assert(out[j] == before[j0]);
                    assert(out[j].key() == all[i].key());
                }
            }
        }
    }
    proof {
        let ks = keys_of(out@);
        let of = key_set(all);
        assert forall|k: T::Key| ks.contains(k) <==> of.contains(k) by {
            if ks.contains(k) {
                let j = choose|j: int| 0 <= j < ks.len() && ks[j] == k;
                assert(has_key_from(all, 0, out[j].key()));
            }
            if of.contains(k) {
                let i = choose|i: int| 0 <= i < all.len() && #[trigger] all[i].key() == k;
                assert(has_key_from(out@, 0, all[i].key()));
                let j = choose|j: int| 0 <= j < out.len() && #[trigger] out[j].key() == all[i].key();
                assert(ks[j] == k);
            }
        }
        lemma_enumeration_is(ks, of, T::order());
    }
    out
}

} // verus!
