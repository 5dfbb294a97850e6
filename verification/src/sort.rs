//! A stable sort by an integer key.

use vstd::prelude::*;

verus! {

/// A value that sorts by an integer.
pub trait Keyed: Sized {
    /// The key.
    spec fn order(self) -> u64;

    /// Reads the key.
    fn key(&self) -> (k: u64)
        ensures
            k == self.order(),
    ;
}

impl Keyed for u64 {
    open spec fn order(self) -> u64 {
        self
    }

    fn key(&self) -> (k: u64) {
        *self
    }
}

/// A window sorts by its start.
impl Keyed for (u64, u64) {
    open spec fn order(self) -> u64 {
        self.0
    }

    fn key(&self) -> (k: u64) {
        self.0
    }
}

/// The key of a type, as a function.
pub open spec fn order_of<T: Keyed>() -> spec_fn(T) -> u64 {
    |x: T| x.order()
}

/// Whether the keys never decrease.
pub open spec fn ascending<T>(s: Seq<T>, key: spec_fn(T) -> u64) -> bool {
    forall|i: int, j: int|
        #![trigger key(s[i]), key(s[j])]
        0 <= i < j < s.len() ==> key(s[i]) <= key(s[j])
}

/// Having the key `k`.
pub open spec fn has_key<T>(key: spec_fn(T) -> u64, k: u64) -> spec_fn(T) -> bool {
    |x: T| key(x) == k
}

/// The members with a given key, in their order.
pub open spec fn with_key<T>(s: Seq<T>, key: spec_fn(T) -> u64, k: u64) -> Seq<T> {
    s.filter(has_key(key, k))
}

/// `x` placed in `s` behind the last member whose key does not exceed its own.
pub open spec fn place<T>(s: Seq<T>, key: spec_fn(T) -> u64, x: T) -> Seq<T>
    decreases s.len(),
{
    if s.len() == 0 || key(s.last()) <= key(x) {
        s.push(x)
    } else {
        place(s.drop_last(), key, x).push(s.last())
    }
}

/// `s` in ascending order of keys, members with equal keys in the order that
/// they had.
pub open spec fn stable_sort<T>(s: Seq<T>, key: spec_fn(T) -> u64) -> Seq<T>
    decreases s.len(),
{
    if s.len() == 0 {
        s
    } else {
        place(stable_sort(s.drop_last(), key), key, s.last())
    }
}

/// Placing `x` is inserting it at `j`, where the keys change sides.
proof fn lemma_place_is_insert<T>(s: Seq<T>, key: spec_fn(T) -> u64, x: T, j: int)
    requires
        0 <= j <= s.len(),
        forall|i: int| j <= i < s.len() ==> key(#[trigger] s[i]) > key(x),
        j > 0 ==> key(s[j - 1]) <= key(x),
    ensures
        place(s, key, x) == s.insert(j, x),
    decreases s.len(),
{
    if j < s.len() {
        lemma_place_is_insert(s.drop_last(), key, x, j);
        assert(key(s.last()) > key(x));
        assert(s.drop_last().insert(j, x).push(s.last()) =~= s.insert(j, x));
    } else {
        assert(s.push(x) =~= s.insert(j, x));
    }
}

/// A sequence in ascending order stays so without its last member.
pub proof fn lemma_ascending_drop_last<T>(s: Seq<T>, key: spec_fn(T) -> u64)
    requires
        ascending(s, key),
        s.len() > 0,
    ensures
        ascending(s.drop_last(), key),
{
    let d = s.drop_last();
    assert forall|i: int, j: int|
        #![trigger key(d[i]), key(d[j])]
        0 <= i < j < d.len() implies key(d[i]) <= key(d[j]) by {
        assert(key(s[i]) <= key(s[j]));
    }
}

/// Placing keeps the order, the length and the bound of the keys.
proof fn lemma_place<T>(s: Seq<T>, key: spec_fn(T) -> u64, x: T)
    ensures
        place(s, key, x).len() == s.len() + 1,
        ascending(s, key) ==> ascending(place(s, key, x), key),
        ascending(s, key) ==> forall|i: int|
            0 <= i < s.len() + 1 ==> key(#[trigger] place(s, key, x)[i]) <= key(x) || key(
                place(s, key, x)[i],
            ) <= key(s.last()),
    decreases s.len(),
{
    let p = place(s, key, x);
    if s.len() == 0 {
    } else if key(s.last()) <= key(x) {
        if ascending(s, key) {
            assert forall|i: int, j: int|
                #![trigger key(p[i]), key(p[j])]
                0 <= i < j < p.len() implies key(p[i]) <= key(p[j]) by {
                if j == s.len() {
                    if i < s.len() - 1 {
                        assert(key(s[i]) <= key(s[s.len() - 1]));
                    }
                } else {
                    assert(key(s[i]) <= key(s[j]));
                }
            }
        }
    } else {
        let d = s.drop_last();
        lemma_place(d, key, x);
        let q = place(d, key, x);
        if ascending(s, key) {
            lemma_ascending_drop_last(s, key);
            assert forall|i: int, j: int|
                #![trigger key(p[i]), key(p[j])]
                0 <= i < j < p.len() implies key(p[i]) <= key(p[j]) by {
                assert(p[i] == q[i]);
                if j == s.len() {
                    if d.len() > 0 {
                        assert(key(s[d.len() - 1]) <= key(s[s.len() - 1]));
                    }
                    assert(key(q[i]) <= key(x) || key(q[i]) <= key(d.last()));
                } else {
                    assert(p[j] == q[j]);
                }
            }
        }
    }
}

/// Placing `x` adds it as the last member with its key.
proof fn lemma_place_with_key<T>(s: Seq<T>, key: spec_fn(T) -> u64, x: T, k: u64)
    ensures
        with_key(place(s, key, x), key, k) == with_key(s.push(x), key, k),
    decreases s.len(),
{
    reveal(Seq::filter);
    if s.len() > 0 && key(s.last()) > key(x) {
        let d = s.drop_last();
        lemma_place_with_key(d, key, x, k);
        let p = place(s, key, x);
        assert(p.drop_last() =~= place(d, key, x));
        assert(s.push(x).drop_last() =~= s);
        assert(d.push(x).drop_last() =~= d);
        let hit = has_key(key, k);
        assert(p.filter(hit) == if hit(s.last()) {
            d.push(x).filter(hit).push(s.last())
        } else {
            d.push(x).filter(hit)
        });
        assert(d.push(x).filter(hit) == if hit(x) {
            d.filter(hit).push(x)
        } else {
            d.filter(hit)
        });
        assert(s.push(x).filter(hit) == if hit(x) {
            s.filter(hit).push(x)
        } else {
            s.filter(hit)
        });
    }
}

/// A stable sort keeps the length, orders the keys, and leaves the members with
/// any one key as they stood among themselves.
pub proof fn law_stable_sort<T>(s: Seq<T>, key: spec_fn(T) -> u64)
    ensures
        stable_sort(s, key).len() == s.len(),
        ascending(stable_sort(s, key), key),
        forall|k: u64| #[trigger] with_key(stable_sort(s, key), key, k) == with_key(s, key, k),
    decreases s.len(),
{
    if s.len() > 0 {
        let d = s.drop_last();
        let sd = stable_sort(d, key);
        law_stable_sort(d, key);
        lemma_place(sd, key, s.last());
        assert forall|k: u64| #[trigger]
            with_key(stable_sort(s, key), key, k) == with_key(s, key, k) by {
            lemma_place_with_key(sd, key, s.last(), k);
            reveal(Seq::filter);
            assert(sd.push(s.last()).drop_last() =~= sd);
            assert(with_key(sd, key, k) == with_key(d, key, k));
        }
    }
}

/// Nothing else is a stable sort: two ascending sequences that agree on the
/// members with each key are equal.
pub proof fn law_stable_sort_unique<T>(a: Seq<T>, b: Seq<T>, key: spec_fn(T) -> u64)
    requires
        ascending(a, key),
        ascending(b, key),
        forall|k: u64| #[trigger] with_key(a, key, k) == with_key(b, key, k),
    ensures
        a == b,
    decreases a.len() + b.len(),
{
    reveal(Seq::filter);
    if a.len() == 0 && b.len() == 0 {
        assert(a =~= b);
    } else if a.len() == 0 {
        let k = key(b.last());
        assert(with_key(b, key, k).len() > 0);
        assert(with_key(a, key, k).len() == 0);
    } else if b.len() == 0 {
        let k = key(a.last());
        assert(with_key(a, key, k).len() > 0);
        assert(with_key(b, key, k).len() == 0);
    } else {
        lemma_last_key(a, b, key);
        lemma_last_key(b, a, key);
        let k = key(a.last());
        assert(with_key(a, key, k).last() == a.last());
        assert(with_key(b, key, k).last() == b.last());
        let (da, db) = (a.drop_last(), b.drop_last());
        lemma_ascending_drop_last(a, key);
        lemma_ascending_drop_last(b, key);
        assert forall|q: u64| #[trigger] with_key(da, key, q) == with_key(db, key, q) by {
            assert(with_key(a, key, q) == with_key(b, key, q));
            if q == k {
                assert(with_key(a, key, q).drop_last() =~= with_key(da, key, q));
                assert(with_key(b, key, q).drop_last() =~= with_key(db, key, q));
            }
        }
        law_stable_sort_unique(da, db, key);
        assert(a =~= da.push(a.last()));
        assert(b =~= db.push(b.last()));
    }
}

/// No key of `b` exceeds the last key of `a`, if both hold the same members.
proof fn lemma_last_key<T>(a: Seq<T>, b: Seq<T>, key: spec_fn(T) -> u64)
    requires
        a.len() > 0,
        b.len() > 0,
        ascending(a, key),
        forall|k: u64| #[trigger] with_key(a, key, k) == with_key(b, key, k),
    ensures
        key(b.last()) <= key(a.last()),
{
    let k = key(b.last());
    let p = has_key(key, k);
    reveal(Seq::filter);
    assert(with_key(b, key, k).last() == b.last());
    assert(with_key(a, key, k).len() > 0);
    let f = a.filter(p);
    a.lemma_filter_contains_rev(p, f[0]);
    a.lemma_filter_pred(p, 0);
    let i = choose|i: int| 0 <= i < a.len() && a[i] == f[0];
    if i < a.len() - 1 {
        assert(key(a[i]) <= key(a[a.len() - 1]));
    }
}

/// Sorting commutes with a map that keeps the keys.
pub proof fn lemma_sort_maps<A, B>(
    s: Seq<A>,
    f: spec_fn(A) -> B,
    ka: spec_fn(A) -> u64,
    kb: spec_fn(B) -> u64,
)
    requires
        forall|x: A| #[trigger] kb(f(x)) == ka(x),
    ensures
        stable_sort(s, ka).map_values(f) == stable_sort(s.map_values(f), kb),
    decreases s.len(),
{
    if s.len() > 0 {
        let d = s.drop_last();
        lemma_sort_maps(d, f, ka, kb);
        assert(s.map_values(f).drop_last() =~= d.map_values(f));
        lemma_place_maps(stable_sort(d, ka), f, ka, kb, s.last());
    } else {
        assert(s.map_values(f) =~= Seq::<B>::empty());
        assert(stable_sort(s, ka).map_values(f) =~= Seq::<B>::empty());
    }
}

/// Placing commutes with a map that keeps the keys.
proof fn lemma_place_maps<A, B>(
    s: Seq<A>,
    f: spec_fn(A) -> B,
    ka: spec_fn(A) -> u64,
    kb: spec_fn(B) -> u64,
    x: A,
)
    requires
        forall|x: A| #[trigger] kb(f(x)) == ka(x),
    ensures
        place(s, ka, x).map_values(f) == place(s.map_values(f), kb, f(x)),
    decreases s.len(),
{
    assert(kb(f(x)) == ka(x));
    if s.len() > 0 && ka(s.last()) > ka(x) {
        assert(kb(f(s.last())) == ka(s.last()));
        lemma_place_maps(s.drop_last(), f, ka, kb, x);
        assert(s.map_values(f).drop_last() =~= s.drop_last().map_values(f));
        let q = place(s.drop_last(), ka, x);
        assert(place(s, ka, x).map_values(f) =~= q.map_values(f).push(f(s.last())));
    } else {
        if s.len() > 0 {
            assert(kb(f(s.last())) == ka(s.last()));
        }
        assert(s.push(x).map_values(f) =~= s.map_values(f).push(f(x)));
    }
}

/// Sorts by key; members with equal keys keep their order.
pub fn sort_by_key<T: Keyed>(v: &mut Vec<T>)
    ensures
        final(v)@ == stable_sort(old(v)@, order_of::<T>()),
{
    let ghost whole = v@;
    let ghost key = order_of::<T>();
    let mut i: usize = 0;
    assert(v@.take(0) =~= stable_sort(whole.take(0), key));
    while i < v.len()
        invariant
            i <= v@.len(),
            v@.len() == whole.len(),
            key == order_of::<T>(),
            v@.take(i as int) == stable_sort(whole.take(i as int), key),
            v@.skip(i as int) == whole.skip(i as int),
        decreases v@.len() - i,
    {
        let mut j: usize = i;
        let k: u64 = v[i].key();
        while j > 0 && v[j - 1].key() > k
            invariant
                j <= i < v@.len(),
                key == order_of::<T>(),
                k == key(v@[i as int]),
                forall|m: int| j <= m < i ==> key(#[trigger] v@[m]) > k,
            decreases j,
        {
            j = j - 1;
        }
        let ghost before = v@;
        proof {
            let s = before.take(i as int);
            lemma_place_is_insert(s, key, before[i as int], j as int);
            assert(whole.take(i + 1).drop_last() =~= whole.take(i as int));
            assert(before[i as int] == before.skip(i as int)[0]);
            assert(whole[i as int] == whole.skip(i as int)[0]);
        }
        if j < i {
            let x = v.remove(i);
            v.insert(j, x);
        }
        proof {
            assert(v@.take(i + 1) =~= before.take(i as int).insert(j as int, before[i as int]));
            assert(v@.skip(i + 1) =~= before.skip(i as int).skip(1));
            assert(whole.skip(i + 1) =~= whole.skip(i as int).skip(1));
        }
        i = i + 1;
    }
    assert(v@.take(v@.len() as int) =~= v@);
    assert(whole.take(v@.len() as int) =~= whole);
}

/// Sorting keeps the members, each as often as it occurs.
pub proof fn law_sort_permutes<T>(s: Seq<T>, key: spec_fn(T) -> u64)
    ensures
        stable_sort(s, key).to_multiset() == s.to_multiset(),
    decreases s.len(),
{
    if s.len() > 0 {
        let d = s.drop_last();
        law_sort_permutes(d, key);
        lemma_place_permutes(stable_sort(d, key), key, s.last());
        d.to_multiset_ensures();
        assert(s =~= d.push(s.last()));
    }
}

/// Placing adds one member.
proof fn lemma_place_permutes<T>(s: Seq<T>, key: spec_fn(T) -> u64, x: T)
    ensures
        place(s, key, x).to_multiset() == s.to_multiset().insert(x),
    decreases s.len(),
{
    s.to_multiset_ensures();
    if s.len() > 0 && key(s.last()) > key(x) {
        let d = s.drop_last();
        lemma_place_permutes(d, key, x);
        let q = place(d, key, x);
        q.to_multiset_ensures();
        d.to_multiset_ensures();
        assert(s =~= d.push(s.last()));
        assert(d.to_multiset().insert(x).insert(s.last()) =~= d.to_multiset().insert(
            s.last(),
        ).insert(x));
    }
}

} // verus!
