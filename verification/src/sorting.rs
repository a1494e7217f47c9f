//! Stable insertion sort by a total preorder on views, and what it gives.
use vstd::prelude::*;

verus! {

broadcast use vstd::seq_lib::group_seq_properties;

/// Values ordered by a key of their view: a total preorder, and its test.
pub trait SortKey: View + Sized {
    /// Whether the key of `a` is at most the key of `b`.
    spec fn key_le(a: Self::V, b: Self::V) -> bool;

    /// Any two keys compare.
    proof fn lemma_key_le_total(a: Self::V, b: Self::V)
        ensures
            Self::key_le(a, b) || Self::key_le(b, a),
    ;

    /// The order is transitive.
    proof fn lemma_key_le_trans(a: Self::V, b: Self::V, c: Self::V)
        requires
            Self::key_le(a, b),
            Self::key_le(b, c),
        ensures
            Self::key_le(a, c),
    ;

    /// Whether the key of `self` is at most the key of `other`.
    fn key_le_exec(&self, other: &Self) -> (r: bool)
        ensures
            r == Self::key_le(self@, other@),
    ;
}

/// The views of the elements of `s`.
pub open spec fn views<T: View>(s: Seq<T>) -> Seq<T::V> {
    s.map_values(|t: T| t@)
}

/// `s` with `x` placed after every leading element whose key is at most that of `x`.
pub open spec fn insert_sorted<T: SortKey>(s: Seq<T::V>, x: T::V) -> Seq<T::V>
    decreases s.len(),
{
    if s.len() == 0 {
        seq![x]
    } else if !T::key_le(s[0], x) {
        seq![x] + s
    } else {
        seq![s[0]] + insert_sorted::<T>(s.drop_first(), x)
    }
}

/// The stable insertion sort of `s` by key.
pub open spec fn sort_seq<T: SortKey>(s: Seq<T::V>) -> Seq<T::V>
    decreases s.len(),
{
    if s.len() == 0 {
        s
    } else {
        insert_sorted::<T>(sort_seq::<T>(s.drop_last()), s.last())
    }
}

/// Keys do not decrease along `s`.
pub open spec fn is_sorted<T: SortKey>(s: Seq<T::V>) -> bool {
    forall|i: int, j: int| 0 <= i < j < s.len() ==> T::key_le(#[trigger] s[i], #[trigger] s[j])
}

proof fn lemma_insert_at<T: SortKey>(s: Seq<T::V>, x: T::V, j: int)
    requires
        0 <= j <= s.len(),
        forall|i: int| 0 <= i < j ==> T::key_le(#[trigger] s[i], x),
        j == s.len() || !T::key_le(s[j], x),
    ensures
        insert_sorted::<T>(s, x) == s.insert(j, x),
    decreases s.len(),
{
    if s.len() == 0 {
        assert(s.insert(j, x) =~= seq![x]);
    } else if j == 0 {
        assert(s.insert(j, x) =~= seq![x] + s);
    } else {
        let t = s.drop_first();
        assert forall|i: int| 0 <= i < j - 1 implies T::key_le(#[trigger] t[i], x) by {
            assert(t[i] == s[i + 1]);
        }
        lemma_insert_at::<T>(t, x, j - 1);
        assert(s.insert(j, x) =~= seq![s[0]] + t.insert(j - 1, x));
    }
}

/// Sorts `v` by key; elements with equal keys keep their order.
pub fn sort_by_key<T: SortKey>(v: Vec<T>) -> (r: Vec<T>)
    ensures
        views(r@) == sort_seq::<T>(views(v@)),
{
    let ghost orig = v@;
    let mut rest = v;
    let mut out: Vec<T> = Vec::new();
    let mut k: usize = 0;
    assert(orig.take(0) =~= Seq::<T>::empty());
    assert(views(orig.take(0)) =~= Seq::<T::V>::empty());
    assert(orig.skip(0) =~= orig);
    assert(rest@.len() == rest.len());
    while rest.len() > 0
        invariant
            k <= orig.len() <= usize::MAX,
            rest@ == orig.skip(k as int),
            rest@.len() == orig.len() - k,
            views(out@) == sort_seq::<T>(views(orig.take(k as int))),
        decreases rest.len(),
    {
        let x = rest.remove(0);
        let mut j: usize = 0;
        while j < out.len() && out[j].key_le_exec(&x)
            invariant
                j <= out.len(),
                forall|i: int| 0 <= i < j ==> T::key_le(#[trigger] views(out@)[i], x@),
            decreases out.len() - j,
        {
            j += 1;
        }
        proof {
            lemma_insert_at::<T>(views(out@), x@, j as int);
            let p = views(orig.take(k + 1));
            assert(p.drop_last() =~= views(orig.take(k as int)));
            assert(p.last() == x@);
            assert(rest@ =~= orig.skip(k + 1));
        }
        let ghost before = out@;
        out.insert(j, x);
        assert(views(out@) =~= views(before).insert(j as int, x@));
        k += 1;
    }
    assert(orig.take(k as int) =~= orig);
    out
}

proof fn lemma_insert_sorted_perm<T: SortKey>(s: Seq<T::V>, x: T::V)
    ensures
        insert_sorted::<T>(s, x).to_multiset() == s.to_multiset().insert(x),
        insert_sorted::<T>(s, x).len() == s.len() + 1,
    decreases s.len(),
{
    broadcast use vstd::multiset::group_multiset_axioms;

    if s.len() == 0 {
        assert(seq![x] =~= Seq::<T::V>::empty().push(x));
        vstd::seq_lib::to_multiset_build(Seq::<T::V>::empty(), x);
        assert(s =~= Seq::<T::V>::empty());
    } else if !T::key_le(s[0], x) {
        vstd::seq_lib::to_multiset_insert(s, 0, x);
        assert(seq![x] + s =~= s.insert(0, x));
    } else {
        let t = s.drop_first();
        let u = insert_sorted::<T>(t, x);
        lemma_insert_sorted_perm::<T>(t, x);
        vstd::seq_lib::to_multiset_insert(u, 0, s[0]);
        assert(seq![s[0]] + u =~= u.insert(0, s[0]));
        vstd::seq_lib::to_multiset_insert(t, 0, s[0]);
        assert(t.insert(0, s[0]) =~= s);
        assert(s.to_multiset().insert(x) =~= t.to_multiset().insert(x).insert(s[0]));
    }
}

/// Sorting keeps every element, each as often as before.
pub proof fn lemma_sort_permutation<T: SortKey>(s: Seq<T::V>)
    ensures
        sort_seq::<T>(s).to_multiset() == s.to_multiset(),
        sort_seq::<T>(s).len() == s.len(),
    decreases s.len(),
{
    if s.len() > 0 {
        lemma_sort_permutation::<T>(s.drop_last());
        lemma_insert_sorted_perm::<T>(sort_seq::<T>(s.drop_last()), s.last());
        vstd::seq_lib::to_multiset_build(s.drop_last(), s.last());
        assert(s.drop_last().push(s.last()) =~= s);
    }
}

proof fn lemma_insert_sorted_sorted<T: SortKey>(s: Seq<T::V>, x: T::V)
    requires
        is_sorted::<T>(s),
    ensures
        is_sorted::<T>(insert_sorted::<T>(s, x)),
        insert_sorted::<T>(s, x).len() == s.len() + 1,
        forall|i: int|
            0 <= i < insert_sorted::<T>(s, x).len() ==> (#[trigger] insert_sorted::<T>(s, x)[i]
                == x || s.contains(insert_sorted::<T>(s, x)[i])),
    decreases s.len(),
{
    if s.len() == 0 {
    } else if !T::key_le(s[0], x) {
        let r = seq![x] + s;
        T::lemma_key_le_total(s[0], x);
        assert forall|i: int, j: int| 0 <= i < j < r.len() implies T::key_le(
            #[trigger] r[i],
            #[trigger] r[j],
        ) by {
            if i == 0 {
                if j > 1 {
                    T::lemma_key_le_trans(x, s[0], s[j - 1]);
                }
            } else {
                assert(r[i] == s[i - 1] && r[j] == s[j - 1]);
            }
        }
        assert forall|i: int| 0 <= i < r.len() implies (#[trigger] r[i] == x || s.contains(
            r[i],
        )) by {
            if i > 0 {
                assert(r[i] == s[i - 1]);
            }
        }
    } else {
        let t = s.drop_first();
        assert(is_sorted::<T>(t)) by {
            assert forall|i: int, j: int| 0 <= i < j < t.len() implies T::key_le(
                #[trigger] t[i],
                #[trigger] t[j],
            ) by {
                assert(t[i] == s[i + 1] && t[j] == s[j + 1]);
            }
        }
        lemma_insert_sorted_sorted::<T>(t, x);
        let u = insert_sorted::<T>(t, x);
        let r = seq![s[0]] + u;
        assert forall|i: int, j: int| 0 <= i < j < r.len() implies T::key_le(
            #[trigger] r[i],
            #[trigger] r[j],
        ) by {
            if i == 0 {
                assert(r[j] == u[j - 1]);
                if u[j - 1] != x {
                    assert(t.contains(u[j - 1]));
                    let k = choose|k: int| 0 <= k < t.len() && t[k] == u[j - 1];
                    assert(t[k] == s[k + 1]);
                }
            } else {
                assert(r[i] == u[i - 1] && r[j] == u[j - 1]);
            }
        }
        assert forall|i: int| 0 <= i < r.len() implies (#[trigger] r[i] == x || s.contains(
            r[i],
        )) by {
            if i > 0 {
                assert(r[i] == u[i - 1]);
                if u[i - 1] != x {
                    let k = choose|k: int| 0 <= k < t.len() && t[k] == u[i - 1];
                    assert(t[k] == s[k + 1]);
                }
            } else {
                assert(s[0] == r[0]);
            }
        }
        assert(insert_sorted::<T>(s, x) == r);
    }
}

/// The sorted sequence is in key order.
pub proof fn lemma_sort_sorted<T: SortKey>(s: Seq<T::V>)
    ensures
        is_sorted::<T>(sort_seq::<T>(s)),
    decreases s.len(),
{
    if s.len() > 0 {
        lemma_sort_sorted::<T>(s.drop_last());
        lemma_insert_sorted_sorted::<T>(sort_seq::<T>(s.drop_last()), s.last());
    }
}

/// No two elements of `s` have equivalent keys.
pub open spec fn keys_distinct<T: SortKey>(s: Seq<T::V>) -> bool {
    forall|i: int, j: int|
        0 <= i < j < s.len() ==> !(T::key_le(#[trigger] s[i], #[trigger] s[j]) && T::key_le(
            s[j],
            s[i],
        ))
}

/// Keys strictly increase along `s`.
pub open spec fn is_strictly_sorted<T: SortKey>(s: Seq<T::V>) -> bool {
    forall|i: int, j: int|
        0 <= i < j < s.len() ==> T::key_le(#[trigger] s[i], #[trigger] s[j]) && !T::key_le(
            s[j],
            s[i],
        )
}

/// Inserting in order inserts at some position.
pub(crate) proof fn lemma_insert_sorted_is_insert<T: SortKey>(s: Seq<T::V>, x: T::V) -> (j: int)
    ensures
        0 <= j <= s.len(),
        insert_sorted::<T>(s, x) == s.insert(j, x),
    decreases s.len(),
{
    if s.len() == 0 {
        assert(s.insert(0, x) =~= seq![x]);
        0
    } else if !T::key_le(s[0], x) {
        assert(s.insert(0, x) =~= seq![x] + s);
        0
    } else {
        let t = s.drop_first();
        let j = lemma_insert_sorted_is_insert::<T>(t, x);
        assert(s.insert(j + 1, x) =~= seq![s[0]] + t.insert(j, x));
        j + 1
    }
}

/// The sorted sequence holds exactly the elements of `s`.
pub proof fn lemma_sort_same_elements<T: SortKey>(s: Seq<T::V>)
    ensures
        forall|y: T::V| #[trigger] sort_seq::<T>(s).contains(y) <==> s.contains(y),
{
    broadcast use vstd::seq_lib::group_to_multiset_ensures;

    lemma_sort_permutation::<T>(s);
    assert forall|y: T::V| #[trigger] sort_seq::<T>(s).contains(y) <==> s.contains(y) by {
        assert(sort_seq::<T>(s).to_multiset().count(y) == s.to_multiset().count(y));
    }
}

/// Sorting keeps keys distinct, and then the keys strictly increase.
pub proof fn lemma_sort_strict<T: SortKey>(s: Seq<T::V>)
    requires
        keys_distinct::<T>(s),
    ensures
        keys_distinct::<T>(sort_seq::<T>(s)),
        is_strictly_sorted::<T>(sort_seq::<T>(s)),
    decreases s.len(),
{
    if s.len() > 0 {
        let d = s.drop_last();
        let x = s.last();
        assert(keys_distinct::<T>(d)) by {
            assert forall|i: int, j: int| 0 <= i < j < d.len() implies !(T::key_le(
                #[trigger] d[i],
                #[trigger] d[j],
            ) && T::key_le(d[j], d[i])) by {
                assert(d[i] == s[i] && d[j] == s[j]);
            }
        }
        lemma_sort_strict::<T>(d);
        lemma_sort_same_elements::<T>(d);
        let t = sort_seq::<T>(d);
        let j = lemma_insert_sorted_is_insert::<T>(t, x);
        let r = t.insert(j, x);
        assert forall|a: int| 0 <= a < t.len() implies !(T::key_le(#[trigger] t[a], x)
            && T::key_le(x, t[a])) by {
            assert(t.contains(t[a]));
            assert(d.contains(t[a]));
            let k = choose|k: int| 0 <= k < d.len() && d[k] == t[a];
            assert(s[k] == d[k]);
            assert(s[s.len() - 1] == x);
        }
        assert forall|a: int, b: int| 0 <= a < b < r.len() implies !(T::key_le(
            #[trigger] r[a],
            #[trigger] r[b],
        ) && T::key_le(r[b], r[a])) by {
            if a < j {
                if b < j {
                    assert(r[a] == t[a] && r[b] == t[b]);
                } else if b == j {
                    assert(r[a] == t[a]);
                } else {
                    assert(r[a] == t[a] && r[b] == t[b - 1]);
                }
            } else if a == j {
                assert(r[b] == t[b - 1]);
            } else {
                assert(r[a] == t[a - 1] && r[b] == t[b - 1]);
            }
        }
        lemma_sort_sorted::<T>(s);
    } else {
        lemma_sort_sorted::<T>(s);
    }
}

proof fn lemma_filter_front<A>(a: A, t: Seq<A>, p: spec_fn(A) -> bool)
    ensures
        (seq![a] + t).filter(p) == if p(a) {
            seq![a] + t.filter(p)
        } else {
            t.filter(p)
        },
{
    reveal_with_fuel(Seq::filter, 2);
    Seq::filter_distributes_over_add(seq![a], t, p);
    assert(seq![a].drop_last() =~= Seq::<A>::empty());
    if !p(a) {
        assert(Seq::<A>::empty() + t.filter(p) =~= t.filter(p));
    }
}

proof fn lemma_insert_sorted_filter<T: SortKey>(s: Seq<T::V>, x: T::V, p: spec_fn(T::V) -> bool)
    requires
        is_sorted::<T>(s),
    ensures
        insert_sorted::<T>(s, x).filter(p) == if p(x) {
            insert_sorted::<T>(s.filter(p), x)
        } else {
            s.filter(p)
        },
    decreases s.len(),
{
    reveal_with_fuel(Seq::filter, 2);
    if s.len() == 0 {
        lemma_filter_front(x, s, p);
        assert(seq![x] + s =~= seq![x]);
    } else {
        let t = s.drop_first();
        assert(s =~= seq![s[0]] + t);
        lemma_filter_front(s[0], t, p);
        assert(is_sorted::<T>(t)) by {
            assert forall|i: int, j: int| 0 <= i < j < t.len() implies T::key_le(#[trigger] t[i], #[trigger] t[j]) by {
                assert(t[i] == s[i + 1] && t[j] == s[j + 1]);
            }
        }
        if !T::key_le(s[0], x) {
            lemma_filter_front(x, s, p);
            if p(x) {
                let f = s.filter(p);
                if f.len() > 0 {
                    assert(f.contains(f[0]));
                    s.lemma_filter_contains_rev(p, f[0]);
                    let k = choose|k: int| 0 <= k < s.len() && s[k] == f[0];
                    if T::key_le(f[0], x) {
                        if k > 0 {
                            assert(T::key_le(s[0], s[k]));
                            T::lemma_key_le_trans(s[0], s[k], x);
                        }
                    }
                }
            }
        } else {
            lemma_insert_sorted_filter::<T>(t, x, p);
            lemma_filter_front(s[0], insert_sorted::<T>(t, x), p);
            if p(x) && p(s[0]) {
                assert(s.filter(p) == seq![s[0]] + t.filter(p));
                assert((seq![s[0]] + t.filter(p)).drop_first() =~= t.filter(p));
            }
        }
    }
}

/// Sorting, then keeping the elements that satisfy `p`, is keeping them, then sorting.
pub proof fn lemma_sort_filter<T: SortKey>(s: Seq<T::V>, p: spec_fn(T::V) -> bool)
    ensures
        sort_seq::<T>(s).filter(p) == sort_seq::<T>(s.filter(p)),
    decreases s.len(),
{
    reveal_with_fuel(Seq::filter, 1);
    if s.len() > 0 {
        let d = s.drop_last();
        let x = s.last();
        lemma_sort_filter::<T>(d, p);
        lemma_sort_sorted::<T>(d);
        lemma_insert_sorted_filter::<T>(sort_seq::<T>(d), x, p);
        if p(x) {
            assert(s.filter(p).drop_last() =~= d.filter(p));
            assert(s.filter(p).last() == x);
        } else {
            assert(s.filter(p) == d.filter(p));
        }
    } else {
        assert(s.filter(p) =~= s);
    }
}

} // verus!
