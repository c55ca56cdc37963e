//! Stable reordering of a vector by text keys kept alongside it.
use vstd::prelude::*;
use vstd::multiset::Multiset;
use vstd::seq_lib::{to_multiset_build, to_multiset_contains, to_multiset_insert};
use crate::sorted_vec::lemma_lt_le;
use crate::text::{compare_text, text_le, text_lt};

verus! {

broadcast use {vstd::multiset::group_multiset_axioms, vstd::seq_lib::group_to_multiset_ensures};

/// Elements are ordered by their keys.
pub open spec fn ordered_by<T>(s: Seq<T>, key: spec_fn(T) -> Seq<char>) -> bool {
    forall|a: int, b: int| 0 <= a < b < s.len() ==> text_le(key(#[trigger] s[a]), key(#[trigger] s[b]))
}

/// Two sequences hold the same elements, counted with multiplicity, and
/// therefore the same elements.
pub proof fn lemma_same_elements<T>(a: Seq<T>, b: Seq<T>, x: T)
    requires
        a.to_multiset() == b.to_multiset(),
    ensures
        a.contains(x) <==> b.contains(x),
{
    to_multiset_contains(a, x);
    to_multiset_contains(b, x);
}

/// Orders `items` by their keys, `keys[i]` being the text of `items[i]`.
/// Items with equal keys keep no particular order.
pub(crate) fn sort_by_keys<T>(items: &mut Vec<T>, keys: &mut Vec<String>, Ghost(key): Ghost<spec_fn(T) -> Seq<char>>)
    requires
        old(items)@.len() == old(keys)@.len(),
        forall|i: int| 0 <= i < old(items)@.len() ==> (#[trigger] old(keys)@[i])@ == key(old(items)@[i]),
    ensures
        final(items)@.len() == final(keys)@.len(),
        final(items)@.to_multiset() == old(items)@.to_multiset(),
        ordered_by(final(items)@, key),
{
    let ghost orig = items@;
    let mut out_items: Vec<T> = Vec::new();
    let mut out_keys: Vec<String> = Vec::new();
    proof {
        assert(out_items@.to_multiset().len() == 0);
        assert(out_items@.to_multiset() =~= Multiset::empty());
        assert(Multiset::<T>::empty().add(items@.to_multiset()) =~= items@.to_multiset());
    }
    while items.len() > 0
        invariant
            items@.len() == keys@.len(),
            out_items@.len() == out_keys@.len(),
            forall|i: int| 0 <= i < items@.len() ==> (#[trigger] keys@[i])@ == key(items@[i]),
            forall|i: int| 0 <= i < out_items@.len() ==> (#[trigger] out_keys@[i])@ == key(out_items@[i]),
            out_items@.to_multiset().add(items@.to_multiset()) == orig.to_multiset(),
            ordered_by(out_items@, key),
        decreases items@.len(),
    {
        let ghost rest = items@.drop_last();
        let ghost moved = out_items@;
        proof {
            assert(items@ == rest.push(items@.last()));
            to_multiset_build(rest, items@.last());
        }
        let x = items.pop().unwrap();
        let kx = keys.pop().unwrap();
        proof {
            assert(items@ == rest);
            assert(kx@ == key(x));
        }
        let mut j: usize = 0;
        while j < out_keys.len() && compare_text(out_keys[j].as_str(), kx.as_str()) <= 0
            invariant
                out_items@ == moved,
                out_items@.len() == out_keys@.len(),
                forall|i: int| 0 <= i < out_items@.len() ==> (#[trigger] out_keys@[i])@ == key(out_items@[i]),
                kx@ == key(x),
                j <= out_keys@.len(),
                forall|m: int| 0 <= m < j ==> text_le(key(#[trigger] moved[m]), key(x)),
            decreases out_keys@.len() - j,
        {
            j = j + 1;
        }
        proof {
            assert forall|m: int| j <= m < moved.len() implies text_lt(key(x), key(#[trigger] moved[m])) by {
                assert(text_lt(key(x), key(moved[j as int])));
                if m > j {
                    assert(text_le(key(moved[j as int]), key(moved[m])));
                    lemma_lt_le(key(x), key(moved[j as int]), key(moved[m]));
                }
            }
            to_multiset_insert(moved, j as int, x);
        }
        out_items.insert(j, x);
        out_keys.insert(j, kx);
        proof {
            let now = out_items@;
            assert(now == moved.insert(j as int, x));
            assert forall|a: int, b: int| 0 <= a < b < now.len() implies text_le(key(#[trigger] now[a]), key(#[trigger] now[b])) by {
                if b < j {
                    assert(now[a] == moved[a] && now[b] == moved[b]);
                } else if b == j {
                    assert(now[a] == moved[a]);
                } else if a == j {
                    assert(now[b] == moved[b - 1]);
                } else if a < j {
                    assert(now[a] == moved[a] && now[b] == moved[b - 1]);
                } else {
                    assert(now[a] == moved[a - 1] && now[b] == moved[b - 1]);
                }
            }
            assert forall|i: int| 0 <= i < now.len() implies (#[trigger] out_keys@[i])@ == key(now[i]) by {
                if i < j {
                    assert(now[i] == moved[i]);
                } else if i > j {
                    assert(now[i] == moved[i - 1]);
                }
            }
        }
    }
    proof {
        assert(items@.to_multiset().len() == 0);
        assert(items@.to_multiset() =~= Multiset::empty());
        assert(out_items@.to_multiset().add(Multiset::empty()) =~= out_items@.to_multiset());
    }
    *items = out_items;
    *keys = out_keys;
}


/// A property of every element survives a permutation.
pub proof fn lemma_perm_all<T>(a: Seq<T>, b: Seq<T>, p: spec_fn(T) -> bool)
    requires
        a.to_multiset() == b.to_multiset(),
        forall|i: int| 0 <= i < a.len() ==> p(#[trigger] a[i]),
    ensures
        forall|i: int| 0 <= i < b.len() ==> p(#[trigger] b[i]),
{
    assert forall|i: int| 0 <= i < b.len() implies p(#[trigger] b[i]) by {
        lemma_same_elements(a, b, b[i]);
        assert(b.contains(b[i]));
        let q = choose|q: int| 0 <= q < a.len() && a[q] == b[i];
        assert(p(a[q]));
    }
}

/// A property of some element survives a permutation.
pub proof fn lemma_perm_any<T>(a: Seq<T>, b: Seq<T>, p: spec_fn(T) -> bool)
    requires
        a.to_multiset() == b.to_multiset(),
    ensures
        (exists|i: int| 0 <= i < a.len() && p(#[trigger] a[i])) <==> (exists|i: int| 0 <= i < b.len() && p(#[trigger] b[i])),
{
    if exists|i: int| 0 <= i < a.len() && p(#[trigger] a[i]) {
        let i = choose|i: int| 0 <= i < a.len() && p(#[trigger] a[i]);
        lemma_same_elements(a, b, a[i]);
        assert(a.contains(a[i]));
        let q = choose|q: int| 0 <= q < b.len() && b[q] == a[i];
        assert(p(b[q]));
    }
    if exists|i: int| 0 <= i < b.len() && p(#[trigger] b[i]) {
        let i = choose|i: int| 0 <= i < b.len() && p(#[trigger] b[i]);
        lemma_same_elements(a, b, b[i]);
        assert(b.contains(b[i]));
        let q = choose|q: int| 0 <= q < a.len() && a[q] == b[i];
        assert(p(a[q]));
    }
}

/// Keys that are pairwise distinct stay so under a permutation.
pub proof fn lemma_perm_distinct<T, K>(a: Seq<T>, b: Seq<T>, f: spec_fn(T) -> K)
    requires
        a.to_multiset() == b.to_multiset(),
        forall|i: int, j: int| 0 <= i < j < a.len() ==> f(#[trigger] a[i]) != f(#[trigger] a[j]),
    ensures
        forall|i: int, j: int| 0 <= i < j < b.len() ==> f(#[trigger] b[i]) != f(#[trigger] b[j]),
{
    assert(a.no_duplicates()) by {
        assert forall|i: int, j: int| 0 <= i < a.len() && 0 <= j < a.len() && i != j implies a[i] != a[j] by {
            if i < j {
                assert(f(a[i]) != f(a[j]));
            } else {
                assert(f(a[j]) != f(a[i]));
            }
        }
    }
    a.lemma_multiset_has_no_duplicates();
    b.lemma_multiset_has_no_duplicates_conv();
    assert forall|i: int, j: int| 0 <= i < j < b.len() implies f(#[trigger] b[i]) != f(#[trigger] b[j]) by {
        lemma_same_elements(a, b, b[i]);
        lemma_same_elements(a, b, b[j]);
        assert(b.contains(b[i]));
        assert(b.contains(b[j]));
        let p = choose|p: int| 0 <= p < a.len() && a[p] == b[i];
        let q = choose|q: int| 0 <= q < a.len() && a[q] == b[j];
        if f(b[i]) == f(b[j]) {
            if p < q {
                assert(f(a[p]) != f(a[q]));
            } else if q < p {
                assert(f(a[q]) != f(a[p]));
            } else {
                assert(b[i] == b[j]);
            }
        }
    }
}

} // verus!
