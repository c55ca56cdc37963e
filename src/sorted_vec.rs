//! An immutable table of strings kept in ascending byte order without
//! duplicates, searched by bisection.
use vstd::prelude::*;
use vstd::seq_lib::*;
use crate::text::{
    compare_text, lemma_lex_lt_asymmetric, lemma_lex_lt_transitive, lemma_utf8_injective, text_le,
    text_lt, utf8,
};

verus! {

broadcast use vstd::seq_lib::group_to_multiset_ensures;

/// The characters of each string in a sequence.
pub open spec fn views(v: Seq<String>) -> Seq<Seq<char>> {
    v.map_values(|s: String| s@)
}

/// Every element is below every later one.
pub open spec fn strictly_ascending(v: Seq<Seq<char>>) -> bool {
    forall|i: int, j: int| 0 <= i < j < v.len() ==> text_lt(#[trigger] v[i], #[trigger] v[j])
}

pub open spec fn ascending(v: Seq<Seq<char>>) -> bool {
    forall|i: int, j: int| 0 <= i < j < v.len() ==> text_le(#[trigger] v[i], #[trigger] v[j])
}

/// Relies on `slice::sort` for `String`: the result is a permutation of the
/// input, ordered by `Ord for str`, which compares the bytes lexicographically.
#[verifier::external_body]
fn sort_strings(v: &mut Vec<String>)
    ensures
        final(v)@.to_multiset() == old(v)@.to_multiset(),
        ascending(views(final(v)@)),
{
    v.sort()
}

pub proof fn lemma_lt_le(a: Seq<char>, b: Seq<char>, c: Seq<char>)
    requires
        text_lt(a, b),
        text_le(b, c),
    ensures
        text_lt(a, c),
{
    if utf8(b) != utf8(c) {
        lemma_lex_lt_transitive(utf8(a), utf8(b), utf8(c));
    }
}

pub proof fn lemma_le_ne(a: Seq<char>, b: Seq<char>)
    requires
        text_le(a, b),
        a != b,
    ensures
        text_lt(a, b),
{
    if utf8(a) == utf8(b) {
        lemma_utf8_injective(a, b);
    }
}

pub proof fn lemma_lt_ne(a: Seq<char>, b: Seq<char>)
    requires
        text_lt(a, b),
    ensures
        a != b,
        !text_lt(b, a),
{
    lemma_lex_lt_asymmetric(utf8(a), utf8(b));
}

pub struct SortedVec {
    items: Vec<String>,
}

impl View for SortedVec {
    type V = Seq<Seq<char>>;

    closed spec fn view(&self) -> Seq<Seq<char>> {
        views(self.items@)
    }
}

impl SortedVec {
    pub open spec fn wf(&self) -> bool {
        strictly_ascending(self@)
    }

    /// Sorts the strings and drops repeated ones.
    pub fn from_vec(values: Vec<String>) -> (r: SortedVec)
        ensures
            r.wf(),
            r@.len() <= values@.len(),
            forall|x: Seq<char>| r@.contains(x) <==> views(values@).contains(x),
    {
        let ghost orig = values@;
        let mut sorted = values;
        sort_strings(&mut sorted);
        let ghost sv = views(sorted@);
        proof {
            assert forall|x: Seq<char>| sv.contains(x) <==> views(orig).contains(x) by {
                if sv.contains(x) {
                    let i = choose|i: int| 0 <= i < sv.len() && sv[i] == x;
                    assert(sorted@.contains(sorted@[i]));
                    to_multiset_contains(sorted@, sorted@[i]);
                    to_multiset_contains(orig, sorted@[i]);
                    assert(orig.contains(sorted@[i]));
                    let k = choose|k: int| 0 <= k < orig.len() && orig[k] == sorted@[i];
                    assert(views(orig)[k] == x);
                }
                if views(orig).contains(x) {
                    let i = choose|i: int| 0 <= i < orig.len() && views(orig)[i] == x;
                    assert(orig.contains(orig[i]));
                    to_multiset_contains(sorted@, orig[i]);
                    to_multiset_contains(orig, orig[i]);
                    assert(sorted@.contains(orig[i]));
                    let k = choose|k: int| 0 <= k < sorted@.len() && sorted@[k] == orig[i];
                    assert(sv[k] == x);
                }
            }
        }
        let mut out: Vec<String> = Vec::new();
        let n = sorted.len();
        let mut k: usize = 0;
        while k < n
            invariant
                n == sorted@.len(),
                sv == views(sorted@),
                ascending(sv),
                k <= n,
                out@.len() <= k,
                strictly_ascending(views(out@)),
                forall|x: Seq<char>| views(out@).contains(x) <==> sv.subrange(0, k as int).contains(x),
                k > 0 ==> out@.len() > 0 && views(out@).last() == sv[k - 1],
                forall|j: int, m: int|
                    0 <= j < out@.len() && k <= m < n ==> text_le(#[trigger] views(out@)[j], #[trigger] sv[m]),
            decreases n - k,
        {
            let ghost ov = views(out@);
            assert(sv.subrange(0, k + 1) =~= sv.subrange(0, k as int).push(sv[k as int]));
            let fresh = if out.len() == 0 {
                true
            } else {
                let last = out.len() - 1;
                !(out[last] == sorted[k])
            };
            if fresh {
                let item = sorted[k].clone();
                proof {
                    let x = sv[k as int];
                    assert forall|j: int| 0 <= j < ov.len() implies text_lt(#[trigger] ov[j], x) by {
                        let last = ov.len() - 1;
                        assert(text_le(ov[last], x));
                        if j < last {
                            assert(text_lt(ov[j], ov[last]));
                            lemma_lt_le(ov[j], ov[last], x);
                        } else {
                            assert(ov[last] != x);
                            lemma_le_ne(ov[last], x);
                        }
                    }
                }
                out.push(item);
                proof {
                    let nv = views(out@);
                    assert(nv =~= ov.push(sv[k as int]));
                    assert forall|j: int, m: int|
                        0 <= j < nv.len() && k + 1 <= m < n implies text_le(#[trigger] nv[j], #[trigger] sv[m]) by {
                        if j == ov.len() {
                            assert(text_le(sv[k as int], sv[m]));
                        } else {
                            assert(nv[j] == ov[j]);
                            assert(text_le(ov[j], sv[m]));
                        }
                    }
                    assert forall|x: Seq<char>| nv.contains(x) <==> sv.subrange(0, k + 1).contains(x) by {
                        if nv.contains(x) {
                            let j = choose|j: int| 0 <= j < nv.len() && nv[j] == x;
                            if j < ov.len() {
                                assert(ov[j] == x);
                                assert(ov.contains(x));
                                assert(sv.subrange(0, k as int).contains(x));
                                let i = choose|i: int| 0 <= i < k && #[trigger] sv.subrange(0, k as int)[i] == x;
                                assert(sv.subrange(0, k + 1)[i] == x);
                            } else {
                                assert(sv.subrange(0, k + 1)[k as int] == x);
                            }
                        }
                        if sv.subrange(0, k + 1).contains(x) {
                            if x != sv[k as int] {
                                let i = choose|i: int| 0 <= i < k + 1 && #[trigger] sv.subrange(0, k + 1)[i] == x;
                                assert(sv.subrange(0, k as int)[i] == x);
                                assert(sv.subrange(0, k as int).contains(x));
                                assert(ov.contains(x));
                                let j = choose|j: int| 0 <= j < ov.len() && ov[j] == x;
                                assert(nv[j] == x);
                            } else {
                                assert(nv[ov.len() as int] == x);
                            }
                        }
                    }
                }
            } else {
                proof {
                    assert(ov.last() == sv[k as int]);
                    assert(ov[ov.len() - 1] == sv[k as int]);
                    assert forall|x: Seq<char>| ov.contains(x) <==> sv.subrange(0, k + 1).contains(x) by {
                        if sv.subrange(0, k + 1).contains(x) {
                            let i = choose|i: int| 0 <= i < k + 1 && #[trigger] sv.subrange(0, k + 1)[i] == x;
                            if i < k {
                                assert(sv.subrange(0, k as int)[i] == x);
                            } else {
                                assert(ov[ov.len() - 1] == x);
                            }
                        }
                        if ov.contains(x) {
                            assert(sv.subrange(0, k as int).contains(x));
                            let i = choose|i: int| 0 <= i < k && #[trigger] sv.subrange(0, k as int)[i] == x;
                            assert(sv.subrange(0, k + 1)[i] == x);
                        }
                    }
                }
            }
            k = k + 1;
        }
        proof {
            assert(sv.subrange(0, n as int) =~= sv);
            to_multiset_len(sorted@);
            to_multiset_len(orig);
        }
        SortedVec { items: out }
    }

    pub fn len(&self) -> (r: usize)
        ensures
            r == self@.len(),
    {
        self.items.len()
    }

    pub fn get(&self, i: usize) -> (r: &String)
        requires
            i < self@.len(),
        ensures
            r@ == self@[i as int],
    {
        &self.items[i]
    }

    /// The strings in ascending order.
    pub fn as_vec(&self) -> (r: &Vec<String>)
        ensures
            views(r@) == self@,
    {
        &self.items
    }

    /// The position of `e`, found by bisection; `None` where it is absent.
    pub fn index_of(&self, e: &str) -> (r: Option<usize>)
        requires
            self.wf(),
        ensures
            match r {
                Some(i) => i < self@.len() && self@[i as int] == e@,
                None => !self@.contains(e@),
            },
    {
        let ghost v = self@;
        let mut lo: usize = 0;
        let mut hi: usize = self.items.len();
        while lo < hi
            invariant
                v == self@,
                self.wf(),
                lo <= hi <= v.len(),
                forall|j: int| 0 <= j < lo ==> text_lt(#[trigger] v[j], e@),
                forall|j: int| hi <= j < v.len() ==> text_lt(e@, #[trigger] v[j]),
            decreases hi - lo,
        {
            let mid = lo + (hi - lo) / 2;
            let c = compare_text(self.items[mid].as_str(), e);
            if c == 0 {
                return Some(mid);
            } else if c == -1 {
                proof {
                    assert forall|j: int| 0 <= j < mid + 1 implies text_lt(#[trigger] v[j], e@) by {
                        if j < mid {
                            assert(text_lt(v[j], v[mid as int]));
                            lemma_lt_le(v[j], v[mid as int], e@);
                        }
                    }
                }
                lo = mid + 1;
            } else {
                proof {
                    assert forall|j: int| mid <= j < v.len() implies text_lt(e@, #[trigger] v[j]) by {
                        if j > mid {
                            assert(text_lt(v[mid as int], v[j]));
                            lemma_lex_lt_transitive(utf8(e@), utf8(v[mid as int]), utf8(v[j]));
                        }
                    }
                }
                hi = mid;
            }
        }
        proof {
            assert forall|j: int| 0 <= j < v.len() implies v[j] != e@ by {
                if j < lo {
                    lemma_lt_ne(v[j], e@);
                } else {
                    lemma_lt_ne(e@, v[j]);
                }
            }
        }
        None
    }
}


impl SortedVec {
    /// The table as given, where it already ascends strictly.
    pub fn from_sorted(values: Vec<String>) -> (r: Option<SortedVec>)
        ensures
            match r {
                Some(t) => t.wf() && t@ == views(values@),
                None => !strictly_ascending(views(values@)),
            },
    {
        let ghost v = views(values@);
        let mut i: usize = 1;
        if values.len() == 0 {
            return Some(SortedVec { items: values });
        }
        while i < values.len()
            invariant
                v == views(values@),
                1 <= i <= v.len(),
                strictly_ascending(v.subrange(0, i as int)),
            decreases v.len() - i,
        {
            if compare_text(values[i - 1].as_str(), values[i].as_str()) != -1 {
                proof {
                    assert(!text_lt(v[i - 1], v[i as int]));
                }
                return None;
            }
            proof {
                let w = v.subrange(0, i + 1);
                assert forall|a: int, b: int| 0 <= a < b < w.len() implies text_lt(#[trigger] w[a], #[trigger] w[b]) by {
                    if b < i {
                        assert(w[a] == v.subrange(0, i as int)[a] && w[b] == v.subrange(0, i as int)[b]);
                    } else if a < i - 1 {
                        assert(w[a] == v.subrange(0, i as int)[a] && v[i - 1] == v.subrange(0, i as int)[i - 1]);
                        assert(text_lt(w[a], v[i - 1]));
                        lemma_lex_lt_transitive(utf8(w[a]), utf8(v[i - 1]), utf8(w[b]));
                    }
                }
            }
            i = i + 1;
        }
        proof {
            assert(v.subrange(0, v.len() as int) =~= v);
        }
        Some(SortedVec { items: values })
    }
}

} // verus!
