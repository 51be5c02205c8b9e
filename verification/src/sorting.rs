//! A stable sort by byte string keys.
use vstd::prelude::*;
use crate::text::{bytes_before, is_before, lemma_before_irreflexive, lemma_before_total, lemma_before_transitive};

verus! {

/// The byte strings of a list.
pub open spec fn byte_strings(v: Seq<Vec<u8>>) -> Seq<Seq<u8>> {
    Seq::new(v.len(), |i: int| v[i]@)
}

/// Item `i` is sorted before item `j`: by key, items with one key by place.
pub open spec fn sorts_before(keys: Seq<Seq<u8>>, i: int, j: int) -> bool {
    bytes_before(keys[i], keys[j]) || (keys[i] == keys[j] && i < j)
}

/// The places `s` stand in sorted order.
pub open spec fn is_sorted(keys: Seq<Seq<u8>>, s: Seq<usize>) -> bool {
    forall|i: int, j: int| 0 <= i < j < s.len() ==> sorts_before(keys, #[trigger] s[i] as int, #[trigger] s[j] as int)
}

/// The places `s` are those from `lo` to `hi`.
pub open spec fn is_range(s: Seq<usize>, lo: int, hi: int) -> bool {
    &&& s.len() == hi - lo
    &&& forall|i: int| 0 <= i < s.len() ==> lo <= #[trigger] s[i] < hi
    &&& forall|k: int| lo <= k < hi ==> #[trigger] has_place(s, k)
}

/// Place `k` is in `s`.
pub open spec fn has_place(s: Seq<usize>, k: int) -> bool {
    exists|i: int| 0 <= i < s.len() && #[trigger] s[i] == k
}

proof fn lemma_sorts_transitive(keys: Seq<Seq<u8>>, a: int, b: int, c: int)
    requires
        sorts_before(keys, a, b),
        sorts_before(keys, b, c),
    ensures
        sorts_before(keys, a, c),
{
    if bytes_before(keys[a], keys[b]) && bytes_before(keys[b], keys[c]) {
        lemma_before_transitive(keys[a], keys[b], keys[c]);
    }
}

proof fn lemma_sorts_total(keys: Seq<Seq<u8>>, a: int, b: int)
    requires
        a != b,
    ensures
        sorts_before(keys, a, b) || sorts_before(keys, b, a),
{
    lemma_before_total(keys[a], keys[b]);
}

/// Merges two sorted runs.
fn merge(keys: &Vec<Vec<u8>>, a: &Vec<usize>, b: &Vec<usize>, lo: usize, mid: usize, hi: usize) -> (r: Vec<usize>)
    requires
        lo <= mid <= hi <= keys.len(),
        is_range(a@, lo as int, mid as int),
        is_range(b@, mid as int, hi as int),
        is_sorted(byte_strings(keys@), a@),
        is_sorted(byte_strings(keys@), b@),
    ensures
        is_range(r@, lo as int, hi as int),
        is_sorted(byte_strings(keys@), r@),
{
    let ghost ks = byte_strings(keys@);
    let mut out: Vec<usize> = Vec::new();
    let mut i: usize = 0;
    let mut j: usize = 0;
    while i < a.len() || j < b.len()
        invariant
            ks == byte_strings(keys@),
            lo <= mid <= hi <= keys.len(),
            i <= a.len(),
            j <= b.len(),
            is_range(a@, lo as int, mid as int),
            is_range(b@, mid as int, hi as int),
            is_sorted(ks, a@),
            is_sorted(ks, b@),
            out.len() == i + j,
            is_sorted(ks, out@),
            forall|x: int| 0 <= x < out.len() ==> lo <= #[trigger] out[x] < hi,
            forall|x: int, y: int|
                0 <= x < out.len() && i <= y < a.len() ==> sorts_before(ks, #[trigger] out[x] as int, #[trigger] a[y] as int),
            forall|x: int, y: int|
                0 <= x < out.len() && j <= y < b.len() ==> sorts_before(ks, #[trigger] out[x] as int, #[trigger] b[y] as int),
            forall|y: int| 0 <= y < i ==> has_place(out@, #[trigger] a[y] as int),
            forall|y: int| 0 <= y < j ==> has_place(out@, #[trigger] b[y] as int),
        decreases a.len() - i + b.len() - j,
    {
        let from_a: bool = if i >= a.len() {
            false
        } else if j >= b.len() {
            true
        } else {
            !is_before(&keys[b[j]], &keys[a[i]])
        };
        let ghost before = out@;
        let next: usize = if from_a { a[i] } else { b[j] };
        proof {
            if i < a.len() && j < b.len() {
                lemma_sorts_total(ks, a[i as int] as int, b[j as int] as int);
                assert(ks[a[i as int] as int] == keys[a[i as int] as int]@);
                assert(ks[b[j as int] as int] == keys[b[j as int] as int]@);
                if from_a {
                    assert(sorts_before(ks, a[i as int] as int, b[j as int] as int));
                } else {
                    assert(sorts_before(ks, b[j as int] as int, a[i as int] as int));
                }
            }
            assert forall|y: int| i <= y < a.len() && !(from_a && y == i) implies sorts_before(
                ks,
                next as int,
                #[trigger] a[y] as int,
            ) by {
                if !from_a && y > i {
                    lemma_sorts_transitive(ks, next as int, a[i as int] as int, a[y] as int);
                }
            }
            assert forall|y: int| j <= y < b.len() && !(!from_a && y == j) implies sorts_before(
                ks,
                next as int,
                #[trigger] b[y] as int,
            ) by {
                if from_a && y > j {
                    lemma_sorts_transitive(ks, next as int, b[j as int] as int, b[y] as int);
                }
            }
        }
        out.push(next);
        proof {
            assert forall|k: int| has_place(before, k) implies has_place(out@, k) by {
                let x = choose|x: int| 0 <= x < before.len() && before[x] == k;
                assert(out@[x] == k);
            }
            assert(out@[out@.len() - 1] == next);
            assert(has_place(out@, next as int));
        }
        if from_a {
            i += 1;
        } else {
            j += 1;
        }
    }
    proof {
        assert forall|k: int| lo <= k < hi implies #[trigger] has_place(out@, k) by {
            if k < mid {
                assert(has_place(a@, k));
                let y = choose|y: int| 0 <= y < a@.len() && a@[y] == k;
                assert(has_place(out@, a[y] as int));
            } else {
                assert(has_place(b@, k));
                let y = choose|y: int| 0 <= y < b@.len() && b@[y] == k;
                assert(has_place(out@, b[y] as int));
            }
        }
    }
    out
}

/// The places from `lo` to `hi`, sorted by their keys.
fn sort_range(keys: &Vec<Vec<u8>>, lo: usize, hi: usize) -> (r: Vec<usize>)
    requires
        lo <= hi <= keys.len(),
    ensures
        is_range(r@, lo as int, hi as int),
        is_sorted(byte_strings(keys@), r@),
    decreases hi - lo,
{
    if hi - lo == 0 {
        Vec::new()
    } else if hi - lo == 1 {
        let mut out: Vec<usize> = Vec::new();
        out.push(lo);
        proof {
            assert(out@[0] == lo);
            assert(has_place(out@, lo as int));
        }
        out
    } else {
        let mid: usize = lo + (hi - lo) / 2;
        let a = sort_range(keys, lo, mid);
        let b = sort_range(keys, mid, hi);
        merge(keys, &a, &b, lo, mid, hi)
    }
}

/// The places of the items, sorted by their keys. Items with one key stay in order.
pub fn sort_places(keys: &Vec<Vec<u8>>) -> (r: Vec<usize>)
    ensures
        is_range(r@, 0, keys.len() as int),
        is_sorted(byte_strings(keys@), r@),
{
    sort_range(keys, 0, keys.len())
}

/// In a sorted list of places every place occurs once.
pub proof fn lemma_sorted_distinct(keys: Seq<Seq<u8>>, s: Seq<usize>, i: int, j: int)
    requires
        is_sorted(keys, s),
        0 <= i < s.len(),
        0 <= j < s.len(),
        s[i] == s[j],
    ensures
        i == j,
{
    lemma_before_irreflexive(keys[s[i] as int]);
    if i < j {
        assert(sorts_before(keys, s[i] as int, s[j] as int));
    } else if j < i {
        assert(sorts_before(keys, s[j] as int, s[i] as int));
    }
}

/// What is sorted goes from the least to the greatest, and equal keys keep their order.
pub proof fn law_sorted(keys: Seq<Seq<u8>>, s: Seq<usize>, i: int, j: int)
    requires
        is_sorted(keys, s),
        0 <= i < j < s.len(),
    ensures
        !bytes_before(keys[s[j] as int], keys[s[i] as int]),
        keys[s[i] as int] == keys[s[j] as int] ==> s[i] < s[j],
{
    let a = keys[s[i] as int];
    let b = keys[s[j] as int];
    assert(sorts_before(keys, s[i] as int, s[j] as int));
    lemma_before_irreflexive(a);
    if bytes_before(a, b) && bytes_before(b, a) {
        lemma_before_transitive(a, b, a);
    }
}

/// The places from `lo` to `hi` are all there, and no others are.
pub proof fn law_range(s: Seq<usize>, lo: int, hi: int, k: int)
    requires
        is_range(s, lo, hi),
    ensures
        lo <= k < hi <==> exists|i: int| 0 <= i < s.len() && #[trigger] s[i] == k,
        s.len() == hi - lo,
{
    if lo <= k < hi {
        assert(has_place(s, k));
    }
}

} // verus!
