//! Binary max-heaps laid out in a slice from `first` on, ordered by a key on
//! the entries, as the heapsorts of both sorting phases use them; and the
//! rearrangements of a window that the partitions make.
use vstd::prelude::*;
use crate::arr;

verus! {

broadcast use vstd::seq_lib::group_to_multiset_ensures;

/// The first child of node `q` in a heap whose root is `first`.
pub open spec fn hchild(first: int, q: int) -> int {
    2 * q - first + 1
}

/// The parent of node `q` (for `q > first`).
pub open spec fn hparent(first: int, q: int) -> int {
    first + (q - first - 1) / 2
}

/// Node `q` is no smaller than its children before `end`.
pub open spec fn heap_node(s: Seq<i32>, key: spec_fn(i32) -> int, first: int, end: int, q: int) -> bool {
    let c = hchild(first, q);
    &&& (c < end ==> key(s[c]) <= key(s[q]))
    &&& (c + 1 < end ==> key(s[c + 1]) <= key(s[q]))
}

/// Every node from `lo` to `end` is no smaller than its children.
pub open spec fn heap_from(s: Seq<i32>, key: spec_fn(i32) -> int, first: int, lo: int, end: int) -> bool {
    forall|q: int| lo <= q < end ==> #[trigger] heap_node(s, key, first, end, q)
}

/// `s[lo..hi)` is in nondecreasing order of keys.
pub open spec fn sorted_by(s: Seq<i32>, key: spec_fn(i32) -> int, lo: int, hi: int) -> bool {
    forall|a: int, b: int| lo <= a <= b < hi ==> key(#[trigger] s[a]) <= key(#[trigger] s[b])
}

/// The root of a heap holds a largest key.
pub proof fn lemma_heap_root_max(s: Seq<i32>, key: spec_fn(i32) -> int, first: int, end: int, q: int)
    requires
        heap_from(s, key, first, first, end),
        first <= q < end,
    ensures
        key(s[q]) <= key(s[first]),
    decreases q - first,
{
    if q > first {
        let p = hparent(first, q);
        assert(heap_node(s, key, first, end, p));
        lemma_heap_root_max(s, key, first, end, p);
    }
}

/// Exchanging two entries keeps the multiset of the entries.
pub proof fn lemma_swap_multiset(s: Seq<i32>, i: int, j: int)
    requires
        0 <= i < s.len(),
        0 <= j < s.len(),
    ensures
        s.update(i, s[j]).update(j, s[i]).to_multiset() =~= s.to_multiset(),
{
    vstd::seq_lib::to_multiset_update(s, i, s[j]);
    let s1 = s.update(i, s[j]);
    vstd::seq_lib::to_multiset_update(s1, j, s[i]);
    if i == j {
        assert(s1 =~= s);
        assert(s1.update(j, s[i]) =~= s);
    }
}

/// The multiset of a window, when the whole keeps its multiset and nothing
/// outside the window changes.
pub proof fn lemma_window_multiset(s0: Seq<i32>, s1: Seq<i32>, lo: int, hi: int)
    requires
        0 <= lo <= hi <= s0.len(),
        s1.len() == s0.len(),
        s1.to_multiset() == s0.to_multiset(),
        forall|q: int| 0 <= q < s0.len() && !(lo <= q < hi) ==> s1[q] == s0[q],
    ensures
        s1.subrange(lo, hi).to_multiset() == s0.subrange(lo, hi).to_multiset(),
{
    let n = s0.len() as int;
    assert(s0 =~= s0.subrange(0, lo) + s0.subrange(lo, hi) + s0.subrange(hi, n));
    assert(s1 =~= s1.subrange(0, lo) + s1.subrange(lo, hi) + s1.subrange(hi, n));
    assert(s1.subrange(0, lo) =~= s0.subrange(0, lo));
    assert(s1.subrange(hi, n) =~= s0.subrange(hi, n));
    vstd::seq_lib::lemma_multiset_commutative(s0.subrange(0, lo) + s0.subrange(lo, hi), s0.subrange(hi, n));
    vstd::seq_lib::lemma_multiset_commutative(s0.subrange(0, lo), s0.subrange(lo, hi));
    vstd::seq_lib::lemma_multiset_commutative(s1.subrange(0, lo) + s1.subrange(lo, hi), s1.subrange(hi, n));
    vstd::seq_lib::lemma_multiset_commutative(s1.subrange(0, lo), s1.subrange(lo, hi));
    broadcast use vstd::multiset::group_multiset_axioms;
    let m0 = s0.subrange(lo, hi).to_multiset();
    let m1 = s1.subrange(lo, hi).to_multiset();
    let a = s0.subrange(0, lo).to_multiset();
    let c = s0.subrange(hi, n).to_multiset();
    assert(a.add(m0).add(c) == a.add(m1).add(c));
    assert forall|x: i32| m1.count(x) == m0.count(x) by {
        assert(a.add(m0).add(c).count(x) == a.add(m1).add(c).count(x));
    }
    assert(m1 =~= m0);
}

/// The converse: a window that keeps its multiset, with nothing outside it
/// changed, keeps the multiset of the whole.
pub proof fn lemma_window_whole(s0: Seq<i32>, s1: Seq<i32>, lo: int, hi: int)
    requires
        0 <= lo <= hi <= s0.len(),
        s1.len() == s0.len(),
        s1.subrange(lo, hi).to_multiset() == s0.subrange(lo, hi).to_multiset(),
        forall|q: int| 0 <= q < s0.len() && !(lo <= q < hi) ==> s1[q] == s0[q],
    ensures
        s1.to_multiset() == s0.to_multiset(),
{
    let n = s0.len() as int;
    assert(s0 =~= s0.subrange(0, lo) + s0.subrange(lo, hi) + s0.subrange(hi, n));
    assert(s1 =~= s1.subrange(0, lo) + s1.subrange(lo, hi) + s1.subrange(hi, n));
    assert(s1.subrange(0, lo) =~= s0.subrange(0, lo));
    assert(s1.subrange(hi, n) =~= s0.subrange(hi, n));
    vstd::seq_lib::lemma_multiset_commutative(s0.subrange(0, lo) + s0.subrange(lo, hi), s0.subrange(hi, n));
    vstd::seq_lib::lemma_multiset_commutative(s0.subrange(0, lo), s0.subrange(lo, hi));
    vstd::seq_lib::lemma_multiset_commutative(s1.subrange(0, lo) + s1.subrange(lo, hi), s1.subrange(hi, n));
    vstd::seq_lib::lemma_multiset_commutative(s1.subrange(0, lo), s1.subrange(lo, hi));
}

/// A bound on every key of a window carries over to any rearrangement of it.
pub proof fn lemma_window_bound(
    s0: Seq<i32>,
    s1: Seq<i32>,
    key: spec_fn(i32) -> int,
    lo: int,
    hi: int,
    k: int,
)
    requires
        0 <= lo <= hi <= s0.len(),
        hi <= s1.len(),
        s1.subrange(lo, hi).to_multiset() == s0.subrange(lo, hi).to_multiset(),
        forall|q: int| lo <= q < hi ==> key(#[trigger] s0[q]) <= k,
    ensures
        forall|q: int| lo <= q < hi ==> key(#[trigger] s1[q]) <= k,
{
    assert forall|q: int| lo <= q < hi implies key(#[trigger] s1[q]) <= k by {
        let w1 = s1.subrange(lo, hi);
        let w0 = s0.subrange(lo, hi);
        assert(w1[q - lo] == s1[q]);
        assert(w1.contains(s1[q]));
        assert(w0.to_multiset().count(s1[q]) > 0);
        assert(w0.contains(s1[q]));
        let r = choose|r: int| 0 <= r < w0.len() && w0[r] == s1[q];
        assert(s0[lo + r] == s1[q]);
    }
}

/// Moving the last entry of a heap to its root, and the root out to that place,
/// then restoring the heap, keeps the multiset: the bookkeeping of one
/// extraction step.
pub proof fn lemma_extract_multiset(s: Seq<i32>, s2: Seq<i32>, a: int, b: int)
    requires
        0 <= a < s.len(),
        0 <= b < s.len(),
        s2.len() == s.len(),
        s2.to_multiset() == s.update(a, s[b]).to_multiset(),
        s2[b] == s[b],
    ensures
        s2.update(b, s[a]).to_multiset() == s.to_multiset(),
{
    broadcast use vstd::multiset::group_multiset_axioms;
    vstd::seq_lib::to_multiset_update(s, a, s[b]);
    vstd::seq_lib::to_multiset_update(s2, b, s[a]);
    let ms = s.to_multiset();
    assert(ms.count(s[a]) > 0);
    assert(s2.update(b, s[a]).to_multiset() =~= ms);
}

/// A property of every entry of a window carries over to any rearrangement of it.
pub proof fn lemma_window_pred(s0: Seq<i32>, s1: Seq<i32>, lo: int, hi: int, p: spec_fn(i32) -> bool)
    requires
        0 <= lo <= hi <= s0.len(),
        hi <= s1.len(),
        s1.subrange(lo, hi).to_multiset() == s0.subrange(lo, hi).to_multiset(),
        forall|q: int| lo <= q < hi ==> p(#[trigger] s0[q]),
    ensures
        forall|q: int| lo <= q < hi ==> p(#[trigger] s1[q]),
{
    assert forall|q: int| lo <= q < hi implies p(#[trigger] s1[q]) by {
        let w1 = s1.subrange(lo, hi);
        let w0 = s0.subrange(lo, hi);
        assert(w1[q - lo] == s1[q]);
        assert(w1.contains(s1[q]));
        assert(w0.to_multiset().count(s1[q]) > 0);
        assert(w0.contains(s1[q]));
        let r = choose|r: int| 0 <= r < w0.len() && w0[r] == s1[q];
        assert(s0[lo + r] == s1[q]);
    }
}

/// `s` has the multiset of `s0`, and agrees with it outside `[lo, hi)`.
pub open spec fn kept(s0: Seq<i32>, s: Seq<i32>, lo: int, hi: int) -> bool {
    &&& s.len() == s0.len()
    &&& s.to_multiset() == s0.to_multiset()
    &&& forall|q: int| 0 <= q < s0.len() && !(lo <= q < hi) ==> #[trigger] s[q] == s0[q]
}

/// Every entry of `s[lo..hi)` has a key below `v`.
pub open spec fn keys_below(s: Seq<i32>, key: spec_fn(i32) -> int, lo: int, hi: int, v: int) -> bool {
    forall|q: int| lo <= q < hi ==> key(#[trigger] s[q]) < v
}

/// Every entry of `s[lo..hi)` has the key `v`.
pub open spec fn keys_at(s: Seq<i32>, key: spec_fn(i32) -> int, lo: int, hi: int, v: int) -> bool {
    forall|q: int| lo <= q < hi ==> key(#[trigger] s[q]) == v
}

/// Every entry of `s[lo..hi)` has a key above `v`.
pub open spec fn keys_above(s: Seq<i32>, key: spec_fn(i32) -> int, lo: int, hi: int, v: int) -> bool {
    forall|q: int| lo <= q < hi ==> key(#[trigger] s[q]) > v
}

/// Exchanges `sa[i]` and `sa[j]` inside the window `[lo, hi)`.
pub fn swap_within(sa: &mut [i32], i: usize, j: usize, Ghost(s0): Ghost<Seq<i32>>, Ghost(lo): Ghost<int>, Ghost(hi): Ghost<int>)
    requires
        lo <= i < hi,
        lo <= j < hi,
        hi <= old(sa)@.len(),
        kept(s0, old(sa)@, lo, hi),
    ensures
        final(sa)@ == old(sa)@.update(i as int, old(sa)@[j as int]).update(j as int, old(sa)@[i as int]),
        kept(s0, final(sa)@, lo, hi),
{
    proof {
        lemma_swap_multiset(sa@, i as int, j as int);
    }
    arr::swap(sa, i, j);
}

} // verus!
