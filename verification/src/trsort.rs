//! Sorting of the B*-suffixes by rank doubling (tandem-repeat sort): refines the
//! groups of equal B*-suffixes left after the bucket sort, using the inverse
//! suffix array `ISA` of ranks, until every suffix has its own rank.
use vstd::prelude::*;
use vstd::arithmetic::power2::lemma2_to64;
use crate::arr;
use crate::heap::{
    heap_from, heap_node, hchild, hparent, kept, keys_above, keys_at, keys_below,
    lemma_extract_multiset, lemma_heap_root_max, lemma_swap_multiset, lemma_window_bound,
    lemma_window_multiset, lemma_window_whole, sorted_by, swap_within,
};
use crate::constants::{
    is_log2, lemma_lg_table, lemma_log2_shift, FixedStack, LG_TABLE, TR_INSERTIONSORT_THRESHOLD,
    TR_STACKSIZE,
};

verus! {

/// Floor of log2 for 32-bit values (and -1 for 0).
pub fn tr_ilg(n: i32) -> (r: i32)
    ensures
        n >= 1 ==> is_log2(n as int, r as int),
        n == 0 ==> r == -1,
        -1 <= r <= 31,
{
    proof {
        lemma2_to64();
    }
    if n & 0xffff0000u32 as i32 != 0 {
        if n & 0xff000000u32 as i32 != 0 {
            let q = (n >> 24) & 0xff;
            assert(0 <= q < 256) by (bit_vector)
                requires q == (n >> 24) & 0xff;
            proof {
                assert(n >= 1 && n & 0xff000000u32 as i32 != 0 ==> (n >> 24) & 0xff == n / 0x1000000
                    && 1 <= n / 0x1000000) by (bit_vector);
                assert(n == 0 ==> n & 0xffff0000u32 as i32 == 0) by (bit_vector);
                if n >= 1 {
                    lemma_lg_table(q as int);
                    lemma_log2_shift(n as int, q as int, 24, LG_TABLE@[q as int] as int);
                } else if q >= 1 {
                    lemma_lg_table(q as int);
                } else {
                    assert(LG_TABLE@[0] == -1);
                }
            }
            24 + LG_TABLE[q as usize]
        } else {
            let q = (n >> 16) & 0xff;
            assert(0 <= q < 256) by (bit_vector)
                requires q == (n >> 16) & 0xff;
            proof {
                assert(n & 0xffff0000u32 as i32 != 0 && n & 0xff000000u32 as i32 == 0 ==> (n >> 16)
                    & 0xff == n / 0x10000 && 1 <= n / 0x10000 && n >= 1) by (bit_vector);
                lemma_lg_table(q as int);
                lemma_log2_shift(n as int, q as int, 16, LG_TABLE@[q as int] as int);
            }
            16 + LG_TABLE[q as usize]
        }
    } else if n & 0x0000ff00 != 0 {
        let q = (n >> 8) & 0xff;
        assert(0 <= q < 256) by (bit_vector)
            requires q == (n >> 8) & 0xff;
        proof {
            assert(n & 0xffff0000u32 as i32 == 0 && n & 0x0000ff00 != 0 ==> (n >> 8) & 0xff == n
                / 256 && 1 <= n / 256 && n >= 1) by (bit_vector);
            lemma_lg_table(q as int);
            lemma_log2_shift(n as int, q as int, 8, LG_TABLE@[q as int] as int);
        }
        8 + LG_TABLE[q as usize]
    } else {
        let q = n & 0xff;
        assert(0 <= q < 256) by (bit_vector)
            requires q == n & 0xff;
        proof {
            assert(n & 0xffff0000u32 as i32 == 0 && n & 0x0000ff00 == 0 ==> n & 0xff == n) by (bit_vector);
            if q >= 1 {
                lemma_lg_table(q as int);
            } else {
                assert(LG_TABLE@[0] == -1);
            }
        }
        LG_TABLE[q as usize]
    }
}

/// The rank that orders entry value `v`: `ISA[isad + v]`, or 0 out of range.
pub open spec fn rank_key(isa: Seq<i32>, isad: int) -> spec_fn(i32) -> int {
    |v: i32|
        if 0 <= isad + v < isa.len() {
            isa[isad + v] as int
        } else {
            0
        }
}

/// The rank `ISA[isad + v]` of entry value `v`, or 0 out of range.
fn rank_of(isa: &[i32], isad: usize, v: i32) -> (r: i32)
    ensures
        r == rank_key(isa@, isad as int)(v),
{
    let o = arr::offset(isad, v);
    let r = arr::get(isa, o);
    let l = isa.len();
    proof {
        if !(0 <= isad + v < isa@.len()) {
            assert(o >= isa@.len());
        }
    }
    r
}

/// The rank `ISAd[sa[v]]` with `ISAd = ISA + isad`, or 0 out of range.
fn rank_at(isa: &[i32], isad: usize, sa: &[i32], v: usize) -> (r: i32)
    ensures
        v < sa@.len() ==> r == rank_key(isa@, isad as int)(sa@[v as int]),
{
    rank_of(isa, isad, arr::get(sa, v))
}

/// An entry with its group mark (bitwise complement) taken off.
pub open spec fn unmark(x: i32) -> i32 {
    if x < 0 {
        (-(x + 1)) as i32
    } else {
        x
    }
}

/// The entries `lo..hi` of `s`, marks taken off.
pub open spec fn unmarked(s: Seq<i32>, lo: int, hi: int) -> Seq<i32> {
    Seq::new((hi - lo) as nat, |k: int| unmark(s[lo + k]))
}

/// `s[lo..hi)` is in nondecreasing order of keys (marks taken off), and an
/// entry is marked exactly when the next one in the range has the same key.
#[verifier::opaque]
pub open spec fn sorted_marked(s: Seq<i32>, key: spec_fn(i32) -> int, lo: int, hi: int) -> bool {
    &&& forall|a: int, b: int|
        lo <= a <= b < hi ==> key(unmark(#[trigger] s[a])) <= key(unmark(#[trigger] s[b]))
    &&& forall|k: int|
        lo <= k < hi ==> (#[trigger] s[k] < 0 <==> (k + 1 < hi && key(unmark(s[k])) == key(
            unmark(s[k + 1]),
        )))
}

/// The entry at `k` after inserting `t` at `bpos` into `s[..a)`, marks taken off.
pub open spec fn inserted(s: Seq<i32>, bpos: int, t: i32, k: int) -> i32 {
    if k < bpos {
        unmark(s[k])
    } else if k == bpos {
        t
    } else {
        unmark(s[k - 1])
    }
}

proof fn lemma_insert_sorted(
    s: Seq<i32>,
    s2: Seq<i32>,
    key: spec_fn(i32) -> int,
    first: int,
    a: int,
    bpos: int,
    t: i32,
)
    requires
        0 <= first <= bpos <= a < s.len(),
        s2.len() == s.len(),
        sorted_marked(s, key, first, a),
        forall|k: int| first <= k <= a ==> unmark(#[trigger] s2[k]) == inserted(s, bpos, t, k),
        forall|k: int| bpos <= k < a ==> key(unmark(s[k])) > key(t),
        bpos > first ==> key(unmark(s[bpos - 1])) <= key(t),
    ensures
        forall|x: int, y: int|
            first <= x <= y < a + 1 ==> key(unmark(#[trigger] s2[x])) <= key(unmark(#[trigger] s2[y])),
{
    reveal(sorted_marked);
    assert forall|x: int, y: int| first <= x <= y < a + 1 implies key(unmark(#[trigger] s2[x])) <= key(
        unmark(#[trigger] s2[y]),
    ) by {
        assert(unmark(s2[x]) == inserted(s, bpos, t, x));
        assert(unmark(s2[y]) == inserted(s, bpos, t, y));
        if x < bpos && y == bpos {
            assert(key(unmark(s[x])) <= key(unmark(s[bpos - 1])));
        } else if x < bpos && y > bpos {
            assert(key(unmark(s[x])) <= key(unmark(s[y - 1])));
        } else if x == bpos && y > bpos {
        } else if x > bpos {
            assert(key(unmark(s[x - 1])) <= key(unmark(s[y - 1])));
        } else if x < bpos && y < bpos {
            assert(key(unmark(s[x])) <= key(unmark(s[y])));
        }
    }
}

#[verifier::rlimit(100)]
#[verifier::spinoff_prover]
proof fn lemma_insert_marks(
    s: Seq<i32>,
    s2: Seq<i32>,
    key: spec_fn(i32) -> int,
    first: int,
    a: int,
    bpos: int,
    t: i32,
    marked: bool,
)
    requires
        0 <= first <= bpos <= a < s.len(),
        s2.len() == s.len(),
        sorted_marked(s, key, first, a),
        t >= 0,
        forall|k: int| first <= k <= a ==> unmark(#[trigger] s2[k]) == inserted(s, bpos, t, k),
        forall|k: int| first <= k < bpos - 1 ==> s2[k] == s[k],
        bpos > first ==> s2[bpos - 1] == (if marked {
            (-(s[bpos - 1] + 1)) as i32
        } else {
            s[bpos - 1]
        }),
        s2[bpos] == t,
        forall|k: int| bpos < k <= a ==> s2[k] == s[k - 1],
        forall|k: int| bpos <= k < a ==> key(unmark(s[k])) > key(t),
        bpos > first ==> s[bpos - 1] >= 0 && (marked <==> key(s[bpos - 1]) == key(t)),
    ensures
        forall|k: int|
            first <= k < a + 1 ==> (#[trigger] s2[k] < 0 <==> (k + 1 < a + 1 && key(unmark(s2[k])) == key(
                unmark(s2[k + 1]),
            ))),
{
    reveal(sorted_marked);
    assert forall|k: int| first <= k < a + 1 implies (#[trigger] s2[k] < 0 <==> (k + 1 < a + 1 && key(
        unmark(s2[k]),
    ) == key(unmark(s2[k + 1])))) by {
        assert(unmark(s2[k]) == inserted(s, bpos, t, k));
        if k + 1 <= a {
            assert(unmark(s2[k + 1]) == inserted(s, bpos, t, k + 1));
        }
        if k < bpos - 1 {
            assert(s[k] < 0 <==> (k + 1 < a && key(unmark(s[k])) == key(unmark(s[k + 1]))));
        } else if k == bpos - 1 {
        } else if k == bpos {
            if k + 1 <= a {
                assert(key(unmark(s[k])) > key(t));
            }
        } else {
            assert(s[k - 1] < 0 <==> (k < a && key(unmark(s[k - 1])) == key(unmark(s[k]))));
        }
    }
}

proof fn lemma_insert_unmark(s: Seq<i32>, s2: Seq<i32>, first: int, a: int, bpos: int, t: i32, marked: bool)
    requires
        0 <= first <= bpos <= a < s.len(),
        s2.len() == s.len(),
        forall|k: int| first <= k < bpos - 1 ==> s2[k] == s[k],
        bpos > first ==> s2[bpos - 1] == (if marked {
            (-(s[bpos - 1] + 1)) as i32
        } else {
            s[bpos - 1]
        }),
        s2[bpos] == t,
        t >= 0,
        forall|k: int| bpos < k <= a ==> s2[k] == s[k - 1],
        bpos > first ==> s[bpos - 1] >= 0,
    ensures
        forall|k: int| first <= k <= a ==> unmark(#[trigger] s2[k]) == inserted(s, bpos, t, k),
{
    assert forall|k: int| first <= k <= a implies unmark(#[trigger] s2[k]) == inserted(s, bpos, t, k) by {
        if k == bpos - 1 && marked {
            assert(s[k] >= 0);
        }
    }
}

proof fn lemma_insert_seq(s: Seq<i32>, s2: Seq<i32>, first: int, a: int, bpos: int, t: i32)
    requires
        0 <= first <= bpos <= a < s.len(),
        s2.len() == s.len(),
        forall|k: int| first <= k <= a ==> unmark(#[trigger] s2[k]) == inserted(s, bpos, t, k),
    ensures
        unmarked(s2, first, a + 1) == unmarked(s, first, bpos) + seq![t] + unmarked(s, bpos, a),
{
    let l = unmarked(s2, first, a + 1);
    let r = unmarked(s, first, bpos) + seq![t] + unmarked(s, bpos, a);
    assert forall|k: int| 0 <= k < l.len() implies l[k] == r[k] by {
        assert(unmark(s2[first + k]) == inserted(s, bpos, t, first + k));
    }
    assert(l =~= r);
}

/// One insertion step: `t` goes in at `bpos`, after the entries whose key is at
/// most its own (the last of them marked when its key equals `t`'s), before the
/// shifted entries whose key exceeds it.
proof fn lemma_insert_step(
    s: Seq<i32>,
    s2: Seq<i32>,
    key: spec_fn(i32) -> int,
    first: int,
    a: int,
    bpos: int,
    t: i32,
    marked: bool,
)
    requires
        0 <= first <= bpos <= a < s.len(),
        s2.len() == s.len(),
        sorted_marked(s, key, first, a),
        t >= 0,
        forall|k: int| first <= k < bpos - 1 ==> s2[k] == s[k],
        bpos > first ==> s2[bpos - 1] == (if marked {
            (-(s[bpos - 1] + 1)) as i32
        } else {
            s[bpos - 1]
        }),
        s2[bpos] == t,
        forall|k: int| bpos < k <= a ==> s2[k] == s[k - 1],
        forall|k: int| bpos <= k < a ==> key(unmark(s[k])) > key(t),
        bpos > first ==> s[bpos - 1] >= 0 && key(s[bpos - 1]) <= key(t) && (marked <==> key(
            s[bpos - 1],
        ) == key(t)),
        bpos == first ==> !marked,
    ensures
        sorted_marked(s2, key, first, a + 1),
        unmarked(s2, first, a + 1) == unmarked(s, first, bpos) + seq![t] + unmarked(s, bpos, a),
{
    lemma_insert_unmark(s, s2, first, a, bpos, t, marked);
    lemma_insert_sorted(s, s2, key, first, a, bpos, t);
    lemma_insert_marks(s, s2, key, first, a, bpos, t, marked);
    lemma_insert_seq(s, s2, first, a, bpos, t);
    reveal(sorted_marked);
}

/// Complementing a nonnegative entry marks it: the result is `-(w + 1)`.
pub proof fn lemma_complement(w: i32, mw: i32)
    requires
        mw == !w,
    ensures
        w >= 0 ==> mw == -(w + 1),
{
    assert(w >= 0 ==> mw == -(w + 1)) by (bit_vector)
        requires
            mw == !w,
    ;
}

/// In a sorted and marked range, a marked entry has a successor of the same key.
proof fn lemma_marked_key(s: Seq<i32>, key: spec_fn(i32) -> int, lo: int, hi: int, k: int)
    requires
        sorted_marked(s, key, lo, hi),
        lo <= k < hi,
        s[k] < 0,
    ensures
        k + 1 < hi,
        key(unmark(s[k])) == key(unmark(s[k + 1])),
{
    reveal(sorted_marked);
}

proof fn lemma_insert_multiset(s: Seq<i32>, s2: Seq<i32>, s0: Seq<i32>, first: int, a: int, bp: int, tv: i32)
    requires
        0 <= first <= bp <= a < s0.len(),
        a <= s.len(),
        unmarked(s2, first, a + 1) == unmarked(s, first, bp) + seq![tv] + unmarked(s, bp, a),
        unmarked(s, first, a).to_multiset() == s0.subrange(first, a).to_multiset(),
        tv == s0[a],
    ensures
        unmarked(s2, first, a + 1).to_multiset() == s0.subrange(first, a + 1).to_multiset(),
{
    broadcast use vstd::seq_lib::group_to_multiset_ensures;
    broadcast use vstd::multiset::group_multiset_axioms;
    let p1 = unmarked(s, first, bp);
    let p2 = unmarked(s, bp, a);
    assert(unmarked(s, first, a) =~= p1 + p2);
    vstd::seq_lib::lemma_multiset_commutative(p1, p2);
    vstd::seq_lib::lemma_multiset_commutative(p1 + seq![tv], p2);
    vstd::seq_lib::lemma_multiset_commutative(p1, seq![tv]);
    assert(s0.subrange(first, a + 1) =~= s0.subrange(first, a).push(tv));
    assert(seq![tv] =~= Seq::<i32>::empty().push(tv));
    assert(unmarked(s2, first, a + 1).to_multiset() =~= s0.subrange(first, a + 1).to_multiset());
}

/// The predicate "has key `k`".
pub open spec fn key_is(key: spec_fn(i32) -> int, k: int) -> spec_fn(i32) -> bool {
    |x: i32| key(x) == k
}

/// Ties keep their order: for every key, the entries of `u` with that key come in
/// the order they have in `w`.
pub open spec fn same_ties(u: Seq<i32>, w: Seq<i32>, key: spec_fn(i32) -> int) -> bool {
    forall|k: int| #[trigger] u.filter(key_is(key, k)) == w.filter(key_is(key, k))
}

proof fn lemma_filter_none(s: Seq<i32>, pred: spec_fn(i32) -> bool)
    requires
        forall|i: int| 0 <= i < s.len() ==> !pred(#[trigger] s[i]),
    ensures
        s.filter(pred) == Seq::<i32>::empty(),
    decreases s.len(),
{
    if s.len() == 0 {
        reveal(Seq::filter);
    } else {
        let s1 = s.drop_last();
        lemma_filter_none(s1, pred);
        assert(s1.push(s.last()) =~= s);
        s1.lemma_filter_push(s.last(), pred);
    }
}

/// Inserting `tv` after every entry of key at most its own, and before the rest,
/// keeps ties in the order in which the entries arrived.
proof fn lemma_insert_stable(
    s: Seq<i32>,
    s2: Seq<i32>,
    s0: Seq<i32>,
    key: spec_fn(i32) -> int,
    first: int,
    a: int,
    bp: int,
    tv: i32,
)
    requires
        0 <= first <= bp <= a < s0.len(),
        a <= s.len(),
        unmarked(s2, first, a + 1) == unmarked(s, first, bp) + seq![tv] + unmarked(s, bp, a),
        forall|q: int| bp <= q < a ==> key(unmark(#[trigger] s[q])) > key(tv),
        same_ties(unmarked(s, first, a), s0.subrange(first, a), key),
        tv == s0[a],
    ensures
        same_ties(unmarked(s2, first, a + 1), s0.subrange(first, a + 1), key),
{
    let p1 = unmarked(s, first, bp);
    let p2 = unmarked(s, bp, a);
    assert(unmarked(s, first, a) =~= p1 + p2);
    assert(s0.subrange(first, a + 1) =~= s0.subrange(first, a).push(tv));
    assert(seq![tv] =~= Seq::<i32>::empty().push(tv));
    assert forall|k: int|
        #[trigger] unmarked(s2, first, a + 1).filter(key_is(key, k)) == s0.subrange(first, a + 1).filter(
            key_is(key, k),
        ) by {
        let pr = key_is(key, k);
        Seq::filter_distributes_over_add(p1 + seq![tv], p2, pr);
        Seq::filter_distributes_over_add(p1, seq![tv], pr);
        Seq::filter_distributes_over_add(p1, p2, pr);
        Seq::<i32>::empty().lemma_filter_push(tv, pr);
        s0.subrange(first, a).lemma_filter_push(tv, pr);
        lemma_filter_none(Seq::<i32>::empty(), pr);
        assert(unmarked(s, first, a).filter(pr) == s0.subrange(first, a).filter(pr));
        if key(tv) == k {
            assert forall|i: int| 0 <= i < p2.len() implies !pr(#[trigger] p2[i]) by {
                assert(p2[i] == unmark(s[bp + i]));
            }
            lemma_filter_none(p2, pr);
            assert(p2.filter(pr) + Seq::<i32>::empty() =~= p2.filter(pr));
            assert(p1.filter(pr) + Seq::<i32>::empty() =~= p1.filter(pr));
        } else {
            assert(p1.filter(pr) + Seq::<i32>::empty() =~= p1.filter(pr));
        }
    }
}

/// Where the entries stand after the shift, the optional mark and the placing of
/// `tv` at `b1`.
proof fn lemma_place(
    s: Seq<i32>,
    s_mid: Seq<i32>,
    s_mark: Seq<i32>,
    s2: Seq<i32>,
    s0: Seq<i32>,
    n: int,
    first: int,
    a: int,
    b1: int,
    marks: bool,
    mw: i32,
    tv: i32,
)
    requires
        0 <= first <= b1 <= a < n,
        s.len() == n,
        s_mid.len() == n,
        s0.len() == n,
        marks ==> b1 > first,
        s_mark == (if marks { s_mid.update(b1 - 1, mw) } else { s_mid }),
        s2 == s_mark.update(b1, tv),
        forall|q: int| 0 <= q < n && !(b1 <= q <= a) ==> s_mid[q] == s[q],
        forall|q: int| b1 < q <= a ==> s_mid[q] == s[q - 1],
        forall|q: int| 0 <= q < n && !(first <= q < a) ==> s[q] == s0[q],
    ensures
        s2.len() == n,
        forall|q: int| 0 <= q < n && !(first <= q < a + 1) ==> s2[q] == s0[q],
        forall|k: int| first <= k < b1 - 1 ==> s2[k] == s[k],
        b1 > first ==> s2[b1 - 1] == (if marks { mw } else { s[b1 - 1] }),
        s2[b1] == tv,
        forall|k: int| b1 < k <= a ==> s2[k] == s[k - 1],
{
}

/// Insertion sort of `sa[first..last)` by `ISAd`, marking entries whose rank equals
/// that of their successor by complementing them. With no marked entry in the
/// window to begin with, the window ends sorted by rank with exactly the entries
/// equal in rank to their successor marked.
#[verifier::spinoff_prover]
#[verifier::rlimit(60)]
fn tr_insertionsort_in(isa: &[i32], isad: usize, sa: &mut [i32], first: usize, last: usize)
    requires
        first <= last <= old(sa)@.len(),
    ensures
        final(sa)@.len() == old(sa)@.len(),
        forall|q: int| 0 <= q < old(sa)@.len() && !(first <= q < last) ==> final(sa)@[q] == old(sa)@[q],
        (forall|q: int| first <= q < last ==> old(sa)@[q] >= 0) ==> {
            &&& sorted_marked(final(sa)@, rank_key(isa@, isad as int), first as int, last as int)
            &&& unmarked(final(sa)@, first as int, last as int).to_multiset() == old(sa)@.subrange(
                first as int,
                last as int,
            ).to_multiset()
            &&& same_ties(
                unmarked(final(sa)@, first as int, last as int),
                old(sa)@.subrange(first as int, last as int),
                rank_key(isa@, isad as int),
            )
        },
{
    let ghost n = sa@.len();
    let ghost s0 = sa@;
    let ghost key = rank_key(isa@, isad as int);
    let ghost ok = forall|q: int| first <= q < last ==> s0[q] >= 0;
    if last - first <= 1 {
        proof {
            reveal(sorted_marked);
            if ok && last - first == 1 {
                assert(unmarked(sa@, first as int, last as int) =~= s0.subrange(first as int, last as int));
            } else if ok {
                assert(unmarked(sa@, first as int, last as int) =~= s0.subrange(first as int, last as int));
            }
        }
        return;
    }
    proof {
        if ok {
            assert(unmarked(sa@, first as int, first + 1) =~= s0.subrange(first as int, first + 1));
            reveal(sorted_marked);
        }
    }
    let mut a = first + 1;
    while a < last
        invariant
            first < a <= last,
            last <= n,
            sa@.len() == n,
            s0.len() == n,
            key == rank_key(isa@, isad as int),
            ok == (forall|q: int| first <= q < last ==> s0[q] >= 0),
            forall|q: int| 0 <= q < n && !(first <= q < a) ==> sa@[q] == s0[q],
            ok ==> sorted_marked(sa@, key, first as int, a as int),
            ok ==> unmarked(sa@, first as int, a as int).to_multiset() == s0.subrange(
                first as int,
                a as int,
            ).to_multiset(),
            ok ==> same_ties(unmarked(sa@, first as int, a as int), s0.subrange(first as int, a as int), key),
        decreases last - a,
    {
        let ghost s = sa@;
        proof {
            if ok && s[a - 1] < 0 {
                lemma_marked_key(s, key, first as int, a as int, a - 1);
            }
        }
        let tv = arr::get(sa, a);
        let key_t = rank_of(isa, isad, tv);
        // `b` runs from a - 1 down to first - 1, kept shifted by one as `b1 = b + 1`.
        let mut b1 = a;
        let mut r = 0i32;
        while b1 > first
            invariant_except_break
                r < 0 || b1 == a,
            invariant
                first <= b1 <= a,
                first < a,
                a < last <= n,
                sa@.len() == n,
                s.len() == n,
                key == rank_key(isa@, isad as int),
                key_t == key(tv),
                forall|q: int| 0 <= q < n && !(b1 <= q <= a) ==> sa@[q] == s[q],
                forall|q: int| b1 < q <= a ==> sa@[q] == s[q - 1],
                ok ==> sorted_marked(s, key, first as int, a as int),
                ok ==> forall|q: int| b1 <= q < a ==> key(unmark(s[q])) > key_t,
                ok ==> (b1 > first ==> s[b1 - 1] >= 0),
            ensures
                first <= b1 <= a,
                sa@.len() == n,
                forall|q: int| 0 <= q < n && !(b1 <= q <= a) ==> sa@[q] == s[q],
                forall|q: int| b1 < q <= a ==> sa@[q] == s[q - 1],
                ok ==> forall|q: int| b1 <= q < a ==> key(unmark(s[q])) > key_t,
                ok ==> (b1 > first ==> s[b1 - 1] >= 0),
                r >= 0 ==> b1 > first && key(s[b1 - 1]) <= key_t && (r == 0 <==> key(s[b1 - 1]) == key_t),
                r < 0 ==> b1 == first,
            decreases b1,
        {
            let rk = rank_at(isa, isad, sa, b1 - 1);
            if key_t >= rk {
                r = if key_t == rk {
                    0
                } else {
                    1
                };
                break;
            }
            r = -1;
            let w = arr::get(sa, b1 - 1);
            arr::set(sa, b1, w);
            b1 -= 1;
            let ghost bb = b1;
            while b1 > first && arr::get(sa, b1 - 1) < 0
                invariant
                    first <= b1 <= bb < a,
                    a < last <= n,
                    sa@.len() == n,
                    s.len() == n,
                    r < 0,
                    forall|q: int| 0 <= q < n && !(b1 <= q <= a) ==> sa@[q] == s[q],
                    forall|q: int| b1 < q <= a ==> sa@[q] == s[q - 1],
                    ok ==> sorted_marked(s, key, first as int, a as int),
                    ok ==> forall|q: int| b1 <= q < a ==> key(unmark(s[q])) > key_t,
                decreases b1,
            {
                proof {
                    if ok {
                        assert(s[b1 - 1] < 0);
                        lemma_marked_key(s, key, first as int, a as int, b1 - 1);
                    }
                }
                let w = arr::get(sa, b1 - 1);
                arr::set(sa, b1, w);
                b1 -= 1;
            }
        }
        let ghost s_mid = sa@;
        let ghost marks = r == 0 && b1 >= 1;
        let ghost mw_g: i32 = 0;
        if r == 0 && b1 >= 1 {
            let w = arr::get(sa, b1 - 1);
            let mw = !w;
            proof {
                lemma_complement(w, mw);
                mw_g = mw;
                assert(w == s_mid[b1 - 1]);
            }
            arr::set(sa, b1 - 1, mw);
        }
        let ghost s_mark = sa@;
        arr::set(sa, b1, tv);
        proof {
            lemma_place(s, s_mid, s_mark, sa@, s0, n as int, first as int, a as int, b1 as int, marks, mw_g, tv);
            if ok {
                assert(tv == s0[a as int]);
                lemma_insert_step(s, sa@, key, first as int, a as int, b1 as int, tv, r == 0);
                lemma_insert_multiset(s, sa@, s0, first as int, a as int, b1 as int, tv);
                lemma_insert_stable(s, sa@, s0, key, first as int, a as int, b1 as int, tv);
            }
        }
        a += 1;
    }
}

/// Insertion sort of `sa[first..last)` by the ranks `isad[*]`. With no marked
/// entry in the window to begin with, the window ends sorted by rank, each entry
/// that ties with its successor marked by complementing it; nothing else changes.
pub fn tr_insertionsort(isad: &[i32], sa: &mut [i32], first: usize, last: usize)
    requires
        first <= last <= old(sa)@.len(),
    ensures
        final(sa)@.len() == old(sa)@.len(),
        forall|q: int| 0 <= q < old(sa)@.len() && !(first <= q < last) ==> final(sa)@[q] == old(sa)@[q],
        (forall|q: int| first <= q < last ==> old(sa)@[q] >= 0) ==> {
            &&& sorted_marked(final(sa)@, rank_key(isad@, 0), first as int, last as int)
            &&& unmarked(final(sa)@, first as int, last as int).to_multiset() == old(sa)@.subrange(
                first as int,
                last as int,
            ).to_multiset()
            &&& same_ties(
                unmarked(final(sa)@, first as int, last as int),
                old(sa)@.subrange(first as int, last as int),
                rank_key(isad@, 0),
            )
        },
{
    tr_insertionsort_in(isad, 0, sa, first, last);
}

/// Sift-down in the max-heap rooted at `first`, ending before `size`, by `ISAd`:
/// with every node after `i` in heap order, makes every node from `i` on so.
#[verifier::spinoff_prover]
#[verifier::rlimit(40)]
fn tr_fixdown(isa: &[i32], isad: usize, sa: &mut [i32], first: usize, i: usize, size: usize)
    requires
        first <= i <= size,
        size <= old(sa)@.len(),
        old(sa)@.len() <= 0x7fff_ffff,
        heap_from(old(sa)@, rank_key(isa@, isad as int), first as int, i + 1, size as int),
    ensures
        final(sa)@.len() == old(sa)@.len(),
        final(sa)@.to_multiset() == old(sa)@.to_multiset(),
        forall|q: int| 0 <= q < old(sa)@.len() && !(i <= q < size) ==> final(sa)@[q] == old(sa)@[q],
        heap_from(final(sa)@, rank_key(isa@, isad as int), first as int, i as int, size as int),
{
    let ghost n = sa@.len();
    let ghost s0 = sa@;
    let ghost key = rank_key(isa@, isad as int);
    let ghost i0 = i as int;
    if i >= size {
        return;
    }
    let mut i = i;
    let v = arr::get(sa, i);
    let c = rank_of(isa, isad, v);
    proof {
        assert(sa@.update(i as int, v) =~= s0);
    }
    loop
        invariant
            first <= i0 <= i < size,
            size <= n,
            n <= 0x7fff_ffff,
            sa@.len() == n,
            key == rank_key(isa@, isad as int),
            c == key(v),
            sa@.update(i as int, v).to_multiset() == s0.to_multiset(),
            forall|q: int| 0 <= q < n && !(i0 <= q < size) ==> sa@.update(i as int, v)[q] == s0[q],
            forall|q: int|
                i0 <= q < size && q != i ==> #[trigger] heap_node(
                    sa@.update(i as int, v),
                    key,
                    first as int,
                    size as int,
                    q,
                ),
            i > i0 ==> ({
                let vs = sa@.update(i as int, v);
                let p = hparent(first as int, i as int);
                &&& i0 <= p < i
                &&& hchild(first as int, p) == i || hchild(first as int, p) + 1 == i
                &&& c <= key(vs[p])
                &&& (hchild(first as int, i as int) < size ==> key(vs[hchild(first as int, i as int)]) <= key(vs[p]))
                &&& (hchild(first as int, i as int) + 1 < size ==> key(vs[hchild(first as int, i as int) + 1]) <= key(vs[p]))
            }),
        ensures
            first <= i0 <= i < size,
            sa@.len() == n,
            sa@.update(i as int, v).to_multiset() == s0.to_multiset(),
            forall|q: int| 0 <= q < n && !(i0 <= q < size) ==> sa@.update(i as int, v)[q] == s0[q],
            forall|q: int|
                i0 <= q < size ==> #[trigger] heap_node(sa@.update(i as int, v), key, first as int, size as int, q),
        decreases size - i,
    {
        let ghost vs = sa@.update(i as int, v);
        let j = 2 * i - first + 1;
        if j >= size {
            proof {
                assert(heap_node(vs, key, first as int, size as int, i as int));
            }
            break;
        }
        let mut k = j;
        let d_k = rank_at(isa, isad, sa, k);
        let j1 = j + 1;
        let d = if j1 < size {
            let e = rank_at(isa, isad, sa, j1);
            if d_k < e {
                k = j1;
                e
            } else {
                d_k
            }
        } else {
            d_k
        };
        proof {
            assert(vs[j as int] == sa@[j as int]);
            if j1 < size {
                assert(vs[j1 as int] == sa@[j1 as int]);
            }
        }
        if d <= c {
            proof {
                assert(heap_node(vs, key, first as int, size as int, i as int));
            }
            break;
        }
        let w = arr::get(sa, k);
        arr::set(sa, i, w);
        proof {
            let vs2 = sa@.update(k as int, v);
            assert(vs2 =~= vs.update(i as int, vs[k as int]).update(k as int, vs[i as int]));
            lemma_swap_multiset(vs, i as int, k as int);
            assert(hparent(first as int, k as int) == i);
            assert forall|q: int|
                i0 <= q < size && q != k implies #[trigger] heap_node(vs2, key, first as int, size as int, q) by {
                if q == i {
                } else if i > i0 && q == hparent(first as int, i as int) {
                    assert(heap_node(vs, key, first as int, size as int, q));
                } else {
                    assert(heap_node(vs, key, first as int, size as int, q));
                    assert(hchild(first as int, q) != i && hchild(first as int, q) + 1 != i);
                    assert(hchild(first as int, q) != k && hchild(first as int, q) + 1 != k);
                }
            }
            assert(heap_node(vs, key, first as int, size as int, k as int));
        }
        i = k;
    }
    arr::set(sa, i, v);
}

/// Heapsort of `sa[first..first+size)` by `ISAd`.
#[verifier::spinoff_prover]
#[verifier::rlimit(60)]
fn tr_heapsort_in(isa: &[i32], isad: usize, sa: &mut [i32], first: usize, size: usize)
    requires
        first + size <= old(sa)@.len(),
        old(sa)@.len() <= 0x7fff_ffff,
    ensures
        final(sa)@.len() == old(sa)@.len(),
        final(sa)@.subrange(first as int, first + size).to_multiset() == old(sa)@.subrange(
            first as int,
            first + size,
        ).to_multiset(),
        forall|q: int|
            0 <= q < old(sa)@.len() && !(first <= q < first + size) ==> final(sa)@[q] == old(sa)@[q],
        sorted_by(final(sa)@, rank_key(isa@, isad as int), first as int, first + size),
{
    let ghost n = sa@.len();
    let ghost s0 = sa@;
    let ghost key = rank_key(isa@, isad as int);
    let ghost hi = first + size;
    let ghost even = size % 2 == 0 && size > 0;
    let mut m = size;
    if size % 2 == 0 && size > 0 {
        m -= 1;
        if rank_at(isa, isad, sa, first + m / 2) < rank_at(isa, isad, sa, first + m) {
            proof {
                lemma_swap_multiset(sa@, (first + m) as int, (first + m / 2) as int);
            }
            arr::swap(sa, first + m, first + m / 2);
        }
    }
    let ghost x = sa@[first + m];
    let ghost y0 = sa@[first + m / 2];
    proof {
        broadcast use vstd::seq_lib::group_to_multiset_ensures;
        if even {
            assert(sa@.subrange(first as int, first + m)[(m / 2) as int] == y0);
            assert(sa@.subrange(first as int, first + m).contains(y0));
        }
    }
    if m >= 2 {
        let mut i = m / 2;
        loop
            invariant
                i <= m / 2,
                2 <= m <= size,
                first + size <= n,
                n <= 0x7fff_ffff,
                sa@.len() == n,
                hi == first + size,
                key == rank_key(isa@, isad as int),
                even ==> m + 1 == size,
                sa@.to_multiset() == s0.to_multiset(),
                forall|q: int| 0 <= q < n && !(first <= q < hi) ==> sa@[q] == s0[q],
                heap_from(sa@, key, first as int, first + i + 1, first + m),
                even ==> sa@[first + m] == x && key(x) <= key(y0) && sa@.subrange(first as int, first + m).to_multiset().count(y0) > 0,
            ensures
                sa@.len() == n,
                sa@.to_multiset() == s0.to_multiset(),
                forall|q: int| 0 <= q < n && !(first <= q < hi) ==> sa@[q] == s0[q],
                heap_from(sa@, key, first as int, first as int, first + m),
                even ==> sa@[first + m] == x && key(x) <= key(y0) && sa@.subrange(first as int, first + m).to_multiset().count(y0) > 0,
            decreases i,
        {
            let ghost before = sa@;
            tr_fixdown(isa, isad, sa, first, first + i, first + m);
            proof {
                lemma_window_multiset(before, sa@, first as int, first + m);
            }
            if i == 0 {
                break;
            }
            i -= 1;
        }
    }
    proof {
        if m < 2 {
            assert(heap_from(sa@, key, first as int, first as int, first + m));
        }
    }
    if size % 2 == 0 && size > 0 {
        let ghost big = sa@[first as int];
        proof {
            broadcast use vstd::seq_lib::group_to_multiset_ensures;
            let w = sa@.subrange(first as int, first + m);
            assert(w.contains(y0));
            let r = choose|r: int| 0 <= r < w.len() && w[r] == y0;
            assert(sa@[first + r] == y0);
            lemma_heap_root_max(sa@, key, first as int, first + m, first + r);
            assert forall|q: int| first <= q < first + m + 1 implies key(#[trigger] sa@[q]) <= key(big) by {
                if q < first + m {
                    lemma_heap_root_max(sa@, key, first as int, first + m, q);
                }
            }
            lemma_swap_multiset(sa@, first as int, (first + m) as int);
        }
        let ghost before = sa@;
        arr::swap(sa, first, first + m);
        proof {
            lemma_window_multiset(before, sa@, first as int, first + m + 1);
            lemma_window_bound(before, sa@, key, first as int, first + m + 1, key(big));
            assert forall|q: int| first + 1 <= q < first + m implies #[trigger] heap_node(sa@, key, first as int, first + m, q) by {
                assert(heap_node(before, key, first as int, first + m, q));
            }
        }
        let ghost before2 = sa@;
        tr_fixdown(isa, isad, sa, first, first, first + m);
        proof {
            lemma_window_multiset(before2, sa@, first as int, first + m + 1);
            lemma_window_bound(before2, sa@, key, first as int, first + m + 1, key(big));
            assert(sa@[first + m] == big);
        }
    }
    let mut i = m;
    while i > 0
        invariant
            i <= m <= size,
            first + size <= n,
            n <= 0x7fff_ffff,
            sa@.len() == n,
            hi == first + size,
            key == rank_key(isa@, isad as int),
            sa@.to_multiset() == s0.to_multiset(),
            forall|q: int| 0 <= q < n && !(first <= q < hi) ==> sa@[q] == s0[q],
            heap_from(sa@, key, first as int, first as int, first + i),
            sorted_by(sa@, key, first + i, hi),
            forall|a: int, b: int|
                first <= a < first + i && first + i <= b < hi ==> key(#[trigger] sa@[a]) <= key(
                    #[trigger] sa@[b],
                ),
        decreases i,
    {
        i -= 1;
        let ghost s = sa@;
        let tv = arr::get(sa, first);
        let w = arr::get(sa, first + i);
        proof {
            assert forall|q: int| first <= q < first + i + 1 implies key(#[trigger] s[q]) <= key(tv) by {
                lemma_heap_root_max(s, key, first as int, first + i + 1, q);
            }
        }
        arr::set(sa, first, w);
        let ghost s1 = sa@;
        proof {
            assert forall|q: int| first + 1 <= q < first + i implies #[trigger] heap_node(s1, key, first as int, first + i, q) by {
                assert(heap_node(s, key, first as int, first + i + 1, q));
            }
        }
        tr_fixdown(isa, isad, sa, first, first, first + i);
        let ghost s2 = sa@;
        arr::set(sa, first + i, tv);
        proof {
            assert forall|q: int| first <= q < first + i implies #[trigger] heap_node(sa@, key, first as int, first + i, q) by {
                assert(heap_node(s2, key, first as int, first + i, q));
            }
            lemma_extract_multiset(s, s2, first as int, (first + i) as int);
            // the window [first, first+i] holds the same entries as before
            lemma_window_multiset(s, sa@, first as int, first + i + 1);
            lemma_window_bound(s, sa@, key, first as int, first + i + 1, key(tv));
            assert forall|a: int, b: int|
                first <= a < first + i && first + i <= b < hi implies key(#[trigger] sa@[a]) <= key(
                #[trigger] sa@[b],
            ) by {
                if b == first + i {
                } else {
                    assert forall|q: int| first <= q < first + i + 1 implies key(#[trigger] s[q]) <= key(s[b]) by {
                    }
                    lemma_window_bound(s, sa@, key, first as int, first + i + 1, key(s[b]));
                    assert(sa@[b] == s[b]);
                }
            }
            assert forall|a: int, b: int| first + i <= a <= b < hi implies key(#[trigger] sa@[a]) <= key(
                #[trigger] sa@[b],
            ) by {
                if a == first + i {
                    if b > a {
                        assert(key(s[first as int]) <= key(s[b]));
                        assert(sa@[b] == s[b]);
                    }
                } else {
                    assert(sa@[a] == s[a] && sa@[b] == s[b]);
                }
            }
        }
    }
    proof {
        lemma_window_multiset(s0, sa@, first as int, hi);
    }
}

/// Heapsort of `sa[first..first+size)` by the ranks `isad[*]`: the window is
/// rearranged into nondecreasing order of rank, and nothing else changes.
pub fn tr_heapsort(isad: &[i32], sa: &mut [i32], first: usize, size: usize)
    requires
        first + size <= old(sa)@.len(),
        old(sa)@.len() <= 0x7fff_ffff,
    ensures
        final(sa)@.len() == old(sa)@.len(),
        final(sa)@.subrange(first as int, first + size).to_multiset() == old(sa)@.subrange(
            first as int,
            first + size,
        ).to_multiset(),
        forall|q: int|
            0 <= q < old(sa)@.len() && !(first <= q < first + size) ==> final(sa)@[q] == old(sa)@[q],
        sorted_by(final(sa)@, rank_key(isad@, 0), first as int, first + size),
{
    tr_heapsort_in(isad, 0, sa, first, size);
}

/// Index among `v1`, `v2`, `v3` whose rank is the median.
fn tr_median3_idx(isa: &[i32], isad: usize, sa: &[i32], v1: usize, v2: usize, v3: usize) -> (r: usize)
    ensures
        r == v1 || r == v2 || r == v3,
{
    let mut v1 = v1;
    let mut v2 = v2;
    if rank_at(isa, isad, sa, v1) > rank_at(isa, isad, sa, v2) {
        let tmp = v1;
        v1 = v2;
        v2 = tmp;
    }
    if rank_at(isa, isad, sa, v2) > rank_at(isa, isad, sa, v3) {
        if rank_at(isa, isad, sa, v1) > rank_at(isa, isad, sa, v3) {
            return v1;
        } else {
            return v3;
        }
    }
    v2
}

/// Index among the five given whose rank is the median.
fn tr_median5_idx(isa: &[i32], isad: usize, sa: &[i32], v1: usize, v2: usize, v3: usize, v4: usize, v5: usize) -> (r: usize)
    ensures
        r == v1 || r == v2 || r == v3 || r == v4 || r == v5,
{
    let mut v1 = v1;
    let mut v2 = v2;
    let mut v3 = v3;
    let mut v4 = v4;
    let mut v5 = v5;
    if rank_at(isa, isad, sa, v2) > rank_at(isa, isad, sa, v3) {
        let tmp = v2;
        v2 = v3;
        v3 = tmp;
    }
    if rank_at(isa, isad, sa, v4) > rank_at(isa, isad, sa, v5) {
        let tmp = v4;
        v4 = v5;
        v5 = tmp;
    }
    if rank_at(isa, isad, sa, v2) > rank_at(isa, isad, sa, v4) {
        let tmp = v2;
        v2 = v4;
        v4 = tmp;
        let tmp = v3;
        v3 = v5;
        v5 = tmp;
    }
    if rank_at(isa, isad, sa, v1) > rank_at(isa, isad, sa, v3) {
        let tmp = v1;
        v1 = v3;
        v3 = tmp;
    }
    if rank_at(isa, isad, sa, v1) > rank_at(isa, isad, sa, v4) {
        let tmp = v1;
        v1 = v4;
        v4 = tmp;
        let tmp = v3;
        v3 = v5;
        v5 = tmp;
    }
    if rank_at(isa, isad, sa, v3) > rank_at(isa, isad, sa, v4) {
        v4
    } else {
        v3
    }
}

/// Pivot for `sa[first..last)`: median of 3, of 5, or pseudo-median of 9 by range size.
fn tr_pivot_idx(isa: &[i32], isad: usize, sa: &[i32], first: usize, last: usize) -> (r: usize)
    requires
        first < last <= sa@.len(),
        sa@.len() <= 0x7fff_ffff,
    ensures
        first <= r < last,
{
    let len = last - first;
    let middle = first + len / 2;
    if len <= 512 {
        if len <= 32 {
            tr_median3_idx(isa, isad, sa, first, middle, last - 1)
        } else {
            let t2 = len / 4;
            tr_median5_idx(isa, isad, sa, first, first + t2, middle, last - 1 - t2, last - 1)
        }
    } else {
        let t2 = len / 8;
        let f = tr_median3_idx(isa, isad, sa, first, first + t2, first + 2 * t2);
        let m = tr_median3_idx(isa, isad, sa, middle - t2, middle, middle + t2);
        let l = tr_median3_idx(isa, isad, sa, last - 1 - 2 * t2, last - 1 - t2, last - 1);
        tr_median3_idx(isa, isad, sa, f, m, l)
    }
}

/// Budget of work for refining groups: `remain` units, renewed by `incval` up to
/// `chance` more times; the sizes of groups left unsorted add up in `count`.
pub struct TrBudget {
    pub chance: i32,
    pub remain: i32,
    pub incval: i32,
    pub count: i32,
}

impl TrBudget {
    pub fn new(chance: i32, incval: i32) -> (b: Self)
        ensures
            b.chance == chance,
            b.remain == incval,
            b.incval == incval,
            b.count == 0,
    {
        TrBudget { chance, remain: incval, incval, count: 0 }
    }

    /// Whether the budget can pay for refining a group of `size` suffixes. When the
    /// remainder does not cover it, a chance is spent on renewing the remainder; with
    /// no chance left the group is counted as unsorted.
    pub fn check(&mut self, size: i32) -> (ok: bool)
        requires
            size >= 0,
            size > old(self).remain && old(self).chance == 0 ==> old(self).count + size <= i32::MAX,
            size > old(self).remain && old(self).chance != 0 ==> i32::MIN <= old(self).remain
                + old(self).incval - size <= i32::MAX && i32::MIN <= old(self).incval - size
                && old(self).chance > i32::MIN,
        ensures
            final(self).incval == old(self).incval,
            size <= old(self).remain ==> ok && final(self).remain == old(self).remain - size
                && final(self).chance == old(self).chance && final(self).count == old(self).count,
            size > old(self).remain && old(self).chance == 0 ==> !ok && final(self).count == old(
                self,
            ).count + size && final(self).remain == old(self).remain && final(self).chance == 0,
            size > old(self).remain && old(self).chance != 0 ==> ok && final(self).remain == old(
                self,
            ).remain + old(self).incval - size && final(self).chance == old(self).chance - 1
                && final(self).count == old(self).count,
    {
        if size <= self.remain {
            self.remain -= size;
            return true;
        }
        if self.chance == 0 {
            self.count += size;
            return false;
        }
        self.remain += self.incval - size;
        self.chance -= 1;
        true
    }
}

/// `TrBudget::check` where its arithmetic stays within `i32`; otherwise the group
/// is not paid for.
fn budget_try(budget: &mut TrBudget, size: usize) -> bool {
    if size > 0x7fff_ffff {
        return false;
    }
    let s = size as i32;
    let fits = if s <= budget.remain {
        true
    } else if budget.chance == 0 {
        budget.count as i64 + s as i64 <= 0x7fff_ffff
    } else {
        let d = budget.incval as i64 - s as i64;
        let r = budget.remain as i64 + d;
        -0x8000_0000 <= d && d <= 0x7fff_ffff && -0x8000_0000 <= r && r <= 0x7fff_ffff && budget.chance
            > -0x8000_0000
    };
    if fits {
        budget.check(s)
    } else {
        false
    }
}

/// Three-way partition of `sa[first..last)` around the rank `v`, the entries of
/// `sa[first..middle)` having that rank already. Returns `(a, b)` with the ranks
/// below `v` in `[first, a)`, equal to `v` in `[a, b)` and above it in `[b, last)`;
/// the window is rearranged, nothing outside it changes.
#[verifier::rlimit(40)]
#[verifier::spinoff_prover]
fn tr_partition(isa: &[i32], isad: usize, sa: &mut [i32], first: usize, middle: usize, last: usize, v: i32) -> (r: (usize, usize))
    requires
        first <= middle <= last <= old(sa)@.len(),
        keys_at(old(sa)@, rank_key(isa@, isad as int), first as int, middle as int, v as int),
    ensures
        final(sa)@.len() == old(sa)@.len(),
        first <= r.0 <= r.1 <= last,
        kept(old(sa)@, final(sa)@, first as int, last as int),
        final(sa)@.subrange(first as int, last as int).to_multiset() == old(sa)@.subrange(
            first as int,
            last as int,
        ).to_multiset(),
        keys_below(final(sa)@, rank_key(isa@, isad as int), first as int, r.0 as int, v as int),
        keys_at(final(sa)@, rank_key(isa@, isad as int), r.0 as int, r.1 as int, v as int),
        keys_above(final(sa)@, rank_key(isa@, isad as int), r.1 as int, last as int, v as int),
{
    let ghost n = sa@.len();
    let ghost s0 = sa@;
    let ghost key = rank_key(isa@, isad as int);
    let ghost lo = first as int;
    let ghost hi = last as int;
    let ghost vv = v as int;
    let mut b = middle;
    let mut x = 0i32;
    while b < last
        invariant
            first <= middle <= b <= last,
            last <= n,
            sa@ == s0,
            s0.len() == n,
            key == rank_key(isa@, isad as int),
            lo == first, hi == last, vv == v, s0.len() == n, sa@.len() == n,
            keys_at(s0, key, lo, b as int, vv),
        ensures
            first <= middle <= b <= last,
            keys_at(s0, key, lo, b as int, vv),
            b < last ==> x == key(s0[b as int]) && x != v,
        decreases last - b,
    {
        x = rank_at(isa, isad, sa, b);
        if x != v {
            break;
        }
        b += 1;
    }
    let mut a = b;
    if a < last && x < v {
        b += 1;
        while b < last
            invariant
                first <= a < b <= last,
                last <= n,
                key == rank_key(isa@, isad as int),
                lo == first, hi == last, vv == v, s0.len() == n, sa@.len() == n,
                kept(s0, sa@, lo, hi),
                keys_at(sa@, key, lo, a as int, vv),
                keys_below(sa@, key, a as int, b as int, vv),
            ensures
                first <= a < b <= last,
                kept(s0, sa@, lo, hi),
                keys_at(sa@, key, lo, a as int, vv),
                keys_below(sa@, key, a as int, b as int, vv),
                b < last ==> key(sa@[b as int]) > vv,
            decreases last - b,
        {
            x = rank_at(isa, isad, sa, b);
            if x > v {
                break;
            }
            if x == v {
                swap_within(sa, b, a, Ghost(s0), Ghost(lo), Ghost(hi));
                a += 1;
            }
            b += 1;
        }
    }
    proof {
        assert(kept(s0, sa@, lo, hi));
    }
    let mut c = last;
    loop
        invariant_except_break
            b <= c,
            keys_at(sa@, key, c as int, hi, vv),
        invariant
            first <= a <= b <= last,
            c <= last,
            last <= n,
            key == rank_key(isa@, isad as int),
            lo == first, hi == last, vv == v, s0.len() == n, sa@.len() == n,
            kept(s0, sa@, lo, hi),
            keys_at(sa@, key, lo, a as int, vv),
            keys_below(sa@, key, a as int, b as int, vv),
            b < last ==> key(sa@[b as int]) > vv,
        ensures
            b <= c + 1,
            c <= last,
            c < last || last == 0,
            keys_at(sa@, key, c + 1, hi, vv),
            c > b ==> x == key(sa@[c as int]) && x != v,
        decreases c,
    {
        if c == 0 {
            break;
        }
        c -= 1;
        if c <= b {
            break;
        }
        x = rank_at(isa, isad, sa, c);
        if x != v {
            break;
        }
    }
    let mut d = c;
    if b < c && x > v {
        loop
            invariant_except_break
                b < c,
                keys_above(sa@, key, c as int, d + 1, vv),
            invariant
                first <= a <= b,
                b <= c + 1,
                c <= d,
                d < last,
                last <= n,
                key == rank_key(isa@, isad as int),
                lo == first, hi == last, vv == v, s0.len() == n, sa@.len() == n,
                kept(s0, sa@, lo, hi),
                keys_at(sa@, key, lo, a as int, vv),
                keys_below(sa@, key, a as int, b as int, vv),
                b < last ==> key(sa@[b as int]) > vv,
                keys_at(sa@, key, d + 1, hi, vv),
            ensures
                b <= c + 1,
                c <= d,
                d < last,
                keys_above(sa@, key, c + 1, d + 1, vv),
                keys_at(sa@, key, d + 1, hi, vv),
                b < c ==> key(sa@[c as int]) < vv,
            decreases c,
        {
            if c == 0 {
                break;
            }
            c -= 1;
            if c <= b {
                break;
            }
            x = rank_at(isa, isad, sa, c);
            if x < v {
                break;
            }
            if x == v {
                swap_within(sa, c, d, Ghost(s0), Ghost(lo), Ghost(hi));
                d -= 1;
            }
        }
    }
    while b < c
        invariant
            first <= a <= b,
            b <= c + 1,
            c <= d,
            d < last || last == 0,
            d <= last,
            last <= n,
            key == rank_key(isa@, isad as int),
            lo == first, hi == last, vv == v, s0.len() == n, sa@.len() == n,
            kept(s0, sa@, lo, hi),
            keys_at(sa@, key, lo, a as int, vv),
            keys_below(sa@, key, a as int, b as int, vv),
            keys_above(sa@, key, c + 1, d + 1, vv),
            keys_at(sa@, key, d + 1, hi, vv),
            b < last && b <= c ==> key(sa@[b as int]) > vv,
            b < c ==> key(sa@[c as int]) < vv,
        decreases c + 1 - b,
    {
        swap_within(sa, b, c, Ghost(s0), Ghost(lo), Ghost(hi));
        let ghost b0 = b;
        let ghost c0 = c;
        loop
            invariant_except_break
                b < c,
                keys_below(sa@, key, a as int, b + 1, vv),
            invariant
                first <= a <= b,
                b0 <= b,
                c == c0,
                c <= d,
                d < last,
                last <= n,
                key == rank_key(isa@, isad as int),
                lo == first, hi == last, vv == v, s0.len() == n, sa@.len() == n,
                kept(s0, sa@, lo, hi),
                keys_at(sa@, key, lo, a as int, vv),
                keys_above(sa@, key, c as int, d + 1, vv),
                keys_at(sa@, key, d + 1, hi, vv),
            ensures
                first <= a <= b <= c,
                b0 < b,
                keys_at(sa@, key, lo, a as int, vv),
                keys_below(sa@, key, a as int, b as int, vv),
                keys_above(sa@, key, c as int, d + 1, vv),
                keys_at(sa@, key, d + 1, hi, vv),
                b < c ==> key(sa@[b as int]) > vv,
            decreases c - b,
        {
            b += 1;
            if b >= c {
                break;
            }
            x = rank_at(isa, isad, sa, b);
            if x > v {
                break;
            }
            if x == v {
                swap_within(sa, b, a, Ghost(s0), Ghost(lo), Ghost(hi));
                a += 1;
            }
        }
        loop
            invariant_except_break
                b <= c,
                keys_above(sa@, key, c as int, d + 1, vv),
            invariant
                first <= a <= b,
                b0 < b,
                b <= c0,
                c <= c0,
                c <= d,
                d < last,
                last <= n,
                key == rank_key(isa@, isad as int),
                lo == first, hi == last, vv == v, s0.len() == n, sa@.len() == n,
                kept(s0, sa@, lo, hi),
                keys_at(sa@, key, lo, a as int, vv),
                keys_below(sa@, key, a as int, b as int, vv),
                keys_at(sa@, key, d + 1, hi, vv),
                b < c0 ==> key(sa@[b as int]) > vv,
            ensures
                b <= c + 1,
                c < c0,
                c <= d,
                d < last,
                keys_above(sa@, key, c + 1, d + 1, vv),
                keys_at(sa@, key, d + 1, hi, vv),
                b < c ==> key(sa@[c as int]) < vv,
            decreases c,
        {
            if c == 0 {
                break;
            }
            c -= 1;
            if c <= b {
                break;
            }
            x = rank_at(isa, isad, sa, c);
            if x < v {
                break;
            }
            if x == v {
                swap_within(sa, c, d, Ghost(s0), Ghost(lo), Ghost(hi));
                d -= 1;
            }
        }
    }
    if a <= d && d < last {
        // now [first, a) = v, [a, b) < v, [b, d] > v, (d, last) = v
        proof {
            assert forall|q: int| b <= q < d + 1 implies key(#[trigger] sa@[q]) > vv by {
                if q <= c {
                    assert(q == b);
                }
            }
        }
        let ghost pre = sa@;
        let s = if a - first < b - a {
            a - first
        } else {
            b - a
        };
        let mut k: usize = 0;
        while k < s
            invariant
                k <= s,
                s <= a - first,
                s <= b - a,
                first <= a <= b,
                b <= d + 1,
                d < last,
                last <= n,
                pre.len() == n,
                lo == first, hi == last, s0.len() == n, sa@.len() == n,
                kept(s0, sa@, lo, hi),
                forall|q: int| first <= q < first + k ==> #[trigger] sa@[q] == pre[q - first + b - s],
                forall|q: int| b - s <= q < b - s + k ==> #[trigger] sa@[q] == pre[q - (b - s) + first],
                forall|q: int|
                    0 <= q < n && !(first <= q < first + k) && !(b - s <= q < b - s + k) ==> #[trigger] sa@[q]
                        == pre[q],
            decreases s - k,
        {
            swap_within(sa, first + k, b - s + k, Ghost(s0), Ghost(lo), Ghost(hi));
            k += 1;
        }
        proof {
            assert forall|q: int| lo <= q < first + (b - a) implies key(#[trigger] sa@[q]) < vv by {
                if q < first + s {
                    assert(sa@[q] == pre[q - first + b - s]);
                } else {
                    assert(sa@[q] == pre[q]);
                }
            }
            assert forall|q: int| first + (b - a) <= q < b implies key(#[trigger] sa@[q]) == vv by {
                if q >= b - s {
                    assert(sa@[q] == pre[q - (b - s) + first]);
                } else {
                    assert(sa@[q] == pre[q]);
                }
            }
            assert forall|q: int| b <= q < hi implies #[trigger] sa@[q] == pre[q] by {}
        }
        let ghost pre2 = sa@;
        let dc = d + 1 - b;
        let ldd = last - (d + 1);
        let s2 = if dc < ldd {
            dc
        } else {
            ldd
        };
        let mut k: usize = 0;
        while k < s2
            invariant
                k <= s2,
                s2 <= dc,
                s2 <= ldd,
                dc == d + 1 - b,
                ldd == last - (d + 1),
                first <= b <= d + 1,
                d < last,
                last <= n,
                pre2.len() == n,
                lo == first, hi == last, s0.len() == n, sa@.len() == n,
                kept(s0, sa@, lo, hi),
                forall|q: int| b <= q < b + k ==> #[trigger] sa@[q] == pre2[q - b + last - s2],
                forall|q: int| last - s2 <= q < last - s2 + k ==> #[trigger] sa@[q] == pre2[q - (last - s2) + b],
                forall|q: int|
                    0 <= q < n && !(b <= q < b + k) && !(last - s2 <= q < last - s2 + k) ==> #[trigger] sa@[q]
                        == pre2[q],
            decreases s2 - k,
        {
            swap_within(sa, b + k, last - s2 + k, Ghost(s0), Ghost(lo), Ghost(hi));
            k += 1;
        }
        proof {
            assert forall|q: int| lo <= q < b implies #[trigger] sa@[q] == pre2[q] by {}
            assert forall|q: int| b <= q < last - dc implies key(#[trigger] sa@[q]) == vv by {
                if q < b + s2 {
                    assert(sa@[q] == pre2[q - b + last - s2]);
                } else {
                    assert(sa@[q] == pre2[q]);
                }
            }
            assert forall|q: int| last - dc <= q < hi implies key(#[trigger] sa@[q]) > vv by {
                if q >= last - s2 {
                    assert(sa@[q] == pre2[q - (last - s2) + b]);
                } else {
                    assert(sa@[q] == pre2[q]);
                }
            }
            lemma_window_multiset(s0, sa@, lo, hi);
        }
        return (first + (b - a), last - dc);
    }
    proof {
        lemma_window_multiset(s0, sa@, lo, hi);
    }
    (first, last)
}

/// Copies the sorted order of the suffixes `sa[first..a)` and `sa[b..last)` one
/// level up: each entry `s - depth` whose rank is `b - 1` moves into `[a, b)`, and
/// gets its position as rank.
fn tr_copy(isa: &mut [i32], sa: &mut [i32], first: usize, a: usize, b: usize, last: usize, depth: i32)
    requires
        old(sa)@.len() <= 0x7fff_ffff,
    ensures
        final(isa)@.len() == old(isa)@.len(),
        final(sa)@.len() == old(sa)@.len(),
{
    let ghost (ni, ns) = (isa@.len(), sa@.len());
    let v = (#[verifier::truncate] (b as i32)).wrapping_sub(1);
    let mut d = a;
    let mut c = first;
    while c < d && d <= sa.len()
        invariant
            isa@.len() == ni,
            sa@.len() == ns,
            ns <= 0x7fff_ffff,
        decreases sa@.len() - c,
    {
        let s = arr::get(sa, c).wrapping_sub(depth);
        if s >= 0 && arr::get(isa, s as usize) == v {
            arr::set(sa, d, s);
            arr::set(isa, s as usize, d as i32);
            d += 1;
        }
        c += 1;
    }
    let e = d;
    let mut d2 = b.saturating_sub(1);
    if last > 0 {
        let mut c2 = last - 1;
        loop
            invariant
                isa@.len() == ni,
                sa@.len() == ns,
                ns <= 0x7fff_ffff,
            decreases c2,
        {
            if e >= d2 {
                break;
            }
            let s = arr::get(sa, c2).wrapping_sub(depth);
            if s >= 0 && arr::get(isa, s as usize) == v {
                d2 -= 1;
                arr::set(sa, d2, s);
                arr::set(isa, s as usize, #[verifier::truncate] (d2 as i32));
            }
            if c2 == 0 {
                break;
            }
            c2 -= 1;
        }
    }
}

/// Like `tr_copy`, but the moved entries keep apart the groups that the ranks at
/// the deeper level distinguish.
fn tr_partialcopy(isa: &mut [i32], sa: &mut [i32], first: usize, a: usize, b: usize, last: usize, depth: i32)
    requires
        old(sa)@.len() <= 0x7fff_ffff,
    ensures
        final(isa)@.len() == old(isa)@.len(),
        final(sa)@.len() == old(sa)@.len(),
{
    let ghost (ni, ns) = (isa@.len(), sa@.len());
    let v = (#[verifier::truncate] (b as i32)).wrapping_sub(1);
    let mut d = a;
    let mut lastrank = -1i32;
    let mut newrank = -1i32;
    let mut c = first;
    while c < d && d <= sa.len()
        invariant
            isa@.len() == ni,
            sa@.len() == ns,
            ns <= 0x7fff_ffff,
        decreases sa@.len() - c,
    {
        let s = arr::get(sa, c).wrapping_sub(depth);
        if s >= 0 && arr::get(isa, s as usize) == v {
            arr::set(sa, d, s);
            let rank = arr::get(isa, arr::idx(s.wrapping_add(depth)));
            if lastrank != rank {
                lastrank = rank;
                newrank = d as i32;
            }
            arr::set(isa, s as usize, newrank);
            d += 1;
        }
        c += 1;
    }
    lastrank = -1;
    let mut e = d;
    while e > first
        invariant
            isa@.len() == ni,
            sa@.len() == ns,
            ns <= 0x7fff_ffff,
        decreases e,
    {
        e -= 1;
        let se = arr::idx(arr::get(sa, e));
        let rank = arr::get(isa, se);
        if lastrank != rank {
            lastrank = rank;
            newrank = e as i32;
        }
        if newrank != rank {
            arr::set(isa, se, newrank);
        }
    }
    lastrank = -1;
    let e2 = d;
    let mut d2 = b.saturating_sub(1);
    if last > 0 {
        let mut c2 = last - 1;
        loop
            invariant
                isa@.len() == ni,
                sa@.len() == ns,
                ns <= 0x7fff_ffff,
            decreases c2,
        {
            if e2 >= d2 {
                break;
            }
            let s = arr::get(sa, c2).wrapping_sub(depth);
            if s >= 0 && arr::get(isa, s as usize) == v {
                d2 -= 1;
                arr::set(sa, d2, s);
                let rank = arr::get(isa, arr::idx(s.wrapping_add(depth)));
                if lastrank != rank {
                    lastrank = rank;
                    newrank = #[verifier::truncate] (d2 as i32);
                }
                arr::set(isa, s as usize, newrank);
            }
            if c2 == 0 {
                break;
            }
            c2 -= 1;
        }
    }
}

/// A pending range of the rank-doubling sort.
#[derive(Clone, Copy, Default)]
pub struct TrFrame {
    pub isad: usize,
    pub first: usize,
    pub last: usize,
    pub limit: i32,
    pub trlink: i32,
}

/// The range being refined: its bounds, the rank offset `isad`, the recursion
/// budget or phase in `limit`, and the stack position of the enclosing tandem
/// repeat in `trlink`.
#[derive(Clone, Copy)]
pub struct TrSortState {
    pub isad: usize,
    pub first: usize,
    pub last: usize,
    pub limit: i32,
    pub trlink: i32,
}

/// Pushes `f` unless the stack is full.
fn tr_push(stack: &mut FixedStack<TrFrame, TR_STACKSIZE>, f: TrFrame)
    ensures
        old(stack)@.len() < TR_STACKSIZE ==> final(stack)@ == old(stack)@.push(f),
        old(stack)@.len() >= TR_STACKSIZE ==> final(stack)@ == old(stack)@,
{
    if stack.len() < TR_STACKSIZE {
        stack.push(f);
    }
}

/// Sets the `limit` of the frame at position `trlink`, when there is one.
fn tr_set_limit(stack: &mut FixedStack<TrFrame, TR_STACKSIZE>, trlink: i32, limit: i32) {
    if trlink >= 0 && (trlink as usize) < stack.len() {
        let mut f = stack.index(trlink as usize);
        f.limit = limit;
        stack.set(trlink as usize, f);
    }
}

/// Pops a frame into the state; `false` when the stack is empty.
fn tr_pop_stack(stack: &mut FixedStack<TrFrame, TR_STACKSIZE>, state: &mut TrSortState) -> bool {
    match stack.pop() {
        Some(f) => {
            state.isad = f.isad;
            state.first = f.first;
            state.last = f.last;
            state.limit = f.limit;
            state.trlink = f.trlink;
            true
        },
        None => false,
    }
}

/// `tr_ilg` of the size of `[first, last)`.
fn size_ilg(first: usize, last: usize) -> (r: i32)
    requires
        first <= last,
{
    tr_ilg(#[verifier::truncate] ((last - first) as i32))
}

/// Gives every suffix `sa[k]`, `k` in `[from, to)`, the rank `v`.
fn set_ranks(isa: &mut [i32], sa: &[i32], from: usize, to: usize, v: i32)
    ensures
        final(isa)@.len() == old(isa)@.len(),
{
    let ghost ni = isa@.len();
    let mut k = from;
    while k < to
        invariant
            isa@.len() == ni,
        decreases to - k,
    {
        arr::set(isa, arr::idx(arr::get(sa, k)), v);
        k += 1;
    }
}

/// The tandem-repeat step: orders the range by the ranks one period back,
/// assigns group ranks, and schedules the copy of the order to the repeats.
/// Returns `false` when the sort is finished.
fn tr_handle_tandem_partition(
    isa: &mut [i32],
    sa: &mut [i32],
    stack: &mut FixedStack<TrFrame, TR_STACKSIZE>,
    state: &mut TrSortState,
    incr: usize,
) -> (going: bool)
    requires
        old(state).first <= old(state).last <= old(sa)@.len(),
    ensures
        final(isa)@.len() == old(isa)@.len(),
        final(sa)@.len() == old(sa)@.len(),
{
    let first = state.first;
    let last = state.last;
    let isad_tandem = state.isad.saturating_sub(incr);
    let (a, b) = tr_partition(isa, isad_tandem, sa, first, first, last, (#[verifier::truncate] (last as i32)).wrapping_sub(1));
    if a < last {
        set_ranks(isa, sa, first, a, (#[verifier::truncate] (a as i32)).wrapping_sub(1));
    }
    if b < last {
        set_ranks(isa, sa, a, b, (#[verifier::truncate] (b as i32)).wrapping_sub(1));
    }
    if b - a > 1 {
        tr_push(stack, TrFrame { isad: 0, first: a, last: b, limit: 0, trlink: 0 });
        tr_push(stack, TrFrame { isad: isad_tandem, first, last, limit: -2, trlink: state.trlink });
        state.trlink = (stack.len() as i32) - 2;
    }
    if a - first <= last - b {
        if a - first > 1 {
            tr_push(stack, TrFrame { isad: state.isad, first: b, last, limit: size_ilg(b, last), trlink: state.trlink });
            state.last = a;
            state.limit = size_ilg(first, a);
        } else if last - b > 1 {
            state.first = b;
            state.limit = size_ilg(b, last);
        } else {
            return tr_pop_stack(stack, state);
        }
    } else if last - b > 1 {
        tr_push(stack, TrFrame { isad: state.isad, first, last: a, limit: size_ilg(first, a), trlink: state.trlink });
        state.first = b;
        state.limit = size_ilg(b, last);
    } else if a - first > 1 {
        state.last = a;
        state.limit = size_ilg(first, a);
    } else {
        return tr_pop_stack(stack, state);
    }
    true
}

/// The step after a range has been sorted at this level: ranks its sorted prefix,
/// marks the next group and decides, within the budget, whether to refine it one
/// level deeper. Returns `false` when the sort is finished.
fn tr_handle_negate_scan(
    isa: &mut [i32],
    sa: &mut [i32],
    stack: &mut FixedStack<TrFrame, TR_STACKSIZE>,
    state: &mut TrSortState,
    incr: usize,
    budget: &mut TrBudget,
) -> (going: bool)
    requires
        old(state).first <= old(state).last <= old(sa)@.len(),
    ensures
        final(isa)@.len() == old(isa)@.len(),
        final(sa)@.len() == old(sa)@.len(),
{
    let ghost ns = sa@.len();
    let ghost ni = isa@.len();
    if arr::get(sa, state.first) >= 0 {
        let mut a = state.first;
        while a < state.last && arr::get(sa, a) >= 0
            invariant
                isa@.len() == ni,
                sa@.len() == ns,
            decreases state.last - a,
        {
            arr::set(isa, arr::idx(arr::get(sa, a)), #[verifier::truncate] (a as i32));
            a += 1;
        }
        state.first = a;
    }
    if state.first >= state.last {
        return tr_pop_stack(stack, state);
    }
    let first = state.first;
    let last = state.last;
    let isad = state.isad;
    let mut a = first;
    loop
        invariant_except_break
            first <= a < last,
        invariant
            isa@.len() == ni,
            sa@.len() == ns,
        ensures
            first < a <= last,
        decreases last - a,
    {
        let w = arr::get(sa, a);
        arr::set(sa, a, !w);
        a += 1;
        if a >= last || arr::get(sa, a) >= 0 {
            break;
        }
    }
    let next = if a < last && arr::get(isa, arr::idx(arr::get(sa, a))) != arr::get(isa, arr::offset(isad, arr::get(sa, a))) {
        tr_ilg(#[verifier::truncate] ((a - first + 1) as i32))
    } else {
        -1
    };
    let run_end = if a < last {
        a += 1;
        if a < last {
            set_ranks(isa, sa, first, a, (#[verifier::truncate] (a as i32)).wrapping_sub(1));
        }
        a
    } else {
        last
    };
    if budget_try(budget, run_end - first) {
        if run_end - first <= last - run_end {
            tr_push(stack, TrFrame { isad, first: run_end, last, limit: -3, trlink: state.trlink });
            state.isad = state.isad.saturating_add(incr);
            state.last = run_end;
            state.limit = next;
        } else if last - run_end > 1 {
            tr_push(stack, TrFrame { isad: isad.saturating_add(incr), first, last: run_end, limit: next, trlink: state.trlink });
            state.first = run_end;
            state.limit = -3;
        } else {
            state.isad = state.isad.saturating_add(incr);
            state.last = run_end;
            state.limit = next;
        }
    } else {
        tr_set_limit(stack, state.trlink, -1);
        if last - run_end > 1 {
            state.first = run_end;
            state.limit = -3;
        } else {
            return tr_pop_stack(stack, state);
        }
    }
    true
}

/// After a partition into `[first, a)`, `[a, b)` and `[b, last)` within the budget:
/// schedules the three parts, the middle one one level deeper, so that the
/// smaller parts are sorted first.
/// The frame that continues with the range `[first, last)` of `st`.
pub open spec fn frame_of(st: TrSortState) -> TrFrame {
    TrFrame { isad: st.isad, first: st.first, last: st.last, limit: st.limit, trlink: st.trlink }
}

/// The three parts of `st`'s range after a partition at `a`, `b`: the ranks below
/// and above the pivot's at the same depth, and the pivot's own one level deeper.
pub open spec fn parts(st: TrSortState, deeper: usize, a: usize, b: usize, next: i32) -> Seq<TrFrame> {
    seq![
        TrFrame { isad: st.isad, first: st.first, last: a, limit: st.limit, trlink: st.trlink },
        TrFrame { isad: deeper, first: a, last: b, limit: next, trlink: st.trlink },
        TrFrame { isad: st.isad, first: b, last: st.last, limit: st.limit, trlink: st.trlink },
    ]
}

/// `f` is one of the three parts.
pub open spec fn is_part(ps: Seq<TrFrame>, f: TrFrame) -> bool {
    f == ps[0] || f == ps[1] || f == ps[2]
}

/// A part of two or more entries is the new range or one of the frames pushed
/// above position `ol`.
pub open spec fn handed_on(f: TrFrame, fs: Seq<TrFrame>, ol: int, st: TrSortState) -> bool {
    f.last - f.first > 1 ==> frame_of(st) == f || (ol < fs.len() && fs[ol] == f) || (ol + 1 < fs.len()
        && fs[ol + 1] == f)
}

/// Hands the three parts of the current range on: one becomes the new range,
/// the others are pushed (at most two), the larger first, and the new range is
/// no larger than a pushed part; a part of
/// fewer than two entries may be dropped. With room for two frames, no part of
/// two or more entries is lost.
fn push5_and_continue(stack: &mut FixedStack<TrFrame, TR_STACKSIZE>, state: &mut TrSortState, incr: usize, a: usize, b: usize, next: i32)
    requires
        old(state).first <= a <= b <= old(state).last,
    ensures
        ({
            let ps = parts(*old(state), old(state).isad.saturating_add(incr) as usize, a, b, next);
            let ol = old(stack)@.len();
            let fs = final(stack)@;
            &&& ol <= fs.len() <= ol + 2
            &&& fs.subrange(0, ol as int) == old(stack)@
            &&& ol < fs.len() ==> is_part(ps, fs[ol as int])
            &&& ol + 1 < fs.len() ==> is_part(ps, fs[ol + 1 as int])
            &&& is_part(ps, frame_of(*final(state)))
            &&& ol + 1 < fs.len() ==> fs[ol as int].last - fs[ol as int].first >= fs[ol + 1 as int].last
                - fs[ol + 1 as int].first
            &&& ol < fs.len() ==> final(state).last - final(state).first <= fs[ol as int].last - fs[ol as int].first
            &&& ol + 1 < fs.len() ==> final(state).last - final(state).first <= fs[ol + 1 as int].last
                - fs[ol + 1 as int].first
            &&& ol + 2 <= TR_STACKSIZE ==> handed_on(ps[0], fs, ol as int, *final(state)) && handed_on(
                ps[1],
                fs,
                ol as int,
                *final(state),
            ) && handed_on(ps[2], fs, ol as int, *final(state))
        }),
{
    let ghost ps = parts(*state, state.isad.saturating_add(incr), a, b, next);
    let ghost s0 = stack@;
    let af = state.first;
    let al = state.last;
    let lim = state.limit;
    let tl = state.trlink;
    let isad = state.isad;
    let deeper = isad.saturating_add(incr);
    if a - af <= al - b {
        if al - b <= b - a {
            if a - af > 1 {
                tr_push(stack, TrFrame { isad: deeper, first: a, last: b, limit: next, trlink: tl });
                tr_push(stack, TrFrame { isad, first: b, last: al, limit: lim, trlink: tl });
                state.last = a;
            } else if al - b > 1 {
                tr_push(stack, TrFrame { isad: deeper, first: a, last: b, limit: next, trlink: tl });
                state.first = b;
            } else {
                state.isad = deeper;
                state.first = a;
                state.last = b;
                state.limit = next;
            }
        } else if a - af <= b - a {
            tr_push(stack, TrFrame { isad, first: b, last: al, limit: lim, trlink: tl });
            if a - af > 1 {
                tr_push(stack, TrFrame { isad: deeper, first: a, last: b, limit: next, trlink: tl });
                state.last = a;
            } else {
                state.isad = deeper;
                state.first = a;
                state.last = b;
                state.limit = next;
            }
        } else {
            tr_push(stack, TrFrame { isad, first: b, last: al, limit: lim, trlink: tl });
            tr_push(stack, TrFrame { isad, first: af, last: a, limit: lim, trlink: tl });
            state.isad = deeper;
            state.first = a;
            state.last = b;
            state.limit = next;
        }
    } else if a - af <= b - a {
        if al - b > 1 {
            tr_push(stack, TrFrame { isad: deeper, first: a, last: b, limit: next, trlink: tl });
            tr_push(stack, TrFrame { isad, first: af, last: a, limit: lim, trlink: tl });
            state.first = b;
        } else if a - af > 1 {
            tr_push(stack, TrFrame { isad: deeper, first: a, last: b, limit: next, trlink: tl });
            state.last = a;
        } else {
            state.isad = deeper;
            state.first = a;
            state.last = b;
            state.limit = next;
        }
    } else if al - b <= b - a {
        tr_push(stack, TrFrame { isad, first: af, last: a, limit: lim, trlink: tl });
        if al - b > 1 {
            tr_push(stack, TrFrame { isad: deeper, first: a, last: b, limit: next, trlink: tl });
            state.first = b;
        } else {
            state.isad = deeper;
            state.first = a;
            state.last = b;
            state.limit = next;
        }
    } else {
        tr_push(stack, TrFrame { isad, first: af, last: a, limit: lim, trlink: tl });
        tr_push(stack, TrFrame { isad, first: b, last: al, limit: lim, trlink: tl });
        state.isad = deeper;
        state.first = a;
        state.last = b;
        state.limit = next;
    }
}

/// Introspective sort of the group `sa[first..last)` by the ranks at offset
/// `isad`, doubling the offset for groups that stay equal, within `budget`.
fn tr_introsort(isa: &mut [i32], isad_init: usize, sa: &mut [i32], sa_first: usize, sa_last: usize, budget: &mut TrBudget)
    requires
        old(sa)@.len() <= 0x7fff_ffff,
    ensures
        final(isa)@.len() == old(isa)@.len(),
        final(sa)@.len() == old(sa)@.len(),
{
    let ghost ni = isa@.len();
    let ghost ns = sa@.len();
    if !(sa_first <= sa_last && sa_last <= sa.len()) {
        return;
    }
    let incr = isad_init;
    let mut stack = FixedStack::<TrFrame, TR_STACKSIZE>::new();
    let mut st = TrSortState { isad: isad_init, first: sa_first, last: sa_last, limit: size_ilg(sa_first, sa_last), trlink: -1 };
    let mut steps: u64 = 0;
    loop
        invariant
            isa@.len() == ni,
            sa@.len() == ns,
            ni == old(isa)@.len(),
            ns == old(sa)@.len(),
            ns <= 0x7fff_ffff,
        decreases u64::MAX - steps,
    {
        if steps == u64::MAX {
            return;
        }
        steps += 1;
        if !(st.first <= st.last && st.last <= sa.len()) {
            return;
        }
        if st.limit < 0 {
            if st.limit == -1 {
                if !tr_handle_tandem_partition(isa, sa, &mut stack, &mut st, incr) {
                    return;
                }
            } else if st.limit == -2 {
                match stack.pop() {
                    Some(popped) => {
                        let a = popped.first;
                        let b = popped.last;
                        if popped.limit == 0 {
                            tr_copy(isa, sa, st.first, a, b, st.last, #[verifier::truncate] (st.isad as i32));
                        } else {
                            tr_set_limit(&mut stack, st.trlink, -1);
                            tr_partialcopy(isa, sa, st.first, a, b, st.last, #[verifier::truncate] (st.isad as i32));
                        }
                        if !tr_pop_stack(&mut stack, &mut st) {
                            return;
                        }
                    },
                    None => {
                        return;
                    },
                }
            } else {
                if !tr_handle_negate_scan(isa, sa, &mut stack, &mut st, incr, budget) {
                    return;
                }
            }
            continue;
        }
        let first = st.first;
        let last = st.last;
        let isad = st.isad;
        if last - first <= TR_INSERTIONSORT_THRESHOLD {
            tr_insertionsort_in(isa, isad, sa, first, last);
            st.limit = -3;
            continue;
        }
        st.limit = st.limit - 1;
        if st.limit == -1 {
            tr_heapsort_in(isa, isad, sa, first, last - first);
            let mut a = last - 1;
            while a > first
                invariant
                    first < last <= ns,
                    a < last,
                    sa@.len() == ns,
                decreases a,
            {
                let x = arr::get(isa, arr::offset(isad, arr::get(sa, a)));
                let mut b = a;
                loop
                    invariant
                        first <= b <= a,
                        sa@.len() == ns,
                    decreases b,
                {
                    if b <= first || arr::get(sa, b - 1) < 0 || arr::get(isa, arr::offset(isad, arr::get(sa, b - 1))) != x {
                        break;
                    }
                    b -= 1;
                    let w = arr::get(sa, b);
                    arr::set(sa, b, !w);
                }
                if b == first {
                    break;
                }
                a = b - 1;
            }
            st.limit = -3;
            continue;
        }
        let pivot_idx = tr_pivot_idx(isa, isad, sa, first, last);
        arr::swap(sa, first, pivot_idx);
        let v = rank_at(isa, isad, sa, first);
        let (a, b) = tr_partition(isa, isad, sa, first, first + 1, last, v);
        if last - first != b - a {
            let next = if arr::get(isa, arr::idx(arr::get(sa, a))) != v {
                size_ilg(a, b)
            } else {
                -1
            };
            set_ranks(isa, sa, first, a, (#[verifier::truncate] (a as i32)).wrapping_sub(1));
            if b < last {
                set_ranks(isa, sa, a, b, (#[verifier::truncate] (b as i32)).wrapping_sub(1));
            }
            if b - a > 1 && budget_try(budget, b - a) {
                push5_and_continue(&mut stack, &mut st, incr, a, b, next);
            } else {
                if b - a > 1 {
                    tr_set_limit(&mut stack, st.trlink, -1);
                }
                if a - first <= last - b {
                    if a - first > 1 {
                        tr_push(&mut stack, TrFrame { isad, first: b, last, limit: st.limit, trlink: st.trlink });
                        st.last = a;
                    } else if last - b > 1 {
                        st.first = b;
                    } else if !tr_pop_stack(&mut stack, &mut st) {
                        return;
                    }
                } else if last - b > 1 {
                    tr_push(&mut stack, TrFrame { isad, first, last: a, limit: st.limit, trlink: st.trlink });
                    st.first = b;
                } else if a - first > 1 {
                    st.last = a;
                } else if !tr_pop_stack(&mut stack, &mut st) {
                    return;
                }
            }
        } else if budget_try(budget, last - first) {
            st.limit = size_ilg(first, last);
            st.isad = st.isad.saturating_add(incr);
        } else {
            tr_set_limit(&mut stack, st.trlink, -1);
            if !tr_pop_stack(&mut stack, &mut st) {
                return;
            }
        }
    }
}

/// Sorts the B*-suffixes whose order the bucket sort left open, by rank doubling
/// from `depth`: `sa` holds the `n` entries (negative runs mark sorted stretches),
/// `isa` their ranks.
pub fn trsort(isa: &mut [i32], sa: &mut [i32], n: i32, depth: i32)
    requires
        old(sa)@.len() <= 0x7fff_ffff,
    ensures
        final(isa)@.len() == old(isa)@.len(),
        final(sa)@.len() == old(sa)@.len(),
{
    let ghost ni = isa@.len();
    let ghost ns = sa@.len();
    if n <= 0 {
        return;
    }
    let nu = n as usize;
    let mut budget = TrBudget::new(tr_ilg(n) * 2 / 3, n);
    let mut isad = arr::idx(depth);
    let mut rounds: u64 = 0;
    while arr::get(sa, 0) > -n
        invariant
            isa@.len() == ni,
            sa@.len() == ns,
            ni == old(isa)@.len(),
            ns == old(sa)@.len(),
            ns <= 0x7fff_ffff,
            n > 0,
        decreases u64::MAX - rounds,
    {
        if rounds == u64::MAX {
            return;
        }
        rounds += 1;
        let mut first: usize = 0;
        let mut skip: i32 = 0;
        let mut unsorted: i32 = 0;
        let mut steps: u64 = 0;
        loop
            invariant
                isa@.len() == ni,
                sa@.len() == ns,
                ns <= 0x7fff_ffff,
            decreases u64::MAX - steps,
        {
            if steps == u64::MAX {
                break;
            }
            steps += 1;
            let tv = arr::get(sa, first);
            if tv < 0 {
                first = arr::offset(first, 0i32.wrapping_sub(tv));
                skip = skip.wrapping_add(tv);
            } else {
                if skip != 0 {
                    arr::set(sa, arr::offset(first, skip), skip);
                    skip = 0;
                }
                let last = arr::idx(arr::get(isa, tv as usize).wrapping_add(1));
                if last > first && last - first > 1 {
                    budget.count = 0;
                    tr_introsort(isa, isad, sa, first, last, &mut budget);
                    if budget.count != 0 {
                        unsorted = unsorted.wrapping_add(budget.count);
                    } else {
                        skip = (#[verifier::truncate] (first as i32)).wrapping_sub(#[verifier::truncate] (last as i32));
                    }
                } else if last > first && last - first == 1 {
                    skip = -1;
                }
                first = last;
            }
            if first >= nu {
                break;
            }
        }
        if skip != 0 {
            arr::set(sa, arr::offset(first, skip), skip);
        }
        if unsorted == 0 {
            break;
        }
        isad = isad.saturating_add(isad);
    }
}

} // verus!
