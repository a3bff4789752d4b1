//! A linear-time certificate for suffix arrays, and a plain suffix sort that
//! stands behind it.
//!
//! The certificate rests on the inverse permutation `rank`: `sa` is the suffix
//! array of `t` as soon as, for every two neighbours `a = sa[i-1]`, `b = sa[i]`,
//! either `t[a] < t[b]`, or the first bytes agree and the suffix after `a` is
//! ranked before the suffix after `b` (the one-byte suffix `n-1` being the
//! smallest in its bucket).
use vstd::prelude::*;
use crate::suffix::{
    is_suffix_array, lemma_lex_total, lemma_lex_transitive, lemma_suffix_array_covers,
    lemma_suffix_array_distinct, lemma_suffix_drop_first, lemma_suffixes_differ, lex_lt, suffix,
};

verus! {

/// The neighbour condition checked between `sa[i-1]` and `sa[i]`.
pub open spec fn neighbours_ok(t: Seq<u8>, sa: Seq<i32>, rank: Seq<i32>, i: int) -> bool {
    let n = t.len() as int;
    let a = sa[i - 1] as int;
    let b = sa[i] as int;
    ||| t[a] < t[b]
    ||| (t[a] == t[b] && (a == n - 1 || (b != n - 1 && rank[a + 1] < rank[b + 1])))
}

/// `rank` is the inverse of the permutation `sa` of `0..n`.
pub open spec fn inverse_perm(n: int, sa: Seq<i32>, rank: Seq<i32>) -> bool {
    &&& sa.len() == n
    &&& rank.len() == n
    &&& forall|k: int| 0 <= k < n ==> 0 <= #[trigger] sa[k] < n
    &&& forall|k: int| 0 <= k < n ==> 0 <= #[trigger] rank[k] < n
    &&& forall|k: int| 0 <= k < n ==> #[trigger] rank[sa[k] as int] == k
    &&& forall|s: int| 0 <= s < n ==> #[trigger] sa[rank[s] as int] == s
}

proof fn lemma_chain(t: Seq<u8>, sa: Seq<i32>, rank: Seq<i32>, i: int, j: int)
    requires
        inverse_perm(t.len() as int, sa, rank),
        forall|k: int| 1 <= k < t.len() ==> #[trigger] neighbours_ok(t, sa, rank, k),
        0 <= i < j < t.len(),
    ensures
        t[sa[i] as int] <= t[sa[j] as int],
        t[sa[i] as int] == t[sa[j] as int] ==> sa[j] != t.len() - 1 && (sa[i] == t.len() - 1
            || rank[sa[i] + 1] < rank[sa[j] + 1]),
    decreases j - i,
{
    let n = t.len() as int;
    assert(neighbours_ok(t, sa, rank, j));
    assert(rank[sa[i] as int] == i && rank[sa[j] as int] == j && rank[sa[j - 1] as int] == j - 1);
    if j > i + 1 {
        lemma_chain(t, sa, rank, i, j - 1);
        if t[sa[i] as int] == t[sa[j] as int] {
            assert(t[sa[j - 1] as int] == t[sa[j] as int]);
            assert(sa[j - 1] != n - 1);
        }
    }
}

/// Under the neighbour condition, ranks order whole suffixes.
pub proof fn lemma_ranked_lt(t: Seq<u8>, sa: Seq<i32>, rank: Seq<i32>, x: int, y: int)
    requires
        inverse_perm(t.len() as int, sa, rank),
        forall|k: int| 1 <= k < t.len() ==> #[trigger] neighbours_ok(t, sa, rank, k),
        0 <= x < t.len(),
        0 <= y < t.len(),
        rank[x] < rank[y],
    ensures
        lex_lt(suffix(t, x), suffix(t, y)),
    decreases t.len() - x,
{
    let n = t.len() as int;
    let i = rank[x] as int;
    let j = rank[y] as int;
    assert(sa[i] == x && sa[j] == y);
    lemma_chain(t, sa, rank, i, j);
    lemma_suffix_drop_first(t, x);
    lemma_suffix_drop_first(t, y);
    if t[x] == t[y] {
        if x == n - 1 {
            lemma_suffix_drop_first(t, y + 1);
            assert(suffix(t, x).drop_first().len() == 0);
            assert(lex_lt(suffix(t, x).drop_first(), suffix(t, y).drop_first()));
        } else {
            lemma_ranked_lt(t, sa, rank, x + 1, y + 1);
            assert(lex_lt(suffix(t, x).drop_first(), suffix(t, y).drop_first()));
        }
    } else {
        assert(t[x] < t[y]);
    }
}

/// A suffix array meets the neighbour condition everywhere.
proof fn lemma_true_neighbours(t: Seq<u8>, sa: Seq<i32>, rank: Seq<i32>, i: int)
    requires
        is_suffix_array(t, sa),
        inverse_perm(t.len() as int, sa, rank),
        1 <= i < t.len(),
    ensures
        neighbours_ok(t, sa, rank, i),
{
    let n = t.len() as int;
    let a = sa[i - 1] as int;
    let b = sa[i] as int;
    assert(lex_lt(suffix(t, a), suffix(t, b)));
    lemma_suffix_drop_first(t, a);
    lemma_suffix_drop_first(t, b);
    if t[a] == t[b] && a != n - 1 {
        assert(lex_lt(suffix(t, a + 1), suffix(t, b + 1)));
        if b == n - 1 {
            assert(suffix(t, b + 1).len() == 0);
        } else {
            let k1 = rank[a + 1] as int;
            let k2 = rank[b + 1] as int;
            assert(sa[k1] == a + 1 && sa[k2] == b + 1);
            if k1 == k2 {
                crate::suffix::lemma_lex_irreflexive(suffix(t, a + 1));
            } else if k1 > k2 {
                assert(lex_lt(suffix(t, sa[k2] as int), suffix(t, sa[k1] as int)));
                lemma_lex_transitive(suffix(t, a + 1), suffix(t, b + 1), suffix(t, a + 1));
                crate::suffix::lemma_lex_irreflexive(suffix(t, a + 1));
            }
        }
    }
}

/// Checks in linear time that `sa` is the suffix array of `t`.
pub fn certify_suffix_array(t: &[u8], sa: &[i32]) -> (ok: bool)
    ensures
        ok ==> is_suffix_array(t@, sa@),
        t@.len() < 0x7fff_ffff && is_suffix_array(t@, sa@) ==> ok,
{
    let ghost valid = is_suffix_array(t@, sa@);
    let n = t.len();
    if sa.len() != n || n >= 0x7fff_ffff {
        return false;
    }
    let mut k: usize = 0;
    while k < n
        invariant
            k <= n,
            n == sa@.len(),
            n == t@.len(),
            valid == is_suffix_array(t@, sa@),
            forall|q: int| 0 <= q < k ==> 0 <= #[trigger] sa@[q] < n,
        decreases n - k,
    {
        if sa[k] < 0 || sa[k] as usize >= n {
            return false;
        }
        k += 1;
    }
    let mut rank: Vec<i32> = vec![-1i32; n];
    let mut i: usize = 0;
    while i < n
        invariant
            i <= n,
            n == sa@.len(),
            n < 0x7fff_ffff,
            rank@.len() == n,
            n == t@.len(),
            valid == is_suffix_array(t@, sa@),
            forall|q: int| 0 <= q < n ==> 0 <= #[trigger] sa@[q] < n,
            forall|q: int| 0 <= q < i ==> #[trigger] rank@[sa@[q] as int] == q,
            forall|s: int|
                0 <= s < n ==> #[trigger] rank@[s] == -1 || (0 <= rank@[s] < i && sa@[rank@[s]
                    as int] == s),
        decreases n - i,
    {
        let s = sa[i] as usize;
        proof {
            if valid && rank@[s as int] != -1 {
                lemma_suffix_array_distinct(t@, sa@, rank@[s as int] as int, i as int);
            }
        }
        if rank[s] != -1 {
            return false;
        }
        rank[s] = i as i32;
        i += 1;
    }
    let mut s: usize = 0;
    while s < n
        invariant
            s <= n,
            rank@.len() == n,
            n == sa@.len(),
            n == t@.len(),
            valid == is_suffix_array(t@, sa@),
            forall|q: int| 0 <= q < n ==> #[trigger] rank@[sa@[q] as int] == q,
            forall|q: int| 0 <= q < n ==> 0 <= #[trigger] sa@[q] < n,
            forall|s: int|
                0 <= s < n ==> #[trigger] rank@[s] == -1 || (0 <= rank@[s] < n && sa@[rank@[s]
                    as int] == s),
            forall|q: int| 0 <= q < s ==> #[trigger] rank@[q] != -1,
        decreases n - s,
    {
        proof {
            if valid {
                lemma_suffix_array_covers(t@, sa@, s as int);
                let k = choose|k: int| 0 <= k < sa@.len() && sa@[k] == s;
                assert(rank@[sa@[k] as int] == k);
            }
        }
        if rank[s] == -1 {
            return false;
        }
        s += 1;
    }
    proof {
        assert(inverse_perm(n as int, sa@, rank@));
    }
    let mut i: usize = 1;
    while i < n
        invariant
            1 <= i,
            i <= n || n == 0,
            n == t@.len(),
            valid == is_suffix_array(t@, sa@),
            inverse_perm(n as int, sa@, rank@),
            forall|k: int| 1 <= k < i && k < n ==> #[trigger] neighbours_ok(t@, sa@, rank@, k),
        decreases n - i,
    {
        let a = sa[i - 1] as usize;
        let b = sa[i] as usize;
        proof {
            if valid {
                lemma_true_neighbours(t@, sa@, rank@, i as int);
            }
        }
        let ok_here = if t[a] < t[b] {
            true
        } else if t[a] == t[b] {
            a == n - 1 || (b != n - 1 && rank[a + 1] < rank[b + 1])
        } else {
            false
        };
        if !ok_here {
            return false;
        }
        i += 1;
    }
    proof {
        assert forall|i: int, j: int| 0 <= i < j < sa@.len() implies lex_lt(
            suffix(t@, #[trigger] sa@[i] as int),
            suffix(t@, #[trigger] sa@[j] as int),
        ) by {
            lemma_ranked_lt(t@, sa@, rank@, sa@[i] as int, sa@[j] as int);
        }
    }
    true
}

/// Compares the suffixes of `t` that start at `x` and `y`.
pub fn suffix_less(t: &[u8], x: usize, y: usize) -> (r: bool)
    requires
        x <= t@.len(),
        y <= t@.len(),
    ensures
        r == lex_lt(suffix(t@, x as int), suffix(t@, y as int)),
{
    let n = t.len();
    let mut i = x;
    let mut j = y;
    while i < n && j < n && t[i] == t[j]
        invariant
            x <= i <= n,
            y <= j <= n,
            n == t@.len(),
            i - x == j - y,
            lex_lt(suffix(t@, x as int), suffix(t@, y as int)) == lex_lt(
                suffix(t@, i as int),
                suffix(t@, j as int),
            ),
        decreases n - i,
    {
        proof {
            lemma_suffix_drop_first(t@, i as int);
            lemma_suffix_drop_first(t@, j as int);
        }
        i += 1;
        j += 1;
    }
    proof {
        if i < n {
            lemma_suffix_drop_first(t@, i as int);
        }
        if j < n {
            lemma_suffix_drop_first(t@, j as int);
        }
    }
    if i == n {
        j < n
    } else if j == n {
        false
    } else {
        t[i] < t[j]
    }
}

/// Builds the suffix array of `t` by insertion sort on direct suffix comparisons.
pub fn plain_suffix_array(t: &[u8]) -> (sa: Vec<i32>)
    requires
        t@.len() <= 0x7fff_ffff,
    ensures
        is_suffix_array(t@, sa@),
{
    let n = t.len();
    let mut sa: Vec<i32> = Vec::new();
    let mut i: usize = 0;
    while i < n
        invariant
            i <= n,
            n == t@.len(),
            n <= 0x7fff_ffff,
            sa@.len() == i,
            forall|k: int| 0 <= k < i ==> 0 <= #[trigger] sa@[k] < i,
            forall|p: int, q: int|
                0 <= p < q < i ==> lex_lt(
                    suffix(t@, #[trigger] sa@[p] as int),
                    suffix(t@, #[trigger] sa@[q] as int),
                ),
        decreases n - i,
    {
        // Insert suffix `i` into the sorted prefix.
        sa.push(i as i32);
        let mut j = i;
        while j > 0 && suffix_less(t, i, sa[j - 1] as usize)
            invariant
                j <= i,
                i < n,
                n == t@.len(),
                n <= 0x7fff_ffff,
                sa@.len() == i + 1,
                sa@[j as int] == i,
                forall|k: int| 0 <= k <= i && k != j ==> 0 <= #[trigger] sa@[k] < i,
                forall|p: int, q: int|
                    0 <= p < q <= i && p != j && q != j ==> lex_lt(
                        suffix(t@, #[trigger] sa@[p] as int),
                        suffix(t@, #[trigger] sa@[q] as int),
                    ),
                forall|q: int|
                    j < q <= i ==> lex_lt(
                        suffix(t@, i as int),
                        suffix(t@, #[trigger] sa@[q] as int),
                    ),
            decreases j,
        {
            let prev = sa[j - 1];
            sa[j] = prev;
            sa[j - 1] = i as i32;
            j -= 1;
        }
        proof {
            assert forall|p: int, q: int| 0 <= p < q <= i implies lex_lt(
                suffix(t@, #[trigger] sa@[p] as int),
                suffix(t@, #[trigger] sa@[q] as int),
            ) by {
                if q == j as int && p < q {
                    // sa[p] <= sa[j-1] in order, and suffix i is not below sa[j-1].
                    let pj = sa@[j - 1] as int;
                    assert(!lex_lt(suffix(t@, i as int), suffix(t@, pj)));
                    lemma_suffixes_differ(t@, i as int, pj);
                    lemma_lex_total(suffix(t@, i as int), suffix(t@, pj));
                    if p < j - 1 {
                        lemma_lex_transitive(
                            suffix(t@, sa@[p] as int),
                            suffix(t@, pj),
                            suffix(t@, i as int),
                        );
                    }
                }
            }
        }
        i += 1;
    }
    sa
}

/// Keeps `sa` when it is the suffix array of `t` (and then changes nothing), and
/// rebuilds it otherwise.
pub fn certify_or_rebuild(t: &[u8], sa: &mut [i32])
    requires
        old(sa)@.len() == t@.len(),
        t@.len() <= 0x7fff_ffff,
    ensures
        is_suffix_array(t@, final(sa)@),
        is_suffix_array(t@, old(sa)@) ==> final(sa)@ == old(sa)@,
{
    if certify_suffix_array(t, sa) {
        return;
    }
    let ghost sa0 = sa@;
    let plain = plain_suffix_array(t);
    proof {
        if is_suffix_array(t@, sa0) {
            crate::suffix::lemma_suffix_array_unique(t@, sa0, plain@);
        }
    }
    let n = sa.len();
    let mut i: usize = 0;
    while i < n
        invariant
            i <= n,
            n == sa@.len(),
            plain@.len() == n,
            forall|k: int| 0 <= k < i ==> sa@[k] == plain@[k],
        decreases n - i,
    {
        sa[i] = plain[i];
        i += 1;
    }
    proof {
        assert(sa@ =~= plain@);
    }
}

} // verus!
